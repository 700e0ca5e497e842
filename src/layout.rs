//! Canvas layout: aspect ratios, offsets and the padding that grows a source
//! image to a target aspect ratio at a given scale.

use vstd::prelude::*;
use vstd::string::StrSliceExecFns;

verus! {

/// A target aspect ratio, `width : height`.
#[derive(Clone, Copy, Debug, PartialEq, Eq, Structural)]
pub struct AspectRatio {
    pub width: u32,
    pub height: u32,
}

/// An offset in whole pixels.
#[derive(Clone, Copy, Debug, PartialEq, Eq, Structural)]
pub struct Point {
    pub x: i32,
    pub y: i32,
}

impl Point {
    pub fn new(x: i32, y: i32) -> (p: Point)
        ensures
            p.x == x,
            p.y == y,
    {
        Point { x, y }
    }

    pub fn to_i32(&self) -> (r: (i32, i32))
        ensures
            r == (self.x, self.y),
    {
        (self.x, self.y)
    }

    /// The coordinates with negative values clamped to zero.
    pub fn to_u32(&self) -> (r: (u32, u32))
        ensures
            r.0 as int == if self.x < 0 { 0 } else { self.x as int },
            r.1 as int == if self.y < 0 { 0 } else { self.y as int },
    {
        let x: u32 = if self.x < 0 { 0 } else { self.x as u32 };
        let y: u32 = if self.y < 0 { 0 } else { self.y as u32 };
        (x, y)
    }
}

pub open spec fn gcd_spec(a: nat, b: nat) -> nat
    decreases b,
{
    if b == 0 {
        a
    } else {
        gcd_spec(b, a % b)
    }
}

pub proof fn lemma_gcd_divides(a: nat, b: nat)
    ensures
        gcd_spec(a, b) > 0 ==> a % gcd_spec(a, b) == 0 && b % gcd_spec(a, b) == 0,
        (a > 0 || b > 0) ==> gcd_spec(a, b) > 0,
    decreases b,
{
    if b > 0 {
        lemma_gcd_divides(b, a % b);
        let g = gcd_spec(b, a % b);
        if g > 0 {
            let q = (a / b) as int;
            let m = (a % b) as int;
            let k1 = b as int / g as int;
            let k2 = m / g as int;
            vstd::arithmetic::div_mod::lemma_fundamental_div_mod(a as int, b as int);
            vstd::arithmetic::div_mod::lemma_fundamental_div_mod(b as int, g as int);
            vstd::arithmetic::div_mod::lemma_fundamental_div_mod(m, g as int);
            assert(a == (q * k1 + k2) * g) by (nonlinear_arith)
                requires
                    a == b * q + m,
                    b == g * k1,
                    m == g * k2,
            ;
            vstd::arithmetic::div_mod::lemma_mod_multiples_basic(q * k1 + k2, g as int);
        }
    }
}

/// Greatest common divisor, by Euclid's algorithm.
pub fn gcd(a: u32, b: u32) -> (r: u32)
    ensures
        r == gcd_spec(a as nat, b as nat),
    decreases b,
{
    if b == 0 {
        a
    } else {
        gcd(b, a % b)
    }
}

/// The aspect ratio of a `width` x `height` image, in lowest terms.
pub fn calculate_aspect_ratio(width: u32, height: u32) -> (r: (u32, u32))
    requires
        width > 0 || height > 0,
    ensures
        r.0 == width as nat / gcd_spec(width as nat, height as nat),
        r.1 == height as nat / gcd_spec(width as nat, height as nat),
        r.0 * gcd_spec(width as nat, height as nat) == width,
        r.1 * gcd_spec(width as nat, height as nat) == height,
{
    let divisor = gcd(width, height);
    proof {
        lemma_gcd_divides(width as nat, height as nat);
        vstd::arithmetic::div_mod::lemma_fundamental_div_mod(width as int, divisor as int);
        vstd::arithmetic::div_mod::lemma_fundamental_div_mod(height as int, divisor as int);
        assert((width / divisor) * divisor == width) by (nonlinear_arith)
            requires
                width == divisor * (width / divisor) + width % divisor,
                width % divisor == 0,
        ;
        assert((height / divisor) * divisor == height) by (nonlinear_arith)
            requires
                height == divisor * (height / divisor) + height % divisor,
                height % divisor == 0,
        ;
    }
    (width / divisor, height / divisor)
}

/// `d` scaled by `scale` hundredths of a percent, rounded down.
pub open spec fn scaled(d: int, scale: int) -> int {
    d * scale / 10000
}

/// Whether the ratio `tw : th` is wider than a `w` x `h` image.
pub open spec fn wider_than(w: int, h: int, tw: int, th: int) -> bool {
    tw * h > w * th
}

/// Canvas size for a `w` x `h` source at ratio `tw : th` and the given scale:
/// the scaled height is kept when the target is wider, the scaled width otherwise.
pub open spec fn canvas_size(w: int, h: int, tw: int, th: int, scale: int) -> (int, int) {
    if wider_than(w, h, tw, th) {
        let nh = scaled(h, scale);
        (nh * tw / th, nh)
    } else {
        let nw = scaled(w, scale);
        (nw, nw * th / tw)
    }
}

/// Padding left over on an axis of length `n` around a source of scaled length `s`.
pub open spec fn pad(n: int, s: int) -> int {
    if n > s {
        n - s
    } else {
        0
    }
}

/// Canvas size and padding `(new_width, new_height, left, right, top, bottom)`
/// for a `width` x `height` source, `target` ratio and `scale` in hundredths of
/// a percent (`10000` keeps the size). Padding on an axis is split with the
/// smaller half first. `None` when the canvas would not fit in `u32`.
pub fn calculate_padding(width: u32, height: u32, target: AspectRatio, scale: u32) -> (r: Option<
    (u32, u32, u32, u32, u32, u32),
>)
    requires
        width > 0,
        height > 0,
        target.width > 0,
        target.height > 0,
    ensures
        ({
            let (nw, nh) = canvas_size(
                width as int,
                height as int,
                target.width as int,
                target.height as int,
                scale as int,
            );
            let pw = pad(nw, scaled(width as int, scale as int));
            let ph = pad(nh, scaled(height as int, scale as int));
            match r {
                None => nw > u32::MAX || nh > u32::MAX,
                Some(t) => nw <= u32::MAX && nh <= u32::MAX && t.0 == nw && t.1 == nh && t.2
                    == pw / 2 && t.3 == pw - pw / 2 && t.4 == ph / 2 && t.5 == ph - ph / 2,
            }
        }),
{
    let tw = target.width as u64;
    let th = target.height as u64;
    let w = width as u64;
    let h = height as u64;
    let s = scale as u64;
    assert(w * s <= u32::MAX * u32::MAX) by (nonlinear_arith)
        requires
            w <= u32::MAX,
            s <= u32::MAX,
    ;
    assert(h * s <= u32::MAX * u32::MAX) by (nonlinear_arith)
        requires
            h <= u32::MAX,
            s <= u32::MAX,
    ;
    assert(tw * h <= u32::MAX * u32::MAX) by (nonlinear_arith)
        requires
            h <= u32::MAX,
            tw <= u32::MAX,
    ;
    assert(w * th <= u32::MAX * u32::MAX) by (nonlinear_arith)
        requires
            w <= u32::MAX,
            th <= u32::MAX,
    ;
    let sw = w * s / 10000;
    let sh = h * s / 10000;
    let nw: u64;
    let nh: u64;
    if tw * h > w * th {
        if sh > u32::MAX as u64 {
            return None;
        }
        nh = sh;
        assert(nh * tw <= u32::MAX * u32::MAX) by (nonlinear_arith)
            requires
                nh <= u32::MAX,
                tw <= u32::MAX,
        ;
        nw = nh * tw / th;
    } else {
        if sw > u32::MAX as u64 {
            return None;
        }
        nw = sw;
        assert(nw * th <= u32::MAX * u32::MAX) by (nonlinear_arith)
            requires
                nw <= u32::MAX,
                th <= u32::MAX,
        ;
        nh = nw * th / tw;
    }
    if nw > u32::MAX as u64 || nh > u32::MAX as u64 {
        return None;
    }
    let pw: u64 = if nw > sw { nw - sw } else { 0 };
    let ph: u64 = if nh > sh { nh - sh } else { 0 };
    let pad_left = pw / 2;
    let pad_top = ph / 2;
    Some((nw as u32, nh as u32, pad_left as u32, (pw - pad_left) as u32, pad_top as u32, (ph - pad_top) as u32))
}

/// `s` holds `c` at `k` and nowhere else.
pub open spec fn only_at(s: Seq<char>, c: char, k: int) -> bool {
    0 <= k < s.len() && s[k] == c && forall|i: int| 0 <= i < s.len() && i != k ==> s[i] != c
}

pub open spec fn is_digit(c: char) -> bool {
    '0' <= c && c <= '9'
}

/// The value of decimal digits `s`.
pub open spec fn digits_value(s: Seq<char>) -> int
    decreases s.len(),
{
    if s.len() == 0 {
        0
    } else {
        digits_value(s.drop_last()) * 10 + (s.last() as int - '0' as int)
    }
}

/// `s` read as a `u32` the way `str::parse` reads one: an optional `+`,
/// then at least one decimal digit, with a value that fits.
pub open spec fn decimal_u32(s: Seq<char>) -> Option<u32> {
    let d = unsigned_part(s);
    if d.len() > 0 && all_digits(d) && digits_value(d) <= u32::MAX {
        Some(digits_value(d) as u32)
    } else {
        None
    }
}

/// `s` without one leading `+`.
pub open spec fn unsigned_part(s: Seq<char>) -> Seq<char> {
    if s.len() > 0 && s[0] == '+' {
        s.drop_first()
    } else {
        s
    }
}

pub open spec fn all_digits(d: Seq<char>) -> bool {
    forall|i: int| 0 <= i < d.len() ==> is_digit(#[trigger] d[i])
}

proof fn lemma_digits_value_nonneg(s: Seq<char>)
    requires
        forall|i: int| 0 <= i < s.len() ==> is_digit(#[trigger] s[i]),
    ensures
        digits_value(s) >= 0,
    decreases s.len(),
{
    if s.len() > 0 {
        let d = s.drop_last();
        assert forall|i: int| 0 <= i < d.len() implies is_digit(#[trigger] d[i]) by {
            assert(d[i] == s[i]);
        }
        lemma_digits_value_nonneg(d);
    }
}

/// Reads `s` as a `u32`: an optional `+`, then decimal digits.
pub fn parse_u32(s: &str) -> (r: Option<u32>)
    ensures
        r == decimal_u32(s@),
{
    let n = s.unicode_len();
    let start: usize = if n > 0 && s.get_char(0) == '+' { 1 } else { 0 };
    let ghost d = unsigned_part(s@);
    assert(d =~= s@.subrange(start as int, n as int));
    if start >= n {
        return None;
    }
    let mut value: u64 = 0;
    let mut i: usize = start;
    while i < n
        invariant
            n == s@.len(),
            start <= i <= n,
            d == s@.subrange(start as int, n as int),
            d == unsigned_part(s@),
            value == digits_value(s@.subrange(start as int, i as int)),
            value <= u32::MAX,
            forall|k: int| start <= k < i ==> is_digit(#[trigger] s@[k]),
        decreases n - i,
    {
        let c = s.get_char(i);
        let ghost pre = s@.subrange(start as int, i as int);
        let ghost next = s@.subrange(start as int, i as int + 1);
        assert(next.drop_last() =~= pre);
        if !('0' <= c && c <= '9') {
            assert(d[i - start] == c);
            assert(!is_digit(d[i - start]));
            assert(!(forall|j: int| 0 <= j < d.len() ==> is_digit(#[trigger] d[j])));
            assert(decimal_u32(s@) is None);
            return None;
        }
        value = value * 10 + (c as u32 - '0' as u32) as u64;
        assert(next.last() == c);
        if value > u32::MAX as u64 {
            proof {
                assert(d.take(i + 1 - start) =~= next);
                assert forall|j: int| 0 <= j < i + 1 - start implies is_digit(#[trigger] d[j]) by {
                    assert(d[j] == s@[start + j]);
                }
                lemma_digits_prefix(d, next, (i + 1 - start) as int);
                assert(next.last() == c);
                assert(digits_value(next) == digits_value(pre) * 10 + (c as int - '0' as int));
                assert(value == digits_value(next));
                assert(decimal_u32(s@) is None);
            }
            return None;
        }
        i = i + 1;
    }
    assert(s@.subrange(start as int, n as int) =~= d);
    assert forall|k: int| 0 <= k < d.len() implies is_digit(#[trigger] d[k]) by {
        assert(d[k] == s@[start + k]);
    }
    Some(value as u32)
}

/// A string of digits is worth at least any of its prefixes.
proof fn lemma_digits_prefix(d: Seq<char>, p: Seq<char>, k: int)
    requires
        0 <= k <= d.len(),
        p == d.take(k),
        forall|i: int| 0 <= i < k ==> is_digit(#[trigger] d[i]),
    ensures
        (forall|i: int| 0 <= i < d.len() ==> is_digit(#[trigger] d[i])) ==> digits_value(d) >= digits_value(p),
    decreases d.len(),
{
    if forall|i: int| 0 <= i < d.len() ==> is_digit(#[trigger] d[i]) {
        if k < d.len() {
            let e = d.drop_last();
            assert(e.take(k) =~= p);
            assert forall|i: int| 0 <= i < e.len() implies is_digit(#[trigger] e[i]) by {
                assert(e[i] == d[i]);
            }
            lemma_digits_prefix(e, p, k);
            lemma_digits_value_nonneg(e);
        } else {
            assert(d.take(k) =~= d);
        }
    }
}

/// Reads a ratio written `width:height`; `None` unless the string holds
/// exactly one `:` with a positive `u32` on each side.
pub fn parse_ratio(spec: &str) -> (r: Option<AspectRatio>)
    ensures
        match r {
            Some(a) => a.width > 0 && a.height > 0 && exists|k: int|
                only_at(spec@, ':', k) && decimal_u32(spec@.subrange(0, k)) == Some(a.width) && decimal_u32(
                    spec@.subrange(k + 1, spec@.len() as int),
                ) == Some(a.height),
            None => forall|k: int|
                only_at(spec@, ':', k) ==> !(decimal_u32(spec@.subrange(0, k)) matches Some(w) && w > 0)
                    || !(decimal_u32(spec@.subrange(k + 1, spec@.len() as int)) matches Some(h) && h > 0),
        },
{
    match find_only(spec, ':') {
        Some(k) => {
            let n = spec.unicode_len();
            let w = parse_u32(spec.substring_char(0, k));
            let h = parse_u32(spec.substring_char(k + 1, n));
            proof {
                assert forall|j: int| only_at(spec@, ':', j) implies j == k as int by {}
            }
            match (w, h) {
                (Some(width), Some(height)) => {
                    if width > 0 && height > 0 {
                        Some(AspectRatio { width, height })
                    } else {
                        None
                    }
                },
                _ => None,
            }
        },
        None => None,
    }
}

/// The position of `c` in `s` when it occurs there exactly once.
pub fn find_only(s: &str, c: char) -> (r: Option<usize>)
    ensures
        match r {
            Some(k) => only_at(s@, c, k as int),
            None => forall|k: int| !only_at(s@, c, k),
        },
{
    let n = s.unicode_len();
    let mut found: Option<usize> = None;
    let mut i: usize = 0;
    while i < n
        invariant
            n == s@.len(),
            i <= n,
            match found {
                Some(k) => k < i && s@[k as int] == c && forall|j: int| 0 <= j < i && j != k ==> s@[j] != c,
                None => forall|j: int| 0 <= j < i ==> s@[j] != c,
            },
        decreases n - i,
    {
        if s.get_char(i) == c {
            match found {
                Some(_) => {
                    return None;
                },
                None => {
                    found = Some(i);
                },
            }
        }
        i = i + 1;
    }
    found
}

} // verus!
