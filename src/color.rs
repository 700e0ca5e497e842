//! Color specifications: `#RGB`, `#RRGGBB`, `#RRGGBBAA` and a fixed set of
//! names, and gradients written as colors joined by `-`.

use crate::error::ColorError;
use crate::pixels::Color;
use vstd::prelude::*;
use vstd::string::StrSliceExecFns;

verus! {

/// What `str::to_lowercase` makes of a string.
pub uninterp spec fn lower_of(s: Seq<char>) -> Seq<char>;

/// Relies on `str::to_lowercase`: the lowercase mapping of each character;
/// the result depends on the characters alone.
#[verifier::external_body]
fn lowercase(s: &str) -> (r: String)
    ensures
        r@ == lower_of(s@),
{
    s.to_lowercase()
}

/// The value of hex digit `c`, or `-1` when it is none.
pub open spec fn hex_value(c: char) -> int {
    if '0' <= c && c <= '9' {
        c as int - '0' as int
    } else if 'a' <= c && c <= 'f' {
        c as int - 'a' as int + 10
    } else if 'A' <= c && c <= 'F' {
        c as int - 'A' as int + 10
    } else {
        -1
    }
}

pub open spec fn all_hex(h: Seq<char>) -> bool {
    forall|i: int| 0 <= i < h.len() ==> hex_value(#[trigger] h[i]) >= 0
}

/// The byte written by the two hex digits at `i` and `i + 1`.
pub open spec fn hex_byte(h: Seq<char>, i: int) -> u8 {
    (hex_value(h[i]) * 16 + hex_value(h[i + 1])) as u8
}

/// The single hex digit at `i`, doubled (`f` is `ff`).
pub open spec fn hex_short(h: Seq<char>, i: int) -> u8 {
    (hex_value(h[i]) * 17) as u8
}

/// The color written by the digits `h` of a hex color.
pub open spec fn hex_color(h: Seq<char>) -> Option<Color> {
    if !all_hex(h) {
        None
    } else if h.len() == 6 {
        Some(Color { r: hex_byte(h, 0), g: hex_byte(h, 2), b: hex_byte(h, 4), a: 255 })
    } else if h.len() == 8 {
        Some(Color { r: hex_byte(h, 0), g: hex_byte(h, 2), b: hex_byte(h, 4), a: hex_byte(h, 6) })
    } else if h.len() == 3 {
        Some(Color { r: hex_short(h, 0), g: hex_short(h, 1), b: hex_short(h, 2), a: 255 })
    } else {
        None
    }
}

pub open spec fn opaque(r: u8, g: u8, b: u8) -> Color {
    Color { r, g, b, a: 255 }
}

/// The color that lowercase name `s` stands for.
pub open spec fn color_named(s: Seq<char>) -> Option<Color> {
    if s == "black"@ {
        Some(opaque(0, 0, 0))
    } else if s == "white"@ {
        Some(opaque(255, 255, 255))
    } else if s == "red"@ {
        Some(opaque(255, 0, 0))
    } else if s == "green"@ {
        Some(opaque(0, 255, 0))
    } else if s == "blue"@ {
        Some(opaque(0, 0, 255))
    } else if s == "yellow"@ {
        Some(opaque(255, 255, 0))
    } else if s == "cyan"@ {
        Some(opaque(0, 255, 255))
    } else if s == "magenta"@ {
        Some(opaque(255, 0, 255))
    } else if s == "transparent"@ {
        Some(Color { r: 0, g: 0, b: 0, a: 0 })
    } else {
        None
    }
}

pub open spec fn is_hex_spec(s: Seq<char>) -> bool {
    s.len() > 0 && s[0] == '#'
}

/// The color that specification `s` resolves to: hex digits after a single
/// leading `#`, otherwise a name, case-insensitively.
pub open spec fn color_of(s: Seq<char>) -> Option<Color> {
    if is_hex_spec(s) {
        hex_color(s.drop_first())
    } else {
        color_named(lower_of(s))
    }
}

fn hex_digit(c: char) -> (r: Option<u8>)
    ensures
        match r {
            Some(v) => hex_value(c) >= 0 && v as int == hex_value(c),
            None => hex_value(c) < 0,
        },
{
    if '0' <= c && c <= '9' {
        Some(((c as u32) - ('0' as u32)) as u8)
    } else if 'a' <= c && c <= 'f' {
        Some(((c as u32) - ('a' as u32) + 10) as u8)
    } else if 'A' <= c && c <= 'F' {
        Some(((c as u32) - ('A' as u32) + 10) as u8)
    } else {
        None
    }
}

/// Whether `a` and `b` hold the same characters.
pub(crate) fn same_text(a: &str, b: &str) -> (r: bool)
    ensures
        r == (a@ == b@),
{
    let n = a.unicode_len();
    if n != b.unicode_len() {
        return false;
    }
    let mut i: usize = 0;
    while i < n
        invariant
            n == a@.len() == b@.len(),
            i <= n,
            forall|k: int| 0 <= k < i ==> a@[k] == b@[k],
        decreases n - i,
    {
        if a.get_char(i) != b.get_char(i) {
            return false;
        }
        i = i + 1;
    }
    assert(a@ =~= b@);
    true
}

/// The color a lowercase name stands for, if any.
pub fn named_color(lower: &str) -> (r: Option<Color>)
    ensures
        r == color_named(lower@),
{
    if same_text(lower, "black") {
        Some(Color { r: 0, g: 0, b: 0, a: 255 })
    } else if same_text(lower, "white") {
        Some(Color { r: 255, g: 255, b: 255, a: 255 })
    } else if same_text(lower, "red") {
        Some(Color { r: 255, g: 0, b: 0, a: 255 })
    } else if same_text(lower, "green") {
        Some(Color { r: 0, g: 255, b: 0, a: 255 })
    } else if same_text(lower, "blue") {
        Some(Color { r: 0, g: 0, b: 255, a: 255 })
    } else if same_text(lower, "yellow") {
        Some(Color { r: 255, g: 255, b: 0, a: 255 })
    } else if same_text(lower, "cyan") {
        Some(Color { r: 0, g: 255, b: 255, a: 255 })
    } else if same_text(lower, "magenta") {
        Some(Color { r: 255, g: 0, b: 255, a: 255 })
    } else if same_text(lower, "transparent") {
        Some(Color { r: 0, g: 0, b: 0, a: 0 })
    } else {
        None
    }
}

/// The byte of the two hex digits at `i` and `i + 1` of `h`.
fn parse_hex_byte(h: &Vec<char>, i: usize) -> (r: Option<u8>)
    requires
        i + 1 < h@.len(),
    ensures
        match r {
            Some(v) => hex_value(h@[i as int]) >= 0 && hex_value(h@[i + 1]) >= 0 && v == hex_byte(
                h@,
                i as int,
            ),
            None => hex_value(h@[i as int]) < 0 || hex_value(h@[i + 1]) < 0,
        },
{
    let _n = h.len();
    let hi = hex_digit(h[i]);
    let lo = hex_digit(h[i + 1]);
    match (hi, lo) {
        (Some(a), Some(b)) => Some(a * 16 + b),
        _ => None,
    }
}

/// The single hex digit at `i` of `h`, doubled.
fn parse_hex_short(h: &Vec<char>, i: usize) -> (r: Option<u8>)
    requires
        i < h@.len(),
    ensures
        match r {
            Some(v) => hex_value(h@[i as int]) >= 0 && v == hex_short(h@, i as int),
            None => hex_value(h@[i as int]) < 0,
        },
{
    match hex_digit(h[i]) {
        Some(a) => Some(a * 17),
        None => None,
    }
}

/// The color written by hex digits `h`.
fn parse_hex(h: &Vec<char>) -> (r: Option<Color>)
    ensures
        r == hex_color(h@),
{
    let n = h.len();
    if n == 6 || n == 8 {
        let r = parse_hex_byte(h, 0);
        let g = parse_hex_byte(h, 2);
        let b = parse_hex_byte(h, 4);
        let a = if n == 8 { parse_hex_byte(h, 6) } else { Some(255u8) };
        match (r, g, b, a) {
            (Some(r), Some(g), Some(b), Some(a)) => {
                assert(all_hex(h@)) by {
                    assert forall|i: int| 0 <= i < h@.len() implies hex_value(#[trigger] h@[i]) >= 0 by {
                        if n == 8 {
                            assert(i == 0 || i == 1 || i == 2 || i == 3 || i == 4 || i == 5 || i == 6 || i == 7);
                        } else {
                            assert(i == 0 || i == 1 || i == 2 || i == 3 || i == 4 || i == 5);
                        }
                    }
                }
                Some(Color { r, g, b, a })
            },
            _ => None,
        }
    } else if n == 3 {
        let r = parse_hex_short(h, 0);
        let g = parse_hex_short(h, 1);
        let b = parse_hex_short(h, 2);
        match (r, g, b) {
            (Some(r), Some(g), Some(b)) => {
                assert(all_hex(h@)) by {
                    assert forall|i: int| 0 <= i < h@.len() implies hex_value(#[trigger] h@[i]) >= 0 by {
                        assert(i == 0 || i == 1 || i == 2);
                    }
                }
                Some(Color { r, g, b, a: 255 })
            },
            _ => None,
        }
    } else {
        None
    }
}

/// The characters of `s` after its first.
fn hex_digits(s: &str) -> (h: Vec<char>)
    requires
        s@.len() > 0,
    ensures
        h@ == s@.drop_first(),
{
    let n = s.unicode_len();
    let mut h: Vec<char> = Vec::new();
    let mut i: usize = 1;
    while i < n
        invariant
            n == s@.len(),
            1 <= i <= n,
            h@ == s@.subrange(1, i as int),
        decreases n - i,
    {
        h.push(s.get_char(i));
        i = i + 1;
        assert(h@ =~= s@.subrange(1, i as int));
    }
    assert(h@ =~= s@.drop_first());
    h
}

/// Resolves a color specification: `#RGB`, `#RRGGBB` or `#RRGGBBAA`, or
/// one of black, white, red, green, blue, yellow, cyan, magenta and
/// transparent in any case.
pub fn parse_color(color: &str) -> (r: Result<Color, ColorError>)
    ensures
        match r {
            Ok(c) => color_of(color@) == Some(c),
            Err(e) => color_of(color@) is None && (e == ColorError::InvalidHex <==> is_hex_spec(
                color@,
            )) && (e == ColorError::UnknownName <==> !is_hex_spec(color@)),
        },
{
    let n = color.unicode_len();
    if n > 0 && color.get_char(0) == '#' {
        let h = hex_digits(color);
        match parse_hex(&h) {
            Some(c) => Ok(c),
            None => Err(ColorError::InvalidHex),
        }
    } else {
        let lower = lowercase(color);
        match named_color(lower.as_str()) {
            Some(c) => Ok(c),
            None => Err(ColorError::UnknownName),
        }
    }
}

/// The parts of `s` between `-` separators, in order; always at least one.
pub open spec fn split_dash(s: Seq<char>) -> Seq<Seq<char>>
    decreases s.len(),
{
    if s.len() == 0 {
        seq![Seq::<char>::empty()]
    } else {
        let p = split_dash(s.drop_last());
        if s.last() == '-' {
            p.push(Seq::<char>::empty())
        } else {
            p.update(p.len() - 1, p.last().push(s.last()))
        }
    }
}

pub proof fn lemma_split_dash_nonempty(s: Seq<char>)
    ensures
        split_dash(s).len() >= 1,
    decreases s.len(),
{
    if s.len() > 0 {
        lemma_split_dash_nonempty(s.drop_last());
    }
}

/// Resolves the colors of a gradient written as color specifications joined
/// by `-`; fails on the first part that does not resolve.
pub fn parse_gradient(gradient: &str) -> (r: Result<Vec<Color>, ColorError>)
    ensures
        match r {
            Ok(v) => v@.len() == split_dash(gradient@).len() && forall|k: int|
                0 <= k < v@.len() ==> color_of(#[trigger] split_dash(gradient@)[k]) == Some(v@[k]),
            Err(_) => exists|k: int|
                0 <= k < split_dash(gradient@).len() && #[trigger] color_of(split_dash(gradient@)[k])
                    is None,
        },
{
    let n = gradient.unicode_len();
    let mut colors: Vec<Color> = Vec::new();
    let ghost mut segs: Seq<Seq<char>> = Seq::empty();
    let mut start: usize = 0;
    let mut i: usize = 0;
    assert(gradient@.take(0) =~= Seq::<char>::empty());
    while i < n
        invariant
            n == gradient@.len(),
            start <= i <= n,
            split_dash(gradient@.take(i as int)) == segs.push(gradient@.subrange(start as int, i as int)),
            colors@.len() == segs.len(),
            forall|k: int| 0 <= k < segs.len() ==> color_of(#[trigger] segs[k]) == Some(colors@[k]),
        decreases n - i,
    {
        let ghost pre = gradient@.take(i as int);
        let ghost next = gradient@.take(i as int + 1);
        assert(next.drop_last() =~= pre);
        if gradient.get_char(i) == '-' {
            let part = gradient.substring_char(start, i);
            match parse_color(part) {
                Ok(c) => {
                    colors.push(c);
                },
                Err(e) => {
                    proof {
                        let k = segs.len() as int;
                        lemma_split_dash_prefix(gradient@, i as int + 1);
                        assert(split_dash(next) =~= segs.push(part@).push(Seq::<char>::empty()));
                        assert(split_dash(next)[k] == part@);
                        assert(split_dash(gradient@)[k] == part@);
                    }
                    return Err(e);
                },
            }
            proof {
                segs = segs.push(part@);
                assert(gradient@.subrange(i as int + 1, i as int + 1) =~= Seq::<char>::empty());
                assert(split_dash(next) =~= segs.push(gradient@.subrange(i as int + 1, i as int + 1)));
            }
            start = i + 1;
        } else {
            proof {
                assert(gradient@.subrange(start as int, i as int + 1) =~= gradient@.subrange(start as int, i as int).push(gradient@[i as int]));
                assert(split_dash(next) =~= segs.push(gradient@.subrange(start as int, i as int + 1)));
            }
        }
        i = i + 1;
    }
    assert(gradient@.take(n as int) =~= gradient@);
    let part = gradient.substring_char(start, n);
    match parse_color(part) {
        Ok(c) => {
            colors.push(c);
            proof {
                let all = split_dash(gradient@);
                assert(all =~= segs.push(part@));
                assert forall|k: int| 0 <= k < colors@.len() implies color_of(#[trigger] all[k]) == Some(colors@[k]) by {
                    if k < segs.len() {
                        assert(all[k] == segs[k]);
                    }
                }
            }
            Ok(colors)
        },
        Err(e) => {
            assert(split_dash(gradient@) =~= segs.push(part@));
            assert(split_dash(gradient@)[segs.len() as int] == part@);
            Err(e)
        },
    }
}

/// The parts of a prefix, all but its last, are parts of the whole string.
proof fn lemma_split_dash_prefix(s: Seq<char>, i: int)
    requires
        0 <= i <= s.len(),
    ensures
        split_dash(s.take(i)).len() <= split_dash(s).len(),
        forall|k: int|
            0 <= k < split_dash(s.take(i)).len() - 1 ==> #[trigger] split_dash(s)[k] == split_dash(
                s.take(i),
            )[k],
    decreases s.len(),
{
    if i < s.len() {
        let d = s.drop_last();
        assert(d.take(i) =~= s.take(i));
        lemma_split_dash_prefix(d, i);
        lemma_split_dash_nonempty(d);
    } else {
        assert(s.take(i) =~= s);
    }
}

} // verus!
