//! Backgrounds: a flat color, a vertical gradient, or a picture resized to
//! fill the canvas.

use crate::color::{color_of, parse_color, parse_gradient, same_text, split_dash};
use crate::layout::{find_only, only_at};
use crate::error::FramerError;
use crate::pixels::{fill_resize, Color, PixelBuffer};
use vstd::prelude::*;
use vstd::string::StrSliceExecFns;

verus! {

/// The kinds of background, as given by the user.
#[derive(Debug)]
pub enum BackgroundType {
    /// A color specification, e.g. `black` or `#FF0000`.
    Color(String),
    /// Color specifications joined by `-`, top to bottom, e.g. `blue-red`.
    Gradient(String),
    /// The path of a picture file.
    Image(String),
}

/// Whether a `w` x `h` buffer can be held in memory addressed by `usize`.
pub open spec fn canvas_fits(w: int, h: int) -> bool {
    w * h * 4 <= usize::MAX
}

/// `a` and `b` mixed with weight `num / den` on `b`, rounded to nearest.
pub open spec fn lerp(a: int, b: int, num: int, den: int) -> int {
    (2 * (a * (den - num) + b * num) + den) / (2 * den)
}

pub open spec fn lerp_color(c1: Color, c2: Color, num: int, den: int) -> Color {
    Color {
        r: lerp(c1.r as int, c2.r as int, num, den) as u8,
        g: lerp(c1.g as int, c2.g as int, num, den) as u8,
        b: lerp(c1.b as int, c2.b as int, num, den) as u8,
        a: lerp(c1.a as int, c2.a as int, num, den) as u8,
    }
}

/// The color of row `y` of a gradient of height `h` through `stops`: row `y`
/// sits at `y / h` of the way from the first stop to the last.
pub open spec fn gradient_color(stops: Seq<Color>, y: int, h: int) -> Color {
    let n = stops.len() as int;
    let pos = y * (n - 1);
    let index = pos / h;
    let next = if index + 1 < n - 1 {
        index + 1
    } else {
        n - 1
    };
    lerp_color(stops[index], stops[next], pos % h, h)
}

/// The colors of the stops of gradient specification `s`.
pub open spec fn gradient_stops(s: Seq<char>) -> Seq<Color> {
    split_dash(s).map_values(|p: Seq<char>| color_of(p)->0)
}

/// Every stop of gradient specification `s` resolves.
pub open spec fn gradient_resolves(s: Seq<char>) -> bool {
    forall|k: int| 0 <= k < split_dash(s).len() ==> (#[trigger] color_of(split_dash(s)[k])) is Some
}

proof fn lemma_lerp_bounds(a: int, b: int, num: int, den: int)
    requires
        0 <= a <= 255,
        0 <= b <= 255,
        0 <= num <= den,
        0 < den,
    ensures
        0 <= lerp(a, b, num, den) <= 255,
{
    assert(0 <= a * (den - num) + b * num <= 255 * den) by (nonlinear_arith)
        requires
            0 <= a <= 255,
            0 <= b <= 255,
            0 <= num <= den,
    ;
    let t = 2 * (a * (den - num) + b * num) + den;
    assert(t / (2 * den) <= 255) by (nonlinear_arith)
        requires
            t <= 511 * den,
            den > 0,
            t >= 0,
    ;
    assert(t / (2 * den) >= 0) by (nonlinear_arith)
        requires
            den > 0,
            t >= 0,
    ;
}

/// `a` and `b` mixed with weight `num / den` on `b`, rounded to nearest.
fn lerp_channel(a: u8, b: u8, num: u64, den: u64) -> (r: u8)
    requires
        num <= den,
        0 < den,
        den <= u32::MAX,
    ensures
        r as int == lerp(a as int, b as int, num as int, den as int),
{
    proof {
        lemma_lerp_bounds(a as int, b as int, num as int, den as int);
    }
    assert((a as u64) * (den - num) + (b as u64) * num <= 255 * den) by (nonlinear_arith)
        requires
            a <= 255,
            b <= 255,
            num <= den,
    ;
    let t = 2 * ((a as u64) * (den - num) + (b as u64) * num) + den;
    (t / (2 * den)) as u8
}

/// Whether `v` lies between `a` and `b`, in either order.
pub open spec fn between(v: int, a: int, b: int) -> bool {
    (a <= v <= b) || (b <= v <= a)
}

proof fn lemma_lerp_between(a: int, b: int, num: int, den: int)
    requires
        0 <= a <= 255,
        0 <= b <= 255,
        0 <= num <= den,
        0 < den,
    ensures
        between(lerp(a, b, num, den), a, b),
{
    lemma_lerp_ends(a, b, den);
    lemma_lerp_monotone(a, b, 0, num, den);
    lemma_lerp_monotone(a, b, num, den, den);
}

/// Mixes two colors channel by channel, alpha included, with weight
/// `num / den` on `color2`, rounding to nearest: weight `0` gives `color1`,
/// weight `1` gives `color2`, and every channel lies between theirs.
pub fn interpolate_color(color1: Color, color2: Color, num: u64, den: u64) -> (r: Color)
    requires
        num <= den,
        0 < den,
        den <= u32::MAX,
    ensures
        r == lerp_color(color1, color2, num as int, den as int),
        num == 0 ==> r == color1,
        num == den ==> r == color2,
        between(r.r as int, color1.r as int, color2.r as int),
        between(r.g as int, color1.g as int, color2.g as int),
        between(r.b as int, color1.b as int, color2.b as int),
        between(r.a as int, color1.a as int, color2.a as int),
{
    proof {
        lemma_lerp_ends(color1.r as int, color2.r as int, den as int);
        lemma_lerp_ends(color1.g as int, color2.g as int, den as int);
        lemma_lerp_ends(color1.b as int, color2.b as int, den as int);
        lemma_lerp_ends(color1.a as int, color2.a as int, den as int);
        lemma_lerp_between(color1.r as int, color2.r as int, num as int, den as int);
        lemma_lerp_between(color1.g as int, color2.g as int, num as int, den as int);
        lemma_lerp_between(color1.b as int, color2.b as int, num as int, den as int);
        lemma_lerp_between(color1.a as int, color2.a as int, num as int, den as int);
    }
    Color {
        r: lerp_channel(color1.r, color2.r, num, den),
        g: lerp_channel(color1.g, color2.g, num, den),
        b: lerp_channel(color1.b, color2.b, num, den),
        a: lerp_channel(color1.a, color2.a, num, den),
    }
}

/// A `width` x `height` buffer of one color.
pub fn create_color_background(width: u32, height: u32, color: &str) -> (r: Result<PixelBuffer, FramerError>)
    requires
        canvas_fits(width as int, height as int),
    ensures
        match r {
            Ok(img) => color_of(color@) is Some && img.wf() && img.width == width && img.height
                == height && forall|x: int, y: int|
                img.contains(x, y) ==> #[trigger] img.pixel(x, y) == color_of(color@)->0,
            Err(e) => color_of(color@) is None && e is Color,
        },
{
    match parse_color(color) {
        Ok(c) => Ok(PixelBuffer::filled(width, height, c)),
        Err(e) => Err(FramerError::Color(e)),
    }
}

/// A `width` x `height` vertical gradient through the stops of `gradient`:
/// each row is uniform, row `y` at `y / height` of the way down.
pub fn create_gradient_background(width: u32, height: u32, gradient: &str) -> (r: Result<
    PixelBuffer,
    FramerError,
>)
    requires
        canvas_fits(width as int, height as int),
    ensures
        match r {
            Ok(img) => gradient_resolves(gradient@) && split_dash(gradient@).len() >= 2 && img.wf()
                && img.width == width && img.height == height && forall|x: int, y: int|
                img.contains(x, y) ==> #[trigger] img.pixel(x, y) == gradient_color(
                    gradient_stops(gradient@),
                    y,
                    height as int,
                ),
            Err(FramerError::Color(_)) => !gradient_resolves(gradient@),
            Err(FramerError::BackgroundError(_)) => gradient_resolves(gradient@) && split_dash(
                gradient@,
            ).len() < 2,
            Err(_) => false,
        },
{
    let colors = match parse_gradient(gradient) {
        Ok(v) => v,
        Err(e) => {
            return Err(FramerError::Color(e));
        },
    };
    let ghost stops = gradient_stops(gradient@);
    assert(colors@ =~= stops);
    if colors.len() < 2 {
        return Err(FramerError::BackgroundError("gradient needs at least two colors".to_owned()));
    }
    let n: usize = colors.len();
    let mut img = PixelBuffer::filled(width, height, Color { r: 0, g: 0, b: 0, a: 0 });
    let mut y: u32 = 0;
    while y < height
        invariant
            colors@ == stops,
            n == stops.len(),
            2 <= n,
            img.wf(),
            img.width == width,
            img.height == height,
            y <= height,
            forall|px: int, py: int|
                0 <= px < width && 0 <= py < y ==> #[trigger] img.pixel(px, py) == gradient_color(stops, py, height as int),
        decreases height - y,
    {
        assert((y as u128) * ((n - 1) as u128) < (height as u128) * ((n - 1) as u128)) by (nonlinear_arith)
            requires
                y < height,
                2 <= n,
        ;
        assert((y as u128) * ((n - 1) as u128) <= u32::MAX * u64::MAX) by (nonlinear_arith)
            requires
                y <= u32::MAX,
                2 <= n <= usize::MAX,
                usize::MAX <= u64::MAX,
        ;
        let pos: u128 = (y as u128) * ((n - 1) as u128);
        let index128: u128 = pos / (height as u128);
        proof {
            vstd::arithmetic::div_mod::lemma_fundamental_div_mod(pos as int, height as int);
            assert(index128 < n - 1) by (nonlinear_arith)
                requires
                    pos as int == (height as int) * (index128 as int) + (pos as int) % (height as int),
                    (pos as int) % (height as int) >= 0,
                    (pos as int) < (height as int) * (n - 1),
                    height > 0,
            ;
        }
        let index: usize = index128 as usize;
        let next: usize = if index + 1 < n - 1 { index + 1 } else { n - 1 };
        let color = interpolate_color(
            colors[index],
            colors[next],
            (pos % (height as u128)) as u64,
            height as u64,
        );
        assert(color == gradient_color(stops, y as int, height as int));
        let mut x: u32 = 0;
        while x < width
            invariant
                img.wf(),
                img.width == width,
                img.height == height,
                y < height,
                x <= width,
                color == gradient_color(stops, y as int, height as int),
                forall|px: int, py: int|
                    0 <= px < width && 0 <= py < y ==> #[trigger] img.pixel(px, py) == gradient_color(stops, py, height as int),
                forall|px: int| 0 <= px < x ==> #[trigger] img.pixel(px, y as int) == color,
            decreases width - x,
        {
            img.set_pixel(x, y, color);
            x = x + 1;
        }
        y = y + 1;
    }
    Ok(img)
}

/// A `width` x `height` background cut from `picture`, resized to fill.
pub fn create_image_background(width: u32, height: u32, picture: &PixelBuffer) -> (r: Result<
    PixelBuffer,
    FramerError,
>)
    requires
        picture.wf(),
    ensures
        match r {
            Ok(img) => width > 0 && height > 0 && picture.width > 0 && picture.height > 0
                && is_picture_background(img, width as int, height as int),
            Err(e) => e is BackgroundError && (width == 0 || height == 0 || picture.width == 0
                || picture.height == 0),
        },
{
    if width == 0 || height == 0 || picture.width == 0 || picture.height == 0 {
        return Err(FramerError::BackgroundError("empty background or picture".to_owned()));
    }
    Ok(fill_resize(picture, width, height))
}

/// Whether background `spec` can be drawn on a `w` x `h` canvas, with
/// `picture` the decoded file of a picture background.
pub open spec fn background_ok(spec: BackgroundType, picture: Option<&PixelBuffer>, w: int, h: int) -> bool {
    match spec {
        BackgroundType::Color(c) => color_of(c@) is Some,
        BackgroundType::Gradient(g) => gradient_resolves(g@) && split_dash(g@).len() >= 2,
        BackgroundType::Image(_) => match picture {
            Some(p) => w > 0 && h > 0 && p.width > 0 && p.height > 0,
            None => false,
        },
    }
}

/// `img` is a picture background for a `w` x `h` canvas: the picture
/// resized to fill it, of which only the size is known.
pub open spec fn is_picture_background(img: PixelBuffer, w: int, h: int) -> bool {
    &&& img.wf()
    &&& img.width == w
    &&& img.height == h
}

/// `img` is background `spec` drawn on a `w` x `h` canvas, a picture
/// background from the decoded file `picture`.
pub open spec fn is_background(
    img: PixelBuffer,
    w: int,
    h: int,
    spec: BackgroundType,
    picture: Option<&PixelBuffer>,
) -> bool {
    &&& img.wf()
    &&& match spec {
        BackgroundType::Color(c) => img.width == w && img.height == h && forall|x: int, y: int|
            img.contains(x, y) ==> #[trigger] img.pixel(x, y) == color_of(c@)->0,
        BackgroundType::Gradient(g) => img.width == w && img.height == h && forall|x: int, y: int|
            img.contains(x, y) ==> #[trigger] img.pixel(x, y) == gradient_color(gradient_stops(g@), y, h),
        BackgroundType::Image(_) => match picture {
            Some(_) => is_picture_background(img, w, h),
            None => false,
        },
    }
}

/// The background of a `new_width` x `new_height` canvas. A picture
/// background is drawn from `picture`, the already decoded file; without one
/// it fails.
pub fn create_background(
    new_width: u32,
    new_height: u32,
    background: &BackgroundType,
    picture: Option<&PixelBuffer>,
) -> (r: Result<PixelBuffer, FramerError>)
    requires
        canvas_fits(new_width as int, new_height as int),
        picture matches Some(p) ==> p.wf(),
    ensures
        match r {
            Ok(img) => background_ok(*background, picture, new_width as int, new_height as int)
                && is_background(img, new_width as int, new_height as int, *background, picture),
            Err(FramerError::Color(_)) => !background_ok(
                *background,
                picture,
                new_width as int,
                new_height as int,
            ),
            Err(FramerError::BackgroundError(_)) => !background_ok(
                *background,
                picture,
                new_width as int,
                new_height as int,
            ),
            Err(_) => false,
        },
{
    match background {
        BackgroundType::Color(color) => create_color_background(new_width, new_height, color.as_str()),
        BackgroundType::Gradient(gradient) => create_gradient_background(new_width, new_height, gradient.as_str()),
        BackgroundType::Image(_) => match picture {
            Some(p) => create_image_background(new_width, new_height, p),
            None => Err(FramerError::BackgroundError("background picture not loaded".to_owned())),
        },
    }
}

proof fn lemma_lerp_monotone(a: int, b: int, n1: int, n2: int, den: int)
    requires
        0 <= n1 <= n2 <= den,
        0 < den,
    ensures
        a <= b ==> lerp(a, b, n1, den) <= lerp(a, b, n2, den),
        a >= b ==> lerp(a, b, n1, den) >= lerp(a, b, n2, den),
{
    let t1 = 2 * (a * (den - n1) + b * n1) + den;
    let t2 = 2 * (a * (den - n2) + b * n2) + den;
    assert(t1 == 2 * a * den + 2 * ((b - a) * n1) + den) by (nonlinear_arith)
        requires
            t1 == 2 * (a * (den - n1) + b * n1) + den,
    ;
    assert(t2 == 2 * a * den + 2 * ((b - a) * n2) + den) by (nonlinear_arith)
        requires
            t2 == 2 * (a * (den - n2) + b * n2) + den,
    ;
    if a <= b {
        assert((b - a) * n1 <= (b - a) * n2) by (nonlinear_arith)
            requires
                a <= b,
                n1 <= n2,
        ;
        vstd::arithmetic::div_mod::lemma_div_is_ordered(t1, t2, 2 * den);
    }
    if a >= b {
        assert((b - a) * n1 >= (b - a) * n2) by (nonlinear_arith)
            requires
                a >= b,
                n1 <= n2,
        ;
        vstd::arithmetic::div_mod::lemma_div_is_ordered(t2, t1, 2 * den);
    }
}

proof fn lemma_lerp_ends(a: int, b: int, den: int)
    requires
        0 <= a <= 255,
        0 <= b <= 255,
        den >= 1,
    ensures
        lerp(a, b, 0, den) == a,
        lerp(a, b, den, den) == b,
        den > 510 ==> lerp(a, b, den - 1, den) == b,
{
    let te = 2 * (a * (den - den) + b * den) + den;
    assert(te == b * (2 * den) + den) by (nonlinear_arith)
        requires
            te == 2 * (a * (den - den) + b * den) + den,
    ;
    vstd::arithmetic::div_mod::lemma_fundamental_div_mod_converse(te, 2 * den, b, den);
    let t0 = 2 * (a * (den - 0) + b * 0) + den;
    assert(t0 == a * (2 * den) + den) by (nonlinear_arith)
        requires
            t0 == 2 * (a * (den - 0) + b * 0) + den,
    ;
    vstd::arithmetic::div_mod::lemma_fundamental_div_mod_converse(t0, 2 * den, a, den);
    if den > 510 {
        let t = 2 * (a * (den - (den - 1)) + b * (den - 1)) + den;
        assert(t == b * (2 * den) + (2 * (a - b) + den)) by (nonlinear_arith)
            requires
                t == 2 * (a * (den - (den - 1)) + b * (den - 1)) + den,
        ;
        vstd::arithmetic::div_mod::lemma_fundamental_div_mod_converse(t, 2 * den, b, 2 * (a - b) + den);
    }
}

/// A gradient of two stops over `h` rows starts at the first stop, moves
/// every channel monotonically towards the second, and, once there are more
/// than 510 rows (so that the last row is within half a step of it), ends at
/// the second stop exactly.
pub proof fn lemma_two_stop_gradient(c0: Color, c1: Color, h: int, y1: int, y2: int)
    requires
        h >= 1,
        0 <= y1 <= y2 < h,
    ensures
        gradient_color(seq![c0, c1], 0, h) == c0,
        gradient_color(seq![c0, c1], y1, h) == lerp_color(c0, c1, y1, h),
        c0.r <= c1.r ==> gradient_color(seq![c0, c1], y1, h).r <= gradient_color(seq![c0, c1], y2, h).r,
        c0.r >= c1.r ==> gradient_color(seq![c0, c1], y1, h).r >= gradient_color(seq![c0, c1], y2, h).r,
        c0.g <= c1.g ==> gradient_color(seq![c0, c1], y1, h).g <= gradient_color(seq![c0, c1], y2, h).g,
        c0.g >= c1.g ==> gradient_color(seq![c0, c1], y1, h).g >= gradient_color(seq![c0, c1], y2, h).g,
        c0.b <= c1.b ==> gradient_color(seq![c0, c1], y1, h).b <= gradient_color(seq![c0, c1], y2, h).b,
        c0.b >= c1.b ==> gradient_color(seq![c0, c1], y1, h).b >= gradient_color(seq![c0, c1], y2, h).b,
        c0.a <= c1.a ==> gradient_color(seq![c0, c1], y1, h).a <= gradient_color(seq![c0, c1], y2, h).a,
        c0.a >= c1.a ==> gradient_color(seq![c0, c1], y1, h).a >= gradient_color(seq![c0, c1], y2, h).a,
        h > 510 ==> gradient_color(seq![c0, c1], h - 1, h) == c1,
{
    let stops = seq![c0, c1];
    assert(stops[0] == c0 && stops[1] == c1);
    assert forall|y: int| 0 <= y < h implies #[trigger] gradient_color(stops, y, h) == lerp_color(c0, c1, y, h) by {
        vstd::arithmetic::div_mod::lemma_small_mod(y as nat, h as nat);
        vstd::arithmetic::div_mod::lemma_basic_div_specific_divisor(h);
        assert(y * 1 == y);
        assert(y / h == 0);
    }
    assert(gradient_color(stops, y2, h) == lerp_color(c0, c1, y2, h));
    assert(gradient_color(stops, 0, h) == lerp_color(c0, c1, 0, h));
    assert(gradient_color(stops, h - 1, h) == lerp_color(c0, c1, h - 1, h));
    lemma_lerp_ends(c0.r as int, c1.r as int, h);
    lemma_lerp_ends(c0.g as int, c1.g as int, h);
    lemma_lerp_ends(c0.b as int, c1.b as int, h);
    lemma_lerp_ends(c0.a as int, c1.a as int, h);
    lemma_lerp_bounds(c0.r as int, c1.r as int, y1, h);
    lemma_lerp_bounds(c0.g as int, c1.g as int, y1, h);
    lemma_lerp_bounds(c0.b as int, c1.b as int, y1, h);
    lemma_lerp_bounds(c0.a as int, c1.a as int, y1, h);
    lemma_lerp_bounds(c0.r as int, c1.r as int, y2, h);
    lemma_lerp_bounds(c0.g as int, c1.g as int, y2, h);
    lemma_lerp_bounds(c0.b as int, c1.b as int, y2, h);
    lemma_lerp_bounds(c0.a as int, c1.a as int, y2, h);
    lemma_lerp_monotone(c0.r as int, c1.r as int, y1, y2, h);
    lemma_lerp_monotone(c0.g as int, c1.g as int, y1, y2, h);
    lemma_lerp_monotone(c0.b as int, c1.b as int, y1, y2, h);
    lemma_lerp_monotone(c0.a as int, c1.a as int, y1, y2, h);
}

/// `spec` is `kind:value` with a single `:`.
pub open spec fn tagged(spec: Seq<char>, kind: Seq<char>, value: Seq<char>) -> bool {
    exists|k: int|
        only_at(spec, ':', k) && spec.subrange(0, k) == kind && spec.subrange(k + 1, spec.len() as int)
            == value
}

/// Reads a background written `colr:<color>`, `grad:<gradient>` or
/// `imag:<path>`; `None` for anything else, including a second `:`.
pub fn parse_background(spec: &str) -> (r: Option<BackgroundType>)
    ensures
        match r {
            Some(BackgroundType::Color(v)) => tagged(spec@, "colr"@, v@),
            Some(BackgroundType::Gradient(v)) => tagged(spec@, "grad"@, v@),
            Some(BackgroundType::Image(v)) => tagged(spec@, "imag"@, v@),
            None => forall|k: int|
                only_at(spec@, ':', k) ==> spec@.subrange(0, k) != "colr"@ && spec@.subrange(0, k)
                    != "grad"@ && spec@.subrange(0, k) != "imag"@,
        },
{
    match find_only(spec, ':') {
        Some(k) => {
            let n = spec.unicode_len();
            let kind = spec.substring_char(0, k);
            let value = spec.substring_char(k + 1, n).to_owned();
            proof {
                assert forall|j: int| only_at(spec@, ':', j) implies j == k by {}
            }
            if same_text(kind, "colr") {
                Some(BackgroundType::Color(value))
            } else if same_text(kind, "grad") {
                Some(BackgroundType::Gradient(value))
            } else if same_text(kind, "imag") {
                Some(BackgroundType::Image(value))
            } else {
                None
            }
        },
        None => None,
    }
}

} // verus!
