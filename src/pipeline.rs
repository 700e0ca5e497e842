//! The framing pipeline: corner rounding, drop shadow, canvas layout,
//! background and final compositing of one decoded image.

use crate::background::{background_ok, create_background, is_background, BackgroundType};
use crate::color::color_of;
use crate::error::FramerError;
use crate::layout::{
    calculate_aspect_ratio, calculate_padding, canvas_size, gcd_spec, lemma_gcd_divides, scaled,
    wider_than, AspectRatio, Point,
};
use crate::pixels::{over_pixel, overlay, Color, PixelBuffer};
use crate::rounding::{corner_radius, is_rounding, round_corners};
use crate::shadow::{add_drop_shadow, is_shadowed, shadow_ok, ShadowOptions};
use vstd::prelude::*;

verus! {

/// Everything that shapes one framing run.
#[derive(Debug)]
pub struct ProcessingOptions {
    /// Size of the canvas relative to the image, in hundredths of a percent
    /// (`11000` is 110%).
    pub scale: u32,
    /// Corner radius in hundredths of a percent of the shorter side.
    pub roundness: u32,
    /// Offset of the image from the center of the canvas.
    pub offset: Point,
    /// Drop shadow, if any.
    pub shadow: Option<ShadowOptions>,
    pub background: BackgroundType,
    /// Target aspect ratio; the image's own when absent.
    pub ratio: Option<AspectRatio>,
}

/// The aspect ratio the canvas is laid out for.
pub open spec fn target_ratio(w: int, h: int, ratio: Option<AspectRatio>) -> (int, int) {
    match ratio {
        Some(r) => (r.width as int, r.height as int),
        None => (w / gcd_spec(w as nat, h as nat) as int, h / gcd_spec(w as nat, h as nat) as int),
    }
}

/// The canvas size for `src` under `options`.
pub open spec fn frame_size(src: PixelBuffer, options: ProcessingOptions) -> (int, int) {
    let (tw, th) = target_ratio(src.width as int, src.height as int, options.ratio);
    canvas_size(src.width as int, src.height as int, tw, th, options.scale as int)
}

/// Integer part of `v / 2`, rounded toward zero.
pub open spec fn half_toward_zero(v: int) -> int {
    if v >= 0 {
        v / 2
    } else {
        -((-v) / 2)
    }
}

/// Where the image goes along an axis of length `n`: centered on its source
/// length `m`, then moved by `o`, rounded toward zero.
pub open spec fn place(n: int, m: int, o: int) -> int {
    half_toward_zero(n - m + 2 * o)
}

/// `layer` is the image after rounding and, if asked for, the drop shadow.
pub open spec fn is_layer(src: PixelBuffer, layer: PixelBuffer, options: ProcessingOptions) -> bool {
    match options.shadow {
        None => is_rounding(src, layer, options.roundness as int),
        Some(s) => exists|rounded: PixelBuffer|
            is_rounding(src, rounded, options.roundness as int) && shadow_ok(rounded, s) && is_shadowed(
                rounded,
                layer,
                s,
            ),
    }
}

/// The run can succeed: a non-empty image, a positive ratio, a canvas that
/// fits, a shadow that can be drawn and a background that can.
pub open spec fn frame_ok(src: PixelBuffer, options: ProcessingOptions, picture: Option<&PixelBuffer>) -> bool {
    let (nw, nh) = frame_size(src, options);
    &&& size_ok(src, options)
    &&& options.shadow matches Some(s) ==> shadow_ok(src, s)
    &&& background_ok(options.background, picture, nw, nh)
}

/// A non-empty image, a positive ratio and a canvas that fits.
pub open spec fn size_ok(src: PixelBuffer, options: ProcessingOptions) -> bool {
    let (tw, th) = target_ratio(src.width as int, src.height as int, options.ratio);
    let (nw, nh) = frame_size(src, options);
    &&& src.width > 0 && src.height > 0
    &&& tw > 0 && th > 0
    &&& nw <= u32::MAX && nh <= u32::MAX
    &&& nw * nh * 4 <= usize::MAX
}

/// Pixel `(x, y)` of `bottom` once `top` is drawn over it at `(px, py)`.
pub open spec fn composed_pixel(bottom: PixelBuffer, top: PixelBuffer, px: int, py: int, x: int, y: int) -> Color {
    if top.contains(x - px, y - py) {
        over_pixel(bottom.pixel(x, y), top.pixel(x - px, y - py))
    } else {
        bottom.pixel(x, y)
    }
}

/// `out` is the framed image: a background of the canvas size with the
/// layer drawn over it at its place.
#[verifier::opaque]
pub open spec fn is_frame(
    src: PixelBuffer,
    options: ProcessingOptions,
    picture: Option<&PixelBuffer>,
    out: PixelBuffer,
    layer: PixelBuffer,
    bg: PixelBuffer,
) -> bool {
    let (nw, nh) = frame_size(src, options);
    let px = place(bg.width as int, src.width as int, options.offset.x as int);
    let py = place(bg.height as int, src.height as int, options.offset.y as int);
    &&& is_layer(src, layer, options)
    &&& is_background(bg, nw, nh, options.background, picture)
    &&& out.wf()
    &&& out.width == bg.width
    &&& out.height == bg.height
    &&& forall|x: int, y: int| out.contains(x, y) ==> #[trigger] out.pixel(x, y) == composed_pixel(bg, layer, px, py, x, y)
}

fn place_exec(n: u32, m: u32, o: i32) -> (r: i64)
    ensures
        r == place(n as int, m as int, o as int),
{
    let v: i64 = n as i64 - m as i64 + 2 * (o as i64);
    if v >= 0 {
        v / 2
    } else {
        -((-v) / 2)
    }
}

/// Frames one decoded image: rounds its corners, adds the drop shadow if
/// asked, lays out a canvas for the target ratio and scale, draws the
/// background and composites the image over it, centered and then moved by
/// the offset. `picture` is the decoded file of a picture background.
pub fn compose_image(input: &PixelBuffer, options: &ProcessingOptions, picture: Option<&PixelBuffer>) -> (r: Result<
    PixelBuffer,
    FramerError,
>)
    requires
        input.wf(),
        picture matches Some(p) ==> p.wf(),
    ensures
        r is Ok <==> frame_ok(*input, *options, picture),
        r matches Err(FramerError::ShadowError(_)) ==> options.shadow matches Some(s) && color_of(
            s.color@,
        ) is None,
        (r matches Err(e) && (e is Color || e is BackgroundError)) ==> !background_ok(
            options.background,
            picture,
            frame_size(*input, *options).0,
            frame_size(*input, *options).1,
        ),
        r matches Err(FramerError::InvalidParameter(_)) ==> !size_ok(*input, *options) || (
        options.shadow matches Some(s) && color_of(s.color@) is Some && !shadow_ok(*input, s)),
        r matches Err(e) ==> e is ShadowError || e is Color || e is BackgroundError || e is InvalidParameter,
        r matches Ok(out) ==> exists|layer: PixelBuffer, bg: PixelBuffer|
            #[trigger] is_frame(*input, *options, picture, out, layer, bg),
{
    let w = input.width;
    let h = input.height;
    if w == 0 || h == 0 {
        return Err(FramerError::InvalidParameter("empty input image".to_owned()));
    }
    let ratio = match options.ratio {
        Some(r) => r,
        None => {
            let (a, b) = calculate_aspect_ratio(w, h);
            AspectRatio { width: a, height: b }
        },
    };
    if ratio.width == 0 || ratio.height == 0 {
        return Err(FramerError::InvalidParameter("aspect ratio must be positive".to_owned()));
    }
    let processed = round_corners(input, options.roundness);
    let layer = match &options.shadow {
        Some(s) => match add_drop_shadow(&processed, s) {
            Ok(l) => l,
            Err(e) => {
                return Err(e);
            },
        },
        None => processed,
    };
    let (nw, nh) = match calculate_padding(w, h, ratio, options.scale) {
        Some(t) => (t.0, t.1),
        None => {
            return Err(FramerError::InvalidParameter("canvas too large".to_owned()));
        },
    };
    assert((nw as u64) * (nh as u64) <= u32::MAX * u32::MAX) by (nonlinear_arith)
        requires
            nw <= u32::MAX,
            nh <= u32::MAX,
    ;
    if (nw as u64) * (nh as u64) > (usize::MAX / 4) as u64 {
        return Err(FramerError::InvalidParameter("canvas too large".to_owned()));
    }
    let mut background = match create_background(nw, nh, &options.background, picture) {
        Ok(b) => b,
        Err(e) => {
            return Err(e);
        },
    };
    let ghost bg = background;
    let x = place_exec(background.width, w, options.offset.x);
    let y = place_exec(background.height, h, options.offset.y);
    overlay(&mut background, &layer, x, y);
    assert(is_frame(*input, *options, picture, background, layer, bg)) by {
        reveal(is_frame);
    }
    let res: Result<PixelBuffer, FramerError> = Ok(background);
    assert(is_frame(*input, *options, picture, res->Ok_0, layer, bg));
    res
}

/// A ratio `tw : th` that matches a `w` x `h` image lays out a canvas of
/// exactly the image's size at a scale of 100%.
proof fn lemma_matching_ratio_size(w: int, h: int, tw: int, th: int)
    requires
        w > 0,
        h > 0,
        tw > 0,
        th > 0,
        tw * h == w * th,
    ensures
        canvas_size(w, h, tw, th, 10000) == (w, h),
{
    assert(!wider_than(w, h, tw, th));
    assert(scaled(w, 10000) == w) by (nonlinear_arith)
        requires
            w > 0,
    {
        vstd::arithmetic::div_mod::lemma_fundamental_div_mod_converse(w * 10000, 10000, w, 0);
    }
    assert(w * th == h * tw) by (nonlinear_arith)
        requires
            tw * h == w * th,
    ;
    vstd::arithmetic::div_mod::lemma_fundamental_div_mod_converse(w * th, tw, h, 0);
}

/// Framing with the image's own aspect ratio (or one equal to it), at 100%
/// scale, without rounding, shadow or offset, over any background, gives a canvas of exactly the image's size with the image at
/// the origin: every opaque pixel comes out as it went in, and every fully
/// transparent one shows the background.
pub proof fn lemma_identity_frame(
    input: PixelBuffer,
    options: ProcessingOptions,
    picture: Option<&PixelBuffer>,
    out: PixelBuffer,
    layer: PixelBuffer,
    bg: PixelBuffer,
)
    requires
        input.wf(),
        input.width > 0,
        input.height > 0,
        options.scale == 10000,
        options.roundness == 0,
        options.offset.x == 0,
        options.offset.y == 0,
        options.shadow is None,
        options.ratio matches Some(r) ==> r.width > 0 && r.height > 0 && r.width * input.height
            == input.width * r.height,
        is_frame(input, options, picture, out, layer, bg),
    ensures
        out.width == input.width,
        out.height == input.height,
        bg.width == input.width,
        bg.height == input.height,
        forall|x: int, y: int|
            input.contains(x, y) ==> #[trigger] out.pixel(x, y) == over_pixel(bg.pixel(x, y), input.pixel(x, y)),
        forall|x: int, y: int|
            input.contains(x, y) && input.at(x, y, 3) == 255 ==> #[trigger] out.pixel(x, y) == input.pixel(x, y),
        forall|x: int, y: int|
            input.contains(x, y) && input.at(x, y, 3) == 0 ==> #[trigger] out.pixel(x, y) == bg.pixel(x, y),
{
    reveal(is_frame);
    let w = input.width as int;
    let h = input.height as int;
    let (tw, th) = target_ratio(w, h, options.ratio);
    if options.ratio is None {
        lemma_gcd_divides(w as nat, h as nat);
        let g = gcd_spec(w as nat, h as nat) as int;
        vstd::arithmetic::div_mod::lemma_fundamental_div_mod(w, g);
        vstd::arithmetic::div_mod::lemma_fundamental_div_mod(h, g);
        assert(tw * g == w && th * g == h);
        assert(tw > 0 && th > 0) by (nonlinear_arith)
            requires
                tw * g == w,
                th * g == h,
                w > 0,
                h > 0,
                g > 0,
        ;
        assert(tw * h == w * th) by (nonlinear_arith)
            requires
                tw * g == w,
                th * g == h,
        ;
    }
    lemma_matching_ratio_size(w, h, tw, th);
    assert(corner_radius(w, h, 0) == 0);
    assert(layer.data@ == input.data@);
    assert forall|x: int, y: int| input.contains(x, y) implies #[trigger] layer.pixel(x, y) == input.pixel(x, y) by {}
}

} // verus!
