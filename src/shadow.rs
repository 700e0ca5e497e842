//! Drop shadows: the alpha silhouette of an image, softened by repeated box
//! blurs, tinted, and laid under the image on a canvas grown to hold both.

use crate::color::{color_of, parse_color};
use crate::error::FramerError;
use crate::layout::Point;
use crate::pixels::{
    blend_color, blend_spec, lemma_buffer_data, lemma_offset_decompose, lemma_offset_in_bounds,
    offset_of, Color, PixelBuffer,
};
use vstd::prelude::*;

verus! {

/// How the shadow of an image is drawn.
#[derive(Debug)]
pub struct ShadowOptions {
    /// Offset of the shadow from the image, in pixels.
    pub offset: Point,
    /// Color specification of the shadow.
    pub color: String,
    /// Blur radius in pixels; also the margin kept around the silhouette.
    pub radius: u32,
    /// Opacity in thousandths; values above `1000` count as `1000`.
    pub opacity: u32,
}

/// Channel `c` of pixel `(x, y)` of raw buffer bytes `d`, `w` pixels wide.
pub open spec fn raw_at(w: int, d: Seq<u8>, x: int, y: int, c: int) -> int {
    d[offset_of(w, x, y, c)] as int
}

/// Where blur tap `k` (`0`, `1` or `2`) around coordinate `p` reads: one
/// before, at, and one after `p`, with the position before `0` read as `0`.
pub open spec fn tap(p: int, k: int) -> int {
    if p + k >= 1 {
        p + k - 1
    } else {
        0
    }
}

/// Whether tap `(kx, ky)` around `(x, y)` falls inside a `w` x `h` buffer.
pub open spec fn tap_inside(w: int, h: int, x: int, y: int, kx: int, ky: int) -> bool {
    tap(x, kx) < w && tap(y, ky) < h
}

pub open spec fn tap_value(w: int, h: int, d: Seq<u8>, x: int, y: int, kx: int, ky: int, c: int) -> int {
    if tap_inside(w, h, x, y, kx, ky) {
        raw_at(w, d, tap(x, kx), tap(y, ky), c)
    } else {
        0
    }
}

pub open spec fn tap_count(w: int, h: int, x: int, y: int, kx: int, ky: int) -> int {
    if tap_inside(w, h, x, y, kx, ky) {
        1
    } else {
        0
    }
}

pub open spec fn row_total(w: int, h: int, d: Seq<u8>, x: int, y: int, ky: int, c: int) -> int {
    tap_value(w, h, d, x, y, 0, ky, c) + tap_value(w, h, d, x, y, 1, ky, c) + tap_value(w, h, d, x, y, 2, ky, c)
}

pub open spec fn row_count(w: int, h: int, x: int, y: int, ky: int) -> int {
    tap_count(w, h, x, y, 0, ky) + tap_count(w, h, x, y, 1, ky) + tap_count(w, h, x, y, 2, ky)
}

/// Sum of channel `c` over the 3 x 3 taps around `(x, y)` that fall inside.
pub open spec fn box_total(w: int, h: int, d: Seq<u8>, x: int, y: int, c: int) -> int {
    row_total(w, h, d, x, y, 0, c) + row_total(w, h, d, x, y, 1, c) + row_total(w, h, d, x, y, 2, c)
}

/// Number of the 3 x 3 taps around `(x, y)` that fall inside.
pub open spec fn box_count(w: int, h: int, x: int, y: int) -> int {
    row_count(w, h, x, y, 0) + row_count(w, h, x, y, 1) + row_count(w, h, x, y, 2)
}

/// Channel `c` of pixel `(x, y)` after one box blur: the mean of the taps
/// inside, rounded down.
pub open spec fn box_channel(w: int, h: int, d: Seq<u8>, x: int, y: int, c: int) -> u8 {
    (box_total(w, h, d, x, y, c) / box_count(w, h, x, y)) as u8
}

/// The bytes of a `w` x `h` buffer after one 3 x 3 box blur.
pub open spec fn box_blur_data(w: int, h: int, d: Seq<u8>) -> Seq<u8> {
    Seq::new((w * h * 4) as nat, |k: int| box_channel(w, h, d, (k / 4) % w, (k / 4) / w, k % 4))
}

/// The bytes of a `w` x `h` buffer after `n` box blurs.
pub open spec fn blur_passes(w: int, h: int, d: Seq<u8>, n: nat) -> Seq<u8>
    decreases n,
{
    if n == 0 {
        d
    } else {
        box_blur_data(w, h, blur_passes(w, h, d, (n - 1) as nat))
    }
}

/// The blur tap `k` around `p`, with whether it falls below `limit`.
fn tap_position(p: u32, k: u32, limit: u32) -> (r: (u32, bool))
    requires
        p < limit,
        k < 3,
    ensures
        r.1 == (tap(p as int, k as int) < limit),
        r.1 ==> r.0 == tap(p as int, k as int),
{
    let t: u64 = if (p as u64) + (k as u64) >= 1 { (p as u64) + (k as u64) - 1 } else { 0 };
    if t < limit as u64 {
        (t as u32, true)
    } else {
        (0, false)
    }
}

/// Channel `c` of pixel `(x, y)` of `img` after one box blur.
fn blur_channel(img: &PixelBuffer, x: u32, y: u32, c: usize) -> (v: u8)
    requires
        img.wf(),
        img.contains(x as int, y as int),
        c < 4,
    ensures
        v == box_channel(img.width as int, img.height as int, img.data@, x as int, y as int, c as int),
{
    let ghost w = img.width as int;
    let ghost h = img.height as int;
    let mut total: u32 = 0;
    let mut count: u32 = 0;
    let mut ky: u32 = 0;
    while ky < 3
        invariant
            img.wf(),
            img.contains(x as int, y as int),
            c < 4,
            ky <= 3,
            w == img.width,
            h == img.height,
            total <= 255 * 3 * ky,
            count <= 3 * ky,
            total == (if ky > 0 { row_total(w, h, img.data@, x as int, y as int, 0, c as int) } else { 0 })
                + (if ky > 1 { row_total(w, h, img.data@, x as int, y as int, 1, c as int) } else { 0 })
                + (if ky > 2 { row_total(w, h, img.data@, x as int, y as int, 2, c as int) } else { 0 }),
            count == (if ky > 0 { row_count(w, h, x as int, y as int, 0) } else { 0 })
                + (if ky > 1 { row_count(w, h, x as int, y as int, 1) } else { 0 })
                + (if ky > 2 { row_count(w, h, x as int, y as int, 2) } else { 0 }),
        decreases 3 - ky,
    {
        let (sy, in_y) = tap_position(y, ky, img.height);
        let mut kx: u32 = 0;
        let mut row: u32 = 0;
        let mut n: u32 = 0;
        while kx < 3
            invariant
                img.wf(),
                img.contains(x as int, y as int),
                c < 4,
                kx <= 3,
                ky < 3,
                w == img.width,
                h == img.height,
                in_y == (tap(y as int, ky as int) < h),
                in_y ==> sy == tap(y as int, ky as int),
                row <= 255 * kx,
                n <= kx,
                row == (if kx > 0 { tap_value(w, h, img.data@, x as int, y as int, 0, ky as int, c as int) } else { 0 })
                    + (if kx > 1 { tap_value(w, h, img.data@, x as int, y as int, 1, ky as int, c as int) } else { 0 })
                    + (if kx > 2 { tap_value(w, h, img.data@, x as int, y as int, 2, ky as int, c as int) } else { 0 }),
                n == (if kx > 0 { tap_count(w, h, x as int, y as int, 0, ky as int) } else { 0 })
                    + (if kx > 1 { tap_count(w, h, x as int, y as int, 1, ky as int) } else { 0 })
                    + (if kx > 2 { tap_count(w, h, x as int, y as int, 2, ky as int) } else { 0 }),
            decreases 3 - kx,
        {
            let (sx, in_x) = tap_position(x, kx, img.width);
            if in_x && in_y {
                row = row + img.get(sx, sy, c) as u32;
                n = n + 1;
            }
            kx = kx + 1;
        }
        total = total + row;
        count = count + n;
        ky = ky + 1;
    }
    assert(tap_count(w, h, x as int, y as int, 1, 1) == 1);
    (total / count) as u8
}

/// One 3 x 3 box blur of `image`: each channel of each pixel becomes the
/// mean, rounded down, of the taps that fall inside the buffer.
pub fn box_blur(image: &PixelBuffer) -> (r: PixelBuffer)
    requires
        image.wf(),
    ensures
        r.wf(),
        r.width == image.width,
        r.height == image.height,
        r.data@ == box_blur_data(image.width as int, image.height as int, image.data@),
{
    let width = image.width;
    let height = image.height;
    let ghost w = width as int;
    let ghost h = height as int;
    let ghost target = box_blur_data(w, h, image.data@);
    let _len = image.data.len();
    let mut result = PixelBuffer::filled(width, height, Color { r: 0, g: 0, b: 0, a: 0 });
    let mut y: u32 = 0;
    while y < height
        invariant
            image.wf(),
            result.wf(),
            result.width == width == image.width,
            result.height == height == image.height,
            w == width,
            h == height,
            y <= height,
            forall|px: int, py: int, c: int|
                0 <= px < width && 0 <= py < y && 0 <= c < 4 ==> #[trigger] result.at(px, py, c)
                    == box_channel(w, h, image.data@, px, py, c),
        decreases height - y,
    {
        let mut x: u32 = 0;
        while x < width
            invariant
                image.wf(),
                result.wf(),
                result.width == width == image.width,
                result.height == height == image.height,
                w == width,
                h == height,
                y < height,
                x <= width,
                forall|px: int, py: int, c: int|
                    0 <= px < width && 0 <= py < y && 0 <= c < 4 ==> #[trigger] result.at(px, py, c)
                        == box_channel(w, h, image.data@, px, py, c),
                forall|px: int, c: int|
                    0 <= px < x && 0 <= c < 4 ==> #[trigger] result.at(px, y as int, c)
                        == box_channel(w, h, image.data@, px, y as int, c),
            decreases width - x,
        {
            let p = Color {
                r: blur_channel(image, x, y, 0),
                g: blur_channel(image, x, y, 1),
                b: blur_channel(image, x, y, 2),
                a: blur_channel(image, x, y, 3),
            };
            let ghost before = result;
            result.set_pixel(x, y, p);
            proof {
                assert forall|px: int, py: int, c: int|
                    0 <= px < width && 0 <= py <= y && 0 <= c < 4 && (py < y || px <= x) implies #[trigger] result.at(px, py, c)
                        == box_channel(w, h, image.data@, px, py, c) by {
                    let q = result.pixel(px, py);
                    assert(q == if px == x && py == y { p } else { before.pixel(px, py) });
                    assert(result.at(px, py, 0) == q.r && result.at(px, py, 1) == q.g);
                    assert(result.at(px, py, 2) == q.b && result.at(px, py, 3) == q.a);
                    if !(px == x && py == y) {
                        let o = before.pixel(px, py);
                        assert(before.at(px, py, 0) == o.r && before.at(px, py, 1) == o.g);
                        assert(before.at(px, py, 2) == o.b && before.at(px, py, 3) == o.a);
                        assert(before.at(px, py, c) == box_channel(w, h, image.data@, px, py, c));
                        assert(c == 0 || c == 1 || c == 2 || c == 3);
                    } else {
                        assert(c == 0 || c == 1 || c == 2 || c == 3);
                    }
                }
            }
            x = x + 1;
        }
        y = y + 1;
    }
    proof {
        if width > 0 {
            assert forall|x: int, y: int, c: int|
                result.contains(x, y) && 0 <= c < 4 implies #[trigger] result.at(x, y, c) == target[offset_of(w, x, y, c)] by {
                lemma_offset_decompose(w, h, x, y, c);
                lemma_offset_in_bounds(w, h, x, y, c);
            }
            lemma_buffer_data(result, target);
        } else {
            assert(result.data@ =~= target);
        }
    }
    result
}

/// `ceil(radius / 2)` box blurs of `image`, a cheap stand-in for a Gaussian
/// blur of that radius.
pub fn gaussian_blur(image: &PixelBuffer, radius: u32) -> (r: PixelBuffer)
    requires
        image.wf(),
    ensures
        r.wf(),
        r.width == image.width,
        r.height == image.height,
        r.data@ == blur_passes(image.width as int, image.height as int, image.data@, blur_iterations(radius as int) as nat),
{
    let iterations: u32 = radius / 2 + radius % 2;
    let mut result = image.duplicate();
    let mut i: u32 = 0;
    while i < iterations
        invariant
            image.wf(),
            result.wf(),
            result.width == image.width,
            result.height == image.height,
            i <= iterations,
            result.data@ == blur_passes(image.width as int, image.height as int, image.data@, i as nat),
        decreases iterations - i,
    {
        result = box_blur(&result);
        i = i + 1;
    }
    result
}

/// The number of box blurs for a blur radius: `ceil(radius / 2)`.
pub open spec fn blur_iterations(radius: int) -> int {
    (radius + 1) / 2
}

pub open spec fn abs_int(v: int) -> int {
    if v < 0 {
        -v
    } else {
        v
    }
}

/// `v` when it is positive, else `0`.
pub open spec fn pos_part(v: int) -> int {
    if v > 0 {
        v
    } else {
        0
    }
}

/// `-v` when `v` is negative, else `0`.
pub open spec fn neg_part(v: int) -> int {
    if v < 0 {
        -v
    } else {
        0
    }
}

pub open spec fn transparent() -> Color {
    Color { r: 0, g: 0, b: 0, a: 0 }
}

/// Pixel `(x, y)` of the silhouette of `img` with a margin `r` all round:
/// white with the image's alpha inside, transparent in the margin.
pub open spec fn mask_pixel(img: PixelBuffer, r: int, x: int, y: int) -> Color {
    if img.contains(x - r, y - r) {
        Color { r: 255, g: 255, b: 255, a: img.at(x - r, y - r, 3) }
    } else {
        transparent()
    }
}

/// The bytes of the silhouette of `img` with margin `r`.
pub open spec fn mask_data(img: PixelBuffer, r: int) -> Seq<u8> {
    let sw = img.width + 2 * r;
    let sh = img.height + 2 * r;
    Seq::new((sw * sh * 4) as nat, |k: int| mask_pixel(img, r, (k / 4) % sw, (k / 4) / sw).channel(k % 4))
}

/// The silhouette of `img` with margin `r`, blurred for radius `r`.
pub open spec fn blurred_mask(img: PixelBuffer, r: int) -> Seq<u8> {
    blur_passes(img.width + 2 * r, img.height + 2 * r, mask_data(img, r), blur_iterations(r) as nat)
}

/// Mask alpha `a` at an opacity of `opacity` thousandths, capped at `1000`.
pub open spec fn shadow_alpha(a: int, opacity: int) -> int {
    a * (if opacity > 1000 {
        1000
    } else {
        opacity
    }) / 1000
}

/// Pixel `(x, y)` of the canvas holding only the tinted shadow layer, whose
/// corner sits at `(dx, dy)`.
pub open spec fn layer_pixel(
    img: PixelBuffer,
    r: int,
    dx: int,
    dy: int,
    opacity: int,
    tint: Color,
    x: int,
    y: int,
) -> Color {
    let sw = img.width + 2 * r;
    let sh = img.height + 2 * r;
    let sx = x - dx;
    let sy = y - dy;
    if 0 <= sx < sw && 0 <= sy < sh {
        Color {
            r: tint.r,
            g: tint.g,
            b: tint.b,
            a: shadow_alpha(raw_at(sw, blurred_mask(img, r), sx, sy, 3), opacity) as u8,
        }
    } else {
        transparent()
    }
}

/// Pixel `(x, y)` of the drop-shadow canvas of `img`: the shadow layer at
/// `(max(0, ox), max(0, oy))`, and over it the image, blended by its own alpha, at
/// `(r + max(0, -ox), r + max(0, -oy))`.
pub open spec fn drop_shadow_pixel(
    img: PixelBuffer,
    r: int,
    ox: int,
    oy: int,
    opacity: int,
    tint: Color,
    x: int,
    y: int,
) -> Color {
    let base = layer_pixel(img, r, pos_part(ox), pos_part(oy), opacity, tint, x, y);
    let ix = x - (r + neg_part(ox));
    let iy = y - (r + neg_part(oy));
    if img.contains(ix, iy) && img.at(ix, iy, 3) > 0 {
        blend_spec(base, img.pixel(ix, iy), img.at(ix, iy, 3) as int)
    } else {
        base
    }
}

/// Whether `(u, v)` comes before the cursor `(xi, yi)` in row-major order.
pub open spec fn before_cursor(u: int, v: int, xi: int, yi: int) -> bool {
    v < yi || (v == yi && u < xi)
}

/// The silhouette of `image` with a margin of `r` pixels.
fn alpha_mask(image: &PixelBuffer, r: u32) -> (m: PixelBuffer)
    requires
        image.wf(),
        (image.width + 2 * r) * (image.height + 2 * r) * 4 <= usize::MAX,
        image.width + 2 * r <= u32::MAX,
        image.height + 2 * r <= u32::MAX,
    ensures
        m.wf(),
        m.width == image.width + 2 * r,
        m.height == image.height + 2 * r,
        m.data@ == mask_data(*image, r as int),
{
    let sw: u32 = image.width + 2 * r;
    let sh: u32 = image.height + 2 * r;
    let ghost ri = r as int;
    let mut mask = PixelBuffer::filled(sw, sh, Color { r: 0, g: 0, b: 0, a: 0 });
    let mut y: u32 = 0;
    while y < image.height
        invariant
            image.wf(),
            mask.wf(),
            mask.width == sw == image.width + 2 * r,
            mask.height == sh == image.height + 2 * r,
            ri == r,
            y <= image.height,
            forall|px: int, py: int|
                mask.contains(px, py) ==> #[trigger] mask.pixel(px, py) == if image.contains(px - ri, py - ri)
                    && before_cursor(px - ri, py - ri, 0, y as int) {
                    mask_pixel(*image, ri, px, py)
                } else {
                    transparent()
                },
        decreases image.height - y,
    {
        let mut x: u32 = 0;
        while x < image.width
            invariant
                image.wf(),
                mask.wf(),
                mask.width == sw == image.width + 2 * r,
                mask.height == sh == image.height + 2 * r,
                ri == r,
                y < image.height,
                x <= image.width,
                forall|px: int, py: int|
                    mask.contains(px, py) ==> #[trigger] mask.pixel(px, py) == if image.contains(px - ri, py - ri)
                        && before_cursor(px - ri, py - ri, x as int, y as int) {
                        mask_pixel(*image, ri, px, py)
                    } else {
                        transparent()
                    },
            decreases image.width - x,
        {
            let a = image.get(x, y, 3);
            mask.set_pixel(x + r, y + r, Color { r: 255, g: 255, b: 255, a });
            x = x + 1;
        }
        y = y + 1;
    }
    proof {
        let target = mask_data(*image, ri);
        let w = sw as int;
        let h = sh as int;
        if sw > 0 {
            assert forall|x: int, y: int, c: int|
                mask.contains(x, y) && 0 <= c < 4 implies #[trigger] mask.at(x, y, c) == target[offset_of(w, x, y, c)] by {
                lemma_offset_decompose(w, h, x, y, c);
                lemma_offset_in_bounds(w, h, x, y, c);
                let q = mask.pixel(x, y);
                assert(mask.at(x, y, 0) == q.r && mask.at(x, y, 1) == q.g);
                assert(mask.at(x, y, 2) == q.b && mask.at(x, y, 3) == q.a);
                assert(c == 0 || c == 1 || c == 2 || c == 3);
            }
            lemma_buffer_data(mask, target);
        } else {
            assert(w * h * 4 == 0) by (nonlinear_arith)
                requires
                    w == 0,
            ;
            assert(mask.data@ =~= target);
        }
    }
    mask
}

/// Width or height of the drop-shadow canvas for a source side `n`, blur
/// radius `r` and offset `o` along that axis.
pub open spec fn shadow_canvas_side(n: int, r: int, o: int) -> int {
    n + 2 * r + abs_int(o)
}

/// Whether the drop-shadow canvas of a `w` x `h` source fits in memory and
/// its sides in `u32`.
pub open spec fn shadow_fits(w: int, h: int, r: int, ox: int, oy: int) -> bool {
    let fw = shadow_canvas_side(w, r, ox);
    let fh = shadow_canvas_side(h, r, oy);
    fw <= u32::MAX && fh <= u32::MAX && fw * fh * 4 <= usize::MAX
}

/// Draws the shadow layer of `mask` tinted with `tint` at `(dx, dy)` on a
/// fresh `fw` x `fh` canvas.
fn draw_layer(
    image: &PixelBuffer,
    blurred: &PixelBuffer,
    r: u32,
    dx: u32,
    dy: u32,
    fw: u32,
    fh: u32,
    opacity: u32,
    tint: Color,
) -> (out: PixelBuffer)
    requires
        image.wf(),
        blurred.wf(),
        blurred.width == image.width + 2 * r,
        blurred.height == image.height + 2 * r,
        blurred.data@ == blurred_mask(*image, r as int),
        fw >= blurred.width + dx,
        fh >= blurred.height + dy,
        fw as int * fh as int * 4 <= usize::MAX,
    ensures
        out.wf(),
        out.width == fw,
        out.height == fh,
        forall|x: int, y: int|
            out.contains(x, y) ==> #[trigger] out.pixel(x, y) == layer_pixel(
                *image,
                r as int,
                dx as int,
                dy as int,
                opacity as int,
                tint,
                x,
                y,
            ),
{
    let op: u32 = if opacity > 1000 { 1000 } else { opacity };
    let mut out = PixelBuffer::filled(fw, fh, Color { r: 0, g: 0, b: 0, a: 0 });
    let sw = blurred.width;
    let sh = blurred.height;
    let mut y: u32 = 0;
    while y < sh
        invariant
            image.wf(),
            blurred.wf(),
            out.wf(),
            sw == blurred.width == image.width + 2 * r,
            sh == blurred.height == image.height + 2 * r,
            blurred.data@ == blurred_mask(*image, r as int),
            out.width == fw >= sw + dx,
            out.height == fh >= sh + dy,
            op as int == (if opacity > 1000 { 1000 } else { opacity as int }),
            y <= sh,
            forall|px: int, py: int|
                out.contains(px, py) ==> #[trigger] out.pixel(px, py) == if 0 <= px - dx < sw && 0 <= py - dy
                    < sh && before_cursor(px - dx, py - dy, 0, y as int) {
                    layer_pixel(*image, r as int, dx as int, dy as int, opacity as int, tint, px, py)
                } else {
                    transparent()
                },
        decreases sh - y,
    {
        let mut x: u32 = 0;
        while x < sw
            invariant
                image.wf(),
                blurred.wf(),
                out.wf(),
                sw == blurred.width == image.width + 2 * r,
                sh == blurred.height == image.height + 2 * r,
                blurred.data@ == blurred_mask(*image, r as int),
                out.width == fw >= sw + dx,
                out.height == fh >= sh + dy,
                op as int == (if opacity > 1000 { 1000 } else { opacity as int }),
                y < sh,
                x <= sw,
                forall|px: int, py: int|
                    out.contains(px, py) ==> #[trigger] out.pixel(px, py) == if 0 <= px - dx < sw && 0 <= py
                        - dy < sh && before_cursor(px - dx, py - dy, x as int, y as int) {
                        layer_pixel(*image, r as int, dx as int, dy as int, opacity as int, tint, px, py)
                    } else {
                        transparent()
                    },
            decreases sw - x,
        {
            let m = blurred.get(x, y, 3);
            assert((m as u32) * op <= 255 * 1000) by (nonlinear_arith)
                requires
                    m <= 255,
                    op <= 1000,
            ;
            let a: u32 = (m as u32) * op / 1000;
            assert(a <= 255);
            out.set_pixel(x + dx, y + dy, Color { r: tint.r, g: tint.g, b: tint.b, a: a as u8 });
            x = x + 1;
        }
        y = y + 1;
    }
    out
}

/// Draws `image` at `(ix, iy)` over `canvas`, blending each pixel with
/// alpha above zero by that alpha; fully transparent pixels leave the canvas
/// as it was.
fn draw_over(canvas: &mut PixelBuffer, image: &PixelBuffer, ix: u32, iy: u32)
    requires
        old(canvas).wf(),
        image.wf(),
        ix + image.width <= old(canvas).width,
        iy + image.height <= old(canvas).height,
    ensures
        final(canvas).wf(),
        final(canvas).width == old(canvas).width,
        final(canvas).height == old(canvas).height,
        forall|x: int, y: int|
            old(canvas).contains(x, y) ==> #[trigger] final(canvas).pixel(x, y) == if image.contains(
                x - ix,
                y - iy,
            ) && image.at(x - ix, y - iy, 3) > 0 {
                blend_spec(
                    old(canvas).pixel(x, y),
                    image.pixel(x - ix, y - iy),
                    image.at(x - ix, y - iy, 3) as int,
                )
            } else {
                old(canvas).pixel(x, y)
            },
{
    let ghost base = *canvas;
    let mut y: u32 = 0;
    while y < image.height
        invariant
            image.wf(),
            canvas.wf(),
            base.wf(),
            canvas.width == base.width,
            canvas.height == base.height,
            ix + image.width <= base.width,
            iy + image.height <= base.height,
            y <= image.height,
            forall|px: int, py: int|
                base.contains(px, py) ==> #[trigger] canvas.pixel(px, py) == if image.contains(px - ix, py - iy)
                    && before_cursor(px - ix, py - iy, 0, y as int) && image.at(px - ix, py - iy, 3) > 0 {
                    blend_spec(base.pixel(px, py), image.pixel(px - ix, py - iy), image.at(px - ix, py - iy, 3) as int)
                } else {
                    base.pixel(px, py)
                },
        decreases image.height - y,
    {
        let mut x: u32 = 0;
        while x < image.width
            invariant
                image.wf(),
                canvas.wf(),
                base.wf(),
                canvas.width == base.width,
                canvas.height == base.height,
                ix + image.width <= base.width,
                iy + image.height <= base.height,
                y < image.height,
                x <= image.width,
                forall|px: int, py: int|
                    base.contains(px, py) ==> #[trigger] canvas.pixel(px, py) == if image.contains(px - ix, py - iy)
                        && before_cursor(px - ix, py - iy, x as int, y as int) && image.at(px - ix, py - iy, 3) > 0 {
                        blend_spec(base.pixel(px, py), image.pixel(px - ix, py - iy), image.at(px - ix, py - iy, 3) as int)
                    } else {
                        base.pixel(px, py)
                    },
            decreases image.width - x,
        {
            let p = image.get_pixel(x, y);
            if p.a > 0 {
                let existing = canvas.get_pixel(x + ix, y + iy);
                canvas.set_pixel(x + ix, y + iy, blend_color(existing, p, p.a));
            }
            x = x + 1;
        }
        y = y + 1;
    }
}

/// The shadow color resolves and the drop-shadow canvas of `src` fits.
pub open spec fn shadow_ok(src: PixelBuffer, s: ShadowOptions) -> bool {
    color_of(s.color@) is Some && shadow_fits(
        src.width as int,
        src.height as int,
        s.radius as int,
        s.offset.x as int,
        s.offset.y as int,
    )
}

/// `out` is the drop-shadow canvas of `src` drawn with options `s`.
pub open spec fn is_shadowed(src: PixelBuffer, out: PixelBuffer, s: ShadowOptions) -> bool {
    let r = s.radius as int;
    &&& out.wf()
    &&& out.width == shadow_canvas_side(src.width as int, r, s.offset.x as int)
    &&& out.height == shadow_canvas_side(src.height as int, r, s.offset.y as int)
    &&& forall|x: int, y: int|
        out.contains(x, y) ==> #[trigger] out.pixel(x, y) == drop_shadow_pixel(
            src,
            r,
            s.offset.x as int,
            s.offset.y as int,
            s.opacity as int,
            color_of(s.color@)->0,
            x,
            y,
        )
}

/// Lays a drop shadow under `image`: its alpha silhouette with a margin of
/// `radius` pixels, blurred by `ceil(radius / 2)` box blurs, tinted with the
/// shadow color at the given opacity, on a canvas grown by `|offset|` on
/// each axis; the image is blended over it by its own alpha.
pub fn add_drop_shadow(image: &PixelBuffer, options: &ShadowOptions) -> (res: Result<PixelBuffer, FramerError>)
    requires
        image.wf(),
    ensures
        match res {
            Ok(out) => shadow_ok(*image, *options) && is_shadowed(*image, out, *options),
            Err(FramerError::ShadowError(_)) => color_of(options.color@) is None,
            Err(FramerError::InvalidParameter(_)) => color_of(options.color@) is Some && !shadow_ok(
                *image,
                *options,
            ),
            Err(_) => false,
        },
{
    let tint = match parse_color(options.color.as_str()) {
        Ok(c) => c,
        Err(_) => {
            return Err(FramerError::ShadowError("invalid shadow color".to_owned()));
        },
    };
    let r = options.radius;
    let ox = options.offset.x;
    let oy = options.offset.y;
    let dx: u64 = if ox < 0 { (0 - (ox as i64)) as u64 } else { ox as u64 };
    let dy: u64 = if oy < 0 { (0 - (oy as i64)) as u64 } else { oy as u64 };
    let sw: u64 = image.width as u64 + 2 * (r as u64);
    let sh: u64 = image.height as u64 + 2 * (r as u64);
    let fw: u64 = sw + dx;
    let fh: u64 = sh + dy;
    if fw > u32::MAX as u64 || fh > u32::MAX as u64 {
        return Err(FramerError::InvalidParameter("shadow canvas too large".to_owned()));
    }
    assert(fw * fh <= u32::MAX * u32::MAX) by (nonlinear_arith)
        requires
            fw <= u32::MAX,
            fh <= u32::MAX,
    ;
    if fw * fh > (usize::MAX / 4) as u64 {
        return Err(FramerError::InvalidParameter("shadow canvas too large".to_owned()));
    }
    assert(sw * sh <= fw * fh) by (nonlinear_arith)
        requires
            sw <= fw,
            sh <= fh,
    ;
    let mask = alpha_mask(image, r);
    let blurred = gaussian_blur(&mask, r);
    let lx: u32 = if ox > 0 { ox as u32 } else { 0 };
    let ly: u32 = if oy > 0 { oy as u32 } else { 0 };
    let mut out = draw_layer(image, &blurred, r, lx, ly, fw as u32, fh as u32, options.opacity, tint);
    let ix: u32 = (if ox < 0 { dx } else { 0 } + r as u64) as u32;
    let iy: u32 = (if oy < 0 { dy } else { 0 } + r as u64) as u32;
    draw_over(&mut out, image, ix, iy);
    Ok(out)
}

} // verus!
