//! RGBA8 colors and the row-major pixel buffer the whole pipeline works on.

use vstd::prelude::*;

verus! {

/// One straight (non-premultiplied) RGBA8 pixel value.
#[derive(Clone, Copy, Debug, PartialEq, Eq, Structural)]
pub struct Color {
    pub r: u8,
    pub g: u8,
    pub b: u8,
    pub a: u8,
}

impl Color {
    /// Channel `c` of the color, in the order r, g, b, a.
    pub open spec fn channel(self, c: int) -> u8 {
        if c == 0 {
            self.r
        } else if c == 1 {
            self.g
        } else if c == 2 {
            self.b
        } else {
            self.a
        }
    }
}

/// `a` covered by `b` at opacity `alpha / 255`, rounded down.
pub open spec fn mix(a: int, b: int, alpha: int) -> int {
    (a * (255 - alpha) + b * alpha) / 255
}

/// `color2` drawn over `color1` at opacity `alpha / 255`, channel by channel,
/// alpha included.
pub open spec fn blend_spec(color1: Color, color2: Color, alpha: int) -> Color {
    Color {
        r: mix(color1.r as int, color2.r as int, alpha) as u8,
        g: mix(color1.g as int, color2.g as int, alpha) as u8,
        b: mix(color1.b as int, color2.b as int, alpha) as u8,
        a: mix(color1.a as int, color2.a as int, alpha) as u8,
    }
}

fn mix_channel(a: u8, b: u8, alpha: u8) -> (r: u8)
    ensures
        r as int == mix(a as int, b as int, alpha as int),
{
    assert((a as u32) * (255 - alpha as u32) + (b as u32) * (alpha as u32) <= 255 * 255) by (nonlinear_arith)
        requires
            a <= 255,
            b <= 255,
            alpha <= 255,
    ;
    (((a as u32) * (255 - alpha as u32) + (b as u32) * (alpha as u32)) / 255) as u8
}

/// Mixes `color2` over `color1` at opacity `alpha / 255`, channel by
/// channel, alpha included: `alpha == 0` keeps `color1`, `255` gives `color2`.
pub fn blend_color(color1: Color, color2: Color, alpha: u8) -> (r: Color)
    ensures
        r == blend_spec(color1, color2, alpha as int),
{
    Color {
        r: mix_channel(color1.r, color2.r, alpha),
        g: mix_channel(color1.g, color2.g, alpha),
        b: mix_channel(color1.b, color2.b, alpha),
        a: mix_channel(color1.a, color2.a, alpha),
    }
}

/// A rectangular, row-major grid of RGBA8 pixels, four bytes per pixel.
#[derive(Debug)]
pub struct PixelBuffer {
    pub width: u32,
    pub height: u32,
    pub data: Vec<u8>,
}

/// Position of channel `c` of pixel `(x, y)` in a buffer `w` pixels wide.
pub open spec fn offset_of(w: int, x: int, y: int, c: int) -> int {
    (y * w + x) * 4 + c
}

pub proof fn lemma_offset_in_bounds(w: int, h: int, x: int, y: int, c: int)
    requires
        0 <= x < w,
        0 <= y < h,
        0 <= c < 4,
    ensures
        0 <= y * w,
        y * w + x < w * h,
        0 <= offset_of(w, x, y, c) < w * h * 4,
        offset_of(w, x, y, 0) + 3 < w * h * 4,
{
    assert(0 <= y * w + x < w * h) by (nonlinear_arith)
        requires
            0 <= x < w,
            0 <= y < h,
    ;
}

pub proof fn lemma_offset_distinct(w: int, h: int, x1: int, y1: int, c1: int, x2: int, y2: int, c2: int)
    requires
        0 <= x1 < w,
        0 <= y1 < h,
        0 <= c1 < 4,
        0 <= x2 < w,
        0 <= y2 < h,
        0 <= c2 < 4,
        x1 != x2 || y1 != y2 || c1 != c2,
    ensures
        offset_of(w, x1, y1, c1) != offset_of(w, x2, y2, c2),
{
    let p1 = y1 * w + x1;
    let p2 = y2 * w + x2;
    if p1 == p2 {
        if y1 < y2 {
            assert(y1 * w + w <= y2 * w) by (nonlinear_arith)
                requires
                    y1 < y2,
                    w > 0,
            ;
        } else if y2 < y1 {
            assert(y2 * w + w <= y1 * w) by (nonlinear_arith)
                requires
                    y2 < y1,
                    w > 0,
            ;
        }
    }
}

/// Pixel `(x, y)` and channel `c` are read back from their position.
pub proof fn lemma_offset_decompose(w: int, h: int, x: int, y: int, c: int)
    requires
        0 <= x < w,
        0 <= y < h,
        0 <= c < 4,
    ensures
        (offset_of(w, x, y, c) / 4) % w == x,
        (offset_of(w, x, y, c) / 4) / w == y,
        offset_of(w, x, y, c) % 4 == c,
{
    let q = y * w + x;
    assert(offset_of(w, x, y, c) == q * 4 + c);
    vstd::arithmetic::div_mod::lemma_fundamental_div_mod_converse(q * 4 + c, 4, q, c);
    vstd::arithmetic::div_mod::lemma_fundamental_div_mod_converse(q, w, y, x);
}

/// Every position below `w * h * 4` is that of a pixel and channel.
pub proof fn lemma_offset_compose(w: int, h: int, k: int)
    requires
        w > 0,
        0 <= k < w * h * 4,
    ensures
        0 <= (k / 4) % w < w,
        0 <= (k / 4) / w < h,
        offset_of(w, (k / 4) % w, (k / 4) / w, k % 4) == k,
{
    let q = k / 4;
    vstd::arithmetic::div_mod::lemma_fundamental_div_mod(k, 4);
    vstd::arithmetic::div_mod::lemma_fundamental_div_mod(q, w);
    assert(0 <= q < w * h);
    let y = q / w;
    let x = q % w;
    assert(0 <= y < h) by (nonlinear_arith)
        requires
            q == w * y + x,
            0 <= x < w,
            0 <= q < w * h,
    ;
    assert(y * w == w * y) by (nonlinear_arith);
}

/// A buffer agrees with a sequence of bytes when every pixel does.
pub proof fn lemma_buffer_data(img: PixelBuffer, s: Seq<u8>)
    requires
        img.wf(),
        img.width > 0,
        s.len() == img.data@.len(),
        forall|x: int, y: int, c: int|
            img.contains(x, y) && 0 <= c < 4 ==> #[trigger] img.at(x, y, c) == s[offset_of(
                img.width as int,
                x,
                y,
                c,
            )],
    ensures
        img.data@ == s,
{
    let w = img.width as int;
    let h = img.height as int;
    assert forall|k: int| 0 <= k < s.len() implies img.data@[k] == s[k] by {
        lemma_offset_compose(w, h, k);
        let x = (k / 4) % w;
        let y = (k / 4) / w;
        let c = k % 4;
        assert(img.at(x, y, c) == s[offset_of(w, x, y, c)]);
    }
    assert(img.data@ =~= s);
}

impl PixelBuffer {
    pub open spec fn wf(&self) -> bool {
        self.data@.len() == self.width as int * self.height as int * 4
    }

    pub open spec fn contains(&self, x: int, y: int) -> bool {
        0 <= x < self.width && 0 <= y < self.height
    }

    /// Channel `c` of pixel `(x, y)`.
    pub open spec fn at(&self, x: int, y: int, c: int) -> u8 {
        self.data@[offset_of(self.width as int, x, y, c)]
    }

    pub open spec fn pixel(&self, x: int, y: int) -> Color {
        Color { r: self.at(x, y, 0), g: self.at(x, y, 1), b: self.at(x, y, 2), a: self.at(x, y, 3) }
    }

    /// A `width` x `height` buffer with every pixel set to `color`.
    pub fn filled(width: u32, height: u32, color: Color) -> (r: PixelBuffer)
        requires
            width as int * height as int * 4 <= usize::MAX,
        ensures
            r.wf(),
            r.width == width,
            r.height == height,
            forall|x: int, y: int| r.contains(x, y) ==> #[trigger] r.pixel(x, y) == color,
    {
        let n: usize = (width as usize) * (height as usize);
        let mut data: Vec<u8> = Vec::with_capacity(n * 4);
        let mut i: usize = 0;
        while i < n
            invariant
                n == width as int * height as int,
                n * 4 <= usize::MAX,
                i <= n,
                data@.len() == i * 4,
                forall|k: int| 0 <= k < i * 4 ==> #[trigger] data@[k] == color.channel(k % 4),
            decreases n - i,
        {
            data.push(color.r);
            data.push(color.g);
            data.push(color.b);
            data.push(color.a);
            i = i + 1;
        }
        let r = PixelBuffer { width, height, data };
        assert forall|x: int, y: int| r.contains(x, y) implies #[trigger] r.pixel(x, y) == color by {
            lemma_offset_in_bounds(width as int, height as int, x, y, 0);
            let o = offset_of(width as int, x, y, 0);
            assert(o % 4 == 0) by (nonlinear_arith)
                requires
                    o == (y * width + x) * 4,
            ;
            assert((o + 1) % 4 == 1 && (o + 2) % 4 == 2 && (o + 3) % 4 == 3);
        }
        r
    }

    /// A copy of the buffer.
    pub fn duplicate(&self) -> (r: PixelBuffer)
        ensures
            r.width == self.width,
            r.height == self.height,
            r.data@ == self.data@,
    {
        let mut data: Vec<u8> = Vec::with_capacity(self.data.len());
        let mut i: usize = 0;
        while i < self.data.len()
            invariant
                i <= self.data@.len(),
                data@ == self.data@.take(i as int),
            decreases self.data@.len() - i,
        {
            data.push(self.data[i]);
            i = i + 1;
            assert(data@ =~= self.data@.take(i as int));
        }
        assert(data@ =~= self.data@);
        PixelBuffer { width: self.width, height: self.height, data }
    }

    /// Channel `c` of pixel `(x, y)`.
    pub fn get(&self, x: u32, y: u32, c: usize) -> (v: u8)
        requires
            self.wf(),
            self.contains(x as int, y as int),
            c < 4,
        ensures
            v == self.at(x as int, y as int, c as int),
    {
        let _len = self.data.len();
        proof {
            lemma_offset_in_bounds(self.width as int, self.height as int, x as int, y as int, c as int);
        }
        self.data[((y as usize) * (self.width as usize) + (x as usize)) * 4 + c]
    }

    pub fn get_pixel(&self, x: u32, y: u32) -> (p: Color)
        requires
            self.wf(),
            self.contains(x as int, y as int),
        ensures
            p == self.pixel(x as int, y as int),
    {
        Color { r: self.get(x, y, 0), g: self.get(x, y, 1), b: self.get(x, y, 2), a: self.get(x, y, 3) }
    }

    /// Overwrites channel `c` of pixel `(x, y)` with `v`.
    pub fn set(&mut self, x: u32, y: u32, c: usize, v: u8)
        requires
            old(self).wf(),
            old(self).contains(x as int, y as int),
            c < 4,
        ensures
            final(self).wf(),
            final(self).width == old(self).width,
            final(self).height == old(self).height,
            final(self).data@ == old(self).data@.update(
                offset_of(old(self).width as int, x as int, y as int, c as int),
                v,
            ),
    {
        let _len = self.data.len();
        proof {
            lemma_offset_in_bounds(self.width as int, self.height as int, x as int, y as int, c as int);
        }
        let i = ((y as usize) * (self.width as usize) + (x as usize)) * 4 + c;
        self.data.set(i, v);
    }

    /// Overwrites pixel `(x, y)` with `color`.
    pub fn set_pixel(&mut self, x: u32, y: u32, color: Color)
        requires
            old(self).wf(),
            old(self).contains(x as int, y as int),
        ensures
            final(self).wf(),
            final(self).width == old(self).width,
            final(self).height == old(self).height,
            forall|px: int, py: int|
                old(self).contains(px, py) ==> #[trigger] final(self).pixel(px, py) == if px == x
                    && py == y {
                    color
                } else {
                    old(self).pixel(px, py)
                },
    {
        let ghost before = *self;
        self.set(x, y, 0, color.r);
        let ghost s1 = *self;
        self.set(x, y, 1, color.g);
        let ghost s2 = *self;
        self.set(x, y, 2, color.b);
        let ghost s3 = *self;
        self.set(x, y, 3, color.a);
        proof {
            let w = before.width as int;
            let h = before.height as int;
            assert forall|px: int, py: int| before.contains(px, py) implies #[trigger] self.pixel(px, py)
                == if px == x && py == y {
                color
            } else {
                before.pixel(px, py)
            } by {
                lemma_offset_in_bounds(w, h, x as int, y as int, 0);
                lemma_offset_in_bounds(w, h, px, py, 0);
                assert forall|c: int, d: int| 0 <= c < 4 && 0 <= d < 4 && (px != x || py != y || c != d) implies
                    offset_of(w, px, py, c) != offset_of(w, x as int, y as int, d) by {
                    lemma_offset_distinct(w, h, px, py, c, x as int, y as int, d);
                }
            }
        }
    }
}

/// Relies on `image::DynamicImage::resize_to_fill` with the Lanczos3 filter:
/// the picture scaled to cover `width` x `height` and cropped to exactly that
/// size. The bytes go through `f32::sin`, whose precision std leaves open, so
/// nothing is said of them.
#[verifier::external_body]
pub(crate) fn fill_resize(picture: &PixelBuffer, width: u32, height: u32) -> (r: PixelBuffer)
    requires
        picture.wf(),
        picture.width > 0,
        picture.height > 0,
        width > 0,
        height > 0,
    ensures
        r.wf(),
        r.width == width,
        r.height == height,
{
    let source = image::RgbaImage::from_raw(picture.width, picture.height, picture.data.clone()).unwrap();
    let resized = image::DynamicImage::ImageRgba8(source).resize_to_fill(
        width,
        height,
        image::imageops::FilterType::Lanczos3,
    ).to_rgba8();
    PixelBuffer { width: resized.width(), height: resized.height(), data: resized.into_raw() }
}

/// What `image`'s RGBA8 source-over blend makes of a bottom pixel and a
/// partly transparent top pixel, each given as its four channels.
pub uninterp spec fn blend_over(bottom: Seq<u8>, top: Seq<u8>) -> Seq<u8>;

pub open spec fn channels(c: Color) -> Seq<u8> {
    seq![c.r, c.g, c.b, c.a]
}

/// `top` drawn over `bottom`: a transparent top keeps the bottom, an opaque
/// one replaces it, any other is blended.
pub open spec fn over_pixel(bottom: Color, top: Color) -> Color {
    if top.a == 0 {
        bottom
    } else if top.a == 255 {
        top
    } else {
        let m = blend_over(channels(bottom), channels(top));
        Color { r: m[0], g: m[1], b: m[2], a: m[3] }
    }
}

/// Relies on `image::imageops::overlay`: every pixel of `top` whose
/// position, shifted by `(x, y)`, falls inside `bottom` is blended over the
/// pixel there with `Rgba::blend` (transparent keeps, opaque replaces); the
/// rest of `bottom` is left as it was.
#[verifier::external_body]
pub(crate) fn overlay(bottom: &mut PixelBuffer, top: &PixelBuffer, x: i64, y: i64)
    requires
        old(bottom).wf(),
        top.wf(),
    ensures
        final(bottom).wf(),
        final(bottom).width == old(bottom).width,
        final(bottom).height == old(bottom).height,
        forall|px: int, py: int|
            old(bottom).contains(px, py) ==> #[trigger] final(bottom).pixel(px, py) == if top.contains(
                px - x,
                py - y,
            ) {
                over_pixel(old(bottom).pixel(px, py), top.pixel(px - x, py - y))
            } else {
                old(bottom).pixel(px, py)
            },
        forall|px: int, py: int|
            old(bottom).contains(px, py) && top.contains(px - x, py - y) && 0 < top.at(px - x, py - y, 3) < 255
                ==> channels(#[trigger] final(bottom).pixel(px, py)) == blend_over(
                channels(old(bottom).pixel(px, py)),
                channels(top.pixel(px - x, py - y)),
            ),
{
    let data = std::mem::take(&mut bottom.data);
    let mut canvas = image::RgbaImage::from_raw(bottom.width, bottom.height, data).unwrap();
    let layer = image::RgbaImage::from_raw(top.width, top.height, top.data.clone()).unwrap();
    image::imageops::overlay(&mut canvas, &layer, x, y);
    bottom.data = canvas.into_raw();
}

} // verus!
