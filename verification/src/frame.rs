//! Pixel buffers and the operations of the build on them.

use vstd::prelude::*;
use vstd::arithmetic::div_mod::{
    lemma_fundamental_div_mod, lemma_fundamental_div_mod_converse, lemma_mod_pos_bound,
};
use crate::colour::Colour;
use crate::config::{or_zero, ImageProperties, PropsView};

verus! {

/// The index of channel `c` of the pixel `(x, y)` in a buffer that holds
/// `w` pixels of `ch` channels in each row, rows from the top.
pub open spec fn offset(w: int, ch: int, x: int, y: int, c: int) -> int {
    (y * w + x) * ch + c
}

/// The column of the pixel that index `i` belongs to.
pub open spec fn column_of(w: int, ch: int, i: int) -> int {
    (i / ch) % w
}

/// The row of the pixel that index `i` belongs to.
pub open spec fn row_of(w: int, ch: int, i: int) -> int {
    (i / ch) / w
}

/// An image as plain values.
pub struct FrameView {
    pub width: int,
    pub height: int,
    pub channels: int,
    pub data: Seq<u8>,
}

impl FrameView {
    /// Three or four channels, and one byte for each channel of each pixel.
    pub open spec fn wf(self) -> bool {
        &&& self.width >= 0
        &&& self.height >= 0
        &&& (self.channels == 3 || self.channels == 4)
        &&& self.data.len() == self.width * self.height * self.channels
    }

    /// The image has a pixel `(x, y)`.
    pub open spec fn holds(self, x: int, y: int) -> bool {
        0 <= x < self.width && 0 <= y < self.height
    }

    /// Channel `c` of the pixel `(x, y)`.
    pub open spec fn pixel(self, x: int, y: int, c: int) -> u8 {
        self.data[offset(self.width, self.channels, x, y, c)]
    }

    /// The four channels of a pixel of an image that has four.
    pub open spec fn colour(self, x: int, y: int) -> Colour {
        Colour {
            r: self.pixel(x, y, 0),
            g: self.pixel(x, y, 1),
            b: self.pixel(x, y, 2),
            a: self.pixel(x, y, 3),
        }
    }
}

/// Every channel of every pixel has its own index inside the buffer.
pub proof fn lemma_offset_bound(w: int, h: int, ch: int, x: int, y: int, c: int)
    requires
        0 <= x < w,
        0 <= y < h,
        0 <= c < ch,
    ensures
        0 <= y * w + x < w * h,
        0 <= offset(w, ch, x, y, c) < w * h * ch,
{
    assert(0 <= y * w && y * w + w <= h * w && h * w == w * h) by (nonlinear_arith)
        requires
            0 <= y < h,
            0 < w,
    ;
    let p = y * w + x;
    assert(0 <= p * ch && p * ch + ch <= (w * h) * ch) by (nonlinear_arith)
        requires
            0 <= p < w * h,
            0 < ch,
    ;
}

/// The index of a channel of a pixel leads back to the pixel and the channel.
pub proof fn lemma_offset_decodes(w: int, ch: int, x: int, y: int, c: int)
    requires
        0 <= x < w,
        0 <= y,
        0 <= c < ch,
    ensures
        offset(w, ch, x, y, c) % ch == c,
        column_of(w, ch, offset(w, ch, x, y, c)) == x,
        row_of(w, ch, offset(w, ch, x, y, c)) == y,
{
    let p = y * w + x;
    lemma_fundamental_div_mod_converse(offset(w, ch, x, y, c), ch, p, c);
    lemma_fundamental_div_mod_converse(p, w, y, x);
}

/// Every index of the buffer is the index of a channel of a pixel.
pub proof fn lemma_index_decodes(w: int, h: int, ch: int, i: int)
    requires
        0 <= i < w * h * ch,
        0 <= w,
        0 <= h,
        0 < ch,
    ensures
        0 < w,
        0 <= i % ch < ch,
        0 <= column_of(w, ch, i) < w,
        0 <= row_of(w, ch, i) < h,
        offset(w, ch, column_of(w, ch, i), row_of(w, ch, i), i % ch) == i,
{
    assert(w > 0) by (nonlinear_arith)
        requires
            0 <= i < w * h * ch,
            0 <= w,
    ;
    let q = i / ch;
    lemma_fundamental_div_mod(i, ch);
    lemma_mod_pos_bound(i, ch);
    assert(0 <= q < w * h) by (nonlinear_arith)
        requires
            i == ch * q + i % ch,
            0 <= i % ch < ch,
            0 <= i < w * h * ch,
            0 < ch,
    ;
    lemma_fundamental_div_mod(q, w);
    lemma_mod_pos_bound(q, w);
    let y = q / w;
    assert(0 <= y < h) by (nonlinear_arith)
        requires
            q == w * y + q % w,
            0 <= q % w < w,
            0 <= q < w * h,
            0 < w,
    ;
    assert(offset(w, ch, q % w, y, i % ch) == i) by (nonlinear_arith)
        requires
            q == w * y + q % w,
            i == ch * q + i % ch,
    ;
}

/// An image: eight bits per channel, three or four channels per pixel,
/// the pixels of a row side by side and the rows from top to bottom.
#[derive(Debug)]
pub struct Frame {
    width: u32,
    height: u32,
    channels: u8,
    data: Vec<u8>,
}

impl View for Frame {
    type V = FrameView;

    closed spec fn view(&self) -> FrameView {
        FrameView {
            width: self.width as int,
            height: self.height as int,
            channels: self.channels as int,
            data: self.data@,
        }
    }
}

/// The byte at index `i` of an image of `w` pixels per row that shows
/// `src` moved by `(-dx, -dy)`, with `fill` where `src` has no pixel.
pub open spec fn remap_at(src: FrameView, w: int, dx: int, dy: int, fill: u8, i: int) -> u8 {
    let x = column_of(w, src.channels, i) + dx;
    let y = row_of(w, src.channels, i) + dy;
    if src.holds(x, y) {
        src.pixel(x, y, i % src.channels)
    } else {
        fill
    }
}

/// An image of `w` by `h` pixels whose pixel `(x, y)` is the pixel
/// `(x + dx, y + dy)` of `src`, and `fill` in every channel where `src`
/// has no such pixel.
pub open spec fn remapped(src: FrameView, w: int, h: int, dx: int, dy: int, fill: u8) -> FrameView {
    FrameView {
        width: w,
        height: h,
        channels: src.channels,
        data: Seq::new((w * h * src.channels) as nat, |i: int| remap_at(src, w, dx, dy, fill, i)),
    }
}

/// What `remapped` says pixel by pixel.
pub proof fn lemma_remapped(src: FrameView, w: int, h: int, dx: int, dy: int, fill: u8)
    requires
        src.wf(),
        0 <= w,
        0 <= h,
    ensures
        remapped(src, w, h, dx, dy, fill).wf(),
        forall|x: int, y: int, c: int|
            0 <= x < w && 0 <= y < h && 0 <= c < src.channels ==> #[trigger] remapped(
                src,
                w,
                h,
                dx,
                dy,
                fill,
            ).pixel(x, y, c) == (if src.holds(x + dx, y + dy) {
                src.pixel(x + dx, y + dy, c)
            } else {
                fill
            }),
{
    let r = remapped(src, w, h, dx, dy, fill);
    assert(w * h * src.channels >= 0) by (nonlinear_arith)
        requires
            0 <= w,
            0 <= h,
            0 < src.channels,
    ;
    assert forall|x: int, y: int, c: int|
        0 <= x < w && 0 <= y < h && 0 <= c < src.channels implies #[trigger] r.pixel(x, y, c) == (
    if src.holds(x + dx, y + dy) {
        src.pixel(x + dx, y + dy, c)
    } else {
        fill
    }) by {
        lemma_offset_bound(w, h, src.channels, x, y, c);
        lemma_offset_decodes(w, src.channels, x, y, c);
    }
}

impl Frame {
    #[verifier::type_invariant]
    spec fn inv(&self) -> bool {
        self@.wf()
    }

    /// An image over a buffer, if the buffer has the right length for it.
    pub fn new(width: u32, height: u32, channels: u8, data: Vec<u8>) -> (r: Option<Frame>)
        ensures
            r is Some <==> (channels == 3 || channels == 4) && data@.len() == width as int
                * height as int * channels as int,
            r matches Some(f) ==> f@ == (FrameView {
                width: width as int,
                height: height as int,
                channels: channels as int,
                data: data@,
            }),
    {
        if channels != 3 && channels != 4 {
            return None;
        }
        assert(0 <= width as int * height as int <= 0x1_0000_0000 * 0x1_0000_0000)
            by (nonlinear_arith)
            requires
                0 <= width <= 0xffff_ffff,
                0 <= height <= 0xffff_ffff,
        ;
        let area: u128 = (width as u128) * (height as u128);
        assert(0 <= area as int * channels as int <= 0x1_0000_0000 * 0x1_0000_0000 * 4)
            by (nonlinear_arith)
            requires
                0 <= area <= 0x1_0000_0000 * 0x1_0000_0000,
                0 <= channels <= 4,
        ;
        let n: u128 = area * (channels as u128);
        if data.len() as u128 != n {
            return None;
        }
        Some(Frame { width, height, channels, data })
    }

    /// The number of pixels in a row.
    pub fn width(&self) -> (r: u32)
        ensures
            r == self@.width,
    {
        self.width
    }

    /// The number of rows.
    pub fn height(&self) -> (r: u32)
        ensures
            r == self@.height,
    {
        self.height
    }

    /// The number of channels of a pixel: 3 or 4.
    pub fn channels(&self) -> (r: u8)
        ensures
            r == self@.channels,
            r == 3 || r == 4,
    {
        proof {
            use_type_invariant(self);
        }
        self.channels
    }

    /// The bytes of the image.
    pub fn as_raw(&self) -> (r: &Vec<u8>)
        ensures
            r@ == self@.data,
            self@.wf(),
    {
        proof {
            use_type_invariant(self);
        }
        &self.data
    }

    /// The bytes of the image, which is given up for them.
    pub fn into_raw(self) -> (r: Vec<u8>)
        ensures
            r@ == self@.data,
            self@.wf(),
    {
        proof {
            use_type_invariant(&self);
        }
        self.data
    }

    /// A copy of a window of `self`, `w` by `h` pixels, whose top left
    /// corner is the pixel `(dx, dy)` of `self`. Where the window reaches
    /// beyond the image, every channel holds `fill`.
    pub fn remap(&self, w: u32, h: u32, dx: i64, dy: i64, fill: u8) -> (r: Frame)
        requires
            w as int * h as int * self@.channels <= usize::MAX,
            -0x1_0000_0000 <= dx <= 0x1_0000_0000,
            -0x1_0000_0000 <= dy <= 0x1_0000_0000,
        ensures
            r@ == remapped(self@, w as int, h as int, dx as int, dy as int, fill),
            r@.wf(),
    {
        proof {
            use_type_invariant(self);
            lemma_remapped(self@, w as int, h as int, dx as int, dy as int, fill);
        }
        let ch: usize = self.channels as usize;
        let sw: usize = self.width as usize;
        let sh: usize = self.height as usize;
        assert(w as int * h as int <= w as int * h as int * ch as int && 0 <= w as int
            * h as int) by (nonlinear_arith)
            requires
                0 <= w,
                0 <= h,
                1 <= ch,
        ;
        let n: usize = (w as usize) * (h as usize) * ch;
        let len: usize = self.data.len();
        let mut out: Vec<u8> = Vec::with_capacity(n);
        let mut i: usize = 0;
        while i < n
            invariant
                i <= n,
                len == sw as int * sh as int * ch as int,
                n == w as int * h as int * ch as int,
                ch == self@.channels,
                sw == self@.width,
                sh == self@.height,
                self@.wf(),
                self.data@ == self@.data,
                -0x1_0000_0000 <= dx <= 0x1_0000_0000,
                -0x1_0000_0000 <= dy <= 0x1_0000_0000,
                out@.len() == i,
                forall|j: int|
                    0 <= j < i ==> #[trigger] out@[j] == remap_at(
                        self@,
                        w as int,
                        dx as int,
                        dy as int,
                        fill,
                        j,
                    ),
            decreases n - i,
        {
            proof {
                lemma_index_decodes(w as int, h as int, ch as int, i as int);
            }
            let c = i % ch;
            let q = i / ch;
            let x = q % (w as usize);
            let y = q / (w as usize);
            let sx: i64 = x as i64 + dx;
            let sy: i64 = y as i64 + dy;
            let v = if 0 <= sx && sx < sw as i64 && 0 <= sy && sy < sh as i64 {
                proof {
                    lemma_offset_bound(sw as int, sh as int, ch as int, sx as int, sy as int, c as int);
                    assert(0 <= sy as int * sw as int) by (nonlinear_arith)
                        requires
                            0 <= sy,
                            0 <= sw,
                    ;
                    assert(sw as int * sh as int <= sw as int * sh as int * ch as int)
                        by (nonlinear_arith)
                        requires
                            0 <= sw as int * sh as int,
                            1 <= ch,
                    ;
                    assert((sy as int * sw as int + sx as int) * ch as int <= offset(
                        sw as int,
                        ch as int,
                        sx as int,
                        sy as int,
                        c as int,
                    ));
                }
                self.data[((sy as usize) * sw + (sx as usize)) * ch + c]
            } else {
                fill
            };
            out.push(v);
            i = i + 1;
        }
        proof {
            assert(out@ =~= remapped(self@, w as int, h as int, dx as int, dy as int, fill).data);
        }
        Frame { width: w, height: h, channels: self.channels, data: out }
    }
}

/// The colour that results when `over` is painted over `under`, each with
/// its own transparency, as the `image` crate blends two RGBA pixels.
pub uninterp spec fn blended(under: Colour, over: Colour) -> Colour;

/// Paints one RGBA pixel over another.
///
/// Trusted: calls `Pixel::blend` of the `image` crate on `Rgba<u8>` and
/// names its result. Two facts are taken from its source: a fully
/// transparent pixel changes nothing, and a fully opaque one replaces
/// what it is painted over.
#[verifier::external_body]
fn blend(under: Colour, over: Colour) -> (r: Colour)
    ensures
        r == blended(under, over),
        over.a == 0 ==> r == under,
        over.a == 255 ==> r == over,
{
    let mut p = image::Rgba([under.r, under.g, under.b, under.a]);
    image::Pixel::blend(&mut p, &image::Rgba([over.r, over.g, over.b, over.a]));
    Colour { r: p.0[0], g: p.0[1], b: p.0[2], a: p.0[3] }
}

/// The padding colour of the settings: opaque black where none is set.
pub open spec fn background_of(props: PropsView) -> Colour {
    match props.background {
        Some(c) => c,
        None => Colour { r: 0, g: 0, b: 0, a: 0xff },
    }
}

/// The pixel `(x, y)` of a cropped and padded image: the pixel of the
/// source that lies `left` columns further right and `top` rows further
/// down, painted over the background; the background alone where the
/// source has no such pixel.
pub open spec fn crop_pixel(src: FrameView, props: PropsView, x: int, y: int) -> Colour {
    let sx = x + or_zero(props.left);
    let sy = y + or_zero(props.top);
    if src.holds(sx, sy) {
        blended(background_of(props), src.colour(sx, sy))
    } else {
        background_of(props)
    }
}

/// The pixel `(x, y)` of the BGRA form of an image: blue, green, red, and
/// the transparency of the pixel, opaque where the image has none.
pub open spec fn bgra_pixel(src: FrameView, x: int, y: int) -> Colour {
    Colour {
        r: src.pixel(x, y, 2),
        g: src.pixel(x, y, 1),
        b: src.pixel(x, y, 0),
        a: if src.channels == 4 {
            src.pixel(x, y, 3)
        } else {
            255
        },
    }
}

/// Where pixel `p`, counted along the rows, has its four channels.
proof fn lemma_pixel_index(w: int, h: int, p: int)
    requires
        0 <= p < w * h,
        0 <= w,
        0 <= h,
    ensures
        0 < w,
        0 <= p % w < w,
        0 <= p / w < h,
        (p / w) * w + p % w == p,
        forall|c: int| 0 <= c < 4 ==> offset(w, 4, p % w, p / w, c) == #[trigger] (p * 4 + c),
{
    assert(w > 0) by (nonlinear_arith)
        requires
            0 <= p < w * h,
            0 <= w,
    ;
    lemma_fundamental_div_mod(p, w);
    lemma_mod_pos_bound(p, w);
    let y = p / w;
    assert(0 <= y < h) by (nonlinear_arith)
        requires
            p == w * y + p % w,
            0 <= p % w < w,
            0 <= p < w * h,
            0 < w,
    ;
    assert(y * w + p % w == p) by (nonlinear_arith)
        requires
            p == w * y + p % w,
    ;
}

/// The pixel `(x, y)` is pixel number `y * w + x` along the rows.
proof fn lemma_pixel_number(w: int, h: int, x: int, y: int)
    requires
        0 <= x < w,
        0 <= y < h,
    ensures
        0 <= y * w + x < w * h,
        (y * w + x) % w == x,
        (y * w + x) / w == y,
{
    lemma_offset_bound(w, h, 1, x, y, 0);
    lemma_fundamental_div_mod_converse(y * w + x, w, y, x);
}

impl Frame {
    /// The four channels of the pixel `(x, y)` of an image that has four.
    fn colour_at(&self, x: usize, y: usize) -> (r: Colour)
        requires
            self@.channels == 4,
            x < self@.width,
            y < self@.height,
        ensures
            r == self@.colour(x as int, y as int),
    {
        proof {
            use_type_invariant(self);
            lemma_offset_bound(self@.width, self@.height, 4, x as int, y as int, 0);
            lemma_offset_bound(self@.width, self@.height, 4, x as int, y as int, 3);
            assert(0 <= y as int * self@.width) by (nonlinear_arith)
                requires
                    0 <= y,
                    0 <= self@.width,
            ;
        }
        let len: usize = self.data.len();
        let base: usize = (y * (self.width as usize) + x) * 4;
        Colour {
            r: self.data[base],
            g: self.data[base + 1],
            b: self.data[base + 2],
            a: self.data[base + 3],
        }
    }

    /// The image cropped and padded as the settings say: each inset is
    /// taken off its side where positive and added to it in the background
    /// colour where negative, and the source is painted over the background.
    pub fn crop_pad(&self, props: &ImageProperties, w: u32, h: u32) -> (r: Frame)
        requires
            self@.channels == 4,
            w as int * h as int * 4 <= usize::MAX,
        ensures
            r@.wf(),
            r@.width == w,
            r@.height == h,
            r@.channels == 4,
            forall|x: int, y: int|
                0 <= x < w && 0 <= y < h ==> #[trigger] r@.colour(x, y) == crop_pixel(
                    self@,
                    props@,
                    x,
                    y,
                ),
    {
        proof {
            use_type_invariant(self);
            assert(0 <= w as int * h as int) by (nonlinear_arith)
                requires
                    0 <= w,
                    0 <= h,
            ;
        }
        let bg: Colour = match props.background {
            Some(c) => c,
            None => Colour { r: 0, g: 0, b: 0, a: 0xff },
        };
        let left: i64 = match props.left {
            Some(v) => v as i64,
            None => 0,
        };
        let top: i64 = match props.top {
            Some(v) => v as i64,
            None => 0,
        };
        let count: usize = (w as usize) * (h as usize);
        let mut out: Vec<u8> = Vec::with_capacity(count * 4);
        let mut p: usize = 0;
        while p < count
            invariant
                p <= count,
                count == w as int * h as int,
                count * 4 <= usize::MAX,
                self@.channels == 4,
                self@.wf(),
                bg == background_of(props@),
                left == or_zero(props@.left),
                top == or_zero(props@.top),
                out@.len() == p * 4,
                forall|q: int|
                    0 <= q < p ==> (Colour {
                        r: #[trigger] out@[q * 4],
                        g: out@[q * 4 + 1],
                        b: out@[q * 4 + 2],
                        a: out@[q * 4 + 3],
                    }) == crop_pixel(self@, props@, q % (w as int), q / (w as int)),
            decreases count - p,
        {
            proof {
                lemma_pixel_index(w as int, h as int, p as int);
            }
            let x = p % (w as usize);
            let y = p / (w as usize);
            let sx: i64 = x as i64 + left;
            let sy: i64 = y as i64 + top;
            let c = if 0 <= sx && sx < self.width as i64 && 0 <= sy && sy < self.height as i64 {
                blend(bg, self.colour_at(sx as usize, sy as usize))
            } else {
                bg
            };
            let ghost before = out@;
            out.push(c.r);
            out.push(c.g);
            out.push(c.b);
            out.push(c.a);
            proof {
                assert forall|q: int| 0 <= q < p + 1 implies (Colour {
                    r: #[trigger] out@[q * 4],
                    g: out@[q * 4 + 1],
                    b: out@[q * 4 + 2],
                    a: out@[q * 4 + 3],
                }) == crop_pixel(self@, props@, q % (w as int), q / (w as int)) by {
                    if q < p {
                        assert(out@[q * 4] == before[q * 4]);
                        assert(out@[q * 4 + 1] == before[q * 4 + 1]);
                        assert(out@[q * 4 + 2] == before[q * 4 + 2]);
                        assert(out@[q * 4 + 3] == before[q * 4 + 3]);
                    }
                }
            }
            p = p + 1;
        }
        let r = Frame { width: w, height: h, channels: 4, data: out };
        proof {
            assert forall|x: int, y: int| 0 <= x < w && 0 <= y < h implies #[trigger] r@.colour(
                x,
                y,
            ) == crop_pixel(self@, props@, x, y) by {
                lemma_pixel_number(w as int, h as int, x, y);
                let q = y * w + x;
                assert(out@[q * 4] == r@.pixel(x, y, 0));
                assert(out@[q * 4 + 1] == r@.pixel(x, y, 1));
                assert(out@[q * 4 + 2] == r@.pixel(x, y, 2));
                assert(out@[q * 4 + 3] == r@.pixel(x, y, 3));
            }
        }
        r
    }

    /// The image in the channel order blue, green, red, alpha. An image
    /// without transparency becomes opaque.
    pub fn to_bgra(&self) -> (r: Frame)
        requires
            self@.width * self@.height * 4 <= usize::MAX,
        ensures
            r@.wf(),
            r@.width == self@.width,
            r@.height == self@.height,
            r@.channels == 4,
            forall|x: int, y: int|
                0 <= x < self@.width && 0 <= y < self@.height ==> #[trigger] r@.colour(x, y)
                    == bgra_pixel(self@, x, y),
    {
        proof {
            use_type_invariant(self);
            assert(0 <= self@.width * self@.height) by (nonlinear_arith)
                requires
                    0 <= self@.width,
                    0 <= self@.height,
            ;
        }
        let ch: usize = self.channels as usize;
        let w: usize = self.width as usize;
        let count: usize = (self.width as usize) * (self.height as usize);
        let len: usize = self.data.len();
        let mut out: Vec<u8> = Vec::with_capacity(count * 4);
        let mut p: usize = 0;
        while p < count
            invariant
                p <= count,
                count == self@.width * self@.height,
                count * 4 <= usize::MAX,
                ch == self@.channels,
                w == self@.width,
                self@.wf(),
                self.data@ == self@.data,
                len == self@.width * self@.height * self@.channels,
                out@.len() == p * 4,
                forall|q: int|
                    0 <= q < p ==> (Colour {
                        r: #[trigger] out@[q * 4],
                        g: out@[q * 4 + 1],
                        b: out@[q * 4 + 2],
                        a: out@[q * 4 + 3],
                    }) == bgra_pixel(self@, q % (w as int), q / (w as int)),
            decreases count - p,
        {
            proof {
                lemma_pixel_index(w as int, self@.height, p as int);
                let x = p as int % w as int;
                let y = p as int / w as int;
                lemma_offset_bound(w as int, self@.height, ch as int, x, y, 0);
                lemma_offset_bound(w as int, self@.height, ch as int, x, y, 2);
                assert(offset(w as int, ch as int, x, y, 0) == p * ch) by (nonlinear_arith)
                    requires
                        y * w + x == p,
                        offset(w as int, ch as int, x, y, 0) == (y * w + x) * ch + 0,
                ;
                if ch == 4 {
                    lemma_offset_bound(w as int, self@.height, ch as int, x, y, 3);
                }
            }
            let base: usize = p * ch;
            let alpha: u8 = if ch == 4 {
                self.data[base + 3]
            } else {
                255
            };
            let ghost before = out@;
            out.push(self.data[base + 2]);
            out.push(self.data[base + 1]);
            out.push(self.data[base]);
            out.push(alpha);
            proof {
                assert forall|q: int| 0 <= q < p + 1 implies (Colour {
                    r: #[trigger] out@[q * 4],
                    g: out@[q * 4 + 1],
                    b: out@[q * 4 + 2],
                    a: out@[q * 4 + 3],
                }) == bgra_pixel(self@, q % (w as int), q / (w as int)) by {
                    if q < p {
                        assert(out@[q * 4] == before[q * 4]);
                        assert(out@[q * 4 + 1] == before[q * 4 + 1]);
                        assert(out@[q * 4 + 2] == before[q * 4 + 2]);
                        assert(out@[q * 4 + 3] == before[q * 4 + 3]);
                    }
                }
            }
            p = p + 1;
        }
        let r = Frame { width: self.width, height: self.height, channels: 4, data: out };
        proof {
            assert forall|x: int, y: int|
                0 <= x < self@.width && 0 <= y < self@.height implies #[trigger] r@.colour(x, y)
                == bgra_pixel(self@, x, y) by {
                lemma_pixel_number(self@.width, self@.height, x, y);
                let q = y * self@.width + x;
                assert(out@[q * 4] == r@.pixel(x, y, 0));
                assert(out@[q * 4 + 1] == r@.pixel(x, y, 1));
                assert(out@[q * 4 + 2] == r@.pixel(x, y, 2));
                assert(out@[q * 4 + 3] == r@.pixel(x, y, 3));
            }
        }
        r
    }
}

} // verus!
