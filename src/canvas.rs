use vstd::prelude::*;
use vstd::arithmetic::div_mod::lemma_fundamental_div_mod_converse;
use vstd::string::StringSliceAdditionalSpecFns;

use crate::color::{css_color, parse_css_color, Color};

verus! {

/// The most bytes a row of pixels may take in a surface that is exported:
/// the PNG encoder's pixmaps index rows with an `i32`.
pub const MAX_ROW_BYTES: u64 = 2147483647;

/// Why a surface could not be made.
#[derive(Clone, Copy, Debug, PartialEq, Eq, Structural)]
pub enum GeometryError {
    /// A width or height of zero, or a buffer that does not fit in the
    /// address space.
    InvalidGeometry { width: u32, height: u32 },
}

/// Whether a buffer of `width` x `height` pixels can be allocated.
pub open spec fn valid_size(width: int, height: int) -> bool {
    &&& width >= 1
    &&& height >= 1
    &&& width * height * 4 <= usize::MAX
}

/// A straight channel from premultiplied `p` under alpha `a`: `p * 255 / a`
/// rounded half up and clamped to 255; zero where the alpha is zero.
pub open spec fn unpremul(p: int, a: int) -> int {
    if a == 0 {
        0
    } else if (p * 510 + a) / (2 * a) > 255 {
        255
    } else {
        (p * 510 + a) / (2 * a)
    }
}

/// Source-over of a premultiplied source channel `src` with alpha `sa` onto a
/// premultiplied destination channel `dst`. The destination's share
/// `dst * (255 - sa) / 255` is taken as `(v + 255) / 256`, the 8-bit
/// division by 255 of tiny-skia's raster pipeline.
pub open spec fn blend(src: int, dst: int, sa: int) -> int {
    src + (dst * (255 - sa) + 255) / 256
}

/// Whether pixel `(px, py)` lies in the rectangle at `(x, y)` of size `w` x `h`.
pub open spec fn covers(x: int, y: int, w: int, h: int, px: int, py: int) -> bool {
    x <= px < x + w && y <= py < y + h
}

proof fn lemma_pixel_offset(px: int, py: int, w: int, h: int)
    requires
        0 <= px < w,
        0 <= py < h,
    ensures
        0 <= (py * w + px) * 4,
        (py * w + px) * 4 + 3 < w * h * 4,
{
    assert(py * w + px < w * h) by (nonlinear_arith)
        requires 0 <= px < w, 0 <= py < h;
    assert(0 <= py * w) by (nonlinear_arith)
        requires 0 <= py, 0 <= w;
}

proof fn lemma_blend_mono(src: int, dst: int, sa: int, da: int)
    requires
        0 <= src <= sa <= 255,
        0 <= dst <= da <= 255,
    ensures
        blend(src, dst, sa) <= blend(sa, da, sa),
{
    assert(dst * (255 - sa) + 255 <= da * (255 - sa) + 255) by (nonlinear_arith)
        requires 0 <= dst <= da, sa <= 255;
    vstd::arithmetic::div_mod::lemma_div_is_ordered(dst * (255 - sa) + 255, da * (255 - sa) + 255, 256);
}

proof fn lemma_fill_premultiplied(start: CanvasContext, v: Seq<u8>, x: int, y: int, w: int, h: int)
    requires
        start.wf(),
        v.len() == start.spec_pixels().len(),
        forall|i: int| 0 <= i < v.len() ==> v[i] == start.filled_byte(x, y, w, h, i),
    ensures
        forall|i: int| 0 <= i < v.len() && i % 4 != 3 ==> #[trigger] v[i] <= v[i - i % 4 + 3],
{
    let paint = start.spec_paint();
    assert forall|i: int| 0 <= i < v.len() && i % 4 != 3 implies #[trigger] v[i] <= v[i - i % 4 + 3] by {
        let j = i - i % 4 + 3;
        assert(j / 4 == i / 4);
        assert(j % 4 == 3);
        assert(start.spec_pixels()[i] <= start.spec_pixels()[j]);
        lemma_blend_mono(paint.channel(i % 4), start.spec_pixels()[i] as int, paint.a as int, start.spec_pixels()[j] as int);
    }
}

/// `blend` on bytes.
fn blend_byte(src: u8, dst: u8, sa: u8) -> (r: u8)
    requires
        src <= sa,
    ensures
        r == blend(src as int, dst as int, sa as int),
{
    assert((dst as int) * (255 - sa as int) <= 255 * (255 - sa as int)) by (nonlinear_arith)
        requires dst <= 255, sa <= 255;
    let keep: u32 = (dst as u32 * (255 - sa as u32) + 255) / 256;
    assert(keep <= 255 - sa);
    src + keep as u8
}

/// A drawing surface: a premultiplied RGBA buffer, row-major from the top
/// left, with its current fill paint. Drawing uses the identity transform;
/// the font is an id into a font table that no drawing reads yet.
pub struct CanvasContext {
    width: u32,
    height: u32,
    pixels: Vec<u8>,
    paint: Color,
    font: Option<u32>,
    font_size: u32,
}

impl CanvasContext {
    pub closed spec fn spec_width(self) -> int {
        self.width as int
    }

    pub closed spec fn spec_height(self) -> int {
        self.height as int
    }

    /// The buffer, four premultiplied bytes per pixel.
    pub closed spec fn spec_pixels(self) -> Seq<u8> {
        self.pixels@
    }

    pub closed spec fn spec_paint(self) -> Color {
        self.paint
    }

    pub closed spec fn spec_font(self) -> Option<u32> {
        self.font
    }

    pub closed spec fn spec_font_size(self) -> int {
        self.font_size as int
    }

    /// No stored color byte exceeds the alpha byte of its pixel.
    pub open spec fn premultiplied_pixels(self) -> bool {
        forall|i: int|
            0 <= i < self.spec_pixels().len() && i % 4 != 3 ==> #[trigger] self.spec_pixels()[i]
                <= self.spec_pixels()[i - i % 4 + 3]
    }

    pub open spec fn wf(self) -> bool {
        &&& valid_size(self.spec_width(), self.spec_height())
        &&& self.spec_pixels().len() == self.spec_width() * self.spec_height() * 4
        &&& self.spec_paint().is_premultiplied()
        &&& self.premultiplied_pixels()
    }

    pub open spec fn in_bounds(self, px: int, py: int) -> bool {
        0 <= px < self.spec_width() && 0 <= py < self.spec_height()
    }

    /// Stored byte `k` of pixel `(px, py)`.
    pub open spec fn byte_at(self, px: int, py: int, k: int) -> int {
        self.spec_pixels()[(py * self.spec_width() + px) * 4 + k] as int
    }

    /// Byte `k` of pixel `(px, py)` as it is read out: straight alpha, and
    /// transparent black off the surface or where the alpha is zero.
    pub open spec fn read_byte(self, px: int, py: int, k: int) -> int {
        if !self.in_bounds(px, py) || self.byte_at(px, py, 3) == 0 {
            0
        } else if k == 3 {
            self.byte_at(px, py, 3)
        } else {
            unpremul(self.byte_at(px, py, k), self.byte_at(px, py, 3))
        }
    }

    /// Byte `i` of the region at `(x, y)`, `w` pixels wide, read row by row.
    pub open spec fn region_byte(self, x: int, y: int, w: int, i: int) -> int {
        self.read_byte(x + (i / 4) % w, y + (i / 4) / w, i % 4)
    }

    /// Number of bytes in a region of `w` x `h` pixels; none when either is
    /// not positive.
    pub open spec fn region_len(w: int, h: int) -> int {
        if w <= 0 || h <= 0 { 0 } else { w * h * 4 }
    }

    /// Byte `i` of the buffer once the rectangle at `(x, y)` of size `w` x `h`
    /// is filled with the paint.
    pub open spec fn filled_byte(self, x: int, y: int, w: int, h: int, i: int) -> int {
        let p = i / 4;
        let px = p % self.spec_width();
        let py = p / self.spec_width();
        if covers(x, y, w, h, px, py) {
            blend(self.spec_paint().channel(i % 4), self.spec_pixels()[i] as int, self.spec_paint().a as int)
        } else {
            self.spec_pixels()[i] as int
        }
    }

    /// `v` is the region at `(x, y)` of `w` x `h` pixels as it is read out.
    pub open spec fn is_region(self, v: Seq<u8>, x: int, y: int, w: int, h: int) -> bool {
        &&& v.len() == Self::region_len(w, h)
        &&& forall|i: int| 0 <= i < v.len() ==> v[i] == self.region_byte(x, y, w, i)
    }

    /// What `fill_rect` leaves: `after` is `self` with the rectangle at
    /// `(x, y)` of size `w` x `h` filled with the paint.
    pub open spec fn fill_result(self, after: CanvasContext, x: int, y: int, w: int, h: int) -> bool {
        &&& after.wf()
        &&& after.spec_width() == self.spec_width()
        &&& after.spec_height() == self.spec_height()
        &&& after.spec_paint() == self.spec_paint()
        &&& after.spec_font() == self.spec_font()
        &&& after.spec_font_size() == self.spec_font_size()
        &&& after.spec_pixels().len() == self.spec_pixels().len()
        &&& forall|i: int|
            0 <= i < self.spec_pixels().len() ==> after.spec_pixels()[i] == self.filled_byte(x, y, w, h, i)
    }

    /// What `set_fill_style` leaves: `after` is `self` painting the color
    /// that the text `s` stands for.
    pub open spec fn style_result(self, after: CanvasContext, s: Seq<u8>) -> bool {
        &&& after.wf()
        &&& after.spec_paint() == css_color(s)
        &&& after.spec_pixels() == self.spec_pixels()
        &&& after.spec_width() == self.spec_width()
        &&& after.spec_height() == self.spec_height()
        &&& after.spec_font() == self.spec_font()
        &&& after.spec_font_size() == self.spec_font_size()
    }

    /// A fresh surface of `width` x `height`: transparent, painting opaque
    /// black, no font, font size 12.
    pub open spec fn is_fresh(self, width: int, height: int) -> bool {
        &&& self.wf()
        &&& self.spec_width() == width
        &&& self.spec_height() == height
        &&& forall|i: int| 0 <= i < self.spec_pixels().len() ==> self.spec_pixels()[i] == 0
        &&& self.spec_paint() == crate::color::black()
        &&& self.spec_font() is None
        &&& self.spec_font_size() == 12
    }

    /// A transparent surface of `width` x `height` pixels painting opaque
    /// black, or `InvalidGeometry` where that size cannot be held.
    pub fn new(width: u32, height: u32) -> (r: Result<CanvasContext, GeometryError>)
        ensures
            match r {
                Ok(c) => valid_size(width as int, height as int) && c.is_fresh(width as int, height as int),
                Err(e) => {
                    &&& !valid_size(width as int, height as int)
                    &&& e == GeometryError::InvalidGeometry { width, height }
                },
            },
    {
        if width == 0 || height == 0 {
            return Err(GeometryError::InvalidGeometry { width, height });
        }
        assert(width as u128 * height as u128 * 4 <= 0xffff_ffff * 0xffff_ffff * 4) by (nonlinear_arith)
            requires width <= 0xffff_ffff, height <= 0xffff_ffff;
        let bytes: u128 = width as u128 * height as u128 * 4;
        if bytes > usize::MAX as u128 {
            return Err(GeometryError::InvalidGeometry { width, height });
        }
        let len: usize = bytes as usize;
        let mut pixels: Vec<u8> = Vec::new();
        let mut i: usize = 0;
        while i < len
            invariant
                i <= len,
                len == width * height * 4,
                pixels@.len() == i,
                forall|j: int| 0 <= j < i ==> pixels@[j] == 0,
            decreases len - i,
        {
            pixels.push(0);
            i = i + 1;
        }
        Ok(CanvasContext { width, height, pixels, paint: Color::black(), font: None, font_size: 12 })
    }

    pub fn width(&self) -> (r: u32)
        ensures
            r == self.spec_width(),
    {
        self.width
    }

    pub fn height(&self) -> (r: u32)
        ensures
            r == self.spec_height(),
    {
        self.height
    }

    pub fn paint(&self) -> (r: Color)
        ensures
            r == self.spec_paint(),
    {
        self.paint
    }

    /// The premultiplied buffer, four bytes per pixel, row-major.
    pub fn data(&self) -> (r: &Vec<u8>)
        ensures
            r@ == self.spec_pixels(),
    {
        &self.pixels
    }

    /// Straight byte from premultiplied `p` under alpha `a`, as `unpremul`.
    fn unpremultiply(p: u8, a: u8) -> (r: u8)
        ensures
            r == unpremul(p as int, a as int),
    {
        if a == 0 {
            return 0;
        }
        let v: u32 = (p as u32 * 510 + a as u32) / (2 * a as u32);
        if v > 255 { 255 } else { v as u8 }
    }

    /// The four bytes of pixel `(px, py)` as `read_byte` gives them.
    fn read_pixel(&self, px: i64, py: i64) -> (r: (u8, u8, u8, u8))
        requires
            self.wf(),
        ensures
            r.0 == self.read_byte(px as int, py as int, 0),
            r.1 == self.read_byte(px as int, py as int, 1),
            r.2 == self.read_byte(px as int, py as int, 2),
            r.3 == self.read_byte(px as int, py as int, 3),
    {
        if px < 0 || py < 0 || px >= self.width as i64 || py >= self.height as i64 {
            return (0, 0, 0, 0);
        }
        let wd = self.width as u64;
        proof {
            lemma_pixel_offset(px as int, py as int, self.width as int, self.height as int);
        }
        let off: usize = ((py as u64 * wd + px as u64) * 4) as usize;
        let a = self.pixels[off + 3];
        if a == 0 {
            return (0, 0, 0, 0);
        }
        (
            Self::unpremultiply(self.pixels[off], a),
            Self::unpremultiply(self.pixels[off + 1], a),
            Self::unpremultiply(self.pixels[off + 2], a),
            a,
        )
    }

    /// The `w` x `h` pixels at `(x, y)`, row by row, four bytes each, in
    /// straight alpha; pixels off the surface or of zero alpha read as
    /// transparent black.
    #[verifier::rlimit(40)]
    pub fn get_unpremultiplied_rect(&self, x: i32, y: i32, w: i32, h: i32) -> (r: Vec<u8>)
        requires
            self.wf(),
        ensures
            self.is_region(r@, x as int, y as int, w as int, h as int),
    {
        let mut out: Vec<u8> = Vec::new();
        if w <= 0 || h <= 0 {
            return out;
        }
        assert(w as u64 * h as u64 <= 0x8000_0000 * 0x8000_0000) by (nonlinear_arith)
            requires 0 < w <= 0x8000_0000, 0 < h <= 0x8000_0000;
        let total: u64 = w as u64 * h as u64;
        let mut p: u64 = 0;
        let mut row: i64 = 0;
        let mut col: i64 = 0;
        while p < total
            invariant
                self.wf(),
                0 < w,
                0 < h,
                total == w * h,
                p <= total,
                0 <= col < w,
                0 <= row,
                p == row * w + col,
                out@.len() == 4 * p,
                forall|i: int| 0 <= i < 4 * p ==> out@[i] == self.region_byte(x as int, y as int, w as int, i),
            decreases total - p,
        {
            proof {
                lemma_fundamental_div_mod_converse(p as int, w as int, row as int, col as int);
                assert(row < h) by (nonlinear_arith)
                    requires p < total, total == w * h, p == row * w + col, 0 <= col, 0 < w;
            }
            let (r, g, b, a) = self.read_pixel(x as i64 + col, y as i64 + row);
            let ghost before = out@;
            out.push(r);
            out.push(g);
            out.push(b);
            out.push(a);
            assert forall|i: int| 0 <= i < 4 * (p + 1) implies out@[i] == self.region_byte(
                x as int,
                y as int,
                w as int,
                i,
            ) by {
                if i >= 4 * p {
                    assert(i / 4 == p);
                    assert(i % 4 == i - 4 * p);
                } else {
                    assert(out@[i] == before[i]);
                }
            }
            p = p + 1;
            col = col + 1;
            if col == w as i64 {
                assert((row + 1) * w == row * w + w) by (nonlinear_arith);
                col = 0;
                row = row + 1;
            }
        }
        out
    }

    /// Blends the paint over every pixel of the rectangle at `(x, y)` of size
    /// `w` x `h`, in whole pixels, clipped to the surface; a rectangle of no
    /// area changes nothing.
    #[verifier::rlimit(40)]
    pub fn fill_rect(&mut self, x: i64, y: i64, w: i64, h: i64)
        requires
            old(self).wf(),
        ensures
            old(self).fill_result(*final(self), x as int, y as int, w as int, h as int),
    {
        let ghost start = *self;
        let wd = self.width as usize;
        let total: usize = self.pixels.len() / 4;
        assert(total == self.width * self.height);
        let paint = self.paint;
        let x1: i128 = x as i128 + w as i128;
        let y1: i128 = y as i128 + h as i128;
        let mut p: usize = 0;
        let mut row: usize = 0;
        let mut col: usize = 0;
        while p < total
            invariant
                start.wf(),
                wd == start.spec_width(),
                total * 4 == start.spec_pixels().len(),
                paint == start.spec_paint(),
                self.width == start.width,
                self.height == start.height,
                self.paint == start.paint,
                self.font == start.font,
                self.font_size == start.font_size,
                self.pixels@.len() == start.spec_pixels().len(),
                p <= total,
                col < wd,
                p == row * wd + col,
                x1 == x + w,
                y1 == y + h,
                forall|i: int| 0 <= i < 4 * p ==> self.pixels@[i] == start.filled_byte(x as int, y as int, w as int, h as int, i),
                forall|i: int| 4 * p <= i < self.pixels@.len() ==> self.pixels@[i] == start.spec_pixels()[i],
            decreases total - p,
        {
            proof {
                lemma_fundamental_div_mod_converse(p as int, wd as int, row as int, col as int);
            }
            let inside = x as i128 <= col as i128 && (col as i128) < x1 && y as i128 <= row as i128
                && (row as i128) < y1;
            if inside {
                let off = p * 4;
                let ghost before = self.pixels@;
                let v0 = blend_byte(paint.r, self.pixels[off], paint.a);
                self.pixels.set(off, v0);
                let v1 = blend_byte(paint.g, self.pixels[off + 1], paint.a);
                self.pixels.set(off + 1, v1);
                let v2 = blend_byte(paint.b, self.pixels[off + 2], paint.a);
                self.pixels.set(off + 2, v2);
                let v3 = blend_byte(paint.a, self.pixels[off + 3], paint.a);
                self.pixels.set(off + 3, v3);
                assert forall|i: int| 4 * p <= i < 4 * (p + 1) implies self.pixels@[i] == start.filled_byte(
                    x as int,
                    y as int,
                    w as int,
                    h as int,
                    i,
                ) by {
                    assert(i / 4 == p);
                    assert(i % 4 == i - 4 * p);
                    assert(before[i] == start.spec_pixels()[i]);
                }
            } else {
                assert forall|i: int| 4 * p <= i < 4 * (p + 1) implies self.pixels@[i] == start.filled_byte(
                    x as int,
                    y as int,
                    w as int,
                    h as int,
                    i,
                ) by {
                    assert(i / 4 == p);
                }
            }
            p = p + 1;
            col = col + 1;
            if col == wd {
                assert((row + 1) * wd == row * wd + wd) by (nonlinear_arith);
                col = 0;
                row = row + 1;
            }
        }
        proof {
            lemma_fill_premultiplied(start, self.pixels@, x as int, y as int, w as int, h as int);
        }
    }

    /// Replaces the paint by the color that `color_str` stands for.
    pub fn set_fill_style(&mut self, color_str: &str)
        requires
            old(self).wf(),
        ensures
            old(self).style_result(*final(self), color_str.spec_bytes()),
    {
        self.paint = parse_css_color(color_str);
    }
}

/// Filling a rectangle with an opaque paint and reading a covered pixel back
/// gives the paint's own channels exactly, with alpha 255.
pub proof fn lemma_opaque_fill_reads_back(
    before: CanvasContext,
    after: CanvasContext,
    x: int,
    y: int,
    w: int,
    h: int,
    px: int,
    py: int,
    k: int,
)
    requires
        before.wf(),
        before.fill_result(after, x, y, w, h),
        before.spec_paint().a == 255,
        before.in_bounds(px, py),
        covers(x, y, w, h, px, py),
        0 <= k < 4,
    ensures
        after.read_byte(px, py, k) == before.spec_paint().channel(k),
{
    let wd = before.spec_width();
    let p = py * wd + px;
    lemma_pixel_offset(px, py, wd, before.spec_height());
    lemma_fundamental_div_mod_converse(p, wd, py, px);
    let paint = before.spec_paint();
    assert forall|j: int| 0 <= j < 4 implies after.byte_at(px, py, j) == paint.channel(j) by {
        let i = p * 4 + j;
        assert(i / 4 == p);
        assert(i % 4 == j);
        assert(after.spec_pixels()[i] == before.filled_byte(x, y, w, h, i));
    }
    let c = paint.channel(k);
    assert((c * 510 + 255) / 510 == c) by (nonlinear_arith)
        requires 0 <= c <= 255;
}

/// A pixel whose stored alpha is zero reads back as transparent black,
/// whatever its stored color bytes hold.
pub proof fn lemma_zero_alpha_reads_transparent(c: CanvasContext, px: int, py: int, k: int)
    requires
        c.wf(),
        c.in_bounds(px, py),
        c.byte_at(px, py, 3) == 0,
    ensures
        c.read_byte(px, py, k) == 0,
{
}

/// Every sample of a read region that falls off the surface reads back as
/// transparent black, whatever the surface holds.
pub proof fn lemma_out_of_bounds_transparent(c: CanvasContext, v: Seq<u8>, x: int, y: int, w: int, h: int, i: int)
    requires
        c.wf(),
        c.is_region(v, x, y, w, h),
        0 <= i < v.len(),
        !c.in_bounds(x + (i / 4) % w, y + (i / 4) / w),
    ensures
        v[i] == 0,
{
}

} // verus!
