//! The software rasteriser that draws the overlay into shared memory.
//!
//! Pixels are 32-bit ARGB values stored little-endian, four bytes each, row
//! after row, as Wayland's `ARGB8888` shared-memory format lays them out.
use vstd::prelude::*;
use memmap2::MmapMut;
use crate::mmap::{mmap_contents, mmap_len, mmap_read, mmap_write};
use crate::config::{ConfigFile, parse_hex_color, hex_color, hex_color_readable};
use vstd::utf8::encode_utf8;
use crate::input::{
    GRID_SIZE, compute_cell_bounds, cell_start, cell_end, axis_fits, lemma_cell_ordered, precision_point,
    lemma_precision_point_in_cell, subcell_of,
};

verus! {

/// Byte `r` (0 = least significant) of the little-endian encoding of `c`.
pub open spec fn color_byte(c: u32, r: int) -> u8 {
    if r == 0 {
        (c & 0xff) as u8
    } else if r == 1 {
        ((c >> 8u32) & 0xff) as u8
    } else if r == 2 {
        ((c >> 16u32) & 0xff) as u8
    } else {
        ((c >> 24u32) & 0xff) as u8
    }
}

/// The 32-bit value stored little-endian in bytes `o .. o + 4` of `b`.
pub open spec fn le_word(b: Seq<u8>, o: int) -> u32 {
    (b[o] as u32) | ((b[o + 1] as u32) << 8u32) | ((b[o + 2] as u32) << 16u32) | ((b[o + 3] as u32) << 24u32)
}

proof fn lemma_color_bytes_roundtrip(c: u32)
    ensures
        ((color_byte(c, 0) as u32) | ((color_byte(c, 1) as u32) << 8u32) | ((color_byte(c, 2) as u32) << 16u32)
            | ((color_byte(c, 3) as u32) << 24u32)) == c,
{
    let b0 = (c & 0xff) as u8;
    let b1 = ((c >> 8u32) & 0xff) as u8;
    let b2 = ((c >> 16u32) & 0xff) as u8;
    let b3 = ((c >> 24u32) & 0xff) as u8;
    assert(((b0 as u32) | ((b1 as u32) << 8u32) | ((b2 as u32) << 16u32) | ((b3 as u32) << 24u32)) == c)
        by (bit_vector)
        requires
            b0 == (c & 0xff) as u8,
            b1 == ((c >> 8u32) & 0xff) as u8,
            b2 == ((c >> 16u32) & 0xff) as u8,
            b3 == ((c >> 24u32) & 0xff) as u8,
    ;
}

/// Distinct pixels of a `w`-wide image have distinct row-major indices, all
/// below `w * h`.
proof fn lemma_pixel_index(w: int, h: int, x1: int, y1: int, x2: int, y2: int)
    requires
        0 <= x1 < w,
        0 <= x2 < w,
        0 <= y1 < h,
        0 <= y2 < h,
    ensures
        0 <= y1 * w + x1 < w * h,
        (x1 != x2 || y1 != y2) ==> y1 * w + x1 != y2 * w + x2,
{
    assert(0 <= y1 * w + x1 < w * h) by (nonlinear_arith)
        requires
            0 <= x1 < w,
            0 <= y1 < h,
    ;
    if y1 < y2 {
        assert(y1 * w + x1 < y2 * w + x2) by (nonlinear_arith)
            requires
                0 <= x1 < w,
                0 <= x2,
                y1 < y2,
        ;
    } else if y2 < y1 {
        assert(y2 * w + x2 < y1 * w + x1) by (nonlinear_arith)
            requires
                0 <= x2 < w,
                0 <= x1,
                y2 < y1,
        ;
    }
}

/// The byte offset of a pixel, computed from the row stride, is that of its
/// row-major index.
proof fn lemma_offset(w: int, stride: int, x: int, y: int)
    requires
        stride == 4 * w,
        0 <= y,
    ensures
        y * stride + x * 4 == 4 * (y * w + x),
{
    assert(y * stride == 4 * (y * w)) by (nonlinear_arith)
        requires
            stride == 4 * w,
    ;
}

/// `after` is `before` with the pixels of `region` painted `color`: same
/// size, still well formed, and every other pixel unchanged.
pub open spec fn repainted(before: PixelBuffer, after: PixelBuffer, region: spec_fn(int, int) -> bool, color: u32) -> bool {
    &&& after.width == before.width
    &&& after.height == before.height
    &&& after.stride == before.stride
    &&& after.wf()
    &&& forall|x: int, y: int| #[trigger] after.in_bounds(x, y) ==> after.pixel(x, y) == if region(x, y) {
        color
    } else {
        before.pixel(x, y)
    }
}

/// Painting one region and then another with the same colour paints their union.
proof fn lemma_repaint_union(
    a: PixelBuffer,
    b: PixelBuffer,
    c: PixelBuffer,
    r1: spec_fn(int, int) -> bool,
    r2: spec_fn(int, int) -> bool,
    r: spec_fn(int, int) -> bool,
    color: u32,
)
    requires
        repainted(a, b, r1, color),
        repainted(b, c, r2, color),
        forall|x: int, y: int| #[trigger] a.in_bounds(x, y) ==> r(x, y) == (r1(x, y) || r2(x, y)),
    ensures
        repainted(a, c, r, color),
{
    assert forall|x: int, y: int| #[trigger] c.in_bounds(x, y) implies c.pixel(x, y) == if r(x, y) {
        color
    } else {
        a.pixel(x, y)
    } by {
        assert(b.in_bounds(x, y));
        assert(a.in_bounds(x, y));
    }
}

/// Only the pixels of the image matter to which region was painted.
proof fn lemma_repaint_same_region(
    a: PixelBuffer,
    b: PixelBuffer,
    r1: spec_fn(int, int) -> bool,
    r2: spec_fn(int, int) -> bool,
    color: u32,
)
    requires
        repainted(a, b, r1, color),
        forall|x: int, y: int| #[trigger] a.in_bounds(x, y) ==> r1(x, y) == r2(x, y),
    ensures
        repainted(a, b, r2, color),
{
    assert forall|x: int, y: int| #[trigger] b.in_bounds(x, y) implies b.pixel(x, y) == if r2(x, y) {
        color
    } else {
        a.pixel(x, y)
    } by {
        assert(a.in_bounds(x, y));
    }
}

/// Painting nothing leaves a well-formed image as it was.
proof fn lemma_repaint_nothing(a: PixelBuffer, r: spec_fn(int, int) -> bool, color: u32)
    requires
        a.wf(),
        forall|x: int, y: int| !#[trigger] r(x, y),
    ensures
        repainted(a, a, r, color),
{
}

/// An ARGB image held in a shared-memory map.
pub struct PixelBuffer {
    pub width: u32,
    pub height: u32,
    /// Bytes from the start of one row to the start of the next.
    pub stride: u32,
    pub data: MmapMut,
}

/// The number of bytes that a `width` x `height` image takes.
pub open spec fn image_bytes(width: int, height: int) -> int {
    4 * (width * height)
}

/// The row stride and the byte size of a `width` x `height` image fit in a `u32`.
pub open spec fn image_fits(width: int, height: int) -> bool {
    4 * width <= u32::MAX && image_bytes(width, height) <= u32::MAX
}

impl PixelBuffer {
    /// The bytes of the image.
    pub open spec fn bytes(&self) -> Seq<u8> {
        mmap_contents(self.data)
    }

    /// Rows are four bytes per pixel apart and the map holds exactly the image.
    pub open spec fn wf(&self) -> bool {
        &&& self.stride == 4 * self.width
        &&& image_fits(self.width as int, self.height as int)
        &&& self.bytes().len() == image_bytes(self.width as int, self.height as int)
    }

    pub open spec fn in_bounds(&self, x: int, y: int) -> bool {
        0 <= x < self.width && 0 <= y < self.height
    }

    /// Byte offset of pixel `(x, y)`.
    pub open spec fn offset(&self, x: int, y: int) -> int {
        4 * (y * self.width + x)
    }

    /// The colour of pixel `(x, y)`.
    pub open spec fn pixel(&self, x: int, y: int) -> u32 {
        le_word(self.bytes(), self.offset(x, y))
    }

    /// The number of bytes a buffer of the given size needs.
    pub fn byte_size(width: u32, height: u32) -> (r: usize)
        requires
            image_fits(width as int, height as int),
        ensures
            r == image_bytes(width as int, height as int),
    {
        let stride = width * 4;
        assert(stride * height == 4 * (width * height)) by (nonlinear_arith)
            requires
                stride == 4 * width,
        ;
        (stride * height) as usize
    }

    /// Wraps a map of `4 * width * height` bytes as a `width` x `height` image.
    pub fn new(width: u32, height: u32, data: MmapMut) -> (r: Self)
        requires
            image_fits(width as int, height as int),
            mmap_contents(data).len() == image_bytes(width as int, height as int),
        ensures
            r.wf(),
            r.width == width,
            r.height == height,
            r.data == data,
    {
        let stride = width * 4;
        PixelBuffer { width, height, stride, data }
    }

    /// Wraps a map as a `width` x `height` image when the image's stride and
    /// size fit in a `u32` and the map holds exactly `4 * width * height` bytes.
    pub fn try_new(width: u32, height: u32, data: MmapMut) -> (r: Option<Self>)
        ensures
            r is Some <==> image_fits(width as int, height as int) && mmap_contents(data).len() == image_bytes(
                width as int,
                height as int,
            ),
            r matches Some(b) ==> b.wf() && b.width == width && b.height == height && b.data == data,
    {
        let stride = match width.checked_mul(4) {
            Some(stride) => stride,
            None => return None,
        };
        let size = match stride.checked_mul(height) {
            Some(size) => size,
            None => {
                assert(image_bytes(width as int, height as int) == stride * height) by (nonlinear_arith)
                    requires
                        stride == 4 * width,
                ;
                return None;
            },
        };
        assert(image_bytes(width as int, height as int) == stride * height) by (nonlinear_arith)
            requires
                stride == 4 * width,
        ;
        if mmap_len(&data) != size as usize {
            return None;
        }
        Some(Self::new(width, height, data))
    }

    /// Paints every pixel with `color`.
    ///
    /// Every whole group of four bytes of the map receives the colour.
    pub fn fill(&mut self, color: u32)
        ensures
            final(self).width == old(self).width,
            final(self).height == old(self).height,
            final(self).stride == old(self).stride,
            final(self).bytes().len() == old(self).bytes().len(),
            forall|j: int, r: int|
                0 <= j < old(self).bytes().len() / 4 && 0 <= r < 4 ==> #[trigger] final(self).bytes()[4 * j + r]
                    == color_byte(color, r),
            forall|k: int|
                4 * (old(self).bytes().len() / 4) <= k < old(self).bytes().len() ==> #[trigger] final(self).bytes()[k]
                    == old(self).bytes()[k],
            old(self).wf() ==> final(self).wf(),
            old(self).wf() ==> forall|x: int, y: int| #[trigger] final(self).in_bounds(x, y) ==> final(self).pixel(x, y) == color,
    {
        let len = mmap_len(&self.data);
        let n = len / 4;
        let b0 = (color & 0xff) as u8;
        let b1 = ((color >> 8) & 0xff) as u8;
        let b2 = ((color >> 16) & 0xff) as u8;
        let b3 = ((color >> 24) & 0xff) as u8;
        let mut i: usize = 0;
        while i < n
            invariant
                n == len / 4,
                len == old(self).bytes().len(),
                0 <= i <= n,
                self.width == old(self).width,
                self.height == old(self).height,
                self.stride == old(self).stride,
                self.bytes().len() == len,
                b0 == color_byte(color, 0),
                b1 == color_byte(color, 1),
                b2 == color_byte(color, 2),
                b3 == color_byte(color, 3),
                forall|j: int, r: int| 0 <= j < i && 0 <= r < 4 ==> #[trigger] self.bytes()[4 * j + r] == color_byte(color, r),
                forall|k: int| 4 * i <= k < len ==> #[trigger] self.bytes()[k] == old(self).bytes()[k],
            decreases n - i,
        {
            let o = 4 * i;
            mmap_write(&mut self.data, o, b0);
            mmap_write(&mut self.data, o + 1, b1);
            mmap_write(&mut self.data, o + 2, b2);
            mmap_write(&mut self.data, o + 3, b3);
            assert forall|j: int, r: int| 0 <= j < i + 1 && 0 <= r < 4 implies #[trigger] self.bytes()[4 * j + r] == color_byte(color, r) by {
                if j < i {
                    assert(4 * j + r < 4 * i);
                }
            }
            i = i + 1;
        }
        proof {
            if old(self).wf() {
                assert forall|x: int, y: int| #[trigger] self.in_bounds(x, y) implies self.pixel(x, y) == color by {
                    lemma_pixel_index(self.width as int, self.height as int, x, y, x, y);
                    let q = y * self.width + x;
                    assert(q < len / 4);
                    assert(self.bytes()[4 * q + 0] == color_byte(color, 0));
                    assert(self.bytes()[4 * q + 1] == color_byte(color, 1));
                    assert(self.bytes()[4 * q + 2] == color_byte(color, 2));
                    assert(self.bytes()[4 * q + 3] == color_byte(color, 3));
                    lemma_color_bytes_roundtrip(color);
                }
            }
        }
    }

    /// Reads pixel `(x, y)`; a pixel outside the image reads as 0.
    pub fn get_pixel(&self, x: u32, y: u32) -> (r: u32)
        requires
            self.wf(),
        ensures
            r == if self.in_bounds(x as int, y as int) { self.pixel(x as int, y as int) } else { 0 },
    {
        if x >= self.width || y >= self.height {
            return 0;
        }
        proof {
            lemma_pixel_index(self.width as int, self.height as int, x as int, y as int, x as int, y as int);
            lemma_offset(self.width as int, self.stride as int, x as int, y as int);
        }
        let offset = (y * self.stride + x * 4) as usize;
        let b0 = mmap_read(&self.data, offset);
        let b1 = mmap_read(&self.data, offset + 1);
        let b2 = mmap_read(&self.data, offset + 2);
        let b3 = mmap_read(&self.data, offset + 3);
        (b0 as u32) | ((b1 as u32) << 8) | ((b2 as u32) << 16) | ((b3 as u32) << 24)
    }

    /// Paints pixel `(x, y)`; a pixel outside the image is ignored.
    pub fn set_pixel(&mut self, x: u32, y: u32, color: u32)
        requires
            old(self).wf(),
        ensures
            repainted(*old(self), *final(self), |px: int, py: int| px == x && py == y, color),
    {
        if x >= self.width || y >= self.height {
            return;
        }
        proof {
            lemma_pixel_index(self.width as int, self.height as int, x as int, y as int, x as int, y as int);
            lemma_offset(self.width as int, self.stride as int, x as int, y as int);
        }
        let ghost before = *self;
        let offset = (y * self.stride + x * 4) as usize;
        mmap_write(&mut self.data, offset, (color & 0xff) as u8);
        mmap_write(&mut self.data, offset + 1, ((color >> 8) & 0xff) as u8);
        mmap_write(&mut self.data, offset + 2, ((color >> 16) & 0xff) as u8);
        mmap_write(&mut self.data, offset + 3, ((color >> 24) & 0xff) as u8);
        proof {
            lemma_color_bytes_roundtrip(color);
            assert forall|px: int, py: int| #[trigger] self.in_bounds(px, py) implies self.pixel(px, py) == if px == x && py == y {
                color
            } else {
                before.pixel(px, py)
            } by {
                lemma_pixel_index(self.width as int, self.height as int, px, py, x as int, y as int);
                if px != x || py != y {
                    let o = self.offset(px, py);
                    assert(o + 4 <= offset || offset + 4 <= o);
                    assert(self.bytes()[o] == before.bytes()[o]);
                    assert(self.bytes()[o + 1] == before.bytes()[o + 1]);
                    assert(self.bytes()[o + 2] == before.bytes()[o + 2]);
                    assert(self.bytes()[o + 3] == before.bytes()[o + 3]);
                }
            }
        }
    }

    /// Paints the pixels `(x, y1) ..= (x, y2)` of a column.
    fn paint_column(&mut self, x: u32, y1: u32, y2: u32, color: u32)
        requires
            old(self).wf(),
        ensures
            repainted(*old(self), *final(self), |px: int, py: int| px == x && y1 <= py <= y2, color),
    {
        proof {
            lemma_repaint_nothing(*self, |px: int, py: int| px == x && y1 <= py < y1, color);
        }
        if y1 > y2 {
            return;
        }
        let mut y = y1;
        loop
            invariant
                y1 <= y <= y2,
                repainted(*old(self), *self, |px: int, py: int| px == x && y1 <= py < y, color),
            decreases y2 - y,
        {
            let ghost before = *self;
            self.set_pixel(x, y, color);
            proof {
                lemma_repaint_union(
                    *old(self),
                    before,
                    *self,
                    |px: int, py: int| px == x && y1 <= py < y,
                    |px: int, py: int| px == x && py == y,
                    |px: int, py: int| px == x && y1 <= py < y + 1,
                    color,
                );
            }
            if y == y2 {
                return;
            }
            y = y + 1;
        }
    }

    /// Paints the pixels `(x1, y) ..= (x2, y)` of a row.
    fn paint_row(&mut self, y: u32, x1: u32, x2: u32, color: u32)
        requires
            old(self).wf(),
        ensures
            repainted(*old(self), *final(self), |px: int, py: int| py == y && x1 <= px <= x2, color),
    {
        proof {
            lemma_repaint_nothing(*self, |px: int, py: int| py == y && x1 <= px < x1, color);
        }
        if x1 > x2 {
            return;
        }
        let mut x = x1;
        loop
            invariant
                x1 <= x <= x2,
                repainted(*old(self), *self, |px: int, py: int| py == y && x1 <= px < x, color),
            decreases x2 - x,
        {
            let ghost before = *self;
            self.set_pixel(x, y, color);
            proof {
                lemma_repaint_union(
                    *old(self),
                    before,
                    *self,
                    |px: int, py: int| py == y && x1 <= px < x,
                    |px: int, py: int| px == x && py == y,
                    |px: int, py: int| py == y && x1 <= px < x + 1,
                    color,
                );
            }
            if x == x2 {
                return;
            }
            x = x + 1;
        }
    }

    /// Paints the `w` x `h` rectangle whose top-left pixel is `(x, y)`.
    pub fn fill_rect(&mut self, x: u32, y: u32, w: u32, h: u32, color: u32)
        requires
            old(self).wf(),
            w > 0 && h > 0 ==> x + w - 1 <= u32::MAX && y + h - 1 <= u32::MAX,
        ensures
            repainted(
                *old(self),
                *final(self),
                |px: int, py: int| x <= px < x + w && y <= py < y + h,
                color,
            ),
    {
        proof {
            lemma_repaint_nothing(*self, |px: int, py: int| x <= px < x + w && y <= py < y, color);
        }
        let mut dy: u32 = 0;
        while dy < h
            invariant
                dy <= h,
                w > 0 && h > 0 ==> x + w - 1 <= u32::MAX && y + h - 1 <= u32::MAX,
                repainted(*old(self), *self, |px: int, py: int| x <= px < x + w && y <= py < y + dy, color),
            decreases h - dy,
        {
            let mut dx: u32 = 0;
            while dx < w
                invariant
                    dx <= w,
                    dy < h,
                    w > 0 && h > 0 ==> x + w - 1 <= u32::MAX && y + h - 1 <= u32::MAX,
                    repainted(
                        *old(self),
                        *self,
                        |px: int, py: int| (x <= px < x + w && y <= py < y + dy) || (py == y + dy && x <= px < x + dx),
                        color,
                    ),
                decreases w - dx,
            {
                let ghost before = *self;
                self.set_pixel(x + dx, y + dy, color);
                proof {
                    lemma_repaint_union(
                        *old(self),
                        before,
                        *self,
                        |px: int, py: int| (x <= px < x + w && y <= py < y + dy) || (py == y + dy && x <= px < x + dx),
                        |px: int, py: int| px == x + dx && py == y + dy,
                        |px: int, py: int| (x <= px < x + w && y <= py < y + dy) || (py == y + dy && x <= px < x + dx + 1),
                        color,
                    );
                }
                dx = dx + 1;
            }
            proof {
                assert(repainted(*old(self), *self, |px: int, py: int| x <= px < x + w && y <= py < y + dy + 1, color));
            }
            dy = dy + 1;
        }
    }

    /// Paints row `y` from column `x1` to column `x2`, clipped to the image.
    pub fn draw_hline(&mut self, y: u32, x1: u32, x2: u32, color: u32)
        requires
            old(self).wf(),
            old(self).width > 0,
        ensures
            repainted(*old(self), *final(self), |px: int, py: int| py == y && x1 <= px <= x2, color),
    {
        let end = if x2 < self.width - 1 { x2 } else { self.width - 1 };
        self.paint_row(y, x1, end, color);
    }

    /// Paints column `x` from row `y1` to row `y2`, clipped to the image.
    pub fn draw_vline(&mut self, x: u32, y1: u32, y2: u32, color: u32)
        requires
            old(self).wf(),
            old(self).height > 0,
        ensures
            repainted(*old(self), *final(self), |px: int, py: int| px == x && y1 <= py <= y2, color),
    {
        let end = if y2 < self.height - 1 { y2 } else { self.height - 1 };
        self.paint_column(x, y1, end, color);
    }
}

/// Position of grid line `i` (0 ..= 26) on an axis of `n` pixels: the left or
/// top edge of cell `i`, the last line on the last pixel.
pub open spec fn grid_line(i: int, n: int) -> int {
    if i == GRID_SIZE {
        n - 1
    } else {
        i * n / (GRID_SIZE as int)
    }
}

/// `v` is the position of one of the grid lines `0 .. k` on an axis of `n` pixels.
pub open spec fn on_grid_line(v: int, n: int, k: int) -> bool {
    exists|j: int| 0 <= j < k && v == #[trigger] grid_line(j, n)
}

/// Pixel `(x, y)` lies on a line of the letter grid of a `width` x `height` screen.
pub open spec fn on_grid(width: int, height: int, x: int, y: int) -> bool {
    on_grid_line(x, width, GRID_SIZE + 1) || on_grid_line(y, height, GRID_SIZE + 1)
}

/// The products that placing the grid lines computes fit in a `u32`, and the
/// last line has a pixel to sit on.
pub open spec fn grid_fits(width: int, height: int) -> bool {
    &&& 1 <= width
    &&& 1 <= height
    &&& (GRID_SIZE - 1) * width <= u32::MAX
    &&& (GRID_SIZE - 1) * height <= u32::MAX
}

/// Draws the 27 vertical and 27 horizontal lines of the letter grid of a
/// `width` x `height` screen across the whole buffer.
pub fn draw_grid(buffer: &mut PixelBuffer, width: u32, height: u32, grid_color: u32)
    requires
        old(buffer).wf(),
        grid_fits(width as int, height as int),
        (old(buffer).width == 0) == (old(buffer).height == 0),
    ensures
        repainted(
            *old(buffer),
            *final(buffer),
            |px: int, py: int| on_grid(width as int, height as int, px, py),
            grid_color,
        ),
{
    proof {
        lemma_repaint_nothing(
            *buffer,
            |px: int, py: int| on_grid_line(px, width as int, 0) || on_grid_line(py, height as int, 0),
            grid_color,
        );
    }
    let mut i: u32 = 0;
    while i <= GRID_SIZE
        invariant
            i <= GRID_SIZE + 1,
            grid_fits(width as int, height as int),
            (old(buffer).width == 0) == (old(buffer).height == 0),
            repainted(
                *old(buffer),
                *buffer,
                |px: int, py: int| on_grid_line(px, width as int, i as int) || on_grid_line(py, height as int, i as int),
                grid_color,
            ),
        decreases GRID_SIZE + 1 - i,
    {
        let ghost r0 = |px: int, py: int| on_grid_line(px, width as int, i as int) || on_grid_line(py, height as int, i as int);
        let ghost r1 = |px: int, py: int| on_grid_line(px, width as int, i + 1) || on_grid_line(py, height as int, i as int);
        let ghost r2 = |px: int, py: int| on_grid_line(px, width as int, i + 1) || on_grid_line(py, height as int, i + 1);
        assert(i < GRID_SIZE ==> i * width <= (GRID_SIZE - 1) * width && i * height <= (GRID_SIZE - 1) * height)
            by (nonlinear_arith)
            requires
                i <= GRID_SIZE,
        ;
        let x = if i == GRID_SIZE { width - 1 } else { (i * width) / GRID_SIZE };
        let y = if i == GRID_SIZE { height - 1 } else { (i * height) / GRID_SIZE };
        assert(x == grid_line(i as int, width as int));
        assert(y == grid_line(i as int, height as int));
        assert forall|v: int| on_grid_line(v, width as int, i + 1) == (on_grid_line(v, width as int, i as int) || v == x) by {
            if v == x {
                assert(grid_line(i as int, width as int) == x);
            }
        }
        assert forall|v: int| on_grid_line(v, height as int, i + 1) == (on_grid_line(v, height as int, i as int) || v == y) by {
            if v == y {
                assert(grid_line(i as int, height as int) == y);
            }
        }
        let ghost b0 = *buffer;
        if x < buffer.width {
            buffer.draw_vline(x, 0, buffer.height - 1, grid_color);
            proof {
                lemma_repaint_union(*old(buffer), b0, *buffer, r0, |px: int, py: int| px == x && 0 <= py <= b0.height - 1, r1, grid_color);
            }
        } else {
            proof {
                lemma_repaint_same_region(*old(buffer), *buffer, r0, r1, grid_color);
            }
        }
        let ghost b1 = *buffer;
        if y < buffer.height {
            buffer.draw_hline(y, 0, buffer.width - 1, grid_color);
            proof {
                lemma_repaint_union(*old(buffer), b1, *buffer, r1, |px: int, py: int| py == y && 0 <= px <= b1.width - 1, r2, grid_color);
            }
        } else {
            proof {
                lemma_repaint_same_region(*old(buffer), *buffer, r1, r2, grid_color);
            }
        }
        i = i + 1;
    }
}

/// Pixel `(x, y)` lies on one of the lines that cut the cell at (`col`, `row`)
/// into four columns and three rows: three vertical lines spanning the cell's
/// height and two horizontal lines spanning its width.
pub open spec fn on_precision_lines(width: int, height: int, row: int, col: int, x: int, y: int) -> bool {
    let x1 = cell_start(col, width);
    let x2 = cell_end(col, width);
    let y1 = cell_start(row, height);
    let y2 = cell_end(row, height);
    let sub_w = (x2 - x1) / 4;
    let sub_h = (y2 - y1) / 3;
    ||| (y1 <= y <= y2 && (x == x1 + sub_w || x == x1 + 2 * sub_w || x == x1 + 3 * sub_w))
    ||| ((y == y1 + sub_h || y == y1 + 2 * sub_h) && x1 <= x <= x2)
}

/// Pixel `(px, py)` lies on one of the first `k` vertical precision lines,
/// `sub_w` apart, of a cell whose left edge is `x1` and which spans rows `y1 ..= y2`.
spec fn first_columns(x1: int, y1: int, y2: int, sub_w: int, k: int, px: int, py: int) -> bool {
    &&& y1 <= py <= y2
    &&& 1 <= k
    &&& (px == x1 + sub_w || (2 <= k && px == x1 + 2 * sub_w) || (3 <= k && px == x1 + 3 * sub_w))
}

/// Draws the letter grid and, over it, the lines of the precision grid of the
/// selected cell.
pub fn draw_precision_grid(
    buffer: &mut PixelBuffer,
    width: u32,
    height: u32,
    selected_row: u32,
    selected_col: u32,
    grid_color: u32,
)
    requires
        old(buffer).wf(),
        grid_fits(width as int, height as int),
        (old(buffer).width == 0) == (old(buffer).height == 0),
        axis_fits(selected_col as int, width as int),
        axis_fits(selected_row as int, height as int),
    ensures
        repainted(
            *old(buffer),
            *final(buffer),
            |px: int, py: int|
                on_grid(width as int, height as int, px, py) || on_precision_lines(
                    width as int,
                    height as int,
                    selected_row as int,
                    selected_col as int,
                    px,
                    py,
                ),
            grid_color,
        ),
{
    let ghost w = width as int;
    let ghost h = height as int;
    let ghost r = selected_row as int;
    let ghost c = selected_col as int;
    draw_grid(buffer, width, height, grid_color);
    let (cell_x1, cell_y1, cell_x2, cell_y2) = compute_cell_bounds(selected_col, selected_row, width, height);
    proof {
        lemma_cell_ordered(c, w);
        lemma_cell_ordered(r, h);
    }
    let cell_w = cell_x2 - cell_x1;
    let cell_h = cell_y2 - cell_y1;
    let sub_w = cell_w / 4;
    let sub_h = cell_h / 3;

    let mut i: u32 = 1;
    while i < 4
        invariant
            1 <= i <= 4,
            sub_w == cell_w / 4,
            cell_w == cell_x2 - cell_x1,
            cell_x1 <= cell_x2,
            repainted(
                *old(buffer),
                *buffer,
                |px: int, py: int| on_grid(w, h, px, py) || first_columns(cell_x1 as int, cell_y1 as int, cell_y2 as int, sub_w as int, i - 1, px, py),
                grid_color,
            ),
        decreases 4 - i,
    {
        let ghost b0 = *buffer;
        assert(i * sub_w <= cell_w) by (nonlinear_arith)
            requires
                i < 4,
                sub_w == cell_w / 4,
                cell_w >= 0,
        ;
        let x = cell_x1 + i * sub_w;
        assert(i == 1 ==> i * sub_w == sub_w);
        assert(i == 2 ==> i * sub_w == 2 * sub_w);
        assert(i == 3 ==> i * sub_w == 3 * sub_w);
        buffer.paint_column(x, cell_y1, cell_y2, grid_color);
        proof {
            assert forall|px: int, py: int| #[trigger] first_columns(cell_x1 as int, cell_y1 as int, cell_y2 as int, sub_w as int, i as int, px, py) == (first_columns(cell_x1 as int, cell_y1 as int, cell_y2 as int, sub_w as int, i - 1, px, py) || (px == x && cell_y1 <= py <= cell_y2)) by {}
            lemma_repaint_union(
                *old(buffer),
                b0,
                *buffer,
                |px: int, py: int| on_grid(w, h, px, py) || first_columns(cell_x1 as int, cell_y1 as int, cell_y2 as int, sub_w as int, i - 1, px, py),
                |px: int, py: int| px == x && cell_y1 <= py <= cell_y2,
                |px: int, py: int| on_grid(w, h, px, py) || first_columns(cell_x1 as int, cell_y1 as int, cell_y2 as int, sub_w as int, i as int, px, py),
                grid_color,
            );
        }
        i = i + 1;
    }

    let ghost b1 = *buffer;
    let first_y = cell_y1 + sub_h;
    buffer.paint_row(first_y, cell_x1, cell_x2, grid_color);
    proof {
        lemma_repaint_union(
            *old(buffer),
            b1,
            *buffer,
            |px: int, py: int| on_grid(w, h, px, py) || first_columns(cell_x1 as int, cell_y1 as int, cell_y2 as int, sub_w as int, 3, px, py),
            |px: int, py: int| py == first_y && cell_x1 <= px <= cell_x2,
            |px: int, py: int| (on_grid(w, h, px, py) || first_columns(cell_x1 as int, cell_y1 as int, cell_y2 as int, sub_w as int, 3, px, py)) || (py == first_y && cell_x1 <= px <= cell_x2),
            grid_color,
        );
    }
    let ghost b2 = *buffer;
    let second_y = cell_y1 + 2 * sub_h;
    buffer.paint_row(second_y, cell_x1, cell_x2, grid_color);
    proof {
        assert(cell_x1 == cell_start(c, w) && cell_x2 == cell_end(c, w));
        assert(cell_y1 == cell_start(r, h) && cell_y2 == cell_end(r, h));
        assert(sub_w == (cell_end(c, w) - cell_start(c, w)) / 4);
        assert(sub_h == (cell_end(r, h) - cell_start(r, h)) / 3);
        assert forall|px: int, py: int|
            #[trigger] on_precision_lines(w, h, r, c, px, py) == (first_columns(
                cell_x1 as int,
                cell_y1 as int,
                cell_y2 as int,
                sub_w as int,
                3,
                px,
                py,
            ) || (py == first_y && cell_x1 <= px <= cell_x2) || (py == second_y && cell_x1 <= px <= cell_x2)) by {}
        lemma_repaint_union(
            *old(buffer),
            b2,
            *buffer,
            |px: int, py: int| (on_grid(w, h, px, py) || first_columns(cell_x1 as int, cell_y1 as int, cell_y2 as int, sub_w as int, 3, px, py)) || (py == first_y && cell_x1 <= px <= cell_x2),
            |px: int, py: int| py == second_y && cell_x1 <= px <= cell_x2,
            |px: int, py: int| on_grid(w, h, px, py) || on_precision_lines(w, h, r, c, px, py),
            grid_color,
        );
    }
}

/// Eight-bit channel of `c` that starts at bit `shift`.
pub open spec fn channel(c: u32, shift: u32) -> int {
    ((c >> shift) & 0xff) as int
}

/// A foreground channel laid over a background channel with coverage
/// `alpha` out of 255.
pub open spec fn mix(fg: int, bg: int, alpha: int) -> int {
    (fg * alpha + bg * (255 - alpha)) / 255
}

/// The opaque colour of text colour `fg` drawn over `bg` with coverage `alpha`.
pub open spec fn blend(fg: u32, bg: u32, alpha: u8) -> u32 {
    (0xff00_0000 + mix(channel(fg, 16), channel(bg, 16), alpha as int) * 65536 + mix(
        channel(fg, 8),
        channel(bg, 8),
        alpha as int,
    ) * 256 + mix(channel(fg, 0), channel(bg, 0), alpha as int)) as u32
}

proof fn lemma_mix_bounds(f: int, b: int, a: int)
    requires
        0 <= f <= 255,
        0 <= b <= 255,
        0 <= a <= 255,
    ensures
        0 <= f * a + b * (255 - a) <= 65025,
        0 <= mix(f, b, a) <= 255,
{
    assert(0 <= f * a + b * (255 - a) <= 65025) by (nonlinear_arith)
        requires
            0 <= f <= 255,
            0 <= b <= 255,
            0 <= a <= 255,
    ;
}

fn mix_channel(f: u16, b: u16, alpha: u16) -> (r: u32)
    requires
        f <= 255,
        b <= 255,
        alpha <= 255,
    ensures
        r == mix(f as int, b as int, alpha as int),
        r <= 255,
{
    proof {
        lemma_mix_bounds(f as int, b as int, alpha as int);
    }
    let inv_alpha = 255 - alpha;
    ((f * alpha + b * inv_alpha) / 255) as u32
}

/// Lays text colour `fg` over the pixel colour `bg` with coverage `alpha`
/// (0 = none, 255 = full); the result is opaque.
pub fn blend_pixel(fg: u32, bg: u32, alpha: u8) -> (r: u32)
    ensures
        r == blend(fg, bg, alpha),
{
    assert(((fg >> 16u32) & 0xff) <= 255 && ((fg >> 8u32) & 0xff) <= 255 && (fg & 0xff) <= 255) by (bit_vector);
    assert(((bg >> 16u32) & 0xff) <= 255 && ((bg >> 8u32) & 0xff) <= 255 && (bg & 0xff) <= 255) by (bit_vector);
    assert(fg & 0xff == (fg >> 0u32) & 0xff && bg & 0xff == (bg >> 0u32) & 0xff) by (bit_vector);
    let fg_r = ((fg >> 16) & 0xFF) as u16;
    let fg_g = ((fg >> 8) & 0xFF) as u16;
    let fg_b = (fg & 0xFF) as u16;
    let alpha = alpha as u16;
    let bg_r = ((bg >> 16) & 0xFF) as u16;
    let bg_g = ((bg >> 8) & 0xFF) as u16;
    let bg_b = (bg & 0xFF) as u16;
    let r = mix_channel(fg_r, bg_r, alpha);
    let g = mix_channel(fg_g, bg_g, alpha);
    let b = mix_channel(fg_b, bg_b, alpha);
    assert(0xFF00_0000u32 | (r << 16u32) | (g << 8u32) | b == 0xff00_0000u32 + r * 65536 + g * 256 + b) by (bit_vector)
        requires
            r <= 255,
            g <= 255,
            b <= 255,
    ;
    0xFF00_0000u32 | (r << 16) | (g << 8) | b
}

/// The coverage that a glyph bitmap `data`, `w` pixels wide, placed with its
/// top-left pixel at `(gx, gy)`, gives to pixel `(x, y)`; 0 off the bitmap.
pub open spec fn glyph_coverage(gx: int, gy: int, w: int, data: Seq<u8>, x: int, y: int) -> u8 {
    let px = x - gx;
    let py = y - gy;
    if 0 <= px < w && 0 <= py && py * w + px < data.len() {
        data[py * w + px]
    } else {
        0
    }
}

/// Placing every covered pixel of the bitmap neither overflows an `i32` nor
/// lets a row or column index wrap.
pub open spec fn glyph_fits(gx: int, gy: int, w: int, data: Seq<u8>) -> bool {
    &&& data.len() <= 0x8000_0000
    &&& (w > 0 || forall|i: int| 0 <= i < data.len() ==> #[trigger] data[i] == 0)
    &&& forall|i: int|
        0 <= i < data.len() && #[trigger] data[i] != 0 ==> gx + i % w <= i32::MAX && gy + i / w <= i32::MAX
}

proof fn lemma_glyph_index(w: int, i: int)
    requires
        w > 0,
        0 <= i,
    ensures
        (i / w) * w + i % w == i,
        0 <= i % w < w,
        0 <= i / w <= i,
{
    vstd::arithmetic::div_mod::lemma_fundamental_div_mod(i, w);
    assert(w * (i / w) == (i / w) * w) by (nonlinear_arith);
    assert(0 <= i / w <= i) by (nonlinear_arith)
        requires
            w > 0,
            0 <= i,
    ;
}

proof fn lemma_glyph_index_unique(w: int, i: int, px: int, py: int)
    requires
        0 <= px < w,
        0 <= py,
        py * w + px == i,
    ensures
        px == i % w,
        py == i / w,
{
    assert(py * w == w * py) by (nonlinear_arith);
    vstd::arithmetic::div_mod::lemma_fundamental_div_mod_converse(i, w, py, px);
}

/// The pixel a nonzero byte of a bitmap covers is covered exactly by that
/// byte: byte `i` of a `w`-wide bitmap placed at `(gx, gy)` lies at
/// `(gx + i % w, gy + i / w)`, and any nonzero byte counts, as it is.
pub proof fn lemma_glyph_coverage_is_raw_byte(gx: int, gy: int, w: int, data: Seq<u8>, i: int)
    requires
        0 <= i < data.len(),
        data[i] != 0,
        w > 0,
    ensures
        glyph_coverage(gx, gy, w, data, gx + i % w, gy + i / w) == data[i],
{
    lemma_glyph_index(w, i);
}

/// A pixel is covered only where a nonzero byte of the bitmap lies.
pub proof fn lemma_glyph_covers_only_its_bytes(gx: int, gy: int, w: int, data: Seq<u8>, x: int, y: int)
    requires
        glyph_coverage(gx, gy, w, data, x, y) != 0,
    ensures
        exists|i: int| 0 <= i < data.len() && #[trigger] data[i] != 0 && x == gx + i % w && y == gy + i / w,
{
    let px = x - gx;
    let py = y - gy;
    let i = py * w + px;
    assert(0 <= px < w && 0 <= py && i < data.len());
    assert(0 <= i) by (nonlinear_arith)
        requires
            0 <= px < w,
            0 <= py,
            i == py * w + px,
    ;
    lemma_glyph_index_unique(w, i, px, py);
    assert(data[i] != 0);
}

/// Blends a glyph bitmap, `glyph_width` pixels wide and drawn with its
/// top-left pixel at `(glyph_x, glyph_y)`, into the image in `text_color`;
/// each covered pixel becomes the text colour laid over what was there.
pub fn blit_glyph(buffer: &mut PixelBuffer, glyph_x: i32, glyph_y: i32, glyph_width: u32, data: &[u8], text_color: u32)
    requires
        old(buffer).wf(),
        glyph_fits(glyph_x as int, glyph_y as int, glyph_width as int, data@),
    ensures
        final(buffer).width == old(buffer).width,
        final(buffer).height == old(buffer).height,
        final(buffer).stride == old(buffer).stride,
        final(buffer).wf(),
        forall|x: int, y: int| #[trigger] final(buffer).in_bounds(x, y) ==> final(buffer).pixel(x, y) == {
            let a = glyph_coverage(glyph_x as int, glyph_y as int, glyph_width as int, data@, x, y);
            if a != 0 {
                blend(text_color, old(buffer).pixel(x, y), a)
            } else {
                old(buffer).pixel(x, y)
            }
        },
        forall|i: int|
            0 <= i < data@.len() && #[trigger] data@[i] != 0 && final(buffer).in_bounds(
                glyph_x + i % (glyph_width as int),
                glyph_y + i / (glyph_width as int),
            ) ==> final(buffer).pixel(glyph_x + i % (glyph_width as int), glyph_y + i / (glyph_width as int)) == blend(
                text_color,
                old(buffer).pixel(glyph_x + i % (glyph_width as int), glyph_y + i / (glyph_width as int)),
                data@[i],
            ),
        forall|x: int, y: int|
            #[trigger] final(buffer).in_bounds(x, y) && (forall|i: int|
                0 <= i < data@.len() && #[trigger] data@[i] != 0 ==> !(x == glyph_x + i % (glyph_width as int) && y
                    == glyph_y + i / (glyph_width as int))) ==> final(buffer).pixel(x, y) == old(buffer).pixel(x, y),
{
    let ghost gx = glyph_x as int;
    let ghost gy = glyph_y as int;
    let ghost gw = glyph_width as int;
    let w = glyph_width as usize;
    let len = data.len();
    let mut i: usize = 0;
    while i < len
        invariant
            len == data@.len(),
            i <= len,
            w == gw,
            gx == glyph_x,
            gy == glyph_y,
            glyph_fits(gx, gy, gw, data@),
            buffer.width == old(buffer).width,
            buffer.height == old(buffer).height,
            buffer.stride == old(buffer).stride,
            buffer.wf(),
            forall|x: int, y: int| #[trigger] buffer.in_bounds(x, y) ==> buffer.pixel(x, y) == {
                let a = glyph_coverage(gx, gy, gw, data@.subrange(0, i as int), x, y);
                if a != 0 {
                    blend(text_color, old(buffer).pixel(x, y), a)
                } else {
                    old(buffer).pixel(x, y)
                }
            },
        decreases len - i,
    {
        let ghost before = *buffer;
        let ghost done = data@.subrange(0, i as int);
        let ghost next = data@.subrange(0, i + 1);
        let pixel = data[i];
        if pixel == 0 {
            // A byte of no coverage changes nothing: with or without it,
            // every pixel has the same coverage.
            assert forall|x: int, y: int| #[trigger] glyph_coverage(gx, gy, gw, next, x, y)
                == glyph_coverage(gx, gy, gw, done, x, y) by {
                let px = x - gx;
                let py = y - gy;
                if 0 <= px < gw && 0 <= py && py * gw + px < i + 1 {
                    if py * gw + px == i {
                        assert(next[i as int] == 0);
                    }
                }
            }
            proof {
                assert forall|x: int, y: int| #[trigger] buffer.in_bounds(x, y) implies buffer.pixel(x, y) == {
                    let a = glyph_coverage(gx, gy, gw, next, x, y);
                    if a != 0 {
                        blend(text_color, old(buffer).pixel(x, y), a)
                    } else {
                        old(buffer).pixel(x, y)
                    }
                } by {
                    assert(before.in_bounds(x, y));
                    assert(glyph_coverage(gx, gy, gw, next, x, y) == glyph_coverage(gx, gy, gw, done, x, y));
                }
            }
        } else {
            proof {
                if gw == 0 {
                    assert(data@[i as int] == 0);
                }
                lemma_glyph_index(gw, i as int);
            }
            let ghost ipx = (i as int) % gw;
            let ghost ipy = (i as int) / gw;
            // Every pixel other than the one of index `i` has the same coverage
            // from the first `i` and the first `i + 1` bytes.
            assert forall|x: int, y: int| !(x == gx + ipx && y == gy + ipy) implies #[trigger] glyph_coverage(gx, gy, gw, next, x, y)
                == glyph_coverage(gx, gy, gw, done, x, y) by {
                let px = x - gx;
                let py = y - gy;
                if 0 <= px < gw && 0 <= py && py * gw + px == i {
                    lemma_glyph_index_unique(gw, i as int, px, py);
                }
            }
            assert(glyph_coverage(gx, gy, gw, done, gx + ipx, gy + ipy) == 0);
            assert(glyph_coverage(gx, gy, gw, next, gx + ipx, gy + ipy) == pixel);
            let px = (i % w) as i32;
            let py = (i / w) as i32;
            let buf_x = glyph_x + px;
            let buf_y = glyph_y + py;
            if !(buf_x < 0 || buf_y < 0 || (buf_x as u32) >= buffer.width || (buf_y as u32) >= buffer.height) {
                let bx = buf_x as u32;
                let by = buf_y as u32;
                let bg = buffer.get_pixel(bx, by);
                let color = blend_pixel(text_color, bg, pixel);
                buffer.set_pixel(bx, by, color);
                assert(bx == gx + ipx && by == gy + ipy);
            } else {
                assert(!before.in_bounds(gx + ipx, gy + ipy));
            }
            proof {
                assert forall|x: int, y: int| #[trigger] buffer.in_bounds(x, y) implies buffer.pixel(x, y) == {
                    let a = glyph_coverage(gx, gy, gw, next, x, y);
                    if a != 0 {
                        blend(text_color, old(buffer).pixel(x, y), a)
                    } else {
                        old(buffer).pixel(x, y)
                    }
                } by {
                    assert(before.in_bounds(x, y));
                    if !(x == gx + ipx && y == gy + ipy) {
                        assert(glyph_coverage(gx, gy, gw, next, x, y) == glyph_coverage(gx, gy, gw, done, x, y));
                    }
                }
            }
        }
        i = i + 1;
    }
    assert(data@.subrange(0, len as int) =~= data@);
    assert forall|i: int|
        0 <= i < data@.len() && #[trigger] data@[i] != 0 && buffer.in_bounds(
            glyph_x + i % (glyph_width as int),
            glyph_y + i / (glyph_width as int),
        ) implies buffer.pixel(glyph_x + i % (glyph_width as int), glyph_y + i / (glyph_width as int)) == blend(
        text_color,
        old(buffer).pixel(glyph_x + i % (glyph_width as int), glyph_y + i / (glyph_width as int)),
        data@[i],
    ) by {
        if gw == 0 {
            assert(data@[i] == 0);
        }
        lemma_glyph_coverage_is_raw_byte(gx, gy, gw, data@, i);
    }
    assert forall|x: int, y: int|
        #[trigger] buffer.in_bounds(x, y) && (forall|i: int|
            0 <= i < data@.len() && #[trigger] data@[i] != 0 ==> !(x == glyph_x + i % (glyph_width as int) && y
                == glyph_y + i / (glyph_width as int))) implies buffer.pixel(x, y) == old(buffer).pixel(x, y) by {
        if glyph_coverage(gx, gy, gw, data@, x, y) != 0 {
            lemma_glyph_covers_only_its_bytes(gx, gy, gw, data@, x, y);
        }
    }
}

/// A label to draw: its ASCII text and the pixel its text is centred on.
pub struct Label {
    pub text: Vec<u8>,
    pub cx: u32,
    pub cy: u32,
}

/// The pixel a label of grid cell `i` is centred on along an axis of `n`
/// pixels: the middle of the cell, in 52nds of the axis.
pub open spec fn label_center(i: int, n: int) -> int {
    (2 * i + 1) * n / (2 * GRID_SIZE as int)
}

/// The ASCII code of the `k`-th precision key, in reading order
/// `y u i o` / `h j k l` / `n m , .`.
pub open spec fn precision_key_at(k: int) -> u8 {
    if k == 0 { 121 }
    else if k == 1 { 117 }
    else if k == 2 { 105 }
    else if k == 3 { 111 }
    else if k == 4 { 104 }
    else if k == 5 { 106 }
    else if k == 6 { 107 }
    else if k == 7 { 108 }
    else if k == 8 { 110 }
    else if k == 9 { 109 }
    else if k == 10 { 44 }
    else { 46 }
}

/// The arithmetic of laying out the labels of a stage fits in a `u32`.
pub open spec fn labels_fit(width: int, height: int, selected_row: Option<u32>, selected_cell: Option<(u32, u32)>) -> bool {
    match selected_cell {
        Some((row, col)) => axis_fits(col as int, width) && axis_fits(row as int, height),
        None => {
            &&& (2 * GRID_SIZE - 1) * width <= u32::MAX
            &&& match selected_row {
                Some(row) => 2 * row + 1 <= u32::MAX && (2 * row + 1) * height <= u32::MAX,
                None => (2 * GRID_SIZE - 1) * height <= u32::MAX,
            }
        },
    }
}

/// The labels of a stage: with a cell selected, its twelve precision keys, each
/// on the point that key clicks; with only a row selected, the column letters
/// along that row; otherwise the two-letter name of every cell, row-major.
pub open spec fn labels_laid_out(
    labels: Seq<Label>,
    width: int,
    height: int,
    selected_row: Option<u32>,
    selected_cell: Option<(u32, u32)>,
) -> bool {
    match selected_cell {
        Some((row, col)) => {
            &&& labels.len() == 12
            &&& forall|k: int|
                0 <= k < 12 ==> {
                    &&& (#[trigger] labels[k]).text@ == seq![precision_key_at(k)]
                    &&& (labels[k].cx as int, labels[k].cy as int) == precision_point(
                        col as int,
                        row as int,
                        k % 4,
                        k / 4,
                        width,
                        height,
                    )
                }
        },
        None => match selected_row {
            Some(row) => {
                &&& labels.len() == GRID_SIZE
                &&& forall|col: int|
                    0 <= col < GRID_SIZE ==> {
                        &&& (#[trigger] labels[col]).text@ == seq![(97 + col) as u8]
                        &&& labels[col].cx == label_center(col, width)
                        &&& labels[col].cy == label_center(row as int, height)
                    }
            },
            None => {
                &&& labels.len() == GRID_SIZE * GRID_SIZE
                &&& forall|row: int, col: int|
                    0 <= row < GRID_SIZE && 0 <= col < GRID_SIZE ==> {
                        &&& (#[trigger] labels[GRID_SIZE * row + col]).text@ == seq![(97 + row) as u8, (97 + col) as u8]
                        &&& labels[GRID_SIZE * row + col].cx == label_center(col, width)
                        &&& labels[GRID_SIZE * row + col].cy == label_center(row, height)
                    }
            },
        },
    }
}

/// Lays out the labels of the current stage on a `width` x `height` screen.
pub fn label_layout(width: u32, height: u32, selected_row: Option<u32>, selected_cell: Option<(u32, u32)>) -> (r: Vec<Label>)
    requires
        labels_fit(width as int, height as int, selected_row, selected_cell),
    ensures
        labels_laid_out(r@, width as int, height as int, selected_row, selected_cell),
        selected_cell is None && selected_row is None ==> forall|k: int|
            0 <= k < r@.len() ==> {
                let t = (#[trigger] r@[k]).text@;
                &&& t.len() == 2
                &&& center_in_cell(r@[k].cy as int, named_index(t, 0), height as int)
                &&& center_in_cell(r@[k].cx as int, named_index(t, 1), width as int)
            },
        selected_cell is None && selected_row is Some && selected_row->0 < GRID_SIZE ==> forall|k: int|
            0 <= k < r@.len() ==> {
                let t = (#[trigger] r@[k]).text@;
                &&& t.len() == 1
                &&& center_in_cell(r@[k].cy as int, selected_row->0 as int, height as int)
                &&& center_in_cell(r@[k].cx as int, named_index(t, 0), width as int)
            },
{
    let mut labels: Vec<Label> = Vec::new();
    if let Some((sel_row, sel_col)) = selected_cell {
        let (cell_x1, cell_y1, cell_x2, cell_y2) = compute_cell_bounds(sel_col, sel_row, width, height);
        proof {
            lemma_cell_ordered(sel_col as int, width as int);
            lemma_cell_ordered(sel_row as int, height as int);
        }
        let cell_w = cell_x2 - cell_x1;
        let cell_h = cell_y2 - cell_y1;
        let sub_w = cell_w / 4;
        let sub_h = cell_h / 3;
        let keys: [u8; 12] = [121, 117, 105, 111, 104, 106, 107, 108, 110, 109, 44, 46];
        let mut idx: usize = 0;
        while idx < 12
            invariant
                idx <= 12,
                labels@.len() == idx,
                keys@ == seq![121u8, 117u8, 105u8, 111u8, 104u8, 106u8, 107u8, 108u8, 110u8, 109u8, 44u8, 46u8],
                cell_x1 == cell_start(sel_col as int, width as int),
                cell_y1 == cell_start(sel_row as int, height as int),
                cell_x2 == cell_end(sel_col as int, width as int),
                cell_y2 == cell_end(sel_row as int, height as int),
                cell_w == cell_x2 - cell_x1,
                cell_h == cell_y2 - cell_y1,
                sub_w == cell_w / 4,
                sub_h == cell_h / 3,
                forall|k: int|
                    0 <= k < idx ==> {
                        &&& (#[trigger] labels@[k]).text@ == seq![precision_key_at(k)]
                        &&& (labels@[k].cx as int, labels@[k].cy as int) == precision_point(
                            sel_col as int,
                            sel_row as int,
                            k % 4,
                            k / 4,
                            width as int,
                            height as int,
                        )
                    },
            decreases 12 - idx,
        {
            let sub_col = (idx % 4) as u32;
            let sub_row = (idx / 4) as u32;
            proof {
                lemma_precision_point_in_cell(
                    sel_col as int,
                    sel_row as int,
                    sub_col as int,
                    sub_row as int,
                    width as int,
                    height as int,
                );
                assert(sub_col * sub_w <= 3 * sub_w) by (nonlinear_arith)
                    requires
                        sub_col < 4,
                ;
                assert(sub_row * sub_h <= 2 * sub_h) by (nonlinear_arith)
                    requires
                        sub_row < 3,
                ;
            }
            let cx = cell_x1 + sub_col * sub_w + sub_w / 2;
            let cy = cell_y1 + sub_row * sub_h + sub_h / 2;
            labels.push(Label { text: vec![keys[idx]], cx, cy });
            assert(keys@[idx as int] == precision_key_at(idx as int));
            idx = idx + 1;
        }
        return labels;
    }
    if let Some(sel_row) = selected_row {
        let cy = ((2 * sel_row + 1) * height) / (2 * GRID_SIZE);
        let mut col: u32 = 0;
        while col < GRID_SIZE
            invariant
                col <= GRID_SIZE,
                labels@.len() == col,
                (2 * GRID_SIZE - 1) * width <= u32::MAX,
                cy == label_center(sel_row as int, height as int),
                forall|c: int|
                    0 <= c < col ==> {
                        &&& (#[trigger] labels@[c]).text@ == seq![(97 + c) as u8]
                        &&& labels@[c].cx == label_center(c, width as int)
                        &&& labels@[c].cy == label_center(sel_row as int, height as int)
                    },
            decreases GRID_SIZE - col,
        {
            assert((2 * col + 1) * width <= (2 * GRID_SIZE - 1) * width) by (nonlinear_arith)
                requires
                    col < GRID_SIZE,
            ;
            let cx = ((2 * col + 1) * width) / (2 * GRID_SIZE);
            labels.push(Label { text: vec![97u8 + col as u8], cx, cy });
            col = col + 1;
        }
        proof {
            if sel_row < GRID_SIZE {
                lemma_labels_name_their_cells(labels@, width as int, height as int, selected_row);
            }
        }
        return labels;
    }
    let mut row: u32 = 0;
    while row < GRID_SIZE
        invariant
            row <= GRID_SIZE,
            labels@.len() == GRID_SIZE * row,
            (2 * GRID_SIZE - 1) * width <= u32::MAX,
            (2 * GRID_SIZE - 1) * height <= u32::MAX,
            forall|r: int, c: int|
                0 <= r < row && 0 <= c < GRID_SIZE ==> {
                    &&& (#[trigger] labels@[GRID_SIZE * r + c]).text@ == seq![(97 + r) as u8, (97 + c) as u8]
                    &&& labels@[GRID_SIZE * r + c].cx == label_center(c, width as int)
                    &&& labels@[GRID_SIZE * r + c].cy == label_center(r, height as int)
                },
        decreases GRID_SIZE - row,
    {
        assert((2 * row + 1) * height <= (2 * GRID_SIZE - 1) * height) by (nonlinear_arith)
            requires
                row < GRID_SIZE,
        ;
        let cy = ((2 * row + 1) * height) / (2 * GRID_SIZE);
        let mut col: u32 = 0;
        while col < GRID_SIZE
            invariant
                row < GRID_SIZE,
                col <= GRID_SIZE,
                labels@.len() == GRID_SIZE * row + col,
                (2 * GRID_SIZE - 1) * width <= u32::MAX,
                (2 * GRID_SIZE - 1) * height <= u32::MAX,
                cy == label_center(row as int, height as int),
                forall|r: int, c: int|
                    (0 <= r < row && 0 <= c < GRID_SIZE) || (r == row && 0 <= c < col) ==> {
                        &&& (#[trigger] labels@[GRID_SIZE * r + c]).text@ == seq![(97 + r) as u8, (97 + c) as u8]
                        &&& labels@[GRID_SIZE * r + c].cx == label_center(c, width as int)
                        &&& labels@[GRID_SIZE * r + c].cy == label_center(r, height as int)
                    },
            decreases GRID_SIZE - col,
        {
            assert((2 * col + 1) * width <= (2 * GRID_SIZE - 1) * width) by (nonlinear_arith)
                requires
                    col < GRID_SIZE,
            ;
            let cx = ((2 * col + 1) * width) / (2 * GRID_SIZE);
            labels.push(Label { text: vec![97u8 + row as u8, 97u8 + col as u8], cx, cy });
            col = col + 1;
        }
        row = row + 1;
    }
    proof {
        lemma_labels_name_their_cells(labels@, width as int, height as int, None);
    }
    labels
}

/// `rgb` with alpha byte `alpha`.
pub open spec fn with_alpha(alpha: u8, rgb: u32) -> u32 {
    ((alpha as u32) << 24u32) | rgb
}

/// A background colour: fully transparent at opacity 0, else `rgb` at that opacity.
pub open spec fn background(opacity: u8, rgb: u32) -> u32 {
    if opacity == 0 {
        0
    } else {
        with_alpha(opacity, rgb)
    }
}

/// The grid line colour of a configuration.
pub open spec fn config_grid_color(config: ConfigFile) -> u32 {
    with_alpha(config.grid_opacity, hex_color(encode_utf8(config.grid_color@)))
}

/// The (opaque) label colour of a configuration.
pub open spec fn config_text_color(config: ConfigFile) -> u32 {
    with_alpha(255, hex_color(encode_utf8(config.text_color@)))
}

/// The last row of pixels of the highlighted band of grid row `row`.
pub open spec fn row_band_end(row: int, height: int) -> int {
    if row == GRID_SIZE - 1 {
        height - 1
    } else {
        (row + 1) * height / (GRID_SIZE as int)
    }
}

/// The colour of pixel `(x, y)` of a frame, before labels are drawn: grid
/// lines (and, with a cell selected, its precision lines) on top, then the
/// selected cell or row, then the idle background.
pub open spec fn frame_pixel(
    config: ConfigFile,
    width: int,
    height: int,
    selected_row: Option<u32>,
    selected_cell: Option<(u32, u32)>,
    x: int,
    y: int,
) -> u32 {
    let grid = config_grid_color(config);
    let idle = background(config.idle_bg_opacity, 0x0011_1133);
    match selected_cell {
        Some((row, col)) => {
            if on_grid(width, height, x, y) || on_precision_lines(width, height, row as int, col as int, x, y) {
                grid
            } else if cell_start(col as int, width) <= x < cell_end(col as int, width) && cell_start(row as int, height)
                <= y < cell_end(row as int, height) {
                background(config.cell_bg_opacity, 0x0033_3399)
            } else {
                idle
            }
        },
        None => match selected_row {
            Some(row) => {
                if on_grid(width, height, x, y) {
                    grid
                } else if 0 <= x < width && cell_start(row as int, height) <= y <= row_band_end(row as int, height) {
                    background(config.row_bg_opacity, 0x0011_1133)
                } else {
                    idle
                }
            },
            None => if on_grid(width, height, x, y) {
                grid
            } else {
                idle
            },
        },
    }
}

/// The grid lines are the cell edges: a line stands at the start of each
/// cell, and one more on the last pixel of the axis.
pub proof fn lemma_grid_lines_are_cell_edges(v: int, n: int)
    requires
        n >= 1,
    ensures
        on_grid_line(v, n, GRID_SIZE + 1) <==> ((exists|i: int| 0 <= i < GRID_SIZE && v == #[trigger] cell_start(i, n))
            || v == n - 1),
{
    if on_grid_line(v, n, GRID_SIZE + 1) {
        let j = choose|j: int| 0 <= j < GRID_SIZE + 1 && v == #[trigger] grid_line(j, n);
        if j < GRID_SIZE {
            assert(v == cell_start(j, n));
        }
    }
    if exists|i: int| 0 <= i < GRID_SIZE && v == #[trigger] cell_start(i, n) {
        let i = choose|i: int| 0 <= i < GRID_SIZE && v == #[trigger] cell_start(i, n);
        assert(v == grid_line(i, n));
    }
    if v == n - 1 {
        assert(v == grid_line(GRID_SIZE as int, n));
    }
}

/// The highlight of a selected cell stays in that cell: outside the cell's
/// box (its edges included) every pixel looks as in the frame with nothing
/// selected, and inside it, off the grid and precision lines, every pixel
/// takes the cell colour.
pub proof fn lemma_cell_highlight_stays_in_cell(
    config: ConfigFile,
    width: int,
    height: int,
    selected_row: Option<u32>,
    row: u32,
    col: u32,
    x: int,
    y: int,
)
    requires
        row < GRID_SIZE,
        col < GRID_SIZE,
        width >= 0,
        height >= 0,
    ensures
        !(cell_start(col as int, width) <= x <= cell_end(col as int, width) && cell_start(row as int, height) <= y
            <= cell_end(row as int, height)) ==> frame_pixel(config, width, height, selected_row, Some((row, col)), x, y)
            == frame_pixel(config, width, height, None, None, x, y),
        cell_start(col as int, width) <= x < cell_end(col as int, width) && cell_start(row as int, height) <= y < cell_end(
            row as int,
            height,
        ) && !on_grid(width, height, x, y) && !on_precision_lines(width, height, row as int, col as int, x, y)
            ==> frame_pixel(config, width, height, selected_row, Some((row, col)), x, y) == background(
            config.cell_bg_opacity,
            0x0033_3399,
        ),
{
    lemma_cell_ordered(col as int, width);
    lemma_cell_ordered(row as int, height);
    let cw = cell_end(col as int, width) - cell_start(col as int, width);
    let ch = cell_end(row as int, height) - cell_start(row as int, height);
    assert(3 * (cw / 4) <= cw && 2 * (ch / 3) <= ch && 0 <= cw / 4 && 0 <= ch / 3) by (nonlinear_arith)
        requires
            cw >= 0,
            ch >= 0,
    ;
}

/// Laying text over a pixel at full coverage gives the opaque text colour, and
/// at no coverage the opaque background colour.
pub proof fn lemma_blend_extremes(fg: u32, bg: u32)
    ensures
        blend(fg, bg, 255) == 0xFF00_0000u32 | (fg & 0x00FF_FFFFu32),
        blend(fg, bg, 0) == 0xFF00_0000u32 | (bg & 0x00FF_FFFFu32),
{
    assert forall|f: int, b: int| 0 <= f <= 255 && 0 <= b <= 255 implies #[trigger] mix(f, b, 255) == f && #[trigger] mix(
        f,
        b,
        0,
    ) == b by {
        assert((f * 255 + b * (255 - 255)) == f * 255) by (nonlinear_arith);
        assert((f * 0 + b * (255 - 0)) == b * 255) by (nonlinear_arith);
    }
    assert(((fg >> 16u32) & 0xff) <= 255 && ((fg >> 8u32) & 0xff) <= 255 && ((fg >> 0u32) & 0xff) <= 255) by (bit_vector);
    assert(((bg >> 16u32) & 0xff) <= 255 && ((bg >> 8u32) & 0xff) <= 255 && ((bg >> 0u32) & 0xff) <= 255) by (bit_vector);
    assert(mix(channel(fg, 16), channel(bg, 16), 255) == channel(fg, 16));
    assert(mix(channel(fg, 8), channel(bg, 8), 255) == channel(fg, 8));
    assert(mix(channel(fg, 0), channel(bg, 0), 255) == channel(fg, 0));
    assert(mix(channel(fg, 16), channel(bg, 16), 0) == channel(bg, 16));
    assert(mix(channel(fg, 8), channel(bg, 8), 0) == channel(bg, 8));
    assert(mix(channel(fg, 0), channel(bg, 0), 0) == channel(bg, 0));
    assert((0xff00_0000 + ((fg >> 16u32) & 0xff) * 65536 + ((fg >> 8u32) & 0xff) * 256 + ((fg >> 0u32) & 0xff)) as u32
        == 0xFF00_0000u32 | (fg & 0x00FF_FFFFu32)) by (bit_vector);
    assert((0xff00_0000 + ((bg >> 16u32) & 0xff) * 65536 + ((bg >> 8u32) & 0xff) * 256 + ((bg >> 0u32) & 0xff)) as u32
        == 0xFF00_0000u32 | (bg & 0x00FF_FFFFu32)) by (bit_vector);
}

/// The label font size is the largest size that, multiplied by the divisor,
/// still fits in both the width and the height of a cell.
pub proof fn lemma_font_size_fits_cells(width: int, height: int, divisor: int)
    requires
        0 <= width,
        0 <= height,
        divisor > 0,
    ensures
        font_size(width, height, divisor) * divisor <= width / (GRID_SIZE as int),
        font_size(width, height, divisor) * divisor <= height / (GRID_SIZE as int),
        (font_size(width, height, divisor) + 1) * divisor > width / (GRID_SIZE as int) || (font_size(
            width,
            height,
            divisor,
        ) + 1) * divisor > height / (GRID_SIZE as int),
{
    let h = height / 26;
    let w = width / 26;
    let m = if h < w { h } else { w };
    vstd::arithmetic::div_mod::lemma_fundamental_div_mod(m, divisor);
    assert(0 <= m % divisor < divisor);
    assert((m / divisor) * divisor == divisor * (m / divisor)) by (nonlinear_arith);
    assert((m / divisor + 1) * divisor == divisor * (m / divisor) + divisor) by (nonlinear_arith);
}

/// Pixel `(x, y)` is in the selected grid row `row` of a `width` x `height`
/// screen: on the screen, in the row's cell band, its bottom border included.
pub open spec fn in_selected_row(width: int, height: int, row: int, x: int, y: int) -> bool {
    0 <= x < width && cell_start(row, height) <= y <= cell_end(row, height) && y < height
}

/// Selecting a row highlights that row and nothing else: off the grid lines its
/// pixels take the row colour, and every pixel outside it looks as in the
/// frame with nothing selected.
pub proof fn lemma_row_highlight_covers_its_row(config: ConfigFile, width: int, height: int, row: u32, x: int, y: int)
    requires
        row < GRID_SIZE,
        height >= 1,
    ensures
        !in_selected_row(width, height, row as int, x, y) ==> frame_pixel(config, width, height, Some(row), None, x, y)
            == frame_pixel(config, width, height, None, None, x, y),
        in_selected_row(width, height, row as int, x, y) && !on_grid(width, height, x, y) ==> frame_pixel(
            config,
            width,
            height,
            Some(row),
            None,
            x,
            y,
        ) == background(config.row_bg_opacity, 0x0011_1133),
{
    if row < GRID_SIZE - 1 {
        assert((row + 1) * height / 26 <= height - 1) by (nonlinear_arith)
            requires
                row < 25,
                height >= 1,
        ;
    }
}

/// The label font size: the smaller cell side divided by the configured divisor.
pub open spec fn font_size(width: int, height: int, divisor: int) -> int {
    let h = height / (GRID_SIZE as int);
    let w = width / (GRID_SIZE as int);
    (if h < w { h } else { w }) / divisor
}

/// Computes the label font size for a `width` x `height` screen.
pub fn label_font_size(width: u32, height: u32, divisor: u32) -> (r: u32)
    requires
        divisor > 0,
    ensures
        r == font_size(width as int, height as int, divisor as int),
{
    let h = height / GRID_SIZE;
    let w = width / GRID_SIZE;
    (if h < w { h } else { w }) / divisor
}

/// What is left to draw of a frame: its labels, in the label colour, at the
/// label font size.
pub struct LabelPlan {
    pub font_size: u32,
    pub text_color: u32,
    pub labels: Vec<Label>,
}

/// A frame of a `width` x `height` screen can be drawn into `buffer` with
/// `config` without any step overflowing, underflowing or dividing by zero.
pub open spec fn frame_fits(
    buffer: PixelBuffer,
    config: ConfigFile,
    width: int,
    height: int,
    selected_row: Option<u32>,
    selected_cell: Option<(u32, u32)>,
) -> bool {
    &&& buffer.wf()
    &&& (buffer.width == 0) == (buffer.height == 0)
    &&& hex_color_readable(encode_utf8(config.grid_color@))
    &&& hex_color_readable(encode_utf8(config.text_color@))
    &&& config.font_size_divisor > 0
    &&& grid_fits(width, height)
    &&& labels_fit(width, height, selected_row, selected_cell)
}

/// Draws a frame of the overlay, all but its labels, and returns the labels
/// left to draw.
///
/// With a cell selected the frame shows it highlighted with its precision
/// grid; with only a row selected, the row highlighted; otherwise the bare grid.
pub fn render_frame(
    buffer: &mut PixelBuffer,
    width: u32,
    height: u32,
    selected_row: Option<u32>,
    selected_cell: Option<(u32, u32)>,
    config: &ConfigFile,
) -> (r: LabelPlan)
    requires
        frame_fits(*old(buffer), *config, width as int, height as int, selected_row, selected_cell),
    ensures
        final(buffer).width == old(buffer).width,
        final(buffer).height == old(buffer).height,
        final(buffer).stride == old(buffer).stride,
        final(buffer).wf(),
        forall|x: int, y: int| #[trigger] final(buffer).in_bounds(x, y) ==> final(buffer).pixel(x, y)
            == frame_pixel(*config, width as int, height as int, selected_row, selected_cell, x, y),
        r.font_size == font_size(width as int, height as int, config.font_size_divisor as int),
        r.text_color == config_text_color(*config),
        selected_cell is None && selected_row is Some && selected_row->0 < GRID_SIZE ==> forall|x: int, y: int|
            #[trigger] final(buffer).in_bounds(x, y) ==> {
                &&& !in_selected_row(width as int, height as int, selected_row->0 as int, x, y) ==> final(buffer).pixel(x, y)
                    == frame_pixel(*config, width as int, height as int, None, None, x, y)
                &&& in_selected_row(width as int, height as int, selected_row->0 as int, x, y) && !on_grid(
                    width as int,
                    height as int,
                    x,
                    y,
                ) ==> final(buffer).pixel(x, y) == background(config.row_bg_opacity, 0x0011_1133)
            },
        labels_laid_out(r.labels@, width as int, height as int, selected_row, selected_cell),
{
    let grid_rgb = parse_hex_color(config.grid_color.as_str());
    let grid_color = ((config.grid_opacity as u32) << 24) | grid_rgb;
    let text_rgb = parse_hex_color(config.text_color.as_str());
    let text_color = 0xFF00_0000u32 | text_rgb;
    assert((255u8 as u32) << 24u32 == 0xFF00_0000u32) by (bit_vector);

    let idle_bg = if config.idle_bg_opacity == 0 { 0x0000_0000 } else { ((config.idle_bg_opacity as u32) << 24) | 0x0011_1133 };
    let row_bg = if config.row_bg_opacity == 0 { 0x0000_0000 } else { ((config.row_bg_opacity as u32) << 24) | 0x0011_1133 };
    let cell_bg = if config.cell_bg_opacity == 0 { 0x0000_0000 } else { ((config.cell_bg_opacity as u32) << 24) | 0x0033_3399 };

    buffer.fill(idle_bg);
    let ghost b0 = *buffer;
    let font_size = label_font_size(width, height, config.font_size_divisor);

    if let Some((row, col)) = selected_cell {
        let (x1, y1, x2, y2) = compute_cell_bounds(col, row, width, height);
        proof {
            lemma_cell_ordered(col as int, width as int);
            lemma_cell_ordered(row as int, height as int);
        }
        buffer.fill_rect(x1, y1, x2 - x1, y2 - y1, cell_bg);
        let ghost b1 = *buffer;
        draw_precision_grid(buffer, width, height, row, col, grid_color);
        let labels = label_layout(width, height, None, selected_cell);
        assert forall|x: int, y: int| #[trigger] buffer.in_bounds(x, y) implies buffer.pixel(x, y)
            == frame_pixel(*config, width as int, height as int, selected_row, selected_cell, x, y) by {
            assert(b1.in_bounds(x, y));
            assert(b0.in_bounds(x, y));
        }
        return LabelPlan { font_size, text_color, labels };
    }

    if let Some(row) = selected_row {
        assert(row * height <= (2 * row + 1) * height && (row + 1) * height <= (2 * row + 1) * height)
            by (nonlinear_arith);
        let y1 = (row * height) / GRID_SIZE;
        let y2 = if row == GRID_SIZE - 1 { height - 1 } else { ((row + 1) * height) / GRID_SIZE };
        proof {
            lemma_cell_ordered(row as int, height as int);
            if row == GRID_SIZE - 1 {
                assert(row * height / 26 <= height - 1) by (nonlinear_arith)
                    requires
                        row == 25,
                        height >= 1,
                ;
            }
        }
        buffer.fill_rect(0, y1, width, y2 - y1 + 1, row_bg);
        let ghost b1 = *buffer;
        draw_grid(buffer, width, height, grid_color);
        let labels = label_layout(width, height, selected_row, None);
        assert forall|x: int, y: int| #[trigger] buffer.in_bounds(x, y) implies buffer.pixel(x, y)
            == frame_pixel(*config, width as int, height as int, selected_row, selected_cell, x, y) by {
            assert(b1.in_bounds(x, y));
            assert(b0.in_bounds(x, y));
        }
        if row < GRID_SIZE {
            assert forall|x: int, y: int| #[trigger] buffer.in_bounds(x, y) implies {
                &&& !in_selected_row(width as int, height as int, row as int, x, y) ==> buffer.pixel(x, y)
                    == frame_pixel(*config, width as int, height as int, None, None, x, y)
                &&& in_selected_row(width as int, height as int, row as int, x, y) && !on_grid(
                    width as int,
                    height as int,
                    x,
                    y,
                ) ==> buffer.pixel(x, y) == background(config.row_bg_opacity, 0x0011_1133)
            } by {
                lemma_row_highlight_covers_its_row(*config, width as int, height as int, row, x, y);
            }
        }
        return LabelPlan { font_size, text_color, labels };
    }

    draw_grid(buffer, width, height, grid_color);
    let labels = label_layout(width, height, None, None);
    assert forall|x: int, y: int| #[trigger] buffer.in_bounds(x, y) implies buffer.pixel(x, y)
        == frame_pixel(*config, width as int, height as int, selected_row, selected_cell, x, y) by {
        assert(b0.in_bounds(x, y));
    }
    LabelPlan { font_size, text_color, labels }
}

/// With a cell selected, each label shows a precision key and sits on exactly
/// the point that pressing that key clicks.
pub proof fn lemma_precision_labels_mark_clicks(
    labels: Seq<Label>,
    width: int,
    height: int,
    selected_row: Option<u32>,
    row: u32,
    col: u32,
)
    requires
        labels_laid_out(labels, width, height, selected_row, Some((row, col))),
    ensures
        forall|k: int|
            0 <= k < labels.len() ==> {
                let ch = (#[trigger] labels[k]).text@[0] as char;
                &&& labels[k].text@.len() == 1
                &&& subcell_of(ch) matches Some((pc, pr)) && (labels[k].cx as int, labels[k].cy as int) == precision_point(
                    col as int,
                    row as int,
                    pc as int,
                    pr as int,
                    width,
                    height,
                )
            },
{
    assert forall|k: int| 0 <= k < labels.len() implies {
        let ch = (#[trigger] labels[k]).text@[0] as char;
        &&& labels[k].text@.len() == 1
        &&& subcell_of(ch) matches Some((pc, pr)) && (labels[k].cx as int, labels[k].cy as int) == precision_point(
            col as int,
            row as int,
            pc as int,
            pr as int,
            width,
            height,
        )
    } by {
        assert(labels[k].text@ == seq![precision_key_at(k)]);
        assert(0 <= k < 12);
        if k == 0 { assert(subcell_of('y') == Some((0u32, 0u32))); }
        else if k == 1 { assert(subcell_of('u') == Some((1u32, 0u32))); }
        else if k == 2 { assert(subcell_of('i') == Some((2u32, 0u32))); }
        else if k == 3 { assert(subcell_of('o') == Some((3u32, 0u32))); }
        else if k == 4 { assert(subcell_of('h') == Some((0u32, 1u32))); }
        else if k == 5 { assert(subcell_of('j') == Some((1u32, 1u32))); }
        else if k == 6 { assert(subcell_of('k') == Some((2u32, 1u32))); }
        else if k == 7 { assert(subcell_of('l') == Some((3u32, 1u32))); }
        else if k == 8 { assert(subcell_of('n') == Some((0u32, 2u32))); }
        else if k == 9 { assert(subcell_of('m') == Some((1u32, 2u32))); }
        else if k == 10 { assert(subcell_of(',') == Some((2u32, 2u32))); }
        else { assert(subcell_of('.') == Some((3u32, 2u32))); }
    }
}

/// The centre a row or column label is drawn at lies inside the cell it names.
pub proof fn lemma_label_center_in_cell(i: int, n: int)
    requires
        0 <= i < GRID_SIZE,
        0 <= n,
    ensures
        cell_start(i, n) <= label_center(i, n) <= cell_end(i, n),
        n >= 2 * GRID_SIZE ==> label_center(i, n) < cell_end(i, n),
{
    let q = i * n / 26;
    let r = i * n % 26;
    vstd::arithmetic::div_mod::lemma_fundamental_div_mod(i * n, 26);
    assert((2 * i + 1) * n == 2 * (i * n) + n) by (nonlinear_arith);
    assert(i * n >= 0) by (nonlinear_arith)
        requires
            0 <= i,
            0 <= n,
    ;
    assert(2 * (i * n) == 52 * q + 2 * r);
    assert(52 * q <= (2 * i + 1) * n);
    vstd::arithmetic::div_mod::lemma_div_is_ordered(52 * q, (2 * i + 1) * n, 52);
    assert((52 * q) / 52 == q);
    if i < GRID_SIZE - 1 {
        assert((i + 1) * n == i * n + n) by (nonlinear_arith);
        assert(2 * ((i + 1) * n) == 2 * (i * n) + 2 * n);
        assert((2 * i + 1) * n <= 2 * ((i + 1) * n));
        vstd::arithmetic::div_mod::lemma_div_is_ordered((2 * i + 1) * n, 2 * ((i + 1) * n), 52);
        let q2 = (i + 1) * n / 26;
        vstd::arithmetic::div_mod::lemma_fundamental_div_mod((i + 1) * n, 26);
        let r2 = (i + 1) * n % 26;
        assert(2 * ((i + 1) * n) == 52 * q2 + 2 * r2);
        assert(2 * ((i + 1) * n) / 52 == q2);
        if n >= 52 {
            assert((2 * i + 1) * n <= 52 * q2 + 2 * r2 - 52);
            vstd::arithmetic::div_mod::lemma_div_is_ordered((2 * i + 1) * n, 52 * (q2 - 1) + 2 * r2, 52);
            assert((52 * (q2 - 1) + 2 * r2) / 52 == q2 - 1);
        }
    } else {
        assert((2 * i + 1) * n == 51 * n);
        assert(51 * n / 52 <= n);
        if n >= 52 {
            vstd::arithmetic::div_mod::lemma_div_is_ordered(51 * n, 52 * (n - 1), 52);
            assert((52 * (n - 1)) / 52 == n - 1);
        }
    }
}

/// The grid index named by byte `j` of a label's text (`a` names 0).
pub open spec fn named_index(text: Seq<u8>, j: int) -> int {
    text[j] as int - 97
}

/// Label centre `c` lies in grid cell `i` of an axis of `n` pixels, strictly
/// before the cell's far edge once each cell is at least two pixels wide.
pub open spec fn center_in_cell(c: int, i: int, n: int) -> bool {
    &&& 0 <= i < GRID_SIZE
    &&& cell_start(i, n) <= c <= cell_end(i, n)
    &&& n >= 2 * GRID_SIZE ==> c < cell_end(i, n)
}

/// Each label names the cell it is drawn in: with nothing selected, a label's
/// first letter is the row and its second the column of the cell holding its
/// centre; with a row selected, a label's letter is the column of the cell
/// holding its centre, within the selected row.  So typing a label's letters
/// selects the cell the label stands in.
pub proof fn lemma_labels_name_their_cells(labels: Seq<Label>, width: int, height: int, selected_row: Option<u32>)
    requires
        labels_laid_out(labels, width, height, selected_row, None),
        0 <= width,
        0 <= height,
        selected_row matches Some(row) ==> row < GRID_SIZE,
    ensures
        selected_row is None ==> forall|k: int|
            0 <= k < labels.len() ==> {
                let t = (#[trigger] labels[k]).text@;
                &&& t.len() == 2
                &&& center_in_cell(labels[k].cy as int, named_index(t, 0), height)
                &&& center_in_cell(labels[k].cx as int, named_index(t, 1), width)
            },
        selected_row matches Some(row) ==> forall|k: int|
            0 <= k < labels.len() ==> {
                let t = (#[trigger] labels[k]).text@;
                &&& t.len() == 1
                &&& center_in_cell(labels[k].cy as int, row as int, height)
                &&& center_in_cell(labels[k].cx as int, named_index(t, 0), width)
            },
{
    match selected_row {
        None => {
            assert forall|k: int| 0 <= k < labels.len() implies {
                let t = (#[trigger] labels[k]).text@;
                &&& t.len() == 2
                &&& center_in_cell(labels[k].cy as int, named_index(t, 0), height)
                &&& center_in_cell(labels[k].cx as int, named_index(t, 1), width)
            } by {
                let row = k / 26;
                let col = k % 26;
                assert(k == GRID_SIZE * row + col);
                assert(0 <= row < GRID_SIZE && 0 <= col < GRID_SIZE);
                lemma_label_center_in_cell(row, height);
                lemma_label_center_in_cell(col, width);
                assert(labels[GRID_SIZE * row + col].text@ == seq![(97 + row) as u8, (97 + col) as u8]);
            }
        },
        Some(row) => {
            lemma_label_center_in_cell(row as int, height);
            assert forall|k: int| 0 <= k < labels.len() implies {
                let t = (#[trigger] labels[k]).text@;
                &&& t.len() == 1
                &&& center_in_cell(labels[k].cy as int, row as int, height)
                &&& center_in_cell(labels[k].cx as int, named_index(t, 0), width)
            } by {
                lemma_label_center_in_cell(k, width);
            }
        },
    }
}

} // verus!
