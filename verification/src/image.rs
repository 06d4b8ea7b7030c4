//! Pixel-buffer access for camera frames.
//!
//! `Image` is the interface the dot classifier draws on and reads from;
//! `RgbaView` implements it over an owned RGBA byte buffer.  Out-of-range
//! pixel reads yield black and out-of-range writes do nothing.

use vstd::prelude::*;

verus! {

/// A mutable RGB view of some pixel surface.
pub trait Image {
    fn read_pixel(&self, x: u32, y: u32) -> [u8; 3];

    fn write_pixel(&mut self, x: u32, y: u32, val: [u8; 3]);

    fn width(&self) -> usize;

    fn height(&self) -> usize;

    /// Fill the square of half-side `half_rad` centred on `(cx, cy)`.
    fn draw_rect(&mut self, half_rad: u32, cx: u32, cy: u32, col: [u8; 3])
        requires
            half_rad <= cx,
            cx + half_rad <= u32::MAX,
            half_rad <= cy,
            cy + half_rad <= u32::MAX,
    {
        let mut x = cx - half_rad;
        while x < cx + half_rad
            invariant
                cx + half_rad <= u32::MAX,
                cy + half_rad <= u32::MAX,
                half_rad <= cy,
            decreases cx + half_rad - x,
        {
            let mut y = cy - half_rad;
            while y < cy + half_rad
                invariant
                    cy + half_rad <= u32::MAX,
                decreases cy + half_rad - y,
            {
                self.write_pixel(x, y, col);
                y = y + 1;
            }
            x = x + 1;
        }
    }
}

/// An owned `width x height` RGBA buffer, 4 bytes per pixel, row-major.
pub struct RgbaView {
    buf: Vec<u8>,
    width: usize,
    height: usize,
}

impl RgbaView {
    /// Whether the buffer holds exactly 4 bytes per pixel.
    pub closed spec fn wf(&self) -> bool {
        self.buf@.len() == self.width * self.height * 4
    }

    pub closed spec fn spec_width(&self) -> int {
        self.width as int
    }

    pub closed spec fn spec_height(&self) -> int {
        self.height as int
    }

    /// Wrap an RGBA buffer; it must hold exactly 4 bytes per pixel.
    pub fn new(buf: Vec<u8>, width: usize, height: usize) -> (r: Self)
        requires
            buf@.len() == width * height * 4,
        ensures
            r.wf(),
            r.spec_width() == width,
            r.spec_height() == height,
    {
        Self { buf, width, height }
    }

    /// Hand the underlying buffer back.
    pub fn into_buffer(self) -> (r: Vec<u8>)
        ensures
            self.wf() ==> r@.len() == self.spec_width() * self.spec_height() * 4,
    {
        self.buf
    }
}

impl Image for RgbaView {
    /// The pixel at `(x, y)`, or black when `(x, y)` lies outside the
    /// surface or the buffer is short.
    fn read_pixel(&self, x: u32, y: u32) -> [u8; 3] {
        let xu = x as usize;
        let yu = y as usize;
        if xu >= self.width || yu >= self.height {
            return [0, 0, 0];
        }
        proof {
            lemma_pixel_index(self.width as int, self.height as int, xu as int, yu as int);
        }
        let index = match pixel_offset(self.width, xu, yu) {
            Option::Some(i) => i,
            Option::None => {
                return [0, 0, 0];
            },
        };
        if index >= self.buf.len() || self.buf.len() - index < 3 {
            return [0, 0, 0];
        }
        [self.buf[index], self.buf[index + 1], self.buf[index + 2]]
    }

    /// Overwrite the pixel at `(x, y)`; outside the surface or a short
    /// buffer, do nothing.
    fn write_pixel(&mut self, x: u32, y: u32, val: [u8; 3]) {
        let xu = x as usize;
        let yu = y as usize;
        if xu >= self.width || yu >= self.height {
            return ;
        }
        proof {
            lemma_pixel_index(self.width as int, self.height as int, xu as int, yu as int);
        }
        let index = match pixel_offset(self.width, xu, yu) {
            Option::Some(i) => i,
            Option::None => {
                return ;
            },
        };
        if index >= self.buf.len() || self.buf.len() - index < 3 {
            return ;
        }
        self.buf.set(index, val[0]);
        self.buf.set(index + 1, val[1]);
        self.buf.set(index + 2, val[2]);
    }

    fn width(&self) -> usize {
        self.width
    }

    fn height(&self) -> usize {
        self.height
    }
}

/// The byte offset of pixel `(x, y)` in a row-major RGBA buffer `width`
/// pixels wide, or `None` when it cannot be represented.
fn pixel_offset(width: usize, x: usize, y: usize) -> (r: Option<usize>)
    ensures
        r matches Some(i) ==> i == (width * y + x) * 4,
{
    match width.checked_mul(y) {
        Option::Some(row) => match row.checked_add(x) {
            Option::Some(cell) => cell.checked_mul(4),
            Option::None => None,
        },
        Option::None => None,
    }
}

/// The byte range of an in-range pixel lies inside the buffer.
proof fn lemma_pixel_index(w: int, h: int, x: int, y: int)
    requires
        0 <= x < w,
        0 <= y < h,
    ensures
        0 <= (w * y + x) * 4,
        (w * y + x) * 4 + 3 < w * h * 4,
        w * y + x <= w * h,
        w * h <= w * h * 4,
{
    assert(0 <= (w * y + x) * 4 && (w * y + x) * 4 + 3 < w * h * 4 && w * y + x <= w * h && w
        * h <= w * h * 4) by (nonlinear_arith)
        requires
            0 <= x < w,
            0 <= y < h,
    ;
}

} // verus!
