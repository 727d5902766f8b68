//! Single-channel 8-bit rasters: the binary masks that text detection works on.
use vstd::prelude::*;

verus! {

/// Largest width or height of a mask: coordinates stay within `i32`.
pub const MAX_SIDE: u32 = 0x7fff_ffff;

/// Width and height of an image, in pixels.
#[derive(Debug, Clone, Copy, PartialEq, Eq, Structural)]
pub struct Size {
    pub width: i32,
    pub height: i32,
}

impl Size {
    pub fn new(width: i32, height: i32) -> (r: Self)
        ensures
            r.width == width,
            r.height == height,
    {
        Size { width, height }
    }
}

/// A grey-level raster stored row by row: the pixel at column `x` and row `y`
/// is `pixels[y * width + x]`.
#[derive(Debug, Clone)]
pub struct GrayMask {
    pub width: u32,
    pub height: u32,
    pub pixels: Vec<u8>,
}

/// Position of pixel `(x, y)` in a row-major buffer of rows `w` wide.
pub open spec fn cell(w: int, x: int, y: int) -> int {
    y * w + x
}

pub proof fn lemma_cell_bounds(w: int, h: int, x: int, y: int)
    requires
        0 <= x < w,
        0 <= y < h,
    ensures
        0 <= cell(w, x, y) < w * h,
        cell(w, x, y) == y * w + x,
{
    assert(0 <= y * w + x < w * h) by (nonlinear_arith)
        requires
            0 <= x < w,
            0 <= y < h,
    ;
}

/// Distinct pixels occupy distinct cells.
pub proof fn lemma_cell_injective(w: int, x1: int, y1: int, x2: int, y2: int)
    requires
        0 <= x1 < w,
        0 <= x2 < w,
        0 <= y1,
        0 <= y2,
        cell(w, x1, y1) == cell(w, x2, y2),
    ensures
        x1 == x2,
        y1 == y2,
{
    assert(y1 == y2) by (nonlinear_arith)
        requires
            0 <= x1 < w,
            0 <= x2 < w,
            0 <= y1,
            0 <= y2,
            y1 * w + x1 == y2 * w + x2,
    ;
}

impl GrayMask {
    /// The buffer holds exactly one byte per pixel, and coordinates fit `i32`.
    pub open spec fn wf(&self) -> bool {
        &&& self.width <= MAX_SIDE
        &&& self.height <= MAX_SIDE
        &&& self.width * self.height <= usize::MAX
        &&& self.pixels@.len() == self.width * self.height
    }

    pub open spec fn in_bounds(&self, x: int, y: int) -> bool {
        0 <= x < self.width && 0 <= y < self.height
    }

    /// Grey value at `(x, y)`.
    pub open spec fn at(&self, x: int, y: int) -> u8 {
        self.pixels@[cell(self.width as int, x, y)]
    }

    /// Foreground: inside the raster and brighter than 127.
    pub open spec fn is_fg(&self, x: int, y: int) -> bool {
        self.in_bounds(x, y) && self.at(x, y) > 127
    }

    /// An all-black raster of the given size.
    pub fn new(width: u32, height: u32) -> (r: Self)
        requires
            width <= MAX_SIDE,
            height <= MAX_SIDE,
            width * height <= usize::MAX,
        ensures
            r.wf(),
            r.width == width,
            r.height == height,
            forall|i: int| 0 <= i < r.pixels@.len() ==> r.pixels@[i] == 0,
    {
        let n: usize = (width as usize) * (height as usize);
        let pixels = vec![0u8; n];
        GrayMask { width, height, pixels }
    }

    /// A raster over `pixels`, row by row; `None` when the buffer does not
    /// hold exactly `width * height` bytes.
    pub fn from_raw(width: u32, height: u32, pixels: Vec<u8>) -> (r: Option<Self>)
        requires
            width <= MAX_SIDE,
            height <= MAX_SIDE,
        ensures
            r.is_some() <==> pixels@.len() == width * height,
            r.is_some() ==> r.unwrap().wf() && r.unwrap().width == width && r.unwrap().height
                == height && r.unwrap().pixels@ == pixels@,
    {
        assert((width as int) * (height as int) <= 0x7fff_ffff * 0x7fff_ffff) by (nonlinear_arith)
            requires
                width <= 0x7fff_ffff,
                height <= 0x7fff_ffff,
        ;
        let n: u64 = (width as u64) * (height as u64);
        if (pixels.len() as u64) == n {
            Some(GrayMask { width, height, pixels })
        } else {
            None
        }
    }

    pub fn dimensions(&self) -> (r: (u32, u32))
        ensures
            r == (self.width, self.height),
    {
        (self.width, self.height)
    }

    /// Grey value at `(x, y)`.
    pub fn get_pixel(&self, x: u32, y: u32) -> (r: u8)
        requires
            self.wf(),
            x < self.width,
            y < self.height,
        ensures
            r == self.at(x as int, y as int),
    {
        proof {
            lemma_cell_bounds(self.width as int, self.height as int, x as int, y as int);
        }
        self.pixels[(y as usize) * (self.width as usize) + (x as usize)]
    }

    /// Sets the grey value at `(x, y)`; every other pixel keeps its value.
    pub fn put_pixel(&mut self, x: u32, y: u32, v: u8)
        requires
            old(self).wf(),
            x < old(self).width,
            y < old(self).height,
        ensures
            final(self).wf(),
            final(self).width == old(self).width,
            final(self).height == old(self).height,
            final(self).at(x as int, y as int) == v,
            forall|i: int, j: int|
                #![trigger final(self).at(i, j)]
                old(self).in_bounds(i, j) && (i != x || j != y) ==> final(self).at(i, j)
                    == old(self).at(i, j),
    {
        proof {
            lemma_cell_bounds(self.width as int, self.height as int, x as int, y as int);
        }
        let idx = (y as usize) * (self.width as usize) + (x as usize);
        self.pixels.set(idx, v);
        proof {
            assert forall|i: int, j: int|
                #![trigger self.at(i, j)]
                old(self).in_bounds(i, j) && (i != x || j != y) implies self.at(i, j) == old(
                self,
            ).at(i, j) by {
                lemma_cell_bounds(self.width as int, self.height as int, i, j);
                if cell(self.width as int, i, j) == idx as int {
                    lemma_cell_injective(self.width as int, i, j, x as int, y as int);
                }
            }
        }
    }
}

/// `v`, lowered to `hi` when it exceeds it.
pub open spec fn clamp_hi(v: int, hi: int) -> int {
    if v > hi {
        hi
    } else {
        v
    }
}

pub open spec fn max_u8(a: u8, b: u8) -> u8 {
    if a >= b {
        a
    } else {
        b
    }
}

/// Value at `(x, y)` of the dilation by a 2 x 2 square of ones anchored at its
/// top-left cell: the maximum over the pixel, its right neighbour, the one
/// below and the one below-right, where a neighbour past the last column or
/// row is replaced by the pixel on that edge.
pub open spec fn dilated_at(m: GrayMask, x: int, y: int) -> u8 {
    let x1 = clamp_hi(x + 1, m.width - 1);
    let y1 = clamp_hi(y + 1, m.height - 1);
    max_u8(max_u8(m.at(x, y), m.at(x1, y)), max_u8(m.at(x, y1), m.at(x1, y1)))
}

/// Dilates `img` with a 2 x 2 kernel of ones, clamping at the right and
/// bottom edges. Joins foreground regions that are one pixel apart.
pub fn dilate_2x2(img: &GrayMask) -> (r: GrayMask)
    requires
        img.wf(),
    ensures
        r.wf(),
        r.width == img.width,
        r.height == img.height,
        forall|x: int, y: int|
            #![trigger r.at(x, y)]
            img.in_bounds(x, y) ==> r.at(x, y) == dilated_at(*img, x, y),
{
    let (width, height) = img.dimensions();
    let mut result = GrayMask::new(width, height);
    let mut y: u32 = 0;
    while y < height
        invariant
            img.wf(),
            width == img.width,
            height == img.height,
            result.wf(),
            result.width == width,
            result.height == height,
            y <= height,
            forall|i: int, j: int|
                #![trigger result.at(i, j)]
                0 <= i < width && 0 <= j < y ==> result.at(i, j) == dilated_at(*img, i, j),
        decreases height - y,
    {
        let mut x: u32 = 0;
        while x < width
            invariant
                img.wf(),
                width == img.width,
                height == img.height,
                result.wf(),
                result.width == width,
                result.height == height,
                y < height,
                x <= width,
                forall|i: int, j: int|
                    #![trigger result.at(i, j)]
                    0 <= i < width && 0 <= j < y ==> result.at(i, j) == dilated_at(*img, i, j),
                forall|i: int|
                    #![trigger result.at(i, y as int)]
                    0 <= i < x ==> result.at(i, y as int) == dilated_at(*img, i, y as int),
            decreases width - x,
        {
            let x1: u32 = if x + 1 < width {
                x + 1
            } else {
                width - 1
            };
            let y1: u32 = if y + 1 < height {
                y + 1
            } else {
                height - 1
            };
            let a = img.get_pixel(x, y);
            let b = img.get_pixel(x1, y);
            let c = img.get_pixel(x, y1);
            let d = img.get_pixel(x1, y1);
            let ab = if a >= b {
                a
            } else {
                b
            };
            let cd = if c >= d {
                c
            } else {
                d
            };
            let max_val = if ab >= cd {
                ab
            } else {
                cd
            };
            result.put_pixel(x, y, max_val);
            x = x + 1;
        }
        y = y + 1;
    }
    result
}

/// Whether the foreground pixel `(x, y)` has a side on the image edge or on
/// a background pixel (127 or darker).
pub fn is_border_pixel(img: &GrayMask, x: i32, y: i32) -> (r: bool)
    requires
        img.wf(),
        img.in_bounds(x as int, y as int),
    ensures
        r == (!img.is_fg(x as int, y - 1) || !img.is_fg(x + 1, y as int) || !img.is_fg(
            x as int,
            y + 1,
        ) || !img.is_fg(x - 1, y as int)),
{
    !fg_at(img, x, y - 1) || !fg_at(img, x + 1, y) || !fg_at(img, x, y + 1) || !fg_at(img, x - 1, y)
}

/// Whether `(x, y)` is a foreground pixel of `img`.
fn fg_at(img: &GrayMask, x: i32, y: i32) -> (r: bool)
    requires
        img.wf(),
    ensures
        r == img.is_fg(x as int, y as int),
{
    if x < 0 || y < 0 || x as u32 >= img.width || y as u32 >= img.height {
        false
    } else {
        img.get_pixel(x as u32, y as u32) > 127
    }
}

} // verus!
