//! Single-channel rasters: the pixel grids that frames, template images and
//! opacity masks are made of. Pixels are stored row-major, one byte each.

use vstd::prelude::*;

verus! {

/// Largest accepted width or height of a raster. Keeping both dimensions
/// bounded keeps every pixel index and score sum far from overflow.
pub const MAX_DIM: usize = 0xFFFF;

/// The sample at column `x` of row `y` of a row-major buffer of width `w`.
pub open spec fn buf_px(pixels: Seq<u8>, w: int, x: int, y: int) -> u8 {
    pixels[y * w + x]
}

/// A single-channel image: `pixels[y * width + x]` is the sample at column
/// `x` of row `y`.
#[derive(Clone, Debug)]
pub struct Raster {
    pub width: usize,
    pub height: usize,
    pub pixels: Vec<u8>,
}

impl Raster {
    /// Well-formed: the pixel buffer matches the dimensions and both
    /// dimensions stay within `MAX_DIM`.
    pub open spec fn wf(self) -> bool {
        &&& self.pixels.len() == self.width * self.height
        &&& self.width <= MAX_DIM
        &&& self.height <= MAX_DIM
    }

    /// The sample at column `x` of row `y`.
    pub open spec fn spec_px(self, x: int, y: int) -> u8 {
        self.pixels[y * self.width + x]
    }

    /// A raster of the given dimensions with every sample zero, if the
    /// dimensions are within bounds.
    pub fn zeros(width: usize, height: usize) -> (r: Option<Raster>)
        ensures
            r is Some <==> width <= MAX_DIM && height <= MAX_DIM,
            r is Some ==> {
                &&& r.unwrap().wf()
                &&& r.unwrap().width == width
                &&& r.unwrap().height == height
                &&& forall|x: int, y: int|
                    0 <= x < width && 0 <= y < height ==> r.unwrap().spec_px(x, y) == 0
            },
    {
        if width > MAX_DIM || height > MAX_DIM {
            return None;
        }
        proof {
            assert(width * height <= MAX_DIM * MAX_DIM) by (nonlinear_arith)
                requires
                    width <= MAX_DIM,
                    height <= MAX_DIM,
            ;
        }
        let n = width * height;
        let mut pixels: Vec<u8> = Vec::new();
        let mut i: usize = 0;
        while i < n
            invariant
                i <= n,
                n == width * height,
                pixels.len() == i,
                forall|j: int| 0 <= j < i ==> pixels[j] == 0,
            decreases n - i,
        {
            pixels.push(0);
            i = i + 1;
        }
        let r = Raster { width, height, pixels };
        proof {
            assert forall|x: int, y: int|
                0 <= x < width && 0 <= y < height implies r.spec_px(x, y) == 0 by {
                lemma_rowmajor_in_range(width as int, height as int, x, y);
            }
        }
        Some(r)
    }

    /// Builds a raster from a pixel buffer, if the buffer length matches the
    /// dimensions and the dimensions are within bounds.
    pub fn from_pixels(width: usize, height: usize, pixels: Vec<u8>) -> (r: Option<Raster>)
        ensures
            r is Some <==> pixels.len() == width * height && width <= MAX_DIM && height
                <= MAX_DIM,
            r is Some ==> r.unwrap() == (Raster { width, height, pixels }),
    {
        if width > MAX_DIM || height > MAX_DIM {
            return None;
        }
        if width.checked_mul(height) != Some(pixels.len()) {
            return None;
        }
        Some(Raster { width, height, pixels })
    }

    /// Reads the sample at column `x` of row `y`.
    pub fn px(&self, x: usize, y: usize) -> (r: u8)
        requires
            self.wf(),
            x < self.width,
            y < self.height,
        ensures
            r == self.spec_px(x as int, y as int),
    {
        proof {
            lemma_rowmajor_in_range(self.width as int, self.height as int, x as int, y as int);
        }
        self.pixels[y * self.width + x]
    }

    /// Cuts the axis-aligned window of size `w`×`h` whose top-left corner is
    /// at `(x0, y0)` out of this raster.
    pub fn crop(&self, x0: usize, y0: usize, w: usize, h: usize) -> (r: Option<Raster>)
        requires
            self.wf(),
        ensures
            r is Some <==> x0 + w <= self.width && y0 + h <= self.height,
            r is Some ==> {
                &&& r.unwrap().wf()
                &&& r.unwrap().width == w
                &&& r.unwrap().height == h
                &&& forall|x: int, y: int|
                    0 <= x < w && 0 <= y < h ==> r.unwrap().spec_px(x, y) == self.spec_px(
                        x0 + x,
                        y0 + y,
                    )
            },
    {
        if w > self.width || x0 > self.width - w || h > self.height || y0 > self.height - h {
            return None;
        }
        let mut pixels: Vec<u8> = Vec::new();
        let mut y: usize = 0;
        while y < h
            invariant
                self.wf(),
                y <= h,
                x0 + w <= self.width,
                y0 + h <= self.height,
                pixels.len() == y * w,
                forall|xx: int, yy: int|
                    0 <= xx < w && 0 <= yy < y ==> #[trigger] buf_px(pixels@, w as int, xx, yy)
                        == self.spec_px(x0 + xx, y0 + yy),
            decreases h - y,
        {
            let mut x: usize = 0;
            while x < w
                invariant
                    self.wf(),
                    y < h,
                    x <= w,
                    x0 + w <= self.width,
                    y0 + h <= self.height,
                    pixels.len() == y * w + x,
                    forall|xx: int, yy: int|
                        0 <= xx < w && 0 <= yy < y ==> #[trigger] buf_px(pixels@, w as int, xx, yy)
                            == self.spec_px(x0 + xx, y0 + yy),
                    forall|xx: int|
                        0 <= xx < x ==> #[trigger] buf_px(pixels@, w as int, xx, y as int)
                            == self.spec_px(x0 + xx, y0 + y),
                decreases w - x,
            {
                proof {
                    lemma_rowmajor_in_range(w as int, h as int, x as int, y as int);
                }
                let p = self.px(x0 + x, y0 + y);
                let ghost pre = pixels@;
                pixels.push(p);
                proof {
                    assert forall|xx: int, yy: int|
                        0 <= xx < w && 0 <= yy < y implies #[trigger] buf_px(
                        pixels@,
                        w as int,
                        xx,
                        yy,
                    ) == self.spec_px(x0 + xx, y0 + yy) by {
                        lemma_rowmajor_in_range(w as int, y as int, xx, yy);
                        assert(buf_px(pre, w as int, xx, yy) == self.spec_px(x0 + xx, y0 + yy));
                        assert(pixels@[yy * w + xx] == pre[yy * w + xx]);
                    }
                    assert forall|xx: int|
                        0 <= xx < x + 1 implies #[trigger] buf_px(pixels@, w as int, xx, y as int)
                        == self.spec_px(x0 + xx, y0 + y) by {
                        if xx < x {
                            assert(buf_px(pre, w as int, xx, y as int) == self.spec_px(
                                x0 + xx,
                                y0 + y,
                            ));
                            assert(pixels@[y * w + xx] == pre[y * w + xx]);
                        } else {
                            assert(pixels@[y * w + xx] == p);
                        }
                    }
                }
                x = x + 1;
            }
            proof {
                assert((y + 1) * (w as int) == y * (w as int) + w) by (nonlinear_arith);
            }
            y = y + 1;
        }
        proof {
            assert(h * (w as int) == w * (h as int)) by (nonlinear_arith);
        }
        let r = Raster { width: w, height: h, pixels };
        proof {
            assert forall|x: int, y: int|
                0 <= x < w && 0 <= y < h implies r.spec_px(x, y) == self.spec_px(
                x0 + x,
                y0 + y,
            ) by {
                lemma_rowmajor_in_range(w as int, h as int, x, y);
                assert(buf_px(r.pixels@, w as int, x, y) == self.spec_px(x0 + x, y0 + y));
            }
        }
        Some(r)
    }
}

/// A row-major index `y * w + x` stays below `w * h` and, for `y < h - 1` or
/// `x < w`, below the buffer end; used to justify every pixel access.
pub proof fn lemma_rowmajor_in_range(w: int, h: int, x: int, y: int)
    requires
        0 <= x < w,
        0 <= y < h,
    ensures
        0 <= y * w + x < w * h,
        y * w + x < h * w,
{
    assert(0 <= y * w + x < w * h && y * w + x < h * w) by (nonlinear_arith)
        requires
            0 <= x < w,
            0 <= y < h,
    ;
}

} // verus!
