//! An in-memory RGBA pixel buffer with bounded writes and line drawing.

use vstd::prelude::*;
use vstd::arithmetic::mul::{
    lemma_mul_inequality, lemma_mul_is_distributive_add_other_way, lemma_mul_nonnegative,
};
use crate::raster::{
    COORD_LIMIT, line_len, line_point, on_line, on_line_prefix, round_div, step_sign,
    lemma_prefix_extend, lemma_prefix_empty,
};

verus! {

/// A `width x height` grid of RGBA pixels stored row-major, four bytes per
/// pixel in R, G, B, A order, origin at the top left.
#[derive(Debug, Clone)]
pub struct Bitmap {
    width: u32,
    height: u32,
    data: Vec<u8>,
}

impl Bitmap {
    /// The byte store holds exactly `width * height * 4` bytes.
    pub closed spec fn wf(self) -> bool {
        &&& self.data@.len() == self.width * self.height * 4
        &&& self.width * self.height * 4 <= u32::MAX
    }

    /// Width in pixels.
    pub closed spec fn spec_width(self) -> u32 {
        self.width
    }

    /// Height in pixels.
    pub closed spec fn spec_height(self) -> u32 {
        self.height
    }

    /// The raw byte contents, row-major RGBA.
    pub closed spec fn bytes(self) -> Seq<u8> {
        self.data@
    }

    /// Byte index of the R channel of pixel `(x, y)`.
    pub closed spec fn pixel_index(self, x: int, y: int) -> int {
        4 * (y * self.width + x)
    }

    /// The four channels of pixel `(x, y)`, as `(r, g, b, a)`.
    pub closed spec fn pixel(self, x: int, y: int) -> (u8, u8, u8, u8) {
        let idx = self.pixel_index(x, y);
        (self.data@[idx], self.data@[idx + 1], self.data@[idx + 2], self.data@[idx + 3])
    }

    /// Whether `(x, y)` lies inside `[0, width) x [0, height)`.
    pub open spec fn in_bounds(self, x: int, y: int) -> bool {
        0 <= x < self.spec_width() && 0 <= y < self.spec_height()
    }

    /// The byte index of an in-bounds pixel leaves room for its four
    /// channels.
    proof fn lemma_pixel_index_in_range(self, x: int, y: int)
        requires
            self.wf(),
            self.in_bounds(x, y),
        ensures
            0 <= self.pixel_index(x, y),
            self.pixel_index(x, y) + 4 <= self.bytes().len(),
    {
        let w = self.width as int;
        let h = self.height as int;
        lemma_mul_nonnegative(y, w);
        lemma_mul_inequality(y, h - 1, w);
        lemma_mul_is_distributive_add_other_way(w, h - 1, 1);
        assert((h - 1) * w + 1 * w == h * w);
        assert(y * w + x <= (h - 1) * w + (w - 1));
    }

    /// Distinct in-bounds pixel coordinates use disjoint byte ranges.
    proof fn lemma_pixel_index_distinct(self, x1: int, y1: int, x2: int, y2: int)
        requires
            self.wf(),
            self.in_bounds(x1, y1),
            self.in_bounds(x2, y2),
            !(x1 == x2 && y1 == y2),
        ensures
            self.pixel_index(x1, y1) + 4 <= self.pixel_index(x2, y2)
                || self.pixel_index(x2, y2) + 4 <= self.pixel_index(x1, y1),
    {
        let w = self.width as int;
        if y1 < y2 {
            lemma_mul_inequality(y1 + 1, y2, w);
            lemma_mul_is_distributive_add_other_way(w, y1, 1);
            assert((y1 + 1) * w == y1 * w + 1 * w);
        } else if y2 < y1 {
            lemma_mul_inequality(y2 + 1, y1, w);
            lemma_mul_is_distributive_add_other_way(w, y2, 1);
            assert((y2 + 1) * w == y2 * w + 1 * w);
        }
    }

    /// Allocates a buffer of the given size with every pixel opaque white.
    /// Zero dimensions yield an empty buffer.
    pub fn new(width: u32, height: u32) -> (bm: Self)
        requires
            width * height * 4 <= u32::MAX,
        ensures
            bm.wf(),
            bm.spec_width() == width,
            bm.spec_height() == height,
            forall|i: int| 0 <= i < bm.bytes().len() ==> bm.bytes()[i] == 255u8,
    {
        let len: usize = (width as usize) * (height as usize) * 4;
        let data: Vec<u8> = vec![255u8; len];
        Bitmap { width, height, data }
    }

    /// Recreates the buffer at the new dimensions, resetting every pixel to
    /// opaque white; prior content is discarded.
    pub fn resize(&mut self, width: u32, height: u32)
        requires
            width * height * 4 <= u32::MAX,
        ensures
            final(self).wf(),
            final(self).spec_width() == width,
            final(self).spec_height() == height,
            forall|i: int| 0 <= i < final(self).bytes().len() ==> final(self).bytes()[i] == 255u8,
    {
        *self = Bitmap::new(width, height);
    }

    /// The buffer contents for upload: `width * height * 4` bytes, row-major
    /// RGBA, top-left origin.
    pub fn raw_bytes(&self) -> (bytes: &[u8])
        ensures
            bytes@ == self.bytes(),
    {
        self.data.as_slice()
    }

    /// Writes one pixel if `(x, y)` lies inside the buffer; otherwise the
    /// call leaves the buffer untouched.
    pub fn set_pixel(&mut self, x: i64, y: i64, r: u8, g: u8, b: u8, a: u8)
        requires
            old(self).wf(),
        ensures
            final(self).wf(),
            final(self).spec_width() == old(self).spec_width(),
            final(self).spec_height() == old(self).spec_height(),
            old(self).in_bounds(x as int, y as int) ==> final(self).bytes() == old(self).bytes()
                .update(old(self).pixel_index(x as int, y as int), r)
                .update(old(self).pixel_index(x as int, y as int) + 1, g)
                .update(old(self).pixel_index(x as int, y as int) + 2, b)
                .update(old(self).pixel_index(x as int, y as int) + 3, a),
            !old(self).in_bounds(x as int, y as int) ==> final(self).bytes() == old(self).bytes(),
            forall|px: int, py: int| old(self).in_bounds(px, py) ==> #[trigger] final(self).pixel(
                px,
                py,
            ) == (if px == x as int && py == y as int {
                (r, g, b, a)
            } else {
                old(self).pixel(px, py)
            }),
    {
        if x >= 0 && x < (self.width as i64) && y >= 0 && y < (self.height as i64) {
            let xu: usize = x as usize;
            let yu: usize = y as usize;
            proof {
                self.lemma_pixel_index_in_range(x as int, y as int);
                lemma_mul_nonnegative(y as int, self.width as int);
            }
            let idx: usize = 4 * (yu * (self.width as usize) + xu);
            self.data[idx] = r;
            self.data[idx + 1] = g;
            self.data[idx + 2] = b;
            self.data[idx + 3] = a;
            proof {
                assert forall|px: int, py: int| old(self).in_bounds(px, py) implies #[trigger] self
                    .pixel(px, py) == (if px == x as int && py == y as int {
                    (r, g, b, a)
                } else {
                    old(self).pixel(px, py)
                }) by {
                    if !(px == x as int && py == y as int) {
                        old(self).lemma_pixel_index_distinct(px, py, x as int, y as int);
                        old(self).lemma_pixel_index_in_range(px, py);
                    }
                }
            }
        }
    }
    /// Draws a rasterized approximation of the segment `from -> to` in the
    /// given color at full opacity: the pixels `line_point(from, to, k)` for
    /// `k` in `[0, line_len)`, stepping one pixel per unit along the dominant
    /// axis. Pixels outside the buffer are clipped silently.
    #[verifier::loop_isolation(false)]
    pub fn draw_line(&mut self, from: (i64, i64), to: (i64, i64), r: u8, g: u8, b: u8)
        requires
            old(self).wf(),
            -COORD_LIMIT <= from.0 <= COORD_LIMIT,
            -COORD_LIMIT <= from.1 <= COORD_LIMIT,
            -COORD_LIMIT <= to.0 <= COORD_LIMIT,
            -COORD_LIMIT <= to.1 <= COORD_LIMIT,
        ensures
            final(self).wf(),
            final(self).spec_width() == old(self).spec_width(),
            final(self).spec_height() == old(self).spec_height(),
            forall|px: int, py: int| old(self).in_bounds(px, py) ==> #[trigger] final(self).pixel(
                px,
                py,
            ) == (if on_line((from.0 as int, from.1 as int), (to.0 as int, to.1 as int), px, py) {
                (r, g, b, 255u8)
            } else {
                old(self).pixel(px, py)
            }),
    {
        let ghost f = (from.0 as int, from.1 as int);
        let ghost t = (to.0 as int, to.1 as int);
        let dx: i64 = to.0 - from.0;
        let dy: i64 = to.1 - from.1;
        let adx: i64 = if dx < 0 {
            -dx
        } else {
            dx
        };
        let ady: i64 = if dy < 0 {
            -dy
        } else {
            dy
        };
        if ady > adx {
            let sy: i64 = if dy < 0 {
                -1i64
            } else {
                1i64
            };
            let n: i64 = ady + 1;
            proof {
                assert(from.0 as int * ady as int <= 0x2000_0000_0000_0000
                    && from.0 as int * ady as int >= -0x2000_0000_0000_0000) by (nonlinear_arith)
                    requires
                        -0x4000_0000 <= from.0 as int <= 0x4000_0000,
                        0 <= ady as int <= 0x8000_0000,
                ;
            }
            let mut xnum: i64 = from.0 * ady;
            let mut ycur: i64 = from.1;
            let mut k: i64 = 0;
            proof {
                assert forall|px: int, py: int| old(self).in_bounds(px, py) implies #[trigger] self
                    .pixel(px, py) == (if on_line_prefix(f, t, 0, px, py) {
                    (r, g, b, 255u8)
                } else {
                    old(self).pixel(px, py)
                }) by {
                    lemma_prefix_empty(f, t, px, py);
                }
            }
            while k < n
                invariant
                    0 <= k <= n,
                    xnum as int == f.0 * (ady as int) + (k as int) * (dx as int),
                    ycur as int == f.1 + (k as int) * step_sign(dy as int),
                    self.wf(),
                    self.spec_width() == old(self).spec_width(),
                    self.spec_height() == old(self).spec_height(),
                    forall|px: int, py: int| old(self).in_bounds(px, py)
                        ==> #[trigger] self.pixel(px, py) == (if on_line_prefix(
                        f,
                        t,
                        k as int,
                        px,
                        py,
                    ) {
                        (r, g, b, 255u8)
                    } else {
                        old(self).pixel(px, py)
                    }),
                decreases n - k,
            {
                proof {
                    assert(-0x7000_0000_0000_0000 <= xnum as int + dx as int
                        <= 0x7000_0000_0000_0000 && -0x7000_0000_0000_0000 <= xnum as int
                        <= 0x7000_0000_0000_0000) by (nonlinear_arith)
                        requires
                            xnum as int == f.0 * (ady as int) + (k as int) * (dx as int),
                            -0x4000_0000 <= f.0 <= 0x4000_0000,
                            0 < ady as int <= 0x8000_0000,
                            -0x8000_0000 <= dx as int <= 0x8000_0000,
                            0 <= k as int <= ady as int,
                    ;
                }
                let xi: i64 = round_div(xnum, ady, dx);
                proof {
                    assert(line_point(f, t, k as int) == (xi as int, ycur as int));
                }
                let ghost pre = *self;
                self.set_pixel(xi, ycur, r, g, b, 255);
                proof {
                    assert forall|px: int, py: int| old(self).in_bounds(px, py)
                        implies #[trigger] self.pixel(px, py) == (if on_line_prefix(
                        f,
                        t,
                        k as int + 1,
                        px,
                        py,
                    ) {
                        (r, g, b, 255u8)
                    } else {
                        old(self).pixel(px, py)
                    }) by {
                        lemma_prefix_extend(f, t, k as int, px, py);
                        assert(pre.pixel(px, py) == (if on_line_prefix(f, t, k as int, px, py) {
                            (r, g, b, 255u8)
                        } else {
                            old(self).pixel(px, py)
                        }));
                    }
                }
                proof {
                    lemma_mul_is_distributive_add_other_way(dx as int, k as int, 1);
                    assert((k as int + 1) * (dx as int) == (k as int) * (dx as int) + 1 * (
                    dx as int));
                }
                xnum = xnum + dx;
                ycur = ycur + sy;
                k = k + 1;
            }
            proof {
                assert(line_len(f, t) == n as int);
            }
        } else if adx == 0 {
            self.set_pixel(from.0, from.1, r, g, b, 255);
            proof {
                assert(line_len(f, t) == 1);
                assert(line_point(f, t, 0) == (f.0, f.1));
                assert forall|px: int, py: int| old(self).in_bounds(px, py) implies #[trigger] self
                    .pixel(px, py) == (if on_line(f, t, px, py) {
                    (r, g, b, 255u8)
                } else {
                    old(self).pixel(px, py)
                }) by {
                    lemma_prefix_empty(f, t, px, py);
                    lemma_prefix_extend(f, t, 0, px, py);
                }
            }
        } else {
            let sx: i64 = if dx < 0 {
                -1i64
            } else {
                1i64
            };
            let n: i64 = adx + 1;
            proof {
                assert(from.1 as int * adx as int <= 0x2000_0000_0000_0000
                    && from.1 as int * adx as int >= -0x2000_0000_0000_0000) by (nonlinear_arith)
                    requires
                        -0x4000_0000 <= from.1 as int <= 0x4000_0000,
                        0 <= adx as int <= 0x8000_0000,
                ;
            }
            let mut ynum: i64 = from.1 * adx;
            let mut xcur: i64 = from.0;
            let mut k: i64 = 0;
            proof {
                assert forall|px: int, py: int| old(self).in_bounds(px, py) implies #[trigger] self
                    .pixel(px, py) == (if on_line_prefix(f, t, 0, px, py) {
                    (r, g, b, 255u8)
                } else {
                    old(self).pixel(px, py)
                }) by {
                    lemma_prefix_empty(f, t, px, py);
                }
            }
            while k < n
                invariant
                    0 <= k <= n,
                    ynum as int == f.1 * (adx as int) + (k as int) * (dy as int),
                    xcur as int == f.0 + (k as int) * step_sign(dx as int),
                    self.wf(),
                    self.spec_width() == old(self).spec_width(),
                    self.spec_height() == old(self).spec_height(),
                    forall|px: int, py: int| old(self).in_bounds(px, py)
                        ==> #[trigger] self.pixel(px, py) == (if on_line_prefix(
                        f,
                        t,
                        k as int,
                        px,
                        py,
                    ) {
                        (r, g, b, 255u8)
                    } else {
                        old(self).pixel(px, py)
                    }),
                decreases n - k,
            {
                proof {
                    assert(-0x7000_0000_0000_0000 <= ynum as int + dy as int
                        <= 0x7000_0000_0000_0000 && -0x7000_0000_0000_0000 <= ynum as int
                        <= 0x7000_0000_0000_0000) by (nonlinear_arith)
                        requires
                            ynum as int == f.1 * (adx as int) + (k as int) * (dy as int),
                            -0x4000_0000 <= f.1 <= 0x4000_0000,
                            0 < adx as int <= 0x8000_0000,
                            -0x8000_0000 <= dy as int <= 0x8000_0000,
                            0 <= k as int <= adx as int,
                    ;
                }
                let yi: i64 = round_div(ynum, adx, dy);
                proof {
                    assert(line_point(f, t, k as int) == (xcur as int, yi as int));
                }
                let ghost pre = *self;
                self.set_pixel(xcur, yi, r, g, b, 255);
                proof {
                    assert forall|px: int, py: int| old(self).in_bounds(px, py)
                        implies #[trigger] self.pixel(px, py) == (if on_line_prefix(
                        f,
                        t,
                        k as int + 1,
                        px,
                        py,
                    ) {
                        (r, g, b, 255u8)
                    } else {
                        old(self).pixel(px, py)
                    }) by {
                        lemma_prefix_extend(f, t, k as int, px, py);
                        assert(pre.pixel(px, py) == (if on_line_prefix(f, t, k as int, px, py) {
                            (r, g, b, 255u8)
                        } else {
                            old(self).pixel(px, py)
                        }));
                    }
                }
                proof {
                    lemma_mul_is_distributive_add_other_way(dy as int, k as int, 1);
                    assert((k as int + 1) * (dy as int) == (k as int) * (dy as int) + 1 * (
                    dy as int));
                }
                ynum = ynum + dy;
                xcur = xcur + sx;
                k = k + 1;
            }
            proof {
                assert(line_len(f, t) == n as int);
            }
        }
    }
}

} // verus!
