//! Accumulation of pointer samples into continuous strokes.
//!
//! Pointer-move events buffer samples while the primary button is held; a
//! periodic redraw tick drains the buffer into line segments, connected to
//! the last point drawn on the previous tick (the anchor) so that a stroke
//! stays continuous across frames. Releasing the button severs the anchor
//! once a tick completes with nothing pending, so the next press starts a
//! fresh, unconnected mark.

use vstd::prelude::*;
use crate::bitmap::Bitmap;
use crate::raster::{COORD_LIMIT, on_line};

verus! {

/// A point as a pair of mathematical integers.
pub open spec fn pt(p: (i64, i64)) -> (int, int) {
    (p.0 as int, p.1 as int)
}

/// Whether both coordinates lie within the rasterizer's coordinate limit.
pub open spec fn pt_bounded(p: (i64, i64)) -> bool {
    &&& -COORD_LIMIT <= p.0 <= COORD_LIMIT
    &&& -COORD_LIMIT <= p.1 <= COORD_LIMIT
}

/// Whether every point of the sequence lies within the coordinate limit.
pub open spec fn points_bounded(s: Seq<(i64, i64)>) -> bool {
    forall|i: int| 0 <= i < s.len() ==> pt_bounded(#[trigger] s[i])
}

/// The polyline a tick draws: the anchor, if any, prepended to the pending
/// samples.
pub open spec fn chain(anchor: Option<(i64, i64)>, pending: Seq<(i64, i64)>) -> Seq<(i64, i64)> {
    match anchor {
        Some(p0) => seq![p0] + pending,
        None => pending,
    }
}

/// Whether `(x, y)` lies on the `i`-th segment of the polyline `c`.
pub open spec fn seg_covers(c: Seq<(i64, i64)>, i: int, x: int, y: int) -> bool {
    on_line(pt(c[i]), pt(c[i + 1]), x, y)
}

/// Whether `(x, y)` lies on one of the first `t` segments of the polyline
/// `c`.
pub open spec fn covers_prefix(c: Seq<(i64, i64)>, t: int, x: int, y: int) -> bool {
    exists|i: int| 0 <= i < t && #[trigger] seg_covers(c, i, x, y)
}

/// The pixels a tick draws from the given anchor and pending samples: none
/// when nothing is pending; the single sample when it alone starts a stroke;
/// otherwise every segment of the polyline `chain(anchor, pending)`.
pub open spec fn stroke_covers(
    anchor: Option<(i64, i64)>,
    pending: Seq<(i64, i64)>,
    x: int,
    y: int,
) -> bool {
    let c = chain(anchor, pending);
    if pending.len() == 0 {
        false
    } else if c.len() == 1 {
        x == c[0].0 && y == c[0].1
    } else {
        covers_prefix(c, c.len() - 1, x, y)
    }
}

/// No pixel lies on an empty prefix of a polyline.
proof fn lemma_covers_empty(c: Seq<(i64, i64)>, x: int, y: int)
    ensures
        !covers_prefix(c, 0, x, y),
{
    if covers_prefix(c, 0, x, y) {
        let i = choose|i: int| 0 <= i < 0 && #[trigger] seg_covers(c, i, x, y);
    }
}

/// Extending a prefix of a polyline by one segment adds exactly the pixels
/// of that segment.
proof fn lemma_covers_extend(c: Seq<(i64, i64)>, t: int, x: int, y: int)
    requires
        0 <= t,
    ensures
        covers_prefix(c, t + 1, x, y) <==> (covers_prefix(c, t, x, y) || seg_covers(c, t, x, y)),
{
    if covers_prefix(c, t + 1, x, y) {
        let i = choose|i: int| 0 <= i < t + 1 && #[trigger] seg_covers(c, i, x, y);
        if i < t {
            assert(covers_prefix(c, t, x, y));
        }
    }
    if covers_prefix(c, t, x, y) {
        let i = choose|i: int| 0 <= i < t && #[trigger] seg_covers(c, i, x, y);
        assert(0 <= i < t + 1 && seg_covers(c, i, x, y));
        assert(covers_prefix(c, t + 1, x, y));
    }
    if seg_covers(c, t, x, y) {
        assert(0 <= t < t + 1 && seg_covers(c, t, x, y));
        assert(covers_prefix(c, t + 1, x, y));
    }
}

/// Per-frame state machine that buffers pointer samples while the primary
/// button is held and, on each redraw tick, rasterizes them as connected
/// line segments.
pub struct StrokeAccumulator {
    button_down: bool,
    pending: Vec<(i64, i64)>,
    anchor: Option<(i64, i64)>,
}

impl StrokeAccumulator {
    /// Whether the primary button is currently held.
    pub closed spec fn spec_button_down(self) -> bool {
        self.button_down
    }

    /// Samples received since the last redraw tick, in arrival order.
    pub closed spec fn spec_pending(self) -> Seq<(i64, i64)> {
        self.pending@
    }

    /// The last point drawn, carried across ticks while a stroke continues;
    /// `None` when no stroke is in progress.
    pub closed spec fn spec_anchor(self) -> Option<(i64, i64)> {
        self.anchor
    }

    /// Every buffered point lies within the rasterizer's coordinate limit.
    pub open spec fn wf(self) -> bool {
        &&& points_bounded(self.spec_pending())
        &&& match self.spec_anchor() {
            Some(p) => pt_bounded(p),
            None => true,
        }
    }

    /// An idle accumulator: button up, nothing pending, no stroke in
    /// progress.
    pub fn new() -> (acc: Self)
        ensures
            acc.wf(),
            !acc.spec_button_down(),
            acc.spec_pending().len() == 0,
            acc.spec_anchor() is None,
    {
        StrokeAccumulator { button_down: false, pending: Vec::new(), anchor: None }
    }

    /// The last point drawn, if a stroke is in progress.
    pub fn anchor(&self) -> (a: Option<(i64, i64)>)
        ensures
            a == self.spec_anchor(),
    {
        self.anchor
    }

    /// Records a press or release of the primary button. No drawing happens
    /// here.
    pub fn set_button(&mut self, pressed: bool)
        requires
            old(self).wf(),
        ensures
            final(self).wf(),
            final(self).spec_button_down() == pressed,
            final(self).spec_pending() == old(self).spec_pending(),
            final(self).spec_anchor() == old(self).spec_anchor(),
    {
        self.button_down = pressed;
    }

    /// Records a pointer-move sample: buffered while the button is held,
    /// ignored otherwise.
    pub fn pointer_moved(&mut self, x: i64, y: i64)
        requires
            old(self).wf(),
            -COORD_LIMIT <= x <= COORD_LIMIT,
            -COORD_LIMIT <= y <= COORD_LIMIT,
        ensures
            final(self).wf(),
            final(self).spec_button_down() == old(self).spec_button_down(),
            final(self).spec_anchor() == old(self).spec_anchor(),
            old(self).spec_button_down() ==> final(self).spec_pending() == old(
                self,
            ).spec_pending().push((x, y)),
            !old(self).spec_button_down() ==> final(self).spec_pending() == old(
                self,
            ).spec_pending(),
    {
        if self.button_down {
            self.pending.push((x, y));
            proof {
                assert forall|i: int| 0 <= i < self.spec_pending().len() implies pt_bounded(
                    #[trigger] self.spec_pending()[i],
                ) by {
                    if i < old(self).spec_pending().len() {
                        assert(pt_bounded(old(self).spec_pending()[i]));
                    }
                }
            }
        }
    }

    /// A redraw tick: drains the pending samples into the bitmap as a
    /// connected polyline in opaque red.
    ///
    /// With an anchor from an earlier tick the first segment connects to it;
    /// a single sample with no anchor marks one pixel. The last point drawn
    /// becomes the new anchor, and the anchor is cleared once the button is
    /// up, ending the stroke.
    #[verifier::loop_isolation(false)]
    pub fn tick(&mut self, bitmap: &mut Bitmap)
        requires
            old(self).wf(),
            old(bitmap).wf(),
        ensures
            final(self).wf(),
            final(bitmap).wf(),
            final(bitmap).spec_width() == old(bitmap).spec_width(),
            final(bitmap).spec_height() == old(bitmap).spec_height(),
            final(self).spec_button_down() == old(self).spec_button_down(),
            final(self).spec_pending().len() == 0,
            final(self).spec_anchor() == (if !old(self).spec_button_down() {
                None::<(i64, i64)>
            } else if old(self).spec_pending().len() > 0 {
                Some(old(self).spec_pending().last())
            } else {
                old(self).spec_anchor()
            }),
            forall|px: int, py: int| old(bitmap).in_bounds(px, py) ==> #[trigger] final(bitmap)
                .pixel(px, py) == (if stroke_covers(
                old(self).spec_anchor(),
                old(self).spec_pending(),
                px,
                py,
            ) {
                (255u8, 0u8, 0u8, 255u8)
            } else {
                old(bitmap).pixel(px, py)
            }),
    {
        let ghost c = chain(old(self).spec_anchor(), old(self).spec_pending());
        let len: usize = self.pending.len();
        if len == 0 {
        } else if len == 1 {
            let p: (i64, i64) = self.pending[0];
            proof {
                assert(pt_bounded(old(self).spec_pending()[0]));
            }
            match self.anchor {
                Some(p0) => {
                    bitmap.draw_line(p0, p, 255, 0, 0);
                    proof {
                        assert(c.len() == 2);
                        assert(c[0] == p0 && c[1] == p);
                        assert forall|px: int, py: int| old(bitmap).in_bounds(px, py)
                            implies #[trigger] bitmap.pixel(px, py) == (if stroke_covers(
                            old(self).spec_anchor(),
                            old(self).spec_pending(),
                            px,
                            py,
                        ) {
                            (255u8, 0u8, 0u8, 255u8)
                        } else {
                            old(bitmap).pixel(px, py)
                        }) by {
                            lemma_covers_empty(c, px, py);
                            lemma_covers_extend(c, 0, px, py);
                        }
                    }
                },
                None => {
                    bitmap.set_pixel(p.0, p.1, 255, 0, 0, 255);
                    proof {
                        assert(c.len() == 1 && c[0] == p);
                    }
                },
            }
            self.anchor = Some(p);
        } else {
            let mut current: (i64, i64) = self.pending[0];
            proof {
                assert(pt_bounded(old(self).spec_pending()[0]));
            }
            let ghost base: int = match old(self).spec_anchor() {
                Some(p0) => 1,
                None => 0,
            };
            match self.anchor {
                Some(p0) => {
                    bitmap.draw_line(p0, current, 255, 0, 0);
                    proof {
                        assert(c[0] == p0 && c[1] == current);
                        assert forall|px: int, py: int| old(bitmap).in_bounds(px, py)
                            implies #[trigger] bitmap.pixel(px, py) == (if covers_prefix(
                            c,
                            base,
                            px,
                            py,
                        ) {
                            (255u8, 0u8, 0u8, 255u8)
                        } else {
                            old(bitmap).pixel(px, py)
                        }) by {
                            lemma_covers_empty(c, px, py);
                            lemma_covers_extend(c, 0, px, py);
                        }
                    }
                },
                None => {
                    proof {
                        assert forall|px: int, py: int| old(bitmap).in_bounds(px, py)
                            implies #[trigger] bitmap.pixel(px, py) == (if covers_prefix(
                            c,
                            base,
                            px,
                            py,
                        ) {
                            (255u8, 0u8, 0u8, 255u8)
                        } else {
                            old(bitmap).pixel(px, py)
                        }) by {
                            lemma_covers_empty(c, px, py);
                        }
                    }
                },
            }
            let mut idx: usize = 1;
            while idx < len
                invariant
                    1 <= idx <= len,
                    current == c[base + idx - 1],
                    bitmap.wf(),
                    bitmap.spec_width() == old(bitmap).spec_width(),
                    bitmap.spec_height() == old(bitmap).spec_height(),
                    *self == *old(self),
                    forall|px: int, py: int| old(bitmap).in_bounds(px, py)
                        ==> #[trigger] bitmap.pixel(px, py) == (if covers_prefix(
                        c,
                        base + idx - 1,
                        px,
                        py,
                    ) {
                        (255u8, 0u8, 0u8, 255u8)
                    } else {
                        old(bitmap).pixel(px, py)
                    }),
                decreases len - idx,
            {
                let s: (i64, i64) = self.pending[idx];
                let ghost t: int = base + idx - 1;
                proof {
                    assert(current == old(self).spec_pending()[idx - 1]);
                    assert(s == c[t + 1]);
                    assert(pt_bounded(old(self).spec_pending()[idx - 1]));
                    assert(pt_bounded(old(self).spec_pending()[idx as int]));
                }
                let ghost pre = *bitmap;
                bitmap.draw_line(current, s, 255, 0, 0);
                proof {
                    assert forall|px: int, py: int| old(bitmap).in_bounds(px, py)
                        implies #[trigger] bitmap.pixel(px, py) == (if covers_prefix(
                        c,
                        t + 1,
                        px,
                        py,
                    ) {
                        (255u8, 0u8, 0u8, 255u8)
                    } else {
                        old(bitmap).pixel(px, py)
                    }) by {
                        lemma_covers_extend(c, t, px, py);
                        assert(seg_covers(c, t, px, py) == on_line(pt(c[t]), pt(c[t + 1]), px, py));
                        assert(pre.pixel(px, py) == (if covers_prefix(c, t, px, py) {
                            (255u8, 0u8, 0u8, 255u8)
                        } else {
                            old(bitmap).pixel(px, py)
                        }));
                    }
                }
                current = s;
                idx = idx + 1;
            }
            proof {
                assert(base + len - 1 == c.len() - 1);
            }
            self.anchor = Some(current);
        }
        self.pending.clear();
        if !self.button_down {
            self.anchor = None;
        }
    }
}

} // verus!
