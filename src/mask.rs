//! The mask buffer and the brush stroke that reveals a filled circle of it.
use vstd::prelude::*;
use crate::model::{
    changed_by, covered, lemma_disk_within_box, lemma_index_of, lemma_pixel_of,
    stroke_changes, stroked, MaskView, REVEALED,
};

verus! {

/// The largest side length of a mask buffer, in samples.
pub const MAX_SIZE: usize = 32768;

/// The rectangle of pixels `x_min ..= x_max` by `y_min ..= y_max` that a stroke changed.
#[derive(Clone, Copy, Debug, PartialEq, Eq)]
pub struct DirtyRegion {
    pub x_min: usize,
    pub y_min: usize,
    pub x_max: usize,
    pub y_max: usize,
}

impl DirtyRegion {
    pub open spec fn contains(self, x: int, y: int) -> bool {
        self.x_min <= x <= self.x_max && self.y_min <= y <= self.y_max
    }
}

/// `d` is the bounding rectangle of the pixels that the stroke changes: it holds each
/// of them, and each of its four edges passes through one.
pub open spec fn is_change_box(v: MaskView, cx: int, cy: int, r: int, d: DirtyRegion) -> bool {
    &&& forall|x: int, y: int| #[trigger] changed_by(v, cx, cy, r, x, y) ==> d.contains(x, y)
    &&& exists|y: int| #[trigger] changed_by(v, cx, cy, r, d.x_min as int, y)
    &&& exists|y: int| #[trigger] changed_by(v, cx, cy, r, d.x_max as int, y)
    &&& exists|x: int| #[trigger] changed_by(v, cx, cy, r, x, d.y_min as int)
    &&& exists|x: int| #[trigger] changed_by(v, cx, cy, r, x, d.y_max as int)
}

/// What a stroke reports: nothing when it changes no sample, else the bounding
/// rectangle of the changed pixels.
pub open spec fn stroke_reports(
    v: MaskView,
    cx: int,
    cy: int,
    r: int,
    res: Option<DirtyRegion>,
) -> bool {
    match res {
        None => !stroke_changes(v, cx, cy, r),
        Some(d) => is_change_box(v, cx, cy, r, d),
    }
}

/// Pixels are visited row by row, left to right: `(px, py)` comes before `(x, y)`.
spec fn visited_before(px: int, py: int, x: int, y: int) -> bool {
    py < y || (py == y && px < x)
}

/// The index of an in-bounds pixel is computed without overflow.
proof fn lemma_index_fits(n: int, x: int, y: int)
    by (nonlinear_arith)
    requires
        0 <= x < n,
        0 <= y < n,
        n <= MAX_SIZE,
    ensures
        0 <= y * n <= y * n + x < MAX_SIZE * MAX_SIZE,
{
}

/// A square single-channel mask, 0 where the cover shows and 255 where it is scratched off.
pub struct MaskBuffer {
    size: usize,
    data: Vec<u8>,
}

impl View for MaskBuffer {
    type V = MaskView;

    closed spec fn view(&self) -> MaskView {
        MaskView { size: self.size as nat, samples: self.data@ }
    }
}

impl MaskBuffer {
    pub open spec fn wf(&self) -> bool {
        self@.wf() && self@.size <= MAX_SIZE
    }

    /// A fully covered mask of `size * size` samples.
    pub fn new(size: usize) -> (m: Self)
        requires
            size <= MAX_SIZE,
        ensures
            m.wf(),
            m@.size == size,
            forall|i: int| 0 <= i < m@.samples.len() ==> m@.samples[i] == 0,
    {
        assert(size * size <= MAX_SIZE * MAX_SIZE) by (nonlinear_arith)
            requires
                size <= MAX_SIZE,
        ;
        let data = vec![0u8; size * size];
        MaskBuffer { size, data }
    }

    /// The side length.
    pub fn size(&self) -> (n: usize)
        ensures
            n == self@.size,
    {
        self.size
    }

    /// The samples in row-major order, as handed to the renderer.
    pub fn samples(&self) -> (s: &[u8])
        ensures
            s@ == self@.samples,
    {
        self.data.as_slice()
    }

    /// The sample at column `x`, row `y`.
    pub fn get(&self, x: usize, y: usize) -> (s: u8)
        requires
            self.wf(),
            self@.in_bounds(x as int, y as int),
        ensures
            s == self@.sample(x as int, y as int),
    {
        proof {
            lemma_index_of(self@, x as int, y as int);
            lemma_index_fits(self.size as int, x as int, y as int);
        }
        self.data[y * self.size + x]
    }

    /// Reveals every pixel of the mask within distance `radius` of `(cx, cy)`; the centre
    /// may lie outside the mask. Returns the bounding rectangle of the samples that
    /// changed, or `None` when every reached sample was already revealed.
    pub fn stroke(&mut self, cx: i64, cy: i64, radius: u32) -> (res: Option<DirtyRegion>)
        requires
            old(self).wf(),
        ensures
            final(self).wf(),
            final(self)@ == stroked(old(self)@, cx as int, cy as int, radius as int),
            stroke_reports(old(self)@, cx as int, cy as int, radius as int, res),
    {
        let ghost v0 = self@;
        let ghost gr = radius as int;
        let n = self.size;
        let r = radius as i128;
        let x_lo_w = cx as i128 - r;
        let x_hi_w = cx as i128 + r;
        let y_lo_w = cy as i128 - r;
        let y_hi_w = cy as i128 + r;
        proof {
            assert forall|px: int, py: int| covered(v0, px, py, cx as int, cy as int, gr) implies
                cx - gr <= px <= cx + gr && cy - gr <= py <= cy + gr by {
                lemma_disk_within_box(px, py, cx as int, cy as int, gr);
            }
        }
        if n == 0 || x_hi_w < 0 || x_lo_w >= n as i128 || y_hi_w < 0 || y_lo_w >= n as i128 {
            proof {
                assert forall|i: int| 0 <= i < v0.samples.len() implies
                    !covered(v0, v0.col_of(i), v0.row_of(i), cx as int, cy as int, gr) by {
                    lemma_pixel_of(v0, i);
                }
                assert(v0.samples =~= stroked(v0, cx as int, cy as int, gr).samples);
            }
            return None;
        }
        let x_lo: usize = if x_lo_w < 0 { 0 } else { x_lo_w as usize };
        let x_hi: usize = if x_hi_w >= n as i128 { n - 1 } else { x_hi_w as usize };
        let y_lo: usize = if y_lo_w < 0 { 0 } else { y_lo_w as usize };
        let y_hi: usize = if y_hi_w >= n as i128 { n - 1 } else { y_hi_w as usize };
        assert(r * r <= 0xffff_ffffi128 * 0xffff_ffffi128) by (nonlinear_arith)
            requires
                0 <= r <= 0xffff_ffffi128,
        ;
        let rr = r * r;
        let mut dirty: Option<DirtyRegion> = None;
        let ghost mut x_min_at: int = 0;
        let ghost mut x_max_at: int = 0;
        let ghost mut y_min_at: int = 0;
        let ghost mut y_max_at: int = 0;
        let mut y = y_lo;
        while y <= y_hi
            invariant
                v0.wf(),
                v0.size == n,
                n <= MAX_SIZE,
                self.size == n,
                self.data@.len() == v0.samples.len(),
                x_lo <= x_hi < n,
                y_lo <= y <= y_hi + 1,
                y_hi < n,
                cx - gr <= x_lo,
                x_hi <= cx + gr,
                cy - gr <= y_lo,
                y_hi <= cy + gr,
                gr == r,
                0 <= r <= 0xffff_ffffi128,
                rr == r * r,
                forall|px: int, py: int| #[trigger]
                    covered(v0, px, py, cx as int, cy as int, gr) ==> x_lo <= px <= x_hi && y_lo
                        <= py <= y_hi,
                forall|i: int| #![trigger self.data@[i]]
                    0 <= i < v0.samples.len() ==> self.data@[i] == (if covered(
                        v0,
                        v0.col_of(i),
                        v0.row_of(i),
                        cx as int,
                        cy as int,
                        gr,
                    ) && visited_before(v0.col_of(i), v0.row_of(i), x_lo as int, y as int) {
                        REVEALED
                    } else {
                        v0.samples[i]
                    }),
                forall|px: int, py: int| #[trigger]
                    changed_by(v0, cx as int, cy as int, gr, px, py) && visited_before(
                        px,
                        py,
                        x_lo as int,
                        y as int,
                    ) ==> (dirty matches Some(d) && d.contains(px, py)),
                dirty matches Some(d) ==> {
                    &&& changed_by(v0, cx as int, cy as int, gr, d.x_min as int, x_min_at)
                    &&& changed_by(v0, cx as int, cy as int, gr, d.x_max as int, x_max_at)
                    &&& changed_by(v0, cx as int, cy as int, gr, y_min_at, d.y_min as int)
                    &&& changed_by(v0, cx as int, cy as int, gr, y_max_at, d.y_max as int)
                    &&& d.y_min <= y
                },
            decreases y_hi + 1 - y,
        {
            let mut x = x_lo;
            while x <= x_hi
                invariant
                    v0.wf(),
                    v0.size == n,
                    n <= MAX_SIZE,
                    self.size == n,
                    self.data@.len() == v0.samples.len(),
                    x_lo <= x <= x_hi + 1,
                    x_hi < n,
                    y_lo <= y <= y_hi,
                    y_hi < n,
                    cx - gr <= x_lo,
                    x_hi <= cx + gr,
                    cy - gr <= y_lo,
                    y_hi <= cy + gr,
                    gr == r,
                    0 <= r <= 0xffff_ffffi128,
                    rr == r * r,
                    forall|px: int, py: int| #[trigger]
                        covered(v0, px, py, cx as int, cy as int, gr) ==> x_lo <= px <= x_hi
                            && y_lo <= py <= y_hi,
                    forall|i: int| #![trigger self.data@[i]]
                        0 <= i < v0.samples.len() ==> self.data@[i] == (if covered(
                            v0,
                            v0.col_of(i),
                            v0.row_of(i),
                            cx as int,
                            cy as int,
                            gr,
                        ) && visited_before(v0.col_of(i), v0.row_of(i), x as int, y as int) {
                            REVEALED
                        } else {
                            v0.samples[i]
                        }),
                    forall|px: int, py: int| #[trigger]
                        changed_by(v0, cx as int, cy as int, gr, px, py) && visited_before(
                            px,
                            py,
                            x as int,
                            y as int,
                        ) ==> (dirty matches Some(d) && d.contains(px, py)),
                    dirty matches Some(d) ==> {
                        &&& changed_by(v0, cx as int, cy as int, gr, d.x_min as int, x_min_at)
                        &&& changed_by(v0, cx as int, cy as int, gr, d.x_max as int, x_max_at)
                        &&& changed_by(v0, cx as int, cy as int, gr, y_min_at, d.y_min as int)
                        &&& changed_by(v0, cx as int, cy as int, gr, y_max_at, d.y_max as int)
                        &&& d.y_min <= y
                    },
                decreases x_hi + 1 - x,
            {
                let ghost pre = self.data@;
                let ghost pre_dirty = dirty;
                let dx = x as i128 - cx as i128;
                let dy = y as i128 - cy as i128;
                assert(dx * dx + dy * dy <= 2 * (r * r)) by (nonlinear_arith)
                    requires
                        -r <= dx <= r,
                        -r <= dy <= r,
                ;
                assert(r * r <= 0xffff_ffffi128 * 0xffff_ffffi128) by (nonlinear_arith)
                    requires
                        0 <= r <= 0xffff_ffffi128,
                ;
                assert(0 <= dx * dx && 0 <= dy * dy) by (nonlinear_arith);
                proof {
                    lemma_index_of(v0, x as int, y as int);
                    lemma_index_fits(n as int, x as int, y as int);
                }
                let idx = y * n + x;
                if dx * dx + dy * dy <= rr {
                    if self.data[idx] != REVEALED {
                        self.data.set(idx, REVEALED);
                        match dirty {
                            None => {
                                dirty = Some(DirtyRegion { x_min: x, y_min: y, x_max: x, y_max: y });
                                proof {
                                    x_min_at = y as int;
                                    x_max_at = y as int;
                                    y_min_at = x as int;
                                    y_max_at = x as int;
                                }
                            },
                            Some(d) => {
                                let x_min = if x < d.x_min {
                                    proof {
                                        x_min_at = y as int;
                                    }
                                    x
                                } else {
                                    d.x_min
                                };
                                let x_max = if x > d.x_max {
                                    proof {
                                        x_max_at = y as int;
                                    }
                                    x
                                } else {
                                    d.x_max
                                };
                                dirty = Some(DirtyRegion { x_min, y_min: d.y_min, x_max, y_max: y });
                                proof {
                                    y_max_at = x as int;
                                }
                            },
                        }
                    }
                }
                proof {
                    assert forall|i: int| 0 <= i < v0.samples.len() implies #[trigger]
                        self.data@[i] == (if covered(
                            v0,
                            v0.col_of(i),
                            v0.row_of(i),
                            cx as int,
                            cy as int,
                            gr,
                        ) && visited_before(v0.col_of(i), v0.row_of(i), x + 1, y as int) {
                            REVEALED
                        } else {
                            v0.samples[i]
                        }) by {
                        lemma_pixel_of(v0, i);
                        assert(pre[i] == (if covered(
                            v0,
                            v0.col_of(i),
                            v0.row_of(i),
                            cx as int,
                            cy as int,
                            gr,
                        ) && visited_before(v0.col_of(i), v0.row_of(i), x as int, y as int) {
                            REVEALED
                        } else {
                            v0.samples[i]
                        }));
                    }
                    assert forall|px: int, py: int| #[trigger]
                        changed_by(v0, cx as int, cy as int, gr, px, py) && visited_before(
                            px,
                            py,
                            x + 1,
                            y as int,
                        ) implies (dirty matches Some(d) && d.contains(px, py)) by {
                        if visited_before(px, py, x as int, y as int) {
                            assert(pre_dirty matches Some(d) && d.contains(px, py));
                        }
                    }
                }
                x = x + 1;
            }
            proof {
                assert forall|i: int| 0 <= i < v0.samples.len() implies #[trigger]
                    self.data@[i] == (if covered(
                        v0,
                        v0.col_of(i),
                        v0.row_of(i),
                        cx as int,
                        cy as int,
                        gr,
                    ) && visited_before(v0.col_of(i), v0.row_of(i), x_lo as int, y + 1) {
                        REVEALED
                    } else {
                        v0.samples[i]
                    }) by {
                    lemma_pixel_of(v0, i);
                }
                assert forall|px: int, py: int| #[trigger]
                    changed_by(v0, cx as int, cy as int, gr, px, py) && visited_before(
                        px,
                        py,
                        x_lo as int,
                        y + 1,
                    ) implies (dirty matches Some(d) && d.contains(px, py)) by {
                    assert(covered(v0, px, py, cx as int, cy as int, gr));
                }
            }
            y = y + 1;
        }
        proof {
            assert forall|i: int| 0 <= i < v0.samples.len() implies self.data@[i] == stroked(
                v0,
                cx as int,
                cy as int,
                gr,
            ).samples[i] by {
                lemma_pixel_of(v0, i);
            }
            assert(self.data@ =~= stroked(v0, cx as int, cy as int, gr).samples);
            assert forall|px: int, py: int| #[trigger]
                changed_by(v0, cx as int, cy as int, gr, px, py) implies (dirty matches Some(d)
                && d.contains(px, py)) by {
                assert(covered(v0, px, py, cx as int, cy as int, gr));
                assert(visited_before(px, py, x_lo as int, y as int));
            }
        }
        dirty
    }
}

} // verus!
