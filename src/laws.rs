//! Properties of brush strokes that hold for every mask and every stroke.
use vstd::prelude::*;
use crate::model::{
    changed_by, covered, in_disk, lemma_index_of, lemma_pixel_of, stroke_changes, stroked,
    MaskView, REVEALED,
};

verus! {

/// The mask after a sequence of strokes `(cx, cy, r)`, applied first to last.
pub open spec fn apply_strokes(v: MaskView, strokes: Seq<(int, int, int)>) -> MaskView
    decreases strokes.len(),
{
    if strokes.len() == 0 {
        v
    } else {
        let s = strokes.last();
        stroked(apply_strokes(v, strokes.drop_last()), s.0, s.1, s.2)
    }
}

/// Read pixel by pixel, a stroke reveals exactly the in-bounds pixels of its disk and
/// keeps every other sample.
pub proof fn lemma_stroked_sample(v: MaskView, cx: int, cy: int, r: int)
    requires
        v.wf(),
    ensures
        stroked(v, cx, cy, r).wf(),
        stroked(v, cx, cy, r).size == v.size,
        forall|x: int, y: int|
            v.in_bounds(x, y) ==> #[trigger] stroked(v, cx, cy, r).sample(x, y) == if in_disk(
                x,
                y,
                cx,
                cy,
                r,
            ) {
                REVEALED
            } else {
                v.sample(x, y)
            },
{
    assert forall|x: int, y: int| v.in_bounds(x, y) implies #[trigger] stroked(
        v,
        cx,
        cy,
        r,
    ).sample(x, y) == if in_disk(x, y, cx, cy, r) {
        REVEALED
    } else {
        v.sample(x, y)
    } by {
        lemma_index_of(v, x, y);
    }
}

/// Bounds safety: a stroke keeps the mask's size and length, and every sample it
/// changes belongs to an in-bounds pixel of its disk, wherever the centre lies.
pub proof fn lemma_stroke_within_bounds(v: MaskView, cx: int, cy: int, r: int)
    requires
        v.wf(),
    ensures
        stroked(v, cx, cy, r).size == v.size,
        stroked(v, cx, cy, r).samples.len() == v.samples.len(),
        forall|i: int|
            0 <= i < v.samples.len() && #[trigger] stroked(v, cx, cy, r).samples[i]
                != v.samples[i] ==> {
                &&& v.in_bounds(v.col_of(i), v.row_of(i))
                &&& in_disk(v.col_of(i), v.row_of(i), cx, cy, r)
            },
{
    assert forall|i: int|
        0 <= i < v.samples.len() && #[trigger] stroked(v, cx, cy, r).samples[i]
            != v.samples[i] implies {
        &&& v.in_bounds(v.col_of(i), v.row_of(i))
        &&& in_disk(v.col_of(i), v.row_of(i), cx, cy, r)
    } by {
        lemma_pixel_of(v, i);
    }
}

/// Idempotence: repeating a stroke leaves the mask as the first one left it, and the
/// repeat changes no sample.
pub proof fn lemma_stroke_idempotent(v: MaskView, cx: int, cy: int, r: int)
    requires
        v.wf(),
    ensures
        stroked(stroked(v, cx, cy, r), cx, cy, r) == stroked(v, cx, cy, r),
        !stroke_changes(stroked(v, cx, cy, r), cx, cy, r),
{
    let once = stroked(v, cx, cy, r);
    let twice = stroked(once, cx, cy, r);
    assert(twice.samples =~= once.samples);
    lemma_stroked_sample(v, cx, cy, r);
    assert forall|x: int, y: int| !#[trigger] changed_by(once, cx, cy, r, x, y) by {
        if covered(once, x, y, cx, cy, r) {
            assert(once.sample(x, y) == REVEALED);
        }
    }
}

/// A mask whose samples are all covered or revealed keeps that shape after a stroke:
/// strokes write no intermediate value.
pub proof fn lemma_stroke_keeps_two_levels(v: MaskView, cx: int, cy: int, r: int)
    requires
        forall|i: int| 0 <= i < v.samples.len() ==> v.samples[i] == 0 || v.samples[i] == REVEALED,
    ensures
        forall|i: int|
            0 <= i < v.samples.len() ==> #[trigger] stroked(v, cx, cy, r).samples[i] == 0
                || stroked(v, cx, cy, r).samples[i] == REVEALED,
{
}

/// Applying strokes keeps the mask's size and well-formedness.
pub proof fn lemma_apply_strokes_shape(v: MaskView, strokes: Seq<(int, int, int)>)
    requires
        v.wf(),
    ensures
        apply_strokes(v, strokes).wf(),
        apply_strokes(v, strokes).size == v.size,
    decreases strokes.len(),
{
    if strokes.len() > 0 {
        lemma_apply_strokes_shape(v, strokes.drop_last());
    }
}

/// Monotonicity: along any sequence of strokes no sample ever decreases; in particular
/// a revealed sample stays revealed.
pub proof fn lemma_strokes_monotone(v: MaskView, strokes: Seq<(int, int, int)>, i: int, j: int)
    requires
        v.wf(),
        0 <= i <= j <= strokes.len(),
    ensures
        apply_strokes(v, strokes.take(i)).samples.len() == v.samples.len(),
        apply_strokes(v, strokes.take(j)).samples.len() == v.samples.len(),
        forall|k: int|
            0 <= k < v.samples.len() ==> apply_strokes(v, strokes.take(i)).samples[k]
                <= #[trigger] apply_strokes(v, strokes.take(j)).samples[k],
        forall|k: int|
            0 <= k < v.samples.len() && apply_strokes(v, strokes.take(i)).samples[k] == REVEALED
                ==> #[trigger] apply_strokes(v, strokes.take(j)).samples[k] == REVEALED,
    decreases j - i,
{
    lemma_apply_strokes_shape(v, strokes.take(i));
    lemma_apply_strokes_shape(v, strokes.take(j));
    if i < j {
        lemma_strokes_monotone(v, strokes, i, j - 1);
        assert(strokes.take(j).drop_last() =~= strokes.take(j - 1));
    }
}

} // verus!
