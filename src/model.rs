//! The mathematical model of a mask: its side length and its samples in row-major order,
//! and what a brush stroke does to it.
use vstd::prelude::*;
use vstd::arithmetic::div_mod::{
    lemma_fundamental_div_mod,
    lemma_fundamental_div_mod_converse_div,
    lemma_fundamental_div_mod_converse_mod,
};

verus! {

/// The sample value of a revealed pixel.
pub const REVEALED: u8 = 255;

/// A square mask of `size * size` samples, row `y` holding the samples at
/// `y * size .. (y + 1) * size`.
pub ghost struct MaskView {
    pub size: nat,
    pub samples: Seq<u8>,
}

impl MaskView {
    pub open spec fn wf(self) -> bool {
        self.samples.len() == self.size * self.size
    }

    pub open spec fn in_bounds(self, x: int, y: int) -> bool {
        0 <= x < self.size && 0 <= y < self.size
    }

    pub open spec fn index_of(self, x: int, y: int) -> int {
        y * self.size + x
    }

    pub open spec fn sample(self, x: int, y: int) -> u8 {
        self.samples[self.index_of(x, y)]
    }

    /// Column of the sample stored at index `i`.
    pub open spec fn col_of(self, i: int) -> int {
        i % (self.size as int)
    }

    /// Row of the sample stored at index `i`.
    pub open spec fn row_of(self, i: int) -> int {
        i / (self.size as int)
    }
}

/// `(x, y)` lies in the closed disk of radius `r` centred on `(cx, cy)`.
pub open spec fn in_disk(x: int, y: int, cx: int, cy: int, r: int) -> bool {
    (x - cx) * (x - cx) + (y - cy) * (y - cy) <= r * r
}

/// `(x, y)` is a pixel of the mask that a stroke at `(cx, cy)` of radius `r` reaches.
pub open spec fn covered(v: MaskView, x: int, y: int, cx: int, cy: int, r: int) -> bool {
    v.in_bounds(x, y) && in_disk(x, y, cx, cy, r)
}

/// The mask after a stroke: every reached pixel revealed, every other sample kept.
pub open spec fn stroked(v: MaskView, cx: int, cy: int, r: int) -> MaskView {
    MaskView {
        size: v.size,
        samples: Seq::new(
            v.samples.len(),
            |i: int|
                if covered(v, v.col_of(i), v.row_of(i), cx, cy, r) {
                    REVEALED
                } else {
                    v.samples[i]
                },
        ),
    }
}

/// The stroke changes the sample at `(x, y)`: the pixel is reached and not yet revealed.
pub open spec fn changed_by(v: MaskView, cx: int, cy: int, r: int, x: int, y: int) -> bool {
    covered(v, x, y, cx, cy, r) && v.sample(x, y) != REVEALED
}

/// Some pixel is changed by the stroke.
pub open spec fn stroke_changes(v: MaskView, cx: int, cy: int, r: int) -> bool {
    exists|x: int, y: int| #[trigger] changed_by(v, cx, cy, r, x, y)
}

/// The index of an in-bounds pixel lies in the buffer and decomposes back into the pixel.
pub proof fn lemma_index_of(v: MaskView, x: int, y: int)
    requires
        v.wf(),
        v.in_bounds(x, y),
    ensures
        0 <= v.index_of(x, y) < v.samples.len(),
        v.col_of(v.index_of(x, y)) == x,
        v.row_of(v.index_of(x, y)) == y,
{
    let n = v.size as int;
    let i = y * n + x;
    lemma_fundamental_div_mod_converse_mod(i, n, y, x);
    lemma_fundamental_div_mod_converse_div(i, n, y, x);
    assert(0 <= i < n * n) by (nonlinear_arith)
        requires
            0 <= x < n,
            0 <= y < n,
            i == y * n + x,
    ;
}

/// Every index of the buffer is the index of an in-bounds pixel.
pub proof fn lemma_pixel_of(v: MaskView, i: int)
    requires
        v.wf(),
        0 <= i < v.samples.len(),
    ensures
        v.in_bounds(v.col_of(i), v.row_of(i)),
        v.index_of(v.col_of(i), v.row_of(i)) == i,
{
    let n = v.size as int;
    assert(n > 0) by (nonlinear_arith)
        requires
            0 <= i < n * n,
            n >= 0,
    ;
    lemma_fundamental_div_mod(i, n);
    let q = i / n;
    let m = i % n;
    assert(q * n == n * q) by (nonlinear_arith);
    assert(q < n) by (nonlinear_arith)
        requires
            i == n * q + m,
            0 <= m < n,
            i < n * n,
    ;
    assert(0 <= q) by (nonlinear_arith)
        requires
            i == n * q + m,
            0 <= m < n,
            0 <= i,
    ;
}

/// A point of the disk lies within `r` of the centre along each axis.
pub proof fn lemma_disk_within_box(x: int, y: int, cx: int, cy: int, r: int)
    requires
        r >= 0,
        in_disk(x, y, cx, cy, r),
    ensures
        cx - r <= x <= cx + r,
        cy - r <= y <= cy + r,
{
    let a = x - cx;
    let b = y - cy;
    assert(-r <= a <= r) by (nonlinear_arith)
        requires
            a * a + b * b <= r * r,
            r >= 0,
    ;
    assert(-r <= b <= r) by (nonlinear_arith)
        requires
            a * a + b * b <= r * r,
            r >= 0,
    ;
}

} // verus!
