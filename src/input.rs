//! Turning a pointer sample into a brush stroke on the mask.
use vstd::prelude::*;
use crate::mask::{stroke_reports, DirtyRegion, MaskBuffer, MAX_SIZE};
use crate::model::stroked;

verus! {

/// The length of one side of the normalized square, in fixed-point steps.
pub const UV_ONE: i64 = 65536;

/// The radius, in samples, of the brush that the pointer paints with.
pub const BRUSH_RADIUS: u32 = 50;

/// A point in the mask's normalized coordinates, each axis counted in steps of
/// `1 / UV_ONE`: `(0, 0)` is the bottom-left corner of the mask, `(UV_ONE, UV_ONE)`
/// its top-right corner.
#[derive(Clone, Copy, Debug, PartialEq, Eq)]
pub struct UvPoint {
    pub x: i64,
    pub y: i64,
}

impl UvPoint {
    pub open spec fn in_unit_square(self) -> bool {
        0 <= self.x <= UV_ONE && 0 <= self.y <= UV_ONE
    }

    /// Whether the point lies in the closed unit square.
    pub fn is_in_unit_square(&self) -> (b: bool)
        ensures
            b == self.in_unit_square(),
    {
        0 <= self.x && self.x <= UV_ONE && 0 <= self.y && self.y <= UV_ONE
    }
}

/// One frame's pointer sample: whether the button is held, and where the pointer
/// projects onto the mask (`None` where the projection is undefined).
#[derive(Clone, Copy, Debug, PartialEq, Eq)]
pub struct PointerInput {
    pub pressed: bool,
    pub position: Option<UvPoint>,
}

/// The column of the pixel under normalized coordinate `u` on a mask of side `n`.
pub open spec fn pixel_col(u: int, n: int) -> int {
    (u * n) / (UV_ONE as int)
}

/// The row of the pixel under normalized coordinate `v`: rows run downwards while
/// `v` runs upwards.
pub open spec fn pixel_row(v: int, n: int) -> int {
    n - 1 - (v * n) / (UV_ONE as int)
}

/// The stroke centre that a pointer sample asks for on a mask of side `n`: none when
/// the button is released or the position is undefined or outside the unit square.
pub open spec fn input_center(input: PointerInput, n: nat) -> Option<(int, int)> {
    match input.position {
        Some(p) => if input.pressed && p.in_unit_square() {
            Some((pixel_col(p.x as int, n as int), pixel_row(p.y as int, n as int)))
        } else {
            None
        },
        None => None,
    }
}

/// The pixel `(column, row)` under a point of the unit square on a mask of side `size`.
pub fn pixel_of(p: UvPoint, size: usize) -> (r: (i64, i64))
    requires
        p.in_unit_square(),
        size <= MAX_SIZE,
    ensures
        r.0 == pixel_col(p.x as int, size as int),
        r.1 == pixel_row(p.y as int, size as int),
{
    let n = size as i64;
    assert(0 <= p.x * n <= UV_ONE * (MAX_SIZE as int)) by (nonlinear_arith)
        requires
            0 <= p.x <= UV_ONE,
            0 <= n <= MAX_SIZE,
    ;
    assert(0 <= p.y * n <= UV_ONE * (MAX_SIZE as int)) by (nonlinear_arith)
        requires
            0 <= p.y <= UV_ONE,
            0 <= n <= MAX_SIZE,
    ;
    let col = (p.x * n) / UV_ONE;
    let row = n - 1 - (p.y * n) / UV_ONE;
    (col, row)
}

impl MaskBuffer {
    /// Applies one frame's pointer sample: while the button is held over the mask,
    /// reveals the disk of radius `radius` under the pointer. Returns the rectangle
    /// of samples that changed, if any.
    pub fn apply_input(&mut self, input: PointerInput, radius: u32) -> (res: Option<
        DirtyRegion,
    >)
        requires
            old(self).wf(),
        ensures
            final(self).wf(),
            match input_center(input, old(self)@.size) {
                None => res is None && final(self)@ == old(self)@,
                Some((cx, cy)) => {
                    &&& final(self)@ == stroked(old(self)@, cx, cy, radius as int)
                    &&& stroke_reports(old(self)@, cx, cy, radius as int, res)
                },
            },
    {
        if !input.pressed {
            return None;
        }
        match input.position {
            None => None,
            Some(p) => {
                if !p.is_in_unit_square() {
                    return None;
                }
                let (cx, cy) = pixel_of(p, self.size());
                self.stroke(cx, cy, radius)
            },
        }
    }
}

} // verus!
