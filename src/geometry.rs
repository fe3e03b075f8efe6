use vstd::prelude::*;

verus! {

/// A point of the play area, in sub-pixels; the origin is the centre of the window.
#[derive(Clone, Copy, Debug, PartialEq, Eq, Structural)]
pub struct Position {
    pub x: i64,
    pub y: i64,
}

/// Width and height of an entity's bounding box, in sub-pixels.
#[derive(Clone, Copy, Debug, PartialEq, Eq, Structural)]
pub struct SpriteSize {
    pub w: i64,
    pub h: i64,
}

impl SpriteSize {
    /// Extents are strictly positive.
    pub open spec fn wf(self) -> bool {
        self.w > 0 && self.h > 0
    }
}

impl From<(i64, i64)> for SpriteSize {
    fn from(val: (i64, i64)) -> (r: SpriteSize)
        ensures
            r.w == val.0,
            r.h == val.1,
    {
        SpriteSize { w: val.0, h: val.1 }
    }
}

impl vstd::std_specs::convert::FromSpecImpl<(i64, i64)> for SpriteSize {
    open spec fn obeys_from_spec() -> bool {
        true
    }

    open spec fn from_spec(val: (i64, i64)) -> SpriteSize {
        SpriteSize { w: val.0, h: val.1 }
    }
}

pub open spec fn abs(v: int) -> int {
    if v < 0 {
        -v
    } else {
        v
    }
}

/// Two axis-aligned boxes, each centred on its position, intersect when on
/// each axis the distance between the centres is at most the sum of the
/// half-extents; boxes that only touch count as intersecting.
pub open spec fn overlaps(a: Position, a_size: SpriteSize, b: Position, b_size: SpriteSize) -> bool {
    &&& 2 * abs(a.x - b.x) <= a_size.w + b_size.w
    &&& 2 * abs(a.y - b.y) <= a_size.h + b_size.h
}

fn abs_diff(a: i64, b: i64) -> (r: i128)
    ensures
        r == abs(a - b),
{
    let d = a as i128 - b as i128;
    if d < 0 {
        -d
    } else {
        d
    }
}

/// Axis-aligned bounding-box test between two centred boxes.
pub fn collide(a: Position, a_size: SpriteSize, b: Position, b_size: SpriteSize) -> (r: bool)
    ensures
        r == overlaps(a, a_size, b, b_size),
{
    let dx = abs_diff(a.x, b.x);
    let dy = abs_diff(a.y, b.y);
    2 * dx <= a_size.w as i128 + b_size.w as i128 && 2 * dy <= a_size.h as i128 + b_size.h as i128
}

} // verus!
