//! Grid placement — building rotation in quarter turns and the footprint a
//! rotation gives.

use vstd::prelude::*;

verus! {

/// Rotation of a placed building in 90-degree increments.
#[derive(Debug, Clone, Copy, PartialEq, Eq, Structural)]
pub enum PlacementRotation {
    North,
    East,
    South,
    West,
}

/// Quarter turns clockwise from North.
pub open spec fn quarter_turns(r: PlacementRotation) -> int {
    match r {
        PlacementRotation::North => 0,
        PlacementRotation::East => 1,
        PlacementRotation::South => 2,
        PlacementRotation::West => 3,
    }
}

impl Default for PlacementRotation {
    fn default() -> (r: Self)
        ensures
            r == PlacementRotation::North,
    {
        PlacementRotation::North
    }
}

impl PlacementRotation {
    /// Rotate 90 degrees clockwise.
    pub fn rotate_cw(self) -> (r: Self)
        ensures
            quarter_turns(r) == (quarter_turns(self) + 1) % 4,
    {
        match self {
            PlacementRotation::North => PlacementRotation::East,
            PlacementRotation::East => PlacementRotation::South,
            PlacementRotation::South => PlacementRotation::West,
            PlacementRotation::West => PlacementRotation::North,
        }
    }

    /// Rotate 90 degrees counter-clockwise.
    pub fn rotate_ccw(self) -> (r: Self)
        ensures
            quarter_turns(r) == (quarter_turns(self) + 3) % 4,
    {
        match self {
            PlacementRotation::North => PlacementRotation::West,
            PlacementRotation::West => PlacementRotation::South,
            PlacementRotation::South => PlacementRotation::East,
            PlacementRotation::East => PlacementRotation::North,
        }
    }
}

/// The footprint (width, depth) in cells after rotation: quarter turns to
/// East or West swap width and depth.
pub fn rotated_footprint(footprint: (u32, u32), rotation: PlacementRotation) -> (r: (u32, u32))
    ensures
        quarter_turns(rotation) % 2 == 0 ==> r == footprint,
        quarter_turns(rotation) % 2 == 1 ==> r == (footprint.1, footprint.0),
{
    match rotation {
        PlacementRotation::North | PlacementRotation::South => footprint,
        PlacementRotation::East | PlacementRotation::West => (footprint.1, footprint.0),
    }
}

/// Whether a footprint side of `cells` cells snaps to cell centres (odd
/// widths) rather than cell edges (even widths).
pub fn snaps_to_center(cells: u32) -> (r: bool)
    ensures
        r == (cells % 2 == 1),
{
    cells % 2 != 0
}

/// Rotations are a cycle of four: a quarter turn one way undoes a quarter
/// turn the other way, and four quarter turns come back to the start.
pub proof fn law_rotation_cycle(r: PlacementRotation, a: PlacementRotation, b: PlacementRotation, c: PlacementRotation, d: PlacementRotation)
    requires
        quarter_turns(a) == (quarter_turns(r) + 1) % 4,
        quarter_turns(b) == (quarter_turns(a) + 1) % 4,
        quarter_turns(c) == (quarter_turns(b) + 1) % 4,
        quarter_turns(d) == (quarter_turns(c) + 1) % 4,
    ensures
        d == r,
        (quarter_turns(a) + 3) % 4 == quarter_turns(r),
{
}

} // verus!
