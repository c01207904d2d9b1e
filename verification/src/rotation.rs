//! The four rotations of the plane that map the grid onto itself.

use vstd::prelude::*;

verus! {

/// Trigonometric (counter-clockwise) rotation in degrees.
#[derive(Clone, Copy, Debug, PartialEq, Eq, Structural)]
pub enum Rotation {
    R0,
    R90,
    R180,
    R270,
}

impl Rotation {
    /// Number of quarter turns the rotation stands for.
    pub open spec fn quarters(self) -> int {
        match self {
            Rotation::R0 => 0,
            Rotation::R90 => 1,
            Rotation::R180 => 2,
            Rotation::R270 => 3,
        }
    }

    /// The rotation obtained by applying `self` first and `next` afterwards.
    pub open spec fn followed_by(self, next: Rotation) -> Rotation {
        Rotation::from_quarters(self.quarters() + next.quarters())
    }

    /// The rotation made of `n` quarter turns.
    pub open spec fn from_quarters(n: int) -> Rotation {
        let k = n % 4;
        if k == 0 {
            Rotation::R0
        } else if k == 1 {
            Rotation::R90
        } else if k == 2 {
            Rotation::R180
        } else {
            Rotation::R270
        }
    }
}

} // verus!
