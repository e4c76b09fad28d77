use vstd::prelude::*;

use crate::error::{invalid_argument, Result};

verus! {

/// A right-angle rotation, clockwise, as `/Rotate` expresses it.
#[derive(Debug, Clone, Copy, PartialEq, Eq, Structural)]
pub enum Rotation {
    /// Upright.
    Upright,
    /// A quarter turn: 90 degrees.
    Clockwise90,
    /// A half turn: 180 degrees.
    Clockwise180,
    /// Three quarters: 270 degrees.
    Clockwise270,
}

/// The degrees a rotation stands for, in `0..360`.
pub open spec fn degrees_of(r: Rotation) -> int {
    match r {
        Rotation::Upright => 0,
        Rotation::Clockwise90 => 90,
        Rotation::Clockwise180 => 180,
        Rotation::Clockwise270 => 270,
    }
}

/// The rotation for a number of degrees already known to be a multiple of 90.
pub open spec fn rotation_for(degrees: int) -> Rotation {
    let d = degrees % 360;
    if d == 0 {
        Rotation::Upright
    } else if d == 90 {
        Rotation::Clockwise90
    } else if d == 180 {
        Rotation::Clockwise180
    } else {
        Rotation::Clockwise270
    }
}

impl Rotation {
    /// The degrees this rotation stands for: 0, 90, 180 or 270.
    pub fn degrees(&self) -> (d: i64)
        ensures
            d == degrees_of(*self),
    {
        match self {
            Rotation::Upright => 0,
            Rotation::Clockwise90 => 90,
            Rotation::Clockwise180 => 180,
            Rotation::Clockwise270 => 270,
        }
    }

    /// The rotation `degrees` names, normalised into `0..360`; negative values count
    /// anticlockwise, so -90 is 270.
    ///
    /// # Errors
    ///
    /// `InvalidArgument` when `degrees` is not a multiple of 90: it is refused rather than
    /// rounded.
    pub fn from_degrees(degrees: i64) -> (r: Result<Rotation>)
        ensures
            r is Ok <==> degrees % 90 == 0,
            r is Ok ==> r->Ok_0 == rotation_for(degrees as int),
            r is Ok ==> degrees_of(r->Ok_0) == (degrees as int) % 360,
            r is Err ==> r->Err_0 is InvalidArgument,
    {
        let normal: i64 = if degrees >= 0 {
            degrees % 360
        } else {
            let flipped: i64 = -1 - degrees;
            let r: i64 = flipped % 360;
            assert(359 - r == (degrees as int) % 360) by (nonlinear_arith)
                requires
                    flipped == -1 - degrees,
                    r == flipped % 360,
                    flipped >= 0,
            {
            }
            359 - r
        };
        assert(normal == (degrees as int) % 360);
        if normal == 0 {
            Ok(Rotation::Upright)
        } else if normal == 90 {
            Ok(Rotation::Clockwise90)
        } else if normal == 180 {
            Ok(Rotation::Clockwise180)
        } else if normal == 270 {
            Ok(Rotation::Clockwise270)
        } else {
            Err(invalid_argument("a rotation must be a multiple of 90 degrees"))
        }
    }

    /// This rotation applied after `current`: the two added, modulo a full turn.
    pub fn after(&self, current: Rotation) -> (r: Rotation)
        ensures
            degrees_of(r) == (degrees_of(*self) + degrees_of(current)) % 360,
    {
        let sum = self.degrees() + current.degrees();
        let d = if sum >= 360 { sum - 360 } else { sum };
        if d == 0 {
            Rotation::Upright
        } else if d == 90 {
            Rotation::Clockwise90
        } else if d == 180 {
            Rotation::Clockwise180
        } else {
            Rotation::Clockwise270
        }
    }
}

/// Applying a rotation to an upright page leaves that rotation, and applying no turn to a
/// rotated page leaves it as it was.
pub proof fn lemma_upright_is_identity(r: Rotation)
    ensures
        degrees_of(r) == (degrees_of(r) + degrees_of(Rotation::Upright)) % 360,
        degrees_of(r) == (degrees_of(Rotation::Upright) + degrees_of(r)) % 360,
{
}

/// Four quarter turns are a full turn: turning a page by the same right angle, four times,
/// brings it back to where it started.
pub proof fn lemma_four_turns_return(r: Rotation, t: Rotation)
    ensures
        (degrees_of(r) + 4 * degrees_of(t)) % 360 == degrees_of(r),
{
}

/// The order two rotations are applied in does not change the result.
pub proof fn lemma_after_commutes(a: Rotation, b: Rotation)
    ensures
        (degrees_of(a) + degrees_of(b)) % 360 == (degrees_of(b) + degrees_of(a)) % 360,
{
}

} // verus!
