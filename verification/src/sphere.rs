//! Which solution of a sphere's quadratic is the hit.
//!
//! For a ray `origin + t * direction` and a sphere, the renderer solves
//! `a t^2 + 2 b t + c = 0` in reals and hands over the discriminant
//! `b^2 - a c` and the two solutions `(-b -/+ sqrt(discriminant)) / a`.
//! What is decided here is whether the ray hits at all within a parameter
//! range, and at which of the two solutions.
use vstd::prelude::*;
use crate::scalar::Scalar;

verus! {

/// One of the two solutions of the quadratic.
#[derive(Clone, Copy, Debug, PartialEq, Eq, Structural)]
pub enum Root {
    /// `(-b - sqrt(discriminant)) / a`: where the ray enters.
    Near,
    /// `(-b + sqrt(discriminant)) / a`: where the ray leaves.
    Far,
}

/// What the quadratic of one ray and one sphere gave.
#[derive(Clone, Copy, Debug, PartialEq, Eq, Structural)]
pub struct Roots {
    pub discriminant: Scalar,
    pub near: Scalar,
    pub far: Scalar,
}

/// Whether a ray strikes a surface from outside: it does where `facing`,
/// the dot product of its direction with the outward normal, is negative.
/// A surface struck from inside has its normal turned round.
pub fn front_face(facing: Scalar) -> (front: bool)
    ensures
        front == facing.negative(),
{
    facing.is_negative()
}

impl Roots {
    /// The ray parameter at a solution.
    pub open spec fn parameter(self, root: Root) -> Scalar {
        match root {
            Root::Near => self.near,
            Root::Far => self.far,
        }
    }

    /// The solution that counts as the hit for the open range
    /// `(t_min, t_max)`. There is none unless the discriminant is positive.
    /// The near solution is taken if it lies strictly inside the range, and
    /// only otherwise the far one, under the same test.
    pub open spec fn accepted(self, t_min: Scalar, t_max: Scalar) -> Option<Root> {
        if !self.discriminant.positive() {
            None
        } else if self.near.inside(t_min, t_max) {
            Some(Root::Near)
        } else if self.far.inside(t_min, t_max) {
            Some(Root::Far)
        } else {
            None
        }
    }

    /// Gathers the three numbers.
    pub fn new(discriminant: Scalar, near: Scalar, far: Scalar) -> (r: Roots)
        ensures
            r.discriminant == discriminant,
            r.near == near,
            r.far == far,
    {
        Roots { discriminant, near, far }
    }

    /// The ray parameter at `root`.
    pub fn at(&self, root: Root) -> (t: Scalar)
        ensures
            t == self.parameter(root),
    {
        match root {
            Root::Near => self.near,
            Root::Far => self.far,
        }
    }

    /// Picks the hit for the open range `(t_min, t_max)`, if there is one.
    pub fn select(&self, t_min: Scalar, t_max: Scalar) -> (r: Option<Root>)
        ensures
            r == self.accepted(t_min, t_max),
    {
        if !self.discriminant.is_positive() {
            None
        } else if self.near.within(t_min, t_max) {
            Some(Root::Near)
        } else if self.far.within(t_min, t_max) {
            Some(Root::Far)
        } else {
            None
        }
    }
}

} // verus!
