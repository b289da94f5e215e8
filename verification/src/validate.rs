//! Which scene parameters are fit to render.
//!
//! A scene is checked once, when it is built: a parameter that would turn
//! the intersection or scattering arithmetic into divisions by zero or into
//! NaNs is refused there, so that nothing has to be tested per ray.
use vstd::prelude::*;
use crate::material::ONE_BITS;
use crate::scalar::Scalar;

verus! {

/// Why a scene parameter was refused.
#[derive(Clone, Copy, Debug, PartialEq, Eq, Structural)]
pub enum SceneError {
    /// A sphere's radius is zero, infinite or a NaN.
    Radius,
    /// A metal's fuzz is outside `[0, 1]`.
    Fuzz,
    /// A transparent material's refractive index is not a positive finite
    /// number.
    RefractiveIndex,
}

/// A radius is usable where it is a finite number other than zero. It may
/// be negative: that makes a hollow shell, whose normals point inward.
pub open spec fn usable_radius(radius: Scalar) -> bool {
    radius.finite() && radius.rank() != 0
}

/// A fuzz is usable where it lies in `[0, 1]`.
pub open spec fn usable_fuzz(fuzz: Scalar) -> bool {
    !fuzz.nan() && 0 <= fuzz.rank() <= ONE_BITS
}

/// A refractive index is usable where it is positive and finite.
pub open spec fn usable_refractive_index(index: Scalar) -> bool {
    index.finite() && index.rank() > 0
}

/// Accepts the radius of a sphere, or says why not.
pub fn check_radius(radius: Scalar) -> (r: Result<(), SceneError>)
    ensures
        r is Ok <==> usable_radius(radius),
        r is Err ==> r == Err::<(), SceneError>(SceneError::Radius),
{
    if radius.is_finite() && radius.position() != 0 {
        Ok(())
    } else {
        Err(SceneError::Radius)
    }
}

/// Accepts the fuzz of a metal, or says why not.
pub fn check_fuzz(fuzz: Scalar) -> (r: Result<(), SceneError>)
    ensures
        r is Ok <==> usable_fuzz(fuzz),
        r is Err ==> r == Err::<(), SceneError>(SceneError::Fuzz),
{
    if !fuzz.is_nan() && 0 <= fuzz.position() && fuzz.position() <= ONE_BITS as i64 {
        Ok(())
    } else {
        Err(SceneError::Fuzz)
    }
}

/// Accepts the refractive index of a transparent material, or says why not.
pub fn check_refractive_index(index: Scalar) -> (r: Result<(), SceneError>)
    ensures
        r is Ok <==> usable_refractive_index(index),
        r is Err ==> r == Err::<(), SceneError>(SceneError::RefractiveIndex),
{
    if index.is_finite() && index.position() > 0 {
        Ok(())
    } else {
        Err(SceneError::RefractiveIndex)
    }
}

} // verus!
