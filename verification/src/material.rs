//! What the surfaces decide when a ray strikes them.
//!
//! The directions and colours are computed in reals by the renderer; the
//! branch that each material takes depends only on how a few of those
//! numbers compare, and is settled here.
use vstd::prelude::*;
use crate::scalar::Scalar;

verus! {

/// The bit pattern of `1.0`.
pub const ONE_BITS: u32 = 0x3f80_0000;

/// The bit pattern of `1.0e-6`, below which a component counts as zero.
pub const NEAR_ZERO_BITS: u32 = 0x3586_37bd;

/// How a transparent surface sends a ray on.
#[derive(Clone, Copy, Debug, PartialEq, Eq, Structural)]
pub enum Bounce {
    /// Mirrored about the normal.
    Reflect,
    /// Bent through the surface.
    Refract,
}

/// Whether `value` is smaller in magnitude than `1.0e-6`.
pub open spec fn tiny(value: Scalar) -> bool {
    !value.nan() && value.magnitude() < NEAR_ZERO_BITS
}

/// Whether a direction is degenerate: every component is smaller in
/// magnitude than `1.0e-6`.
pub open spec fn degenerate(x: Scalar, y: Scalar, z: Scalar) -> bool {
    tiny(x) && tiny(y) && tiny(z)
}

/// Whether a diffuse surface must fall back to the bare normal, because the
/// direction it sampled, with the components `x`, `y`, `z`, is degenerate.
pub fn near_zero(x: Scalar, y: Scalar, z: Scalar) -> (r: bool)
    ensures
        r == degenerate(x, y, z),
{
    let limit = Scalar::from_bits(NEAR_ZERO_BITS);
    proof {
        assert(0x3586_37bdu32 & 0x7fff_ffff == 0x3586_37bd) by (bit_vector);
        assert(0x3586_37bdu32 & 0x8000_0000 == 0) by (bit_vector);
    }
    x.abs().lt(limit) && y.abs().lt(limit) && z.abs().lt(limit)
}

/// Whether a metal absorbs the ray: it does unless the scattered direction
/// points away from the surface, that is unless `facing`, the dot product
/// of that direction with the normal, is positive.
pub fn metal_absorbs(facing: Scalar) -> (r: bool)
    ensures
        r == !facing.positive(),
{
    !facing.is_positive()
}

/// What a transparent surface does. `bend` is the refraction ratio times the
/// sine of the angle of incidence: beyond 1 no refracted ray exists and the
/// surface reflects. Otherwise it reflects where `draw`, a uniform random
/// number, falls below `reflectance`, and refracts where it does not.
pub open spec fn dielectric_choice(bend: Scalar, draw: Scalar, reflectance: Scalar) -> Bounce {
    if (Scalar { bits: ONE_BITS }).below(bend) || draw.below(reflectance) {
        Bounce::Reflect
    } else {
        Bounce::Refract
    }
}

/// Decides between reflection and refraction at a transparent surface.
pub fn dielectric_bounce(bend: Scalar, draw: Scalar, reflectance: Scalar) -> (bounce: Bounce)
    ensures
        bounce == dielectric_choice(bend, draw, reflectance),
{
    let one = Scalar::from_bits(ONE_BITS);
    if one.lt(bend) || draw.lt(reflectance) {
        Bounce::Reflect
    } else {
        Bounce::Refract
    }
}

} // verus!
