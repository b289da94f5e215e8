use raytracer::material::{
    dielectric_bounce, metal_absorbs, near_zero, Bounce, NEAR_ZERO_BITS, ONE_BITS,
};
use raytracer::scalar::Scalar;

fn s(value: f32) -> Scalar {
    Scalar::from_bits(value.to_bits())
}

#[test]
fn material_constants_are_the_numbers_they_name() {
    assert_eq!(ONE_BITS, 1.0f32.to_bits());
    assert_eq!(NEAR_ZERO_BITS, 1.0e-6f32.to_bits());
}

#[test]
fn near_zero_needs_every_component_tiny() {
    assert!(near_zero(s(0.0), s(0.0), s(0.0)));
    assert!(near_zero(s(1.0e-7), s(-1.0e-7), s(-0.0)));
    assert!(near_zero(s(9.9e-7), s(-9.9e-7), s(1.0e-30)));
    assert!(!near_zero(s(1.0e-5), s(0.0), s(0.0)));
    assert!(!near_zero(s(0.0), s(-1.0e-5), s(0.0)));
    assert!(!near_zero(s(0.0), s(0.0), s(1.0)));
}

#[test]
fn near_zero_threshold_is_strict() {
    assert!(!near_zero(s(1.0e-6), s(0.0), s(0.0)));
    assert!(!near_zero(s(0.0), s(-1.0e-6), s(0.0)));
    let below = f32::from_bits(1.0e-6f32.to_bits() - 1);
    assert!(near_zero(s(below), s(-below), s(below)));
}

#[test]
fn near_zero_agrees_with_the_numbers() {
    let values = [0.0f32, -0.0, 1.0e-7, -1.0e-7, 1.0e-6, -1.0e-6, 2.0e-6, 0.5, f32::NAN, f32::INFINITY];
    for &x in &values {
        for &y in &values {
            for &z in &values {
                let expected = x.abs() < 1.0e-6 && y.abs() < 1.0e-6 && z.abs() < 1.0e-6;
                assert_eq!(near_zero(s(x), s(y), s(z)), expected, "{x:?} {y:?} {z:?}");
            }
        }
    }
}

#[test]
fn metal_absorbs_what_points_into_the_surface() {
    assert!(!metal_absorbs(s(0.5)));
    assert!(!metal_absorbs(s(1.0e-30)));
    assert!(metal_absorbs(s(0.0)));
    assert!(metal_absorbs(s(-0.0)));
    assert!(metal_absorbs(s(-0.5)));
    assert!(metal_absorbs(s(f32::NAN)));
}

#[test]
fn dielectric_reflects_totally_beyond_the_critical_angle() {
    assert_eq!(dielectric_bounce(s(1.5), s(0.99), s(0.0)), Bounce::Reflect);
    assert_eq!(dielectric_bounce(s(1.000_000_1), s(0.99), s(0.0)), Bounce::Reflect);
    assert_eq!(dielectric_bounce(s(1.0), s(0.99), s(0.0)), Bounce::Refract);
}

#[test]
fn dielectric_reflects_with_the_probability_of_its_reflectance() {
    assert_eq!(dielectric_bounce(s(0.5), s(0.1), s(0.2)), Bounce::Reflect);
    assert_eq!(dielectric_bounce(s(0.5), s(0.3), s(0.2)), Bounce::Refract);
    assert_eq!(dielectric_bounce(s(0.5), s(0.2), s(0.2)), Bounce::Refract);
    assert_eq!(dielectric_bounce(s(0.0), s(0.0), s(1.0)), Bounce::Reflect);
}

#[test]
fn dielectric_refracts_when_the_numbers_are_undefined() {
    assert_eq!(dielectric_bounce(s(f32::NAN), s(0.5), s(f32::NAN)), Bounce::Refract);
    assert_eq!(dielectric_bounce(s(f32::NAN), s(0.1), s(0.2)), Bounce::Reflect);
}
