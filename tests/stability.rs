use grust::stability::{
    clamp_coordinate, is_degenerate_component, sanitize_velocity, POSITION_LIMIT_BITS,
    VELOCITY_LIMIT_BITS,
};

fn bits(v: f32) -> u32 {
    v.to_bits()
}

#[test]
fn limits_are_the_documented_values() {
    assert_eq!(f32::from_bits(VELOCITY_LIMIT_BITS), 100.0);
    assert_eq!(f32::from_bits(POSITION_LIMIT_BITS), 1000.0);
}

#[test]
fn degenerate_components() {
    assert!(is_degenerate_component(bits(f32::NAN)));
    assert!(is_degenerate_component(bits(f32::INFINITY)));
    assert!(is_degenerate_component(bits(f32::NEG_INFINITY)));
    assert!(is_degenerate_component(bits(100.5)));
    assert!(is_degenerate_component(bits(-250.0)));
    assert!(!is_degenerate_component(bits(100.0)));
    assert!(!is_degenerate_component(bits(-99.9)));
    assert!(!is_degenerate_component(bits(0.0)));
    assert!(!is_degenerate_component(bits(-0.0)));
}

#[test]
fn finite_velocity_is_kept() {
    let v = (bits(3.5), bits(-42.0));
    assert_eq!(sanitize_velocity(v, (bits(0.25), bits(-0.5))), v);
}

#[test]
fn one_bad_component_replaces_both() {
    let fresh = (bits(0.25), bits(-0.5));
    assert_eq!(sanitize_velocity((bits(3.5), bits(150.0)), fresh), fresh);
    assert_eq!(sanitize_velocity((bits(f32::NAN), bits(1.0)), fresh), fresh);
}

#[test]
fn coincident_nodes_get_a_finite_velocity() {
    // Two nodes on the same spot: the repulsion divides zero by zero.
    let (x, y) = (4.0f32, -2.0f32);
    let rsq = 0.25 * ((x - x) * (x - x) + (y - y) * (y - y));
    let force = 10.0 * ((x - x) / rsq);
    let velocity = (0.0 + force) * 0.01;
    assert!(velocity.is_nan());
    let fresh = (bits(0.75), bits(-0.125));
    let (vx, vy) = sanitize_velocity((bits(velocity), bits(velocity)), fresh);
    assert!(f32::from_bits(vx).is_finite());
    assert!(f32::from_bits(vy).is_finite());
    assert_eq!((vx, vy), fresh);
}

#[test]
fn coordinate_beyond_bound_bounces() {
    assert_eq!(f32::from_bits(clamp_coordinate(bits(1500.0))), -1000.0);
    assert_eq!(f32::from_bits(clamp_coordinate(bits(-1000.5))), 1000.0);
    assert_eq!(f32::from_bits(clamp_coordinate(bits(f32::INFINITY))), -1000.0);
    assert_eq!(f32::from_bits(clamp_coordinate(bits(f32::NEG_INFINITY))), 1000.0);
}

#[test]
fn coordinate_within_bound_stays() {
    for v in [0.0f32, -0.0, 999.9, -1000.0, 1000.0, 12.5] {
        assert_eq!(clamp_coordinate(bits(v)), bits(v));
    }
    assert!(f32::from_bits(clamp_coordinate(bits(f32::NAN))).is_nan());
}

#[test]
fn coordinates_stay_bounded_over_many_steps() {
    let mut x = 990.0f32;
    for step in 0..500 {
        let v = if step % 3 == 0 { 99.0 } else { -7.0 };
        x = f32::from_bits(clamp_coordinate(bits(x + v)));
        assert!(x.abs() <= 1000.0);
    }
}
