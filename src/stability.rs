//! Numerical safeguards of the layout simulation.
//!
//! Velocities and coordinates are single-precision IEEE 754 values; here they
//! are held as their bit patterns (`f32::to_bits`), so that the decisions of the
//! guard can be stated and proved exactly. For a value that is not NaN, the
//! order of the magnitude bits is the order of absolute values.
use vstd::prelude::*;

verus! {

/// Bit pattern of positive infinity; magnitudes above it are NaN.
pub const INFINITY_BITS: u32 = 0x7F80_0000;

/// Bit pattern of `1.0`, the bound of a re-seeded velocity component.
pub const ONE_BITS: u32 = 0x3F80_0000;

/// Bit pattern of `100.0`, the largest accepted velocity component.
pub const VELOCITY_LIMIT_BITS: u32 = 0x42C8_0000;

/// Bit pattern of `1000.0`, the largest accepted coordinate.
pub const POSITION_LIMIT_BITS: u32 = 0x447A_0000;

/// Bit pattern of `-1000.0`.
pub const NEGATIVE_POSITION_LIMIT_BITS: u32 = 0xC47A_0000;

/// The bits of the absolute value.
pub open spec fn magnitude(b: u32) -> u32 {
    (b % 0x8000_0000) as u32
}

pub open spec fn is_nan(b: u32) -> bool {
    magnitude(b) > INFINITY_BITS
}

pub open spec fn is_finite(b: u32) -> bool {
    magnitude(b) < INFINITY_BITS
}

pub open spec fn is_sign_negative(b: u32) -> bool {
    b >= 0x8000_0000
}

/// The value is a number whose absolute value is at most the one of `limit`.
pub open spec fn within(b: u32, limit: u32) -> bool {
    !is_nan(b) && magnitude(b) <= limit
}

/// A velocity component that the guard discards: NaN, or larger in absolute
/// value than `100.0`.
pub open spec fn is_degenerate(b: u32) -> bool {
    is_nan(b) || magnitude(b) > VELOCITY_LIMIT_BITS
}

/// The velocity kept by the guard: the computed one, unless either component
/// is degenerate, in which case both are replaced by the fresh values.
pub open spec fn sanitized(velocity: (u32, u32), fresh: (u32, u32)) -> (u32, u32) {
    if is_degenerate(velocity.0) || is_degenerate(velocity.1) {
        fresh
    } else {
        velocity
    }
}

/// A coordinate after the bounce: one larger in absolute value than `1000.0`
/// is moved to the bound on the opposite side; any other value stays.
pub open spec fn clamped(b: u32) -> u32 {
    if !is_nan(b) && magnitude(b) > POSITION_LIMIT_BITS {
        if is_sign_negative(b) {
            POSITION_LIMIT_BITS
        } else {
            NEGATIVE_POSITION_LIMIT_BITS
        }
    } else {
        b
    }
}

fn magnitude_bits(b: u32) -> (r: u32)
    ensures
        r == magnitude(b),
{
    let r = b & 0x7FFF_FFFF;
    assert(b & 0x7FFF_FFFF == b % 0x8000_0000) by (bit_vector);
    r
}

/// Whether a velocity component must be discarded.
pub fn is_degenerate_component(b: u32) -> (r: bool)
    ensures
        r == is_degenerate(b),
{
    let m = magnitude_bits(b);
    m > INFINITY_BITS || m > VELOCITY_LIMIT_BITS
}

/// Keeps a freshly integrated velocity, or replaces it by `fresh` (two values
/// drawn uniformly from `[-1, 1]` by the caller) when it is degenerate.
pub fn sanitize_velocity(velocity: (u32, u32), fresh: (u32, u32)) -> (r: (u32, u32))
    ensures
        r == sanitized(velocity, fresh),
{
    if is_degenerate_component(velocity.0) || is_degenerate_component(velocity.1) {
        fresh
    } else {
        velocity
    }
}

/// Bounces a coordinate back from beyond `1000.0` in absolute value.
pub fn clamp_coordinate(b: u32) -> (r: u32)
    ensures
        r == clamped(b),
        !is_nan(b) ==> within(r, POSITION_LIMIT_BITS),
{
    let m = magnitude_bits(b);
    if m <= INFINITY_BITS && m > POSITION_LIMIT_BITS {
        if b >= 0x8000_0000 {
            POSITION_LIMIT_BITS
        } else {
            NEGATIVE_POSITION_LIMIT_BITS
        }
    } else {
        b
    }
}

/// A velocity that leaves the guard is finite and at most `100.0` in each
/// component, whatever was computed, as long as the fresh values lie in
/// `[-1, 1]`; a singular repulsion cannot leave a non-finite velocity behind.
pub proof fn lemma_sanitized_velocity_is_finite(velocity: (u32, u32), fresh: (u32, u32))
    requires
        within(fresh.0, ONE_BITS),
        within(fresh.1, ONE_BITS),
    ensures
        is_finite(sanitized(velocity, fresh).0),
        is_finite(sanitized(velocity, fresh).1),
        within(sanitized(velocity, fresh).0, VELOCITY_LIMIT_BITS),
        within(sanitized(velocity, fresh).1, VELOCITY_LIMIT_BITS),
{
}

/// Every coordinate that is a number lies within `[-1000, 1000]` once bounced.
pub proof fn lemma_clamped_coordinate_is_bounded(b: u32)
    requires
        !is_nan(b),
    ensures
        within(clamped(b), POSITION_LIMIT_BITS),
        is_finite(clamped(b)),
{
}

} // verus!
