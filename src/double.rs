use vstd::prelude::*;

verus! {

/// Bit of an IEEE-754 double that holds its sign.
pub const SIGN_BIT: u64 = 0x8000_0000_0000_0000;

/// Magnitude bits of positive infinity; every larger magnitude is a NaN.
pub const INFINITY_MAGNITUDE: u64 = 0x7ff0_0000_0000_0000;

/// Whether the sign bit of the double `b` is set.
pub open spec fn is_negative_bits(b: u64) -> bool {
    b >= SIGN_BIT
}

/// The double `b` without its sign bit.
pub open spec fn magnitude(b: u64) -> u64 {
    (b % SIGN_BIT) as u64
}

/// Whether `b` encodes a NaN.
pub open spec fn is_nan(b: u64) -> bool {
    magnitude(b) > INFINITY_MAGNITUDE
}

/// Whether `b` encodes +0.0 or -0.0.
pub open spec fn is_zero(b: u64) -> bool {
    magnitude(b) == 0
}

/// Position of a non-NaN double on the number line. For doubles that are not
/// NaN the magnitude bits grow with the absolute value, so two such doubles
/// compare as their ranks do, and +0.0 and -0.0 share rank 0.
pub open spec fn rank(b: u64) -> int {
    if is_negative_bits(b) {
        -(magnitude(b) as int)
    } else {
        magnitude(b) as int
    }
}

/// The IEEE-754 comparison `a < b`: false whenever a NaN takes part.
pub open spec fn less(a: u64, b: u64) -> bool {
    !is_nan(a) && !is_nan(b) && rank(a) < rank(b)
}

/// The IEEE-754 comparison `a == b`: false whenever a NaN takes part.
pub open spec fn equal(a: u64, b: u64) -> bool {
    !is_nan(a) && !is_nan(b) && rank(a) == rank(b)
}

/// `|y| <= p`, as the doubles compare.
pub open spec fn within(y: u64, p: u64) -> bool {
    !is_nan(y) && !is_nan(p) && magnitude(y) as int <= rank(p)
}

/// Strictly opposite signs, both nonzero: what `|a + b| < |a| + |b|` states
/// of two real numbers.
pub open spec fn opposite_signs(a: u64, b: u64) -> bool {
    !is_nan(a) && !is_nan(b) && !is_zero(a) && !is_zero(b)
        && is_negative_bits(a) != is_negative_bits(b)
}

/// The sign of a double.
#[derive(Clone, Copy, Debug, PartialEq, Eq, Structural)]
pub enum Sign {
    Negative,
    Zero,
    Positive,
    Undefined,
}

pub open spec fn sign_spec(b: u64) -> Sign {
    if is_nan(b) {
        Sign::Undefined
    } else if is_zero(b) {
        Sign::Zero
    } else if is_negative_bits(b) {
        Sign::Negative
    } else {
        Sign::Positive
    }
}

/// The sign of the double whose bits are `b`.
pub fn sign_of(b: u64) -> (r: Sign)
    ensures
        r == sign_spec(b),
{
    let m: u64 = b % SIGN_BIT;
    if m > INFINITY_MAGNITUDE {
        Sign::Undefined
    } else if m == 0 {
        Sign::Zero
    } else if b >= SIGN_BIT {
        Sign::Negative
    } else {
        Sign::Positive
    }
}

/// Whether `b` encodes a NaN.
pub fn nan(b: u64) -> (r: bool)
    ensures
        r == is_nan(b),
{
    b % SIGN_BIT > INFINITY_MAGNITUDE
}

/// Whether `b` encodes a zero of either sign.
pub fn zero(b: u64) -> (r: bool)
    ensures
        r == is_zero(b),
{
    b % SIGN_BIT == 0
}

/// The rank of a double as a machine integer.
fn rank_of(b: u64) -> (r: i64)
    ensures
        r as int == rank(b),
{
    let m: u64 = b % SIGN_BIT;
    if b >= SIGN_BIT {
        -(m as i64)
    } else {
        m as i64
    }
}

/// The comparison `a < b` of two doubles.
pub fn less_than(a: u64, b: u64) -> (r: bool)
    ensures
        r == less(a, b),
{
    !nan(a) && !nan(b) && rank_of(a) < rank_of(b)
}

/// The comparison `a == b` of two doubles.
pub fn equal_to(a: u64, b: u64) -> (r: bool)
    ensures
        r == equal(a, b),
{
    !nan(a) && !nan(b) && rank_of(a) == rank_of(b)
}

/// Whether `|y| <= p` for doubles `y` and `p`.
pub fn is_within(y: u64, p: u64) -> (r: bool)
    ensures
        r == within(y, p),
{
    !nan(y) && !nan(p) && ((y % SIGN_BIT) as i64) <= rank_of(p)
}

/// The sign-change test on the values of a function at the two ends of an
/// interval: true exactly when both are nonzero and of opposite signs.
pub fn has_sign_change(fa: u64, fb: u64) -> (r: bool)
    ensures
        r == opposite_signs(fa, fb),
{
    let sa = sign_of(fa);
    let sb = sign_of(fb);
    match (sa, sb) {
        (Sign::Negative, Sign::Positive) => true,
        (Sign::Positive, Sign::Negative) => true,
        _ => false,
    }
}

/// On a degenerate interval both ends take the same value, and no sign change
/// is seen.
pub proof fn lemma_degenerate_interval(y: u64)
    ensures
        !opposite_signs(y, y),
{
}

/// A zero at either end of an interval is never reported as a sign change.
pub proof fn lemma_zero_end_no_sign_change(fa: u64, fb: u64)
    requires
        is_zero(fa) || is_zero(fb),
    ensures
        !opposite_signs(fa, fb),
{
}

} // verus!
