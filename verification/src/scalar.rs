//! Scalars as bit patterns, and the primitives asked of the arithmetic unit.

use vstd::prelude::*;

verus! {

/// The bit pattern of `+0.0`.
pub const ZERO: u64 = 0;

/// The bit pattern of `1.0`.
pub const ONE: u64 = 0x3FF0_0000_0000_0000;

/// The bit pattern of `2.0`.
pub const TWO: u64 = 0x4000_0000_0000_0000;

/// The bit pattern of positive infinity, the largest pattern that is a
/// number with a clear sign bit.
pub const INFINITY: u64 = 0x7FF0_0000_0000_0000;

/// A primitive operation of the arithmetic unit. The unit is called with the
/// primitive and two bit patterns; the unary primitives ignore the second.
#[derive(Clone, Copy, PartialEq, Eq, Structural, Debug)]
pub enum Prim {
    /// `a + b`
    Add,
    /// `a - b`
    Sub,
    /// `a * b`
    Mul,
    /// `a / b`
    Div,
    /// `-a`
    Neg,
    /// `e` to the power `a`
    Exp,
    /// `a` to the power `b`
    Powf,
}

/// The unit accepts every call.
pub open spec fn total<F: Fn(Prim, u64, u64) -> u64>(unit: F) -> bool {
    forall|p: Prim, a: u64, b: u64| #[trigger] call_requires(unit, (p, a, b))
}

/// `r` is a result that the unit may return for primitive `p` on `a` and `b`.
pub open spec fn gives<F: Fn(Prim, u64, u64) -> u64>(
    unit: F,
    p: Prim,
    a: u64,
    b: u64,
    r: u64,
) -> bool {
    call_ensures(unit, (p, a, b), r)
}

/// The pattern stands for a number greater than zero: the sign bit is clear,
/// the pattern is not that of zero, and it is not past infinity (where the
/// patterns of not-a-number lie).
pub open spec fn positive(bits: u64) -> bool {
    0 < bits <= INFINITY
}

/// Tells whether a bit pattern stands for a number greater than zero.
pub fn is_positive(bits: u64) -> (r: bool)
    ensures
        r == positive(bits),
{
    0 < bits && bits <= INFINITY
}

/// The rectified-linear value of a pattern: the pattern itself where it is
/// positive, `+0.0` elsewhere.
pub open spec fn rectified(bits: u64) -> u64 {
    if positive(bits) {
        bits
    } else {
        ZERO
    }
}

} // verus!
