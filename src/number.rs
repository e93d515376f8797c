use vstd::prelude::*;

verus! {

/// Number of decimal places that a `Decimal` keeps exactly.
pub const FRACTION_DIGITS: u32 = 9;

/// Count of units in one whole: a unit is `10^-FRACTION_DIGITS`.
pub const UNITS_PER_ONE: u128 = 1_000_000_000;

/// Largest count of units that a number literal holds; larger literals are
/// held as this.
pub const MAX_LITERAL_UNITS: u128 = 1_000_000_000_000_000_000_000_000_000_000;

/// Largest whole part that a number literal keeps: `MAX_LITERAL_UNITS` in
/// wholes.
pub const MAX_WHOLE: u128 = 1_000_000_000_000_000_000_000;

/// `10^n`.
pub open spec fn pow10(n: nat) -> nat
    decreases n,
{
    if n == 0 {
        1
    } else {
        10 * pow10((n - 1) as nat)
    }
}

/// A non-negative decimal number held exactly, as a count of units of
/// `10^-FRACTION_DIGITS`.
#[derive(Debug, Clone, Copy, PartialEq, Eq, Structural)]
pub struct Decimal {
    pub units: u128,
}

impl Decimal {
    pub fn from_units(units: u128) -> (r: Decimal)
        ensures
            r.units == units,
    {
        Decimal { units }
    }

    /// The whole number `n`.
    pub fn from_whole(n: u64) -> (r: Decimal)
        ensures
            r.units == n * UNITS_PER_ONE,
    {
        Decimal { units: n as u128 * UNITS_PER_ONE }
    }
}

} // verus!
