use vstd::prelude::*;

use crate::number::UNITS_PER_ONE;
use crate::polynomial::{Polynomial, TermView};
use crate::reduction::{abs, magnitude, total, value, MAX_TOTAL_UNITS};

verus! {

/// Exponent of a term in units; an absent one is zero.
pub open spec fn exponent_units(t: TermView) -> nat {
    match t.exponent {
        Some(e) => e,
        None => 0,
    }
}

/// Whole part of a term's exponent.
pub open spec fn term_degree(t: TermView) -> nat {
    exponent_units(t) / (UNITS_PER_ONE as nat)
}

/// Largest whole exponent among the terms; zero for no terms.
pub open spec fn degree_of(s: Seq<TermView>) -> nat
    decreases s.len(),
{
    if s.len() == 0 {
        0
    } else {
        let d = degree_of(s.drop_last());
        if term_degree(s.last()) > d {
            term_degree(s.last())
        } else {
            d
        }
    }
}

/// Sum of the signed coefficients, in units, of the terms whose exponent is
/// exactly `k`.
pub open spec fn coefficient_of(s: Seq<TermView>, k: nat) -> int
    decreases s.len(),
{
    if s.len() == 0 {
        0
    } else {
        coefficient_of(s.drop_last(), k) + if exponent_units(s.last()) == k * (UNITS_PER_ONE as nat) {
            value(s.last())
        } else {
            0
        }
    }
}

pub open spec fn fits_i128(v: int) -> bool {
    i128::MIN <= v <= i128::MAX
}

/// What solving a polynomial against zero yields. Coefficients are in units
/// of `10^-9`, the discriminant in the square of that unit.
#[derive(Debug, Clone, Copy, PartialEq, Eq, Structural)]
pub enum Solution {
    /// Degree zero: no unknown is left; `holds` when the constant is zero.
    Constant { holds: bool },
    /// Degree one: the root is `numerator / denominator`.
    Linear { numerator: i128, denominator: i128 },
    /// Degree two with a positive discriminant: the roots are
    /// `(-b - √discriminant) / 2a` and `(-b + √discriminant) / 2a`, in that order.
    TwoRoots { a: i128, b: i128, discriminant: i128 },
    /// Degree two with a zero discriminant: the root is `-b / 2a`.
    OneRoot { a: i128, b: i128 },
    /// Degree two with a negative discriminant.
    NoRealRoot,
    /// Degree three or more, which is not solved.
    UnsupportedDegree(u128),
}

/// Why a polynomial could not be solved.
#[derive(Debug, Clone, Copy, PartialEq, Eq, Structural)]
pub enum SolveError {
    /// The coefficient of the leading degree is zero.
    DivisionByZeroRisk,
    /// The discriminant does not fit in 128 bits.
    Overflow,
}

/// The outcome of solving `s = 0`.
pub open spec fn solution(s: Seq<TermView>) -> Result<Solution, SolveError> {
    let d = degree_of(s);
    let c0 = coefficient_of(s, 0);
    let c1 = coefficient_of(s, 1);
    let c2 = coefficient_of(s, 2);
    if d == 0 {
        Ok(Solution::Constant { holds: c0 == 0 })
    } else if d == 1 {
        if c1 == 0 {
            Err(SolveError::DivisionByZeroRisk)
        } else {
            Ok(Solution::Linear { numerator: (-c0) as i128, denominator: c1 as i128 })
        }
    } else if d == 2 {
        if c2 == 0 {
            Err(SolveError::DivisionByZeroRisk)
        } else if !(fits_i128(c1 * c1) && fits_i128(4 * (c2 * c0)) && fits_i128(
            c1 * c1 - 4 * (c2 * c0),
        )) {
            Err(SolveError::Overflow)
        } else {
            let disc = c1 * c1 - 4 * (c2 * c0);
            if disc > 0 {
                Ok(Solution::TwoRoots { a: c2 as i128, b: c1 as i128, discriminant: disc as i128 })
            } else if disc == 0 {
                Ok(Solution::OneRoot { a: c2 as i128, b: c1 as i128 })
            } else {
                Ok(Solution::NoRealRoot)
            }
        }
    } else {
        Ok(Solution::UnsupportedDegree(d as u128))
    }
}

impl Polynomial {
    /// The largest whole exponent among the terms; zero when there are none.
    pub fn degree(&self) -> (r: u128)
        ensures
            r == degree_of(self@),
    {
        let ghost s = self@;
        let mut d: u128 = 0;
        let mut i: usize = 0;
        assert(s.take(0) =~= Seq::<TermView>::empty());
        while i < self.0.len()
            invariant
                i <= self.0.len(),
                s == self@,
                d == degree_of(s.take(i as int)),
            decreases self.0.len() - i,
        {
            let e: u128 = match self.0[i].exponent {
                Some(x) => x.units,
                None => 0,
            };
            assert(s[i as int] == self.0@[i as int]@);
            assert(s.take(i + 1).drop_last() =~= s.take(i as int));
            let t = e / UNITS_PER_ONE;
            if t > d {
                d = t;
            }
            i = i + 1;
        }
        assert(s.take(i as int) =~= s);
        d
    }

    /// Coefficients in units of exponents zero, one and two.
    fn low_coefficients(&self) -> (r: (i128, i128, i128))
        requires
            total(self@) <= MAX_TOTAL_UNITS,
        ensures
            r.0 == coefficient_of(self@, 0),
            r.1 == coefficient_of(self@, 1),
            r.2 == coefficient_of(self@, 2),
            abs(r.0 as int) <= total(self@),
    {
        let ghost s = self@;
        let mut c0: i128 = 0;
        let mut c1: i128 = 0;
        let mut c2: i128 = 0;
        let mut i: usize = 0;
        assert(s.take(0) =~= Seq::<TermView>::empty());
        while i < self.0.len()
            invariant
                i <= self.0.len(),
                s == self@,
                total(s) <= MAX_TOTAL_UNITS,
                c0 == coefficient_of(s.take(i as int), 0),
                c1 == coefficient_of(s.take(i as int), 1),
                c2 == coefficient_of(s.take(i as int), 2),
                abs(c0 as int) <= total(s.take(i as int)),
                abs(c1 as int) <= total(s.take(i as int)),
                abs(c2 as int) <= total(s.take(i as int)),
            decreases self.0.len() - i,
        {
            let t = &self.0[i];
            assert(s[i as int] == t@);
            assert(s.take(i + 1).drop_last() =~= s.take(i as int));
            proof {
                crate::reduction::lemma_total_prefix(s, i + 1);
            }
            let m = t.magnitude();
            let v: i128 = if t.is_sign_negative {
                -(m as i128)
            } else {
                m as i128
            };
            let e: u128 = match t.exponent {
                Some(x) => x.units,
                None => 0,
            };
            if e == 0 {
                c0 = c0 + v;
            } else if e == UNITS_PER_ONE {
                c1 = c1 + v;
            } else if e == 2 * UNITS_PER_ONE {
                c2 = c2 + v;
            }
            i = i + 1;
        }
        assert(s.take(i as int) =~= s);
        (c0, c1, c2)
    }

    /// Solves the polynomial against zero by its degree: a constant is checked,
    /// a line gives one root, a quadratic gives its roots by the sign of the
    /// discriminant, and a higher degree is reported.
    pub fn solve(&self) -> (r: Result<Solution, SolveError>)
        requires
            total(self@) <= MAX_TOTAL_UNITS,
        ensures
            r == solution(self@),
    {
        let d = self.degree();
        let (c0, c1, c2) = self.low_coefficients();
        if d == 0 {
            Ok(Solution::Constant { holds: c0 == 0 })
        } else if d == 1 {
            if c1 == 0 {
                Err(SolveError::DivisionByZeroRisk)
            } else {
                Ok(Solution::Linear { numerator: -c0, denominator: c1 })
            }
        } else if d == 2 {
            if c2 == 0 {
                return Err(SolveError::DivisionByZeroRisk);
            }
            let bb = match c1.checked_mul(c1) {
                Some(x) => x,
                None => {
                    return Err(SolveError::Overflow);
                },
            };
            let ac = match c2.checked_mul(c0) {
                Some(x) => x,
                None => {
                    assert(!fits_i128(4 * (c2 * c0)));
                    return Err(SolveError::Overflow);
                },
            };
            let ac4 = match ac.checked_mul(4) {
                Some(x) => x,
                None => {
                    return Err(SolveError::Overflow);
                },
            };
            let disc = match bb.checked_sub(ac4) {
                Some(x) => x,
                None => {
                    return Err(SolveError::Overflow);
                },
            };
            if disc > 0 {
                Ok(Solution::TwoRoots { a: c2, b: c1, discriminant: disc })
            } else if disc == 0 {
                Ok(Solution::OneRoot { a: c2, b: c1 })
            } else {
                Ok(Solution::NoRealRoot)
            }
        } else {
            Ok(Solution::UnsupportedDegree(d))
        }
    }
}

} // verus!
