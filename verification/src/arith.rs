//! The arithmetic of one combination step.
//!
//! Two intermediate results are combined by the four basic operations. A
//! result that does not fit under the numeric limit, a negative difference and
//! an inexact quotient do not exist. A quotient is also withheld when both
//! operands are multiples of ten and the dividend is not zero.

use vstd::prelude::*;

verus! {

/// Ten to the power `p`.
pub open spec fn pow10(p: nat) -> nat
    decreases p,
{
    if p == 0 {
        1
    } else {
        10 * pow10((p - 1) as nat)
    }
}

/// The number of scalings a die face can take: the powers of ten below this.
pub open spec fn scalings() -> nat {
    8
}

/// `v` is `face` scaled by one of the admitted powers of ten.
pub open spec fn is_scaled(face: nat, v: nat) -> bool {
    exists|p: nat| p < scalings() && v == face * #[trigger] pow10(p)
}

/// The sum, where it fits under `limit`.
pub open spec fn sum_of(limit: nat, a: nat, b: nat) -> Option<nat> {
    if a + b <= limit {
        Some(a + b)
    } else {
        None
    }
}

/// The difference `a - b`, where it is not negative.
pub open spec fn difference_of(a: nat, b: nat) -> Option<nat> {
    if a >= b {
        Some((a - b) as nat)
    } else {
        None
    }
}

/// The product, where it fits under `limit`.
pub open spec fn product_of(limit: nat, a: nat, b: nat) -> Option<nat> {
    if a * b <= limit {
        Some(a * b)
    } else {
        None
    }
}

/// Both operands are multiples of ten and the dividend is not zero: such a
/// quotient is never formed.
pub open spec fn suppressed(a: nat, b: nat) -> bool {
    a % 10 == 0 && b % 10 == 0 && a > 0
}

/// The quotient `a / b`, where it is exact and not suppressed.
pub open spec fn quotient_of(a: nat, b: nat) -> Option<nat> {
    if b > 0 && a % b == 0 && !suppressed(a, b) {
        Some(a / b)
    } else {
        None
    }
}

/// `v` arises from `a` and `b` by one step, the operands taken in either order.
pub open spec fn combines(limit: nat, a: nat, b: nat, v: nat) -> bool {
    ||| sum_of(limit, a, b) == Some(v)
    ||| difference_of(a, b) == Some(v)
    ||| difference_of(b, a) == Some(v)
    ||| product_of(limit, a, b) == Some(v)
    ||| quotient_of(a, b) == Some(v)
    ||| quotient_of(b, a) == Some(v)
}

/// The values that one step can give for an ordered pair of operands.
pub struct Outcomes {
    /// `a + b`
    pub sum: Option<u64>,
    /// `a - b`
    pub difference: Option<u64>,
    /// `b - a`
    pub reverse_difference: Option<u64>,
    /// `a * b`
    pub product: Option<u64>,
    /// `a / b`
    pub quotient: Option<u64>,
    /// `b / a`
    pub reverse_quotient: Option<u64>,
}

/// An optional machine number as an optional natural number.
pub open spec fn lift(o: Option<u64>) -> Option<nat> {
    match o {
        Some(v) => Some(v as nat),
        None => None,
    }
}

impl Outcomes {
    /// The outcomes are those of `a` and `b` under `limit`.
    pub open spec fn matches_operands(self, limit: nat, a: nat, b: nat) -> bool {
        &&& lift(self.sum) == sum_of(limit, a, b)
        &&& lift(self.difference) == difference_of(a, b)
        &&& lift(self.reverse_difference) == difference_of(b, a)
        &&& lift(self.product) == product_of(limit, a, b)
        &&& lift(self.quotient) == quotient_of(a, b)
        &&& lift(self.reverse_quotient) == quotient_of(b, a)
    }

    /// One of the six outcomes is `v`.
    pub open spec fn has(self, v: u64) -> bool {
        ||| self.sum == Some(v)
        ||| self.difference == Some(v)
        ||| self.reverse_difference == Some(v)
        ||| self.product == Some(v)
        ||| self.quotient == Some(v)
        ||| self.reverse_quotient == Some(v)
    }
}

/// The exact, unsuppressed quotient of two machine numbers.
pub fn checked_quotient(a: u64, b: u64) -> (q: Option<u64>)
    ensures
        lift(q) == quotient_of(a as nat, b as nat),
{
    if b > 0 {
        if a % 10 == 0 && b % 10 == 0 && a > 0 {
            None
        } else if a % b == 0 {
            Some(a / b)
        } else {
            None
        }
    } else {
        None
    }
}

/// All that one step gives for `a` and `b`.
pub fn outcomes(limit: u64, a: u64, b: u64) -> (o: Outcomes)
    ensures
        o.matches_operands(limit as nat, a as nat, b as nat),
        forall|v: u64| o.has(v) <==> combines(limit as nat, a as nat, b as nat, v as nat),
{
    let sum = match a.checked_add(b) {
        Some(s) => if s <= limit {
            Some(s)
        } else {
            None
        },
        None => None,
    };
    let difference = if a >= b {
        Some(a - b)
    } else {
        None
    };
    let reverse_difference = if b >= a {
        Some(b - a)
    } else {
        None
    };
    let product = match a.checked_mul(b) {
        Some(p) => if p <= limit {
            Some(p)
        } else {
            None
        },
        None => None,
    };
    let quotient = checked_quotient(a, b);
    let reverse_quotient = checked_quotient(b, a);
    Outcomes { sum, difference, reverse_difference, product, quotient, reverse_quotient }
}

/// A step is blind to the order of its operands.
pub proof fn lemma_combines_symmetric(limit: nat, a: nat, b: nat, v: nat)
    ensures
        combines(limit, a, b, v) == combines(limit, b, a, v),
{
    assert(a * b == b * a) by (nonlinear_arith);
}

} // verus!
