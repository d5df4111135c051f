//! Expression trees over dice faces.

use crate::arith::{difference_of, is_scaled, product_of, quotient_of, sum_of};
use vstd::prelude::*;

verus! {

/// A computation built from dice. A leaf `Cube(i, v)` is die number `i`
/// contributing the value `v`.
#[derive(Debug, Hash)]
pub enum Calculation {
    Add(Box<Calculation>, Box<Calculation>),
    Sub(Box<Calculation>, Box<Calculation>),
    Mul(Box<Calculation>, Box<Calculation>),
    Div(Box<Calculation>, Box<Calculation>),
    Cube(usize, u64),
}

/// The largest power of ten that is not above `v`, as its exponent; 0 for 0.
pub open spec fn log10_floor(v: nat) -> nat
    decreases v,
{
    if v < 10 {
        0
    } else {
        1 + log10_floor(v / 10)
    }
}

/// A number below `2^64` has at most twenty digits.
pub proof fn lemma_log10_floor_bound(v: nat)
    requires
        v <= u64::MAX,
    ensures
        log10_floor(v) <= 19,
{
    reveal_with_fuel(log10_floor, 21);
}

/// Computes [`log10_floor`].
pub fn ilog10(v: u64) -> (r: u32)
    ensures
        r == log10_floor(v as nat),
        r <= 19,
{
    let mut rest: u64 = v;
    let mut r: u32 = 0;
    proof {
        lemma_log10_floor_bound(v as nat);
    }
    while rest >= 10
        invariant
            r + log10_floor(rest as nat) == log10_floor(v as nat),
            log10_floor(v as nat) <= 19,
        decreases rest,
    {
        rest = rest / 10;
        r = r + 1;
    }
    r
}

impl Calculation {
    /// Structural equality in which `Add` and `Mul` ignore the order of their
    /// operands and a leaf is identified by its value alone.
    pub open spec fn same(self, other: Calculation) -> bool
        decreases self,
    {
        match (self, other) {
            (Calculation::Cube(_, v), Calculation::Cube(_, w)) => v == w,
            (Calculation::Add(a, b), Calculation::Add(c, d)) => (a.same(*c) && b.same(*d)) || (
            a.same(*d) && b.same(*c)),
            (Calculation::Sub(a, b), Calculation::Sub(c, d)) => a.same(*c) && b.same(*d),
            (Calculation::Mul(a, b), Calculation::Mul(c, d)) => (a.same(*c) && b.same(*d)) || (
            a.same(*d) && b.same(*c)),
            (Calculation::Div(a, b), Calculation::Div(c, d)) => a.same(*c) && b.same(*d),
            _ => false,
        }
    }

    /// Decides [`Calculation::same`].
    pub fn is_same(&self, other: &Calculation) -> (r: bool)
        ensures
            r == self.same(*other),
        decreases self,
    {
        match (self, other) {
            (Calculation::Cube(_, v), Calculation::Cube(_, w)) => *v == *w,
            (Calculation::Add(a, b), Calculation::Add(c, d)) => (a.is_same(c) && b.is_same(d)) || (
            a.is_same(d) && b.is_same(c)),
            (Calculation::Sub(a, b), Calculation::Sub(c, d)) => a.is_same(c) && b.is_same(d),
            (Calculation::Mul(a, b), Calculation::Mul(c, d)) => (a.is_same(c) && b.is_same(d)) || (
            a.is_same(d) && b.is_same(c)),
            (Calculation::Div(a, b), Calculation::Div(c, d)) => a.is_same(c) && b.is_same(d),
            _ => false,
        }
    }

    /// The first operand; a leaf is its own.
    pub open spec fn left(self) -> Calculation {
        match self {
            Calculation::Add(a, _) => *a,
            Calculation::Sub(a, _) => *a,
            Calculation::Mul(a, _) => *a,
            Calculation::Div(a, _) => *a,
            Calculation::Cube(_, _) => self,
        }
    }

    /// The second operand; a leaf is its own.
    pub open spec fn right(self) -> Calculation {
        match self {
            Calculation::Add(_, b) => *b,
            Calculation::Sub(_, b) => *b,
            Calculation::Mul(_, b) => *b,
            Calculation::Div(_, b) => *b,
            Calculation::Cube(_, _) => self,
        }
    }

    /// The value under the rules of the search: every sum and product stays
    /// under `limit`, no difference is negative, every quotient is exact and
    /// not suppressed. `None` where a rule is broken anywhere in the tree.
    pub open spec fn eval(self, limit: nat) -> Option<nat>
        decreases self,
    {
        match self {
            Calculation::Cube(_, v) => Some(v as nat),
            Calculation::Add(a, b) => match (a.eval(limit), b.eval(limit)) {
                (Some(x), Some(y)) => sum_of(limit, x, y),
                _ => None,
            },
            Calculation::Sub(a, b) => match (a.eval(limit), b.eval(limit)) {
                (Some(x), Some(y)) => difference_of(x, y),
                _ => None,
            },
            Calculation::Mul(a, b) => match (a.eval(limit), b.eval(limit)) {
                (Some(x), Some(y)) => product_of(limit, x, y),
                _ => None,
            },
            Calculation::Div(a, b) => match (a.eval(limit), b.eval(limit)) {
                (Some(x), Some(y)) => quotient_of(x, y),
                _ => None,
            },
        }
    }

    /// The value in the natural numbers: `None` where a difference would be
    /// negative or a quotient is not exact.
    pub open spec fn value(self) -> Option<nat>
        decreases self,
    {
        match self {
            Calculation::Cube(_, v) => Some(v as nat),
            Calculation::Add(a, b) => match (a.value(), b.value()) {
                (Some(x), Some(y)) => Some(x + y),
                _ => None,
            },
            Calculation::Sub(a, b) => match (a.value(), b.value()) {
                (Some(x), Some(y)) => if x >= y {
                    Some((x - y) as nat)
                } else {
                    None
                },
                _ => None,
            },
            Calculation::Mul(a, b) => match (a.value(), b.value()) {
                (Some(x), Some(y)) => Some(x * y),
                _ => None,
            },
            Calculation::Div(a, b) => match (a.value(), b.value()) {
                (Some(x), Some(y)) => if y > 0 && x % y == 0 {
                    Some(x / y)
                } else {
                    None
                },
                _ => None,
            },
        }
    }

    /// Both computations end in the same step: the same operation, on
    /// operands of the same values; the operands of a sum and of a product
    /// may be exchanged. Two leaves end in the same step where they hold the
    /// same value.
    pub open spec fn same_last_step(self, other: Calculation, limit: nat) -> bool {
        let straight = self.left().eval(limit) == other.left().eval(limit) && self.right().eval(
            limit,
        ) == other.right().eval(limit);
        let crossed = self.left().eval(limit) == other.right().eval(limit) && self.right().eval(
            limit,
        ) == other.left().eval(limit);
        match (self, other) {
            (Calculation::Cube(_, v), Calculation::Cube(_, w)) => v == w,
            (Calculation::Add(_, _), Calculation::Add(_, _)) => straight || crossed,
            (Calculation::Sub(_, _), Calculation::Sub(_, _)) => straight,
            (Calculation::Mul(_, _), Calculation::Mul(_, _)) => straight || crossed,
            (Calculation::Div(_, _), Calculation::Div(_, _)) => straight,
            _ => false,
        }
    }

    /// The dice that the leaves name.
    pub open spec fn indices(self) -> Set<nat>
        decreases self,
    {
        match self {
            Calculation::Cube(i, _) => set![i as nat],
            Calculation::Add(a, b) => a.indices().union(b.indices()),
            Calculation::Sub(a, b) => a.indices().union(b.indices()),
            Calculation::Mul(a, b) => a.indices().union(b.indices()),
            Calculation::Div(a, b) => a.indices().union(b.indices()),
        }
    }

    /// The dice that the leaves name, leaf by leaf from left to right.
    pub open spec fn leaf_indices(self) -> Seq<nat>
        decreases self,
    {
        match self {
            Calculation::Cube(i, _) => seq![i as nat],
            Calculation::Add(a, b) => a.leaf_indices() + b.leaf_indices(),
            Calculation::Sub(a, b) => a.leaf_indices() + b.leaf_indices(),
            Calculation::Mul(a, b) => a.leaf_indices() + b.leaf_indices(),
            Calculation::Div(a, b) => a.leaf_indices() + b.leaf_indices(),
        }
    }

    /// No die is named by two leaves.
    pub open spec fn distinct(self) -> bool
        decreases self,
    {
        match self {
            Calculation::Cube(_, _) => true,
            Calculation::Add(a, b) => a.distinct() && b.distinct() && a.indices().disjoint(
                b.indices(),
            ),
            Calculation::Sub(a, b) => a.distinct() && b.distinct() && a.indices().disjoint(
                b.indices(),
            ),
            Calculation::Mul(a, b) => a.distinct() && b.distinct() && a.indices().disjoint(
                b.indices(),
            ),
            Calculation::Div(a, b) => a.distinct() && b.distinct() && a.indices().disjoint(
                b.indices(),
            ),
        }
    }

    /// Every leaf names a die of `dice` and holds that die's face scaled by a
    /// power of ten.
    pub open spec fn leaves_from(self, dice: Seq<nat>) -> bool
        decreases self,
    {
        match self {
            Calculation::Cube(i, v) => i < dice.len() && is_scaled(dice[i as int], v as nat),
            Calculation::Add(a, b) => a.leaves_from(dice) && b.leaves_from(dice),
            Calculation::Sub(a, b) => a.leaves_from(dice) && b.leaves_from(dice),
            Calculation::Mul(a, b) => a.leaves_from(dice) && b.leaves_from(dice),
            Calculation::Div(a, b) => a.leaves_from(dice) && b.leaves_from(dice),
        }
    }

    /// No leaf holds zero.
    pub open spec fn leaves_positive(self) -> bool
        decreases self,
    {
        match self {
            Calculation::Cube(_, v) => v > 0,
            Calculation::Add(a, b) => a.leaves_positive() && b.leaves_positive(),
            Calculation::Sub(a, b) => a.leaves_positive() && b.leaves_positive(),
            Calculation::Mul(a, b) => a.leaves_positive() && b.leaves_positive(),
            Calculation::Div(a, b) => a.leaves_positive() && b.leaves_positive(),
        }
    }

    /// How hard the computation is: 20 for a sum, 21 for a difference, 30 for
    /// a product, 34 for a quotient, and for a leaf 10 plus 2 for each digit
    /// after the first.
    pub open spec fn spec_score(self) -> nat
        decreases self,
    {
        match self {
            Calculation::Add(a, b) => 20 + a.spec_score() + b.spec_score(),
            Calculation::Sub(a, b) => 21 + a.spec_score() + b.spec_score(),
            Calculation::Mul(a, b) => 30 + a.spec_score() + b.spec_score(),
            Calculation::Div(a, b) => 34 + a.spec_score() + b.spec_score(),
            Calculation::Cube(_, v) => 10 + 2 * log10_floor(v as nat),
        }
    }

    /// The plain measure of size: 1 for a leaf, 2 more for a sum or a
    /// difference, 3 more for a product or a quotient.
    pub open spec fn spec_simple_score(self) -> nat
        decreases self,
    {
        match self {
            Calculation::Add(a, b) => 2 + a.spec_simple_score() + b.spec_simple_score(),
            Calculation::Sub(a, b) => 2 + a.spec_simple_score() + b.spec_simple_score(),
            Calculation::Mul(a, b) => 3 + a.spec_simple_score() + b.spec_simple_score(),
            Calculation::Div(a, b) => 3 + a.spec_simple_score() + b.spec_simple_score(),
            Calculation::Cube(_, _) => 1,
        }
    }

    /// Computes [`Calculation::spec_score`].
    pub fn score(&self) -> (r: u32)
        requires
            self.leaves_positive(),
            self.spec_score() <= u32::MAX,
        ensures
            r == self.spec_score(),
        decreases self,
    {
        match self {
            Calculation::Add(a, b) => 20 + a.score() + b.score(),
            Calculation::Sub(a, b) => 21 + a.score() + b.score(),
            Calculation::Mul(a, b) => 30 + a.score() + b.score(),
            Calculation::Div(a, b) => 34 + a.score() + b.score(),
            Calculation::Cube(_, v) => 10 + 2 * ilog10(*v),
        }
    }

    /// Computes [`Calculation::spec_simple_score`].
    pub fn simple_score(&self) -> (r: u32)
        requires
            self.spec_simple_score() <= u32::MAX,
        ensures
            r == self.spec_simple_score(),
        decreases self,
    {
        match self {
            Calculation::Add(a, b) => 2 + a.simple_score() + b.simple_score(),
            Calculation::Sub(a, b) => 2 + a.simple_score() + b.simple_score(),
            Calculation::Mul(a, b) => 3 + a.simple_score() + b.simple_score(),
            Calculation::Div(a, b) => 3 + a.simple_score() + b.simple_score(),
            Calculation::Cube(_, _) => 1,
        }
    }

    /// Every computation is the same as itself.
    pub proof fn lemma_same_reflexive(self)
        ensures
            self.same(self),
        decreases self,
    {
        match self {
            Calculation::Cube(_, _) => {},
            Calculation::Add(a, b) => {
                a.lemma_same_reflexive();
                b.lemma_same_reflexive();
            },
            Calculation::Sub(a, b) => {
                a.lemma_same_reflexive();
                b.lemma_same_reflexive();
            },
            Calculation::Mul(a, b) => {
                a.lemma_same_reflexive();
                b.lemma_same_reflexive();
            },
            Calculation::Div(a, b) => {
                a.lemma_same_reflexive();
                b.lemma_same_reflexive();
            },
        }
    }

    /// Sameness does not depend on which side is asked.
    pub proof fn lemma_same_symmetric(self, other: Calculation)
        ensures
            self.same(other) == other.same(self),
        decreases self,
    {
        match (self, other) {
            (Calculation::Add(a, b), Calculation::Add(c, d)) => {
                a.lemma_same_symmetric(*c);
                b.lemma_same_symmetric(*d);
                a.lemma_same_symmetric(*d);
                b.lemma_same_symmetric(*c);
            },
            (Calculation::Sub(a, b), Calculation::Sub(c, d)) => {
                a.lemma_same_symmetric(*c);
                b.lemma_same_symmetric(*d);
            },
            (Calculation::Mul(a, b), Calculation::Mul(c, d)) => {
                a.lemma_same_symmetric(*c);
                b.lemma_same_symmetric(*d);
                a.lemma_same_symmetric(*d);
                b.lemma_same_symmetric(*c);
            },
            (Calculation::Div(a, b), Calculation::Div(c, d)) => {
                a.lemma_same_symmetric(*c);
                b.lemma_same_symmetric(*d);
            },
            _ => {},
        }
    }

    /// Two computations that are the same and obey the rules have one value.
    pub proof fn lemma_same_eval(self, other: Calculation, limit: nat)
        requires
            self.same(other),
        ensures
            self.eval(limit) == other.eval(limit),
        decreases self,
    {
        match (self, other) {
            (Calculation::Add(a, b), Calculation::Add(c, d)) => {
                if a.same(*c) && b.same(*d) {
                    a.lemma_same_eval(*c, limit);
                    b.lemma_same_eval(*d, limit);
                } else {
                    a.lemma_same_eval(*d, limit);
                    b.lemma_same_eval(*c, limit);
                }
            },
            (Calculation::Sub(a, b), Calculation::Sub(c, d)) => {
                a.lemma_same_eval(*c, limit);
                b.lemma_same_eval(*d, limit);
            },
            (Calculation::Mul(a, b), Calculation::Mul(c, d)) => {
                if a.same(*c) && b.same(*d) {
                    a.lemma_same_eval(*c, limit);
                    b.lemma_same_eval(*d, limit);
                } else {
                    a.lemma_same_eval(*d, limit);
                    b.lemma_same_eval(*c, limit);
                    if a.eval(limit) is Some && b.eval(limit) is Some {
                        let x = a.eval(limit)->0;
                        let y = b.eval(limit)->0;
                        assert(x * y == y * x) by (nonlinear_arith);
                    }
                }
            },
            (Calculation::Div(a, b), Calculation::Div(c, d)) => {
                a.lemma_same_eval(*c, limit);
                b.lemma_same_eval(*d, limit);
            },
            _ => {},
        }
    }

    /// Computations that are the same end in the same step.
    pub proof fn lemma_same_ends_alike(self, other: Calculation, limit: nat)
        requires
            self.same(other),
        ensures
            self.same_last_step(other, limit),
    {
        match (self, other) {
            (Calculation::Add(a, b), Calculation::Add(c, d)) => {
                if a.same(*c) && b.same(*d) {
                    a.lemma_same_eval(*c, limit);
                    b.lemma_same_eval(*d, limit);
                } else {
                    a.lemma_same_eval(*d, limit);
                    b.lemma_same_eval(*c, limit);
                }
            },
            (Calculation::Sub(a, b), Calculation::Sub(c, d)) => {
                a.lemma_same_eval(*c, limit);
                b.lemma_same_eval(*d, limit);
            },
            (Calculation::Mul(a, b), Calculation::Mul(c, d)) => {
                if a.same(*c) && b.same(*d) {
                    a.lemma_same_eval(*c, limit);
                    b.lemma_same_eval(*d, limit);
                } else {
                    a.lemma_same_eval(*d, limit);
                    b.lemma_same_eval(*c, limit);
                }
            },
            (Calculation::Div(a, b), Calculation::Div(c, d)) => {
                a.lemma_same_eval(*c, limit);
                b.lemma_same_eval(*d, limit);
            },
            _ => {},
        }
    }

    /// What the rules of the search give is the value in the natural numbers.
    pub proof fn lemma_eval_is_value(self, limit: nat)
        requires
            self.eval(limit) is Some,
        ensures
            self.value() == self.eval(limit),
        decreases self,
    {
        match self {
            Calculation::Cube(_, _) => {},
            Calculation::Add(a, b) => {
                a.lemma_eval_is_value(limit);
                b.lemma_eval_is_value(limit);
            },
            Calculation::Sub(a, b) => {
                a.lemma_eval_is_value(limit);
                b.lemma_eval_is_value(limit);
            },
            Calculation::Mul(a, b) => {
                a.lemma_eval_is_value(limit);
                b.lemma_eval_is_value(limit);
            },
            Calculation::Div(a, b) => {
                a.lemma_eval_is_value(limit);
                b.lemma_eval_is_value(limit);
            },
        }
    }

    /// The leaves name the dice of [`Calculation::indices`], and each of
    /// them once where the computation is [`Calculation::distinct`].
    pub proof fn lemma_leaf_indices(self)
        ensures
            forall|i: nat| self.leaf_indices().contains(i) <==> self.indices().contains(i),
            self.distinct() ==> self.leaf_indices().no_duplicates(),
        decreases self,
    {
        match self {
            Calculation::Cube(i, _) => {
                assert(seq![i as nat][0] == i as nat);
            },
            _ => {
                let a = self.left();
                let b = self.right();
                a.lemma_leaf_indices();
                b.lemma_leaf_indices();
                let sa = a.leaf_indices();
                let sb = b.leaf_indices();
                let all = sa + sb;
                assert(self.leaf_indices() == all);
                assert(self.indices() == a.indices().union(b.indices()));
                assert forall|i: nat| all.contains(i) <==> self.indices().contains(i) by {
                    if all.contains(i) {
                        let at = choose|at: int| 0 <= at < all.len() && all[at] == i;
                        if at < sa.len() {
                            assert(sa[at] == i);
                            assert(sa.contains(i));
                        } else {
                            assert(sb[at - sa.len()] == i);
                            assert(sb.contains(i));
                        }
                    }
                    if a.indices().contains(i) {
                        let at = choose|at: int| 0 <= at < sa.len() && sa[at] == i;
                        assert(all[at] == i);
                    }
                    if b.indices().contains(i) {
                        let at = choose|at: int| 0 <= at < sb.len() && sb[at] == i;
                        assert(all[sa.len() + at] == i);
                    }
                }
                if self.distinct() {
                    assert(a.distinct() && b.distinct() && a.indices().disjoint(b.indices()));
                    assert forall|p: int, q: int| 0 <= p < q < all.len() implies all[p]
                        != all[q] by {
                        if q < sa.len() {
                            assert(all[p] == sa[p] && all[q] == sa[q]);
                        } else if p >= sa.len() {
                            assert(all[p] == sb[p - sa.len()] && all[q] == sb[q - sa.len()]);
                        } else {
                            assert(all[p] == sa[p] && all[q] == sb[q - sa.len()]);
                            assert(sa.contains(sa[p]));
                            assert(sb.contains(sb[q - sa.len()]));
                        }
                    }
                }
            },
        }
    }

    /// A computation names at least one die.
    pub proof fn lemma_indices_inhabited(self)
        ensures
            exists|i: nat| self.indices().contains(i),
        decreases self,
    {
        match self {
            Calculation::Cube(i, _) => {
                assert(self.indices().contains(i as nat));
            },
            Calculation::Add(a, _) => {
                a.lemma_indices_inhabited();
                let i = choose|i: nat| a.indices().contains(i);
                assert(self.indices().contains(i));
            },
            Calculation::Sub(a, _) => {
                a.lemma_indices_inhabited();
                let i = choose|i: nat| a.indices().contains(i);
                assert(self.indices().contains(i));
            },
            Calculation::Mul(a, _) => {
                a.lemma_indices_inhabited();
                let i = choose|i: nat| a.indices().contains(i);
                assert(self.indices().contains(i));
            },
            Calculation::Div(a, _) => {
                a.lemma_indices_inhabited();
                let i = choose|i: nat| a.indices().contains(i);
                assert(self.indices().contains(i));
            },
        }
    }
}

impl Clone for Calculation {
    fn clone(&self) -> (r: Self)
        ensures
            r == *self,
        decreases self,
    {
        match self {
            Calculation::Add(a, b) => Calculation::Add(
                Box::new((**a).clone()),
                Box::new((**b).clone()),
            ),
            Calculation::Sub(a, b) => Calculation::Sub(
                Box::new((**a).clone()),
                Box::new((**b).clone()),
            ),
            Calculation::Mul(a, b) => Calculation::Mul(
                Box::new((**a).clone()),
                Box::new((**b).clone()),
            ),
            Calculation::Div(a, b) => Calculation::Div(
                Box::new((**a).clone()),
                Box::new((**b).clone()),
            ),
            Calculation::Cube(i, v) => Calculation::Cube(*i, *v),
        }
    }
}

impl PartialEq for Calculation {
    fn eq(&self, other: &Self) -> (r: bool) {
        self.is_same(other)
    }
}

impl Eq for Calculation {

}

impl vstd::std_specs::cmp::PartialEqSpecImpl for Calculation {
    open spec fn obeys_eq_spec() -> bool {
        true
    }

    open spec fn eq_spec(&self, other: &Self) -> bool {
        self.same(*other)
    }
}

} // verus!
