//! Collecting the computations that give a target number.

use crate::arith::outcomes;
use crate::combine::{
    holds_same,
    lemma_iter_reaches,
    pairwise_different,
    reported,
    reported_from,
    ValueMap,
};
use crate::game::calculation::Calculation;
use vstd::prelude::*;
use vstd::std_specs::iter::IteratorSpec;

verus! {

broadcast use vstd::std_specs::hash::group_hash_axioms;

/// `longer` begins with `shorter`.
pub open spec fn extends(longer: Seq<Calculation>, shorter: Seq<Calculation>) -> bool {
    &&& shorter.len() <= longer.len()
    &&& forall|i: int| 0 <= i < shorter.len() ==> #[trigger] longer[i] == shorter[i]
}

/// What is found in a list is found in each list that begins with it.
pub proof fn lemma_holds_same_extends(
    longer: Seq<Calculation>,
    shorter: Seq<Calculation>,
    e: Calculation,
)
    requires
        extends(longer, shorter),
        holds_same(shorter, e),
    ensures
        holds_same(longer, e),
{
    let i = choose|i: int| 0 <= i < shorter.len() && (#[trigger] shorter[i]).same(e);
    assert(longer[i].same(e));
}

/// `e` is reported for the target `n` from some entry of `m1` and some entry
/// of `m2`.
pub open spec fn reported_by(
    limit: u64,
    m1: Map<u64, Calculation>,
    m2: Map<u64, Calculation>,
    n: u64,
    e: Calculation,
) -> bool {
    exists|r1: u64, r2: u64| reported_from(limit, m1, m2, r1, r2, n, e)
}

/// Whether the list holds a computation that is the same as `e`.
pub fn contains_same(solutions: &Vec<Calculation>, e: &Calculation) -> (found: bool)
    ensures
        found == holds_same(solutions@, *e),
{
    let mut i: usize = 0;
    while i < solutions.len()
        invariant
            i <= solutions.len(),
            forall|j: int| 0 <= j < i ==> !(#[trigger] solutions@[j]).same(*e),
        decreases solutions.len() - i,
    {
        if solutions[i].is_same(e) {
            return true;
        }
        i = i + 1;
    }
    false
}

/// Appends `e` unless the list holds a computation that is the same.
pub fn push_if_new(solutions: &mut Vec<Calculation>, e: Calculation)
    ensures
        holds_same(old(solutions)@, e) ==> final(solutions)@ == old(solutions)@,
        !holds_same(old(solutions)@, e) ==> final(solutions)@ == old(solutions)@.push(e),
        holds_same(final(solutions)@, e),
        extends(final(solutions)@, old(solutions)@),
        pairwise_different(old(solutions)@) ==> pairwise_different(final(solutions)@),
{
    if !contains_same(solutions, &e) {
        proof {
            e.lemma_same_reflexive();
        }
        let ghost before = solutions@;
        solutions.push(e);
        proof {
            assert(solutions@[before.len() as int].same(e));
            if pairwise_different(before) {
                assert forall|i: int, j: int| 0 <= i < j < solutions@.len() implies !(
                #[trigger] solutions@[i]).same(#[trigger] solutions@[j]) by {
                    if j == before.len() {
                        assert(!before[i].same(e));
                    } else {
                        assert(!before[i].same(before[j]));
                    }
                }
            }
        }
    }
}

/// Appends the computations that give `n` in one step from the operand `r1`
/// with its computation `e1` and the operand `r2` with `e2`, each unless the
/// list holds one that is the same.
fn report_outcomes(
    limit: u64,
    r1: u64,
    e1: &Calculation,
    r2: u64,
    e2: &Calculation,
    solutions: &mut Vec<Calculation>,
    n: u64,
)
    ensures
        extends(final(solutions)@, old(solutions)@),
        pairwise_different(old(solutions)@) ==> pairwise_different(final(solutions)@),
        forall|i: int|
            old(solutions)@.len() <= i < final(solutions)@.len() ==> reported(
                limit as nat,
                r1 as nat,
                *e1,
                r2 as nat,
                *e2,
                n as nat,
                #[trigger] final(solutions)@[i],
            ),
        forall|e: Calculation| #[trigger]
            reported(limit as nat, r1 as nat, *e1, r2 as nat, *e2, n as nat, e) ==> holds_same(
                final(solutions)@,
                e,
            ),
{
    let o = outcomes(limit, r1, r2);
    let ghost start = solutions@;
    let ghost add = Calculation::Add(Box::new(*e1), Box::new(*e2));
    let ghost sub = Calculation::Sub(Box::new(*e1), Box::new(*e2));
    let ghost bus = Calculation::Sub(Box::new(*e2), Box::new(*e1));
    let ghost mul = Calculation::Mul(Box::new(*e1), Box::new(*e2));
    let ghost div = Calculation::Div(Box::new(*e1), Box::new(*e2));
    let ghost vid = Calculation::Div(Box::new(*e2), Box::new(*e1));
    if o.sum == Some(n) {
        push_if_new(solutions, Calculation::Add(Box::new(e1.clone()), Box::new(e2.clone())));
    }
    let ghost after_add = solutions@;
    if o.difference == Some(n) {
        push_if_new(solutions, Calculation::Sub(Box::new(e1.clone()), Box::new(e2.clone())));
    }
    let ghost after_sub = solutions@;
    if o.reverse_difference == Some(n) {
        push_if_new(solutions, Calculation::Sub(Box::new(e2.clone()), Box::new(e1.clone())));
    }
    let ghost after_bus = solutions@;
    if o.product == Some(n) {
        push_if_new(solutions, Calculation::Mul(Box::new(e1.clone()), Box::new(e2.clone())));
    }
    let ghost after_mul = solutions@;
    if o.quotient == Some(n) {
        push_if_new(solutions, Calculation::Div(Box::new(e1.clone()), Box::new(e2.clone())));
    }
    let ghost after_div = solutions@;
    if o.reverse_quotient == Some(n) {
        push_if_new(solutions, Calculation::Div(Box::new(e2.clone()), Box::new(e1.clone())));
    }
    proof {
        let last = solutions@;
        assert(extends(after_sub, after_add));
        assert(extends(after_bus, after_sub));
        assert(extends(after_mul, after_bus));
        assert(extends(after_div, after_mul));
        assert(extends(last, after_div));
        assert(extends(last, after_mul));
        assert(extends(last, after_bus));
        assert(extends(last, after_sub));
        assert(extends(last, after_add));
        assert forall|e: Calculation| #[trigger]
            reported(
                limit as nat,
                r1 as nat,
                *e1,
                r2 as nat,
                *e2,
                n as nat,
                e,
            ) implies holds_same(last, e) by {
            if e == add && o.sum == Some(n) {
                lemma_holds_same_extends(last, after_add, e);
            } else if e == sub && o.difference == Some(n) {
                lemma_holds_same_extends(last, after_sub, e);
            } else if e == bus && o.reverse_difference == Some(n) {
                lemma_holds_same_extends(last, after_bus, e);
            } else if e == mul && o.product == Some(n) {
                lemma_holds_same_extends(last, after_mul, e);
            } else if e == div && o.quotient == Some(n) {
                lemma_holds_same_extends(last, after_div, e);
            } else {
                assert(e == vid && o.reverse_quotient == Some(n));
            }
        }
        assert forall|i: int| start.len() <= i < last.len() implies reported(
            limit as nat,
            r1 as nat,
            *e1,
            r2 as nat,
            *e2,
            n as nat,
            #[trigger] last[i],
        ) by {
            if i < after_add.len() {
                assert(last[i] == after_add[i] && after_add[i] == add);
            } else if i < after_sub.len() {
                assert(last[i] == after_sub[i] && after_sub[i] == sub);
            } else if i < after_bus.len() {
                assert(last[i] == after_bus[i] && after_bus[i] == bus);
            } else if i < after_mul.len() {
                assert(last[i] == after_mul[i] && after_mul[i] == mul);
            } else if i < after_div.len() {
                assert(last[i] == after_div[i] && after_div[i] == div);
            } else {
                assert(last[i] == vid);
            }
        }
    }
}

/// Appends to `solutions` the computations that give `n` in one step from an
/// entry of `map1` and an entry of `map2`. A computation is left out where
/// the list holds one that is the same, so a list without repetitions stays
/// so. In which order the pairs are met is not fixed.
pub fn check_for_solutions(
    limit: u64,
    map1: &ValueMap,
    map2: &ValueMap,
    solutions: &mut Vec<Calculation>,
    n: u64,
)
    ensures
        extends(final(solutions)@, old(solutions)@),
        pairwise_different(old(solutions)@) ==> pairwise_different(final(solutions)@),
        forall|i: int|
            old(solutions)@.len() <= i < final(solutions)@.len() ==> reported_by(
                limit,
                map1@,
                map2@,
                n,
                #[trigger] final(solutions)@[i],
            ),
        forall|r1: u64, r2: u64, e: Calculation| #[trigger]
            reported_from(limit, map1@, map2@, r1, r2, n, e) ==> holds_same(final(solutions)@, e),
{
    let ghost s1 = map1.iter().remaining();
    let ghost s2 = map2.iter().remaining();
    let ghost start = solutions@;
    for entry1 in it1: map1.iter()
        invariant
            it1.seq() == s1,
            s1 == map1.iter().remaining(),
            s2 == map2.iter().remaining(),
            extends(solutions@, start),
            pairwise_different(start) ==> pairwise_different(solutions@),
            forall|i: int|
                start.len() <= i < solutions@.len() ==> reported_by(
                    limit,
                    map1@,
                    map2@,
                    n,
                    #[trigger] solutions@[i],
                ),
            forall|i: int, r2: u64, e: Calculation|
                0 <= i < it1.index() && #[trigger] reported_from(
                    limit,
                    map1@,
                    map2@,
                    *s1[i].0,
                    r2,
                    n,
                    e,
                ) ==> holds_same(solutions@, e),
    {
        let (r1, e1) = entry1;
        let ghost i1 = it1.index();
        assert(map1@.contains_key(*r1) && map1@[*r1] == *e1);
        assert(0 <= i1 < s1.len() && *s1[i1].0 == *r1);
        for entry2 in it2: map2.iter()
            invariant
                it2.seq() == s2,
                s2 == map2.iter().remaining(),
                0 <= i1 < s1.len(),
                *s1[i1].0 == *r1,
                map1@.contains_key(*r1),
                map1@[*r1] == *e1,
                extends(solutions@, start),
                pairwise_different(start) ==> pairwise_different(solutions@),
                forall|i: int|
                    start.len() <= i < solutions@.len() ==> reported_by(
                    limit,
                    map1@,
                    map2@,
                    n,
                    #[trigger] solutions@[i],
                ),
                forall|i: int, r2: u64, e: Calculation|
                    0 <= i < i1 && #[trigger] reported_from(
                        limit,
                        map1@,
                        map2@,
                        *s1[i].0,
                        r2,
                        n,
                        e,
                    ) ==> holds_same(solutions@, e),
                forall|j: int, e: Calculation|
                    0 <= j < it2.index() && #[trigger] reported_from(
                        limit,
                        map1@,
                        map2@,
                        *r1,
                        *s2[j].0,
                        n,
                        e,
                    ) ==> holds_same(solutions@, e),
        {
            let (r2, e2) = entry2;
            assert(map2@.contains_key(*r2) && map2@[*r2] == *e2);
            let ghost before = solutions@;
            report_outcomes(limit, *r1, e1, *r2, e2, solutions, n);
            proof {
                let after = solutions@;
                assert(extends(after, before));
                assert forall|i: int| start.len() <= i < after.len() implies reported_by(
                    limit,
                    map1@,
                    map2@,
                    n,
                    #[trigger] after[i],
                ) by {
                    if i < before.len() {
                        assert(after[i] == before[i]);
                    } else {
                        assert(reported_from(limit, map1@, map2@, *r1, *r2, n, after[i]));
                    }
                }
                assert forall|i: int, r2: u64, e: Calculation|
                    0 <= i < i1 && #[trigger] reported_from(
                        limit,
                        map1@,
                        map2@,
                        *s1[i].0,
                        r2,
                        n,
                        e,
                    ) implies holds_same(after, e) by {
                    lemma_holds_same_extends(after, before, e);
                }
                assert forall|j: int, e: Calculation|
                    0 <= j < it2.index() + 1 && #[trigger] reported_from(
                        limit,
                        map1@,
                        map2@,
                        *r1,
                        *s2[j].0,
                        n,
                        e,
                    ) implies holds_same(after, e) by {
                    if j < it2.index() {
                        lemma_holds_same_extends(after, before, e);
                    } else {
                        assert(reported(
                            limit as nat,
                            *r1 as nat,
                            *e1,
                            *r2 as nat,
                            *e2,
                            n as nat,
                            e,
                        ));
                    }
                }
            }
        }
        proof {
            assert forall|r2: u64, e: Calculation| #[trigger]
                reported_from(limit, map1@, map2@, *r1, r2, n, e) implies holds_same(
                solutions@,
                e,
            ) by {
                lemma_iter_reaches(map2, r2);
                let j = choose|j: int| 0 <= j < s2.len() && *s2[j].0 == r2;
                assert(reported_from(limit, map1@, map2@, *r1, *s2[j].0, n, e));
            }
        }
    }
    proof {
        assert forall|r1: u64, r2: u64, e: Calculation| #[trigger]
            reported_from(limit, map1@, map2@, r1, r2, n, e) implies holds_same(solutions@, e) by {
            lemma_iter_reaches(map1, r1);
            let i = choose|i: int| 0 <= i < s1.len() && *s1[i].0 == r1;
            assert(reported_from(limit, map1@, map2@, *s1[i].0, r2, n, e));
        }
    }
}

} // verus!
