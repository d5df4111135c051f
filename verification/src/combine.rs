//! Value maps: from each number that a set of dice can give to one
//! computation that gives it, and the step that merges two of them.

use crate::arith::{
    combines,
    difference_of,
    is_scaled,
    outcomes,
    pow10,
    product_of,
    quotient_of,
    sum_of,
    };
use crate::game::calculation::Calculation;
use std::collections::HashMap;
use vstd::prelude::*;
use vstd::std_specs::iter::IteratorSpec;

verus! {

broadcast use vstd::std_specs::hash::group_hash_axioms;

/// From a reachable number to one computation that reaches it.
pub type ValueMap = HashMap<u64, Calculation>;

/// `e` is the computation `ea op eb` for one of the four operations, and
/// `v` is what that operation gives for the operand values `a` and `b`.
pub open spec fn joined(
    limit: nat,
    a: nat,
    ea: Calculation,
    b: nat,
    eb: Calculation,
    v: nat,
    e: Calculation,
) -> bool {
    ||| sum_of(limit, a, b) == Some(v) && e == Calculation::Add(Box::new(ea), Box::new(eb))
    ||| difference_of(a, b) == Some(v) && e == Calculation::Sub(Box::new(ea), Box::new(eb))
    ||| product_of(limit, a, b) == Some(v) && e == Calculation::Mul(Box::new(ea), Box::new(eb))
    ||| quotient_of(a, b) == Some(v) && e == Calculation::Div(Box::new(ea), Box::new(eb))
}

/// The form in which a merged map keeps a computation: as [`joined`], with
/// the larger operand first in a sum and in a product.
pub open spec fn stored(
    limit: nat,
    a: nat,
    ea: Calculation,
    b: nat,
    eb: Calculation,
    v: nat,
    e: Calculation,
) -> bool {
    joined(limit, a, ea, b, eb, v, e) && ((e is Add || e is Mul) ==> a >= b)
}

/// The form in which a solution is reported for the operands `a` of the
/// first map and `b` of the second: a sum and a product with `a` first, a
/// difference and a quotient in either direction.
pub open spec fn reported(
    limit: nat,
    a: nat,
    ea: Calculation,
    b: nat,
    eb: Calculation,
    v: nat,
    e: Calculation,
) -> bool {
    ||| joined(limit, a, ea, b, eb, v, e)
    ||| (e is Sub || e is Div) && joined(limit, b, eb, a, ea, v, e)
}

/// `e` is kept under `v` for the entries `r1` of `m1` and `r2` of `m2`.
pub open spec fn stored_from(
    limit: u64,
    m1: Map<u64, Calculation>,
    m2: Map<u64, Calculation>,
    r1: u64,
    r2: u64,
    v: u64,
    e: Calculation,
) -> bool {
    &&& m1.contains_key(r1)
    &&& m2.contains_key(r2)
    &&& (stored(limit as nat, r1 as nat, m1[r1], r2 as nat, m2[r2], v as nat, e) || stored(
        limit as nat,
        r2 as nat,
        m2[r2],
        r1 as nat,
        m1[r1],
        v as nat,
        e,
    ))
}

/// `e` is reported for the target `n` from the entries `r1` of `m1` and `r2`
/// of `m2`.
pub open spec fn reported_from(
    limit: u64,
    m1: Map<u64, Calculation>,
    m2: Map<u64, Calculation>,
    r1: u64,
    r2: u64,
    n: u64,
    e: Calculation,
) -> bool {
    &&& m1.contains_key(r1)
    &&& m2.contains_key(r2)
    &&& reported(limit as nat, r1 as nat, m1[r1], r2 as nat, m2[r2], n as nat, e)
}

/// Some entry of `m1` and some entry of `m2` give `v` in one step.
pub open spec fn pair_gives(
    limit: u64,
    m1: Map<u64, Calculation>,
    m2: Map<u64, Calculation>,
    v: u64,
) -> bool {
    exists|r1: u64, r2: u64|
        m1.contains_key(r1) && m2.contains_key(r2) && #[trigger] combines(
            limit as nat,
            r1 as nat,
            r2 as nat,
            v as nat,
        )
}

/// `merged` holds exactly the numbers that one step gives for an entry of
/// `m1` and an entry of `m2`, each with a computation kept for it from
/// such a pair.
pub open spec fn is_merged(
    limit: u64,
    m1: Map<u64, Calculation>,
    m2: Map<u64, Calculation>,
    merged: Map<u64, Calculation>,
) -> bool {
    &&& forall|v: u64| merged.contains_key(v) <==> pair_gives(limit, m1, m2, v)
    &&& forall|v: u64| #[trigger]
        merged.contains_key(v) ==> exists|r1: u64, r2: u64|
            stored_from(limit, m1, m2, r1, r2, v, merged[v])
}

/// The map of a single die: its face under each scaling, each kept as a leaf.
pub open spec fn single_cube_entries(index: usize, face: u64) -> Map<u64, Calculation> {
    Map::new(|v: u64| is_scaled(face as nat, v as nat), |v: u64| Calculation::Cube(index, v))
}

/// No two computations of the sequence are the same.
pub open spec fn pairwise_different(s: Seq<Calculation>) -> bool {
    forall|i: int, j: int| 0 <= i < j < s.len() ==> !(#[trigger] s[i]).same(#[trigger] s[j])
}

/// Some computation of the sequence is the same as `e`.
pub open spec fn holds_same(s: Seq<Calculation>, e: Calculation) -> bool {
    exists|i: int| 0 <= i < s.len() && (#[trigger] s[i]).same(e)
}

/// Fills the empty `map` with the entries of die `index` showing `face`.
pub fn single_cube_map(index: usize, face: u64, map: &mut ValueMap)
    requires
        old(map)@ == Map::<u64, Calculation>::empty(),
        face * 10_000_000 <= u64::MAX,
    ensures
        final(map)@ == single_cube_entries(index, face),
{
    let mut scale: u64 = 1;
    let mut p: u8 = 0;
    proof {
        reveal_with_fuel(pow10, 9);
    }
    while p < 8
        invariant
            p <= 8,
            scale == pow10(p as nat),
            face * 10_000_000 <= u64::MAX,
            forall|v: u64|
                map@.contains_key(v) <==> exists|q: nat|
                    q < p && v == face * #[trigger] pow10(q),
            forall|v: u64| map@.contains_key(v) ==> map@[v] == Calculation::Cube(index, v),
        decreases 8 - p,
    {
        proof {
            reveal_with_fuel(pow10, 9);
            assert(scale <= 10_000_000);
            assert(face * scale <= face * 10_000_000) by (nonlinear_arith)
                requires
                    scale <= 10_000_000,
            ;
        }
        let value = face * scale;
        let ghost before = map@;
        map.insert(value, Calculation::Cube(index, value));
        proof {
            assert forall|v: u64| map@.contains_key(v) <==> exists|q: nat|
                q < p + 1 && v == face * #[trigger] pow10(q) by {
                if map@.contains_key(v) {
                    if v == value {
                        assert(p < p + 1 && v == face * pow10(p as nat));
                    } else {
                        let q = choose|q: nat| q < p && v == face * #[trigger] pow10(q);
                        assert(q < p + 1 && v == face * pow10(q));
                    }
                }
                if exists|q: nat| q < p + 1 && v == face * #[trigger] pow10(q) {
                    let q = choose|q: nat| q < p + 1 && v == face * #[trigger] pow10(q);
                    if q < p {
                        assert(before.contains_key(v));
                    }
                }
            }
        }
        scale = scale * 10;
        p = p + 1;
    }
    proof {
        assert(map@ =~= single_cube_entries(index, face));
    }
}

/// Enters into `result_map` what one step gives for the operand `r1` with its
/// computation `e1` and the operand `r2` with `e2`. An entry under the same
/// number is replaced.
fn store_outcomes(
    limit: u64,
    r1: u64,
    e1: &Calculation,
    r2: u64,
    e2: &Calculation,
    result_map: &mut ValueMap,
)
    ensures
        forall|v: u64| #[trigger]
            old(result_map)@.contains_key(v) ==> final(result_map)@.contains_key(v),
        forall|v: u64| #[trigger]
            combines(limit as nat, r1 as nat, r2 as nat, v as nat)
                ==> final(result_map)@.contains_key(v),
        forall|v: u64| #[trigger]
            final(result_map)@.contains_key(v) ==> {
                ||| old(result_map)@.contains_key(v) && final(result_map)@[v] == old(result_map)@[v]
                ||| stored(
                    limit as nat,
                    r1 as nat,
                    *e1,
                    r2 as nat,
                    *e2,
                    v as nat,
                    final(result_map)@[v],
                )
                ||| stored(
                    limit as nat,
                    r2 as nat,
                    *e2,
                    r1 as nat,
                    *e1,
                    v as nat,
                    final(result_map)@[v],
                )
            },
{
    let o = outcomes(limit, r1, r2);
    if let Some(sum) = o.sum {
        if r1 >= r2 {
            result_map.insert(sum, Calculation::Add(Box::new(e1.clone()), Box::new(e2.clone())));
        } else {
            result_map.insert(sum, Calculation::Add(Box::new(e2.clone()), Box::new(e1.clone())));
        }
    }
    if let Some(difference) = o.difference {
        result_map.insert(
            difference,
            Calculation::Sub(Box::new(e1.clone()), Box::new(e2.clone())),
        );
    }
    if let Some(difference) = o.reverse_difference {
        result_map.insert(
            difference,
            Calculation::Sub(Box::new(e2.clone()), Box::new(e1.clone())),
        );
    }
    if let Some(product) = o.product {
        proof {
            assert(r1 * r2 == r2 * r1) by (nonlinear_arith);
        }
        if r1 >= r2 {
            result_map.insert(
                product,
                Calculation::Mul(Box::new(e1.clone()), Box::new(e2.clone())),
            );
        } else {
            result_map.insert(
                product,
                Calculation::Mul(Box::new(e2.clone()), Box::new(e1.clone())),
            );
        }
    }
    if let Some(quotient) = o.quotient {
        result_map.insert(quotient, Calculation::Div(Box::new(e1.clone()), Box::new(e2.clone())));
    }
    if let Some(quotient) = o.reverse_quotient {
        result_map.insert(quotient, Calculation::Div(Box::new(e2.clone()), Box::new(e1.clone())));
    }
}

/// Merges two value maps: `result_map`, empty on entry, receives every number
/// that one step gives for an entry of `map1` and an entry of `map2`, each
/// with a computation built from the two entries' computations. Where several
/// pairs give one number, one of their computations is kept.
pub fn calculate_result_map(
    limit: u64,
    map1: &ValueMap,
    map2: &ValueMap,
    result_map: &mut ValueMap,
)
    requires
        old(result_map)@ == Map::<u64, Calculation>::empty(),
    ensures
        is_merged(limit, map1@, map2@, final(result_map)@),
{
    let ghost s1 = map1.iter().remaining();
    let ghost s2 = map2.iter().remaining();
    for entry1 in it1: map1.iter()
        invariant
            it1.seq() == s1,
            s1 == map1.iter().remaining(),
            s2 == map2.iter().remaining(),
            forall|v: u64| #[trigger]
                result_map@.contains_key(v) ==> exists|r1: u64, r2: u64|
                    stored_from(limit, map1@, map2@, r1, r2, v, result_map@[v]),
            forall|v: u64| #[trigger]
                result_map@.contains_key(v) ==> pair_gives(limit, map1@, map2@, v),
            forall|i: int, r2: u64, v: u64|
                0 <= i < it1.index() && map2@.contains_key(r2) && #[trigger] combines(
                    limit as nat,
                    *s1[i].0 as nat,
                    r2 as nat,
                    v as nat,
                ) ==> result_map@.contains_key(v),
    {
        let (r1, e1) = entry1;
        let ghost i1 = it1.index();
        assert(map1@.contains_key(*r1) && map1@[*r1] == *e1);
        assert(0 <= i1 < s1.len() && *s1[i1].0 == *r1);
        for entry2 in it2: map2.iter()
            invariant
                it2.seq() == s2,
                0 <= i1 < s1.len(),
                *s1[i1].0 == *r1,
                s2 == map2.iter().remaining(),
                map1@.contains_key(*r1),
                map1@[*r1] == *e1,
                forall|v: u64| #[trigger]
                    result_map@.contains_key(v) ==> exists|r1: u64, r2: u64|
                        stored_from(limit, map1@, map2@, r1, r2, v, result_map@[v]),
                forall|v: u64| #[trigger]
                    result_map@.contains_key(v) ==> pair_gives(limit, map1@, map2@, v),
                forall|i: int, r2: u64, v: u64|
                    0 <= i < i1 && map2@.contains_key(r2) && #[trigger] combines(
                        limit as nat,
                        *s1[i].0 as nat,
                        r2 as nat,
                        v as nat,
                    ) ==> result_map@.contains_key(v),
                forall|j: int, v: u64|
                    0 <= j < it2.index() && #[trigger] combines(
                        limit as nat,
                        *r1 as nat,
                        *s2[j].0 as nat,
                        v as nat,
                    ) ==> result_map@.contains_key(v),
        {
            let (r2, e2) = entry2;
            assert(map2@.contains_key(*r2) && map2@[*r2] == *e2);
            let ghost before = result_map@;
            store_outcomes(limit, *r1, e1, *r2, e2, result_map);
            proof {
                assert forall|v: u64| #[trigger] result_map@.contains_key(v) implies (exists|
                    r1: u64,
                    r2: u64,
                |
                    stored_from(limit, map1@, map2@, r1, r2, v, result_map@[v])) && pair_gives(
                    limit,
                    map1@,
                    map2@,
                    v,
                ) by {
                    if before.contains_key(v) && result_map@[v] == before[v] {
                        assert(pair_gives(limit, map1@, map2@, v));
                    } else {
                        assert(stored_from(limit, map1@, map2@, *r1, *r2, v, result_map@[v]));
                        assert(combines(limit as nat, *r1 as nat, *r2 as nat, v as nat));
                    }
                }
            }
        }
        proof {
            assert forall|r2: u64, v: u64|
                map2@.contains_key(r2) && #[trigger] combines(
                    limit as nat,
                    *r1 as nat,
                    r2 as nat,
                    v as nat,
                ) implies result_map@.contains_key(v) by {
                lemma_iter_reaches(map2, r2);
                let j = choose|j: int| 0 <= j < s2.len() && *s2[j].0 == r2;
                assert(combines(limit as nat, *r1 as nat, *s2[j].0 as nat, v as nat));
            }
        }
    }
    proof {
        assert forall|v: u64| pair_gives(limit, map1@, map2@, v) implies result_map@.contains_key(
            v,
        ) by {
            let (r1, r2) = choose|r1: u64, r2: u64|
                map1@.contains_key(r1) && map2@.contains_key(r2) && #[trigger] combines(
                    limit as nat,
                    r1 as nat,
                    r2 as nat,
                    v as nat,
                );
            lemma_iter_reaches(map1, r1);
            let i = choose|i: int| 0 <= i < s1.len() && *s1[i].0 == r1;
            assert(combines(limit as nat, *s1[i].0 as nat, r2 as nat, v as nat));
        }
    }
}

/// Walking a map meets each of its keys.
pub proof fn lemma_iter_reaches(map: &ValueMap, key: u64)
    requires
        map@.contains_key(key),
    ensures
        exists|i: int| 0 <= i < map.iter().remaining().len() && *map.iter().remaining()[i].0 == key,
{
    let s = map.iter().remaining();
    assert(s.contains((&key, &map@[key])));
    let i = choose|i: int| 0 <= i < s.len() && s[i] == (&key, &map@[key]);
    assert(*s[i].0 == key);
}

/// Whether one step gives `n` for some entry of `map1` and some entry of
/// `map2`.
pub fn has_solution(limit: u64, map1: &ValueMap, map2: &ValueMap, n: u64) -> (found: bool)
    ensures
        found == pair_gives(limit, map1@, map2@, n),
{
    let ghost s1 = map1.iter().remaining();
    let ghost s2 = map2.iter().remaining();
    for entry1 in it1: map1.iter()
        invariant
            it1.seq() == s1,
            s1 == map1.iter().remaining(),
            s2 == map2.iter().remaining(),
            forall|i: int, r2: u64|
                0 <= i < it1.index() && map2@.contains_key(r2) ==> !#[trigger] combines(
                    limit as nat,
                    *s1[i].0 as nat,
                    r2 as nat,
                    n as nat,
                ),
    {
        let (r1, _e1) = entry1;
        assert(map1@.contains_key(*r1));
        for entry2 in it2: map2.iter()
            invariant
                it2.seq() == s2,
                s2 == map2.iter().remaining(),
                map1@.contains_key(*r1),
                forall|j: int|
                    0 <= j < it2.index() ==> !#[trigger] combines(
                        limit as nat,
                        *r1 as nat,
                        *s2[j].0 as nat,
                        n as nat,
                    ),
        {
            let (r2, _e2) = entry2;
            assert(map2@.contains_key(*r2));
            let o = outcomes(limit, *r1, *r2);
            if o.sum == Some(n) || o.difference == Some(n) || o.reverse_difference == Some(n)
                || o.product == Some(n) || o.quotient == Some(n) || o.reverse_quotient == Some(
                n,
            ) {
                assert(o.has(n));
                assert(combines(limit as nat, *r1 as nat, *r2 as nat, n as nat));
                return true;
            }
            assert(!o.has(n));
        }
        proof {
            assert forall|r2: u64| map2@.contains_key(r2) implies !#[trigger] combines(
                limit as nat,
                *r1 as nat,
                r2 as nat,
                n as nat,
            ) by {
                lemma_iter_reaches(map2, r2);
                let j = choose|j: int| 0 <= j < s2.len() && *s2[j].0 == r2;
                assert(!combines(limit as nat, *r1 as nat, *s2[j].0 as nat, n as nat));
            }
        }
    }
    proof {
        if pair_gives(limit, map1@, map2@, n) {
            let (r1, r2) = choose|r1: u64, r2: u64|
                map1@.contains_key(r1) && map2@.contains_key(r2) && #[trigger] combines(
                    limit as nat,
                    r1 as nat,
                    r2 as nat,
                    n as nat,
                );
            lemma_iter_reaches(map1, r1);
            let i = choose|i: int| 0 <= i < s1.len() && *s1[i].0 == r1;
            assert(!combines(limit as nat, *s1[i].0 as nat, r2 as nat, n as nat));
        }
    }
    false
}

/// Marks `value` in the table of the numbers from `min` on, where it lies
/// in the table.
fn mark(value: Option<u64>, min: u16, found: &mut Vec<bool>)
    requires
        min + old(found).len() <= u16::MAX + 1,
    ensures
        final(found)@.len() == old(found)@.len(),
        forall|x: int|
            0 <= x < old(found)@.len() ==> #[trigger] final(found)@[x] == (old(found)@[x]
                || value == Some((min + x) as u64)),
{
    if let Some(v) = value {
        if v >= min as u64 && v - (min as u64) < found.len() as u64 {
            let at: usize = (v - min as u64) as usize;
            found[at] = true;
        }
    }
}

/// Marks, in the table `found` of the numbers from `min` on, each number that
/// one step gives for an entry of `map1` and an entry of `map2`.
pub fn mark_solutions(
    limit: u64,
    map1: &ValueMap,
    map2: &ValueMap,
    min: u16,
    found: &mut Vec<bool>,
)
    requires
        min + old(found).len() <= u16::MAX + 1,
    ensures
        final(found)@.len() == old(found)@.len(),
        forall|x: int|
            0 <= x < old(found)@.len() ==> #[trigger] final(found)@[x] == (old(found)@[x]
                || pair_gives(limit, map1@, map2@, (min + x) as u64)),
{
    let ghost s1 = map1.iter().remaining();
    let ghost s2 = map2.iter().remaining();
    let ghost start = found@;
    for entry1 in it1: map1.iter()
        invariant
            it1.seq() == s1,
            s1 == map1.iter().remaining(),
            s2 == map2.iter().remaining(),
            found@.len() == start.len(),
            min + start.len() <= u16::MAX + 1,
            forall|x: int| 0 <= x < start.len() && start[x] ==> #[trigger] found@[x],
            forall|x: int|
                0 <= x < start.len() && #[trigger] found@[x] ==> start[x] || pair_gives(
                    limit,
                    map1@,
                    map2@,
                    (min + x) as u64,
                ),
            forall|i: int, r2: u64, x: int|
                0 <= i < it1.index() && map2@.contains_key(r2) && 0 <= x < start.len()
                    && #[trigger] combines(
                    limit as nat,
                    *s1[i].0 as nat,
                    r2 as nat,
                    (min + x) as nat,
                ) ==> found@[x],
    {
        let (r1, _e1) = entry1;
        let ghost i1 = it1.index();
        assert(map1@.contains_key(*r1));
        assert(0 <= i1 < s1.len() && *s1[i1].0 == *r1);
        for entry2 in it2: map2.iter()
            invariant
                it2.seq() == s2,
                s2 == map2.iter().remaining(),
                0 <= i1 < s1.len(),
                *s1[i1].0 == *r1,
                map1@.contains_key(*r1),
                found@.len() == start.len(),
                min + start.len() <= u16::MAX + 1,
                forall|x: int| 0 <= x < start.len() && start[x] ==> #[trigger] found@[x],
                forall|x: int|
                    0 <= x < start.len() && #[trigger] found@[x] ==> start[x] || pair_gives(
                        limit,
                        map1@,
                        map2@,
                        (min + x) as u64,
                    ),
                forall|i: int, r2: u64, x: int|
                    0 <= i < i1 && map2@.contains_key(r2) && 0 <= x < start.len()
                        && #[trigger] combines(
                        limit as nat,
                        *s1[i].0 as nat,
                        r2 as nat,
                        (min + x) as nat,
                    ) ==> found@[x],
                forall|j: int, x: int|
                    0 <= j < it2.index() && 0 <= x < start.len() && #[trigger] combines(
                        limit as nat,
                        *r1 as nat,
                        *s2[j].0 as nat,
                        (min + x) as nat,
                    ) ==> found@[x],
        {
            let (r2, _e2) = entry2;
            assert(map2@.contains_key(*r2));
            let o = outcomes(limit, *r1, *r2);
            let ghost before = found@;
            mark(o.sum, min, found);
            mark(o.difference, min, found);
            mark(o.reverse_difference, min, found);
            mark(o.product, min, found);
            mark(o.quotient, min, found);
            mark(o.reverse_quotient, min, found);
            proof {
                assert forall|x: int| 0 <= x < start.len() implies #[trigger] found@[x] == (
                before[x] || o.has((min + x) as u64)) by {}
                assert forall|x: int| 0 <= x < start.len() && #[trigger] found@[x] implies start[x]
                    || pair_gives(limit, map1@, map2@, (min + x) as u64) by {
                    if !before[x] {
                        assert(o.has((min + x) as u64));
                        assert(combines(
                            limit as nat,
                            *r1 as nat,
                            *r2 as nat,
                            ((min + x) as u64) as nat,
                        ));
                    }
                }
                assert forall|j: int, x: int|
                    0 <= j < it2.index() + 1 && 0 <= x < start.len() && #[trigger] combines(
                        limit as nat,
                        *r1 as nat,
                        *s2[j].0 as nat,
                        (min + x) as nat,
                    ) implies found@[x] by {
                    if j == it2.index() {
                        assert(o.has((min + x) as u64));
                    } else {
                        assert(before[x]);
                    }
                }
            }
        }
        proof {
            assert forall|r2: u64, x: int|
                map2@.contains_key(r2) && 0 <= x < start.len() && #[trigger] combines(
                    limit as nat,
                    *r1 as nat,
                    r2 as nat,
                    (min + x) as nat,
                ) implies found@[x] by {
                lemma_iter_reaches(map2, r2);
                let j = choose|j: int| 0 <= j < s2.len() && *s2[j].0 == r2;
                assert(combines(limit as nat, *r1 as nat, *s2[j].0 as nat, (min + x) as nat));
            }
        }
    }
    proof {
        assert forall|x: int| 0 <= x < start.len() implies #[trigger] found@[x] == (start[x]
            || pair_gives(limit, map1@, map2@, (min + x) as u64)) by {
            if pair_gives(limit, map1@, map2@, (min + x) as u64) {
                let (r1, r2) = choose|r1: u64, r2: u64|
                    map1@.contains_key(r1) && map2@.contains_key(r2) && #[trigger] combines(
                        limit as nat,
                        r1 as nat,
                        r2 as nat,
                        ((min + x) as u64) as nat,
                    );
                lemma_iter_reaches(map1, r1);
                let i = choose|i: int| 0 <= i < s1.len() && *s1[i].0 == r1;
                assert(combines(limit as nat, *s1[i].0 as nat, r2 as nat, (min + x) as nat));
            }
        }
    }
}

} // verus!
