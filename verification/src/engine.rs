//! The two questions put to the staged search: which numbers of a range
//! are reached, and which computations give one number.

use crate::collect::{extends, reported_by};
use crate::combine::{holds_same, pairwise_different, reported_from, ValueMap};
use crate::fastgame::UsedCubes;
use crate::game::calculation::Calculation;
use crate::reach::{
    all_dice,
    closes,
    faces_fit,
    lemma_closing_covers,
    lemma_join_witness,
    lemma_operands_met,
    lemma_search_exact,
    lemma_yields_fits,
    operands_met,
    reachable,
    witness,
    yields,
};
use crate::stages::{
    closing_reports,
    collect_round,
    entry_ok,
    faces,
    has_key,
    lemma_closing_exact,
    left_after,
    lemma_merge_round_ok,
    lemma_pairs_are_pairs,
    lemma_pairs_count,
    lemma_triples_count,
    lemma_pairs_complete,
    lemma_single_round_ok,
    lemma_triples_complete,
    merge_round,
    pool_after,
    pool_clean,
    pool_left,
    probe_round,
    recycle,
    single_round,
    Table,
    table_complete,
    table_size,
    table_ok,
};
use vstd::prelude::*;

verus! {

/// Each number is below the next.
pub open spec fn strictly_increasing(s: Seq<u16>) -> bool {
    forall|i: int, j: int| 0 <= i < j < s.len() ==> s[i] < s[j]
}

/// Builds the table of the search for three or four dice: the maps of the
/// single dice, of the pairs and, for four dice, of the triples.
pub fn build_table(limit: u64, ds: &Vec<u64>, dp: &mut Table, pool: &mut Vec<ValueMap>)
    requires
        old(dp)@.len() == 0,
        ds@.len() == 3 || ds@.len() == 4,
        faces_fit(faces(ds@)),
    ensures
        table_ok(final(dp)@, faces(ds@), limit as nat),
        table_complete(final(dp)@, ds@.len()),
        final(dp)@.len() == table_size(ds@.len()),
        pool_left(final(pool)@, old(pool)@),
        final(pool)@.len() == left_after(old(pool)@.len(), table_size(ds@.len())),
{
    let ghost dice = faces(ds@);
    single_round(ds, dp, pool);
    let ghost singles = dp@;
    proof {
        lemma_single_round_ok(ds@, singles, limit as nat);
        lemma_pairs_count(singles, ds@.len());
    }
    merge_round(limit, false, dp, pool);
    let ghost pairs = dp@;
    proof {
        lemma_merge_round_ok(limit, singles, pairs, false, dice);
        lemma_pairs_complete(singles, pairs, ds@.len());
    }
    if ds.len() == 4 {
        proof {
            lemma_pairs_are_pairs(limit, singles, pairs, 4);
            lemma_triples_count(pairs);
        }
        merge_round(limit, true, dp, pool);
        proof {
            lemma_merge_round_ok(limit, pairs, dp@, true, dice);
            lemma_triples_complete(pairs, dp@, ds@.len());
        }
    }
}

/// A table of `len` entries, none of them marked.
fn unmarked(len: usize) -> (found: Vec<bool>)
    ensures
        found@.len() == len,
        forall|x: int| 0 <= x < len ==> !#[trigger] found@[x],
{
    let mut found: Vec<bool> = Vec::new();
    let mut x: usize = 0;
    while x < len
        invariant
            x <= len,
            found@.len() == x,
            forall|y: int| 0 <= y < x ==> !#[trigger] found@[y],
        decreases len - x,
    {
        found.push(false);
        x = x + 1;
    }
    found
}

/// The marked numbers of a table that starts at `min`, in rising order.
fn marked_numbers(min: u16, found: &Vec<bool>, solutions: &mut Vec<u16>)
    requires
        min + found@.len() <= u16::MAX + 1,
    ensures
        strictly_increasing(final(solutions)@),
        forall|t: u16|
            final(solutions)@.contains(t) <==> min <= t < min + found@.len() && found@[t - min],
{
    solutions.clear();
    let mut x: usize = 0;
    while x < found.len()
        invariant
            x <= found@.len(),
            min + found@.len() <= u16::MAX + 1,
            strictly_increasing(solutions@),
            forall|i: int| 0 <= i < solutions@.len() ==> min <= #[trigger] solutions@[i] < min + x,
            forall|t: u16| solutions@.contains(t) <==> min <= t < min + x && found@[t - min],
        decreases found@.len() - x,
    {
        if found[x] {
            let ghost before = solutions@;
            let t: u16 = (min as usize + x) as u16;
            solutions.push(t);
            proof {
                assert(solutions@[before.len() as int] == t);
                assert forall|u: u16| solutions@.contains(u) <==> min <= u < min + x + 1 && found@[u
                    - min] by {
                    if solutions@.contains(u) {
                        let i = choose|i: int| 0 <= i < solutions@.len() && solutions@[i] == u;
                        if i < before.len() {
                            assert(before[i] == u);
                            assert(before.contains(u));
                        }
                    }
                    if min <= u < min + x + 1 && found@[u - min] {
                        if u == t {
                            assert(solutions@[before.len() as int] == u);
                        } else {
                            assert(before.contains(u));
                            let i = choose|i: int| 0 <= i < before.len() && before[i] == u;
                            assert(solutions@[i] == u);
                        }
                    }
                }
            }
        }
        x = x + 1;
    }
}

/// Which numbers from `min` up to, not including, `max` the dice `ds` reach:
/// `solutions` receives them in rising order. The table is used for the
/// search and left empty; its maps go to the pool.
pub fn probe(
    limit: u64,
    ds: &Vec<u64>,
    dp: &mut Table,
    pool: &mut Vec<ValueMap>,
    min: u16,
    max: u16,
    solutions: &mut Vec<u16>,
)
    requires
        ds@.len() == 3 || ds@.len() == 4,
        faces_fit(faces(ds@)),
    ensures
        strictly_increasing(final(solutions)@),
        forall|t: u16|
            final(solutions)@.contains(t) <==> min <= t < max && reachable(
                faces(ds@),
                limit as nat,
                t as nat,
            ),
        final(dp)@.len() == 0,
        final(pool)@.len() == pool_after(old(pool)@.len() + old(dp)@.len(), ds@.len()),
        pool_clean(old(pool)@) ==> pool_clean(final(pool)@),
{
    recycle(dp, pool);
    build_table(limit, ds, dp, pool);
    let len: usize = if max > min {
        (max - min) as usize
    } else {
        0
    };
    let mut found = unmarked(len);
    probe_round(limit, ds.len(), dp, min, &mut found);
    proof {
        assert forall|x: int| 0 <= x < len implies #[trigger] found@[x] == reachable(
            faces(ds@),
            limit as nat,
            (min + x) as nat,
        ) by {
            lemma_closing_exact(limit, dp@, faces(ds@), (min + x) as u64);
            lemma_search_exact(faces(ds@), limit as nat, (min + x) as nat);
        }
    }
    recycle(dp, pool);
    marked_numbers(min, &found, solutions);
}

/// What the last round reports is a computation over all dice that gives
/// the target.
pub proof fn lemma_report_is_witness(
    limit: u64,
    dp: Seq<(UsedCubes, ValueMap)>,
    dice: Seq<nat>,
    n: u64,
    s: Calculation,
)
    requires
        dice.len() == 3 || dice.len() == 4,
        table_ok(dp, dice, limit as nat),
        closing_reports(limit, dp, dice.len(), n, s),
    ensures
        witness(s, dice, limit as nat, all_dice(dice.len()), n as nat),
{
    let k = dice.len();
    let lim = limit as nat;
    let (a, b) = choose|a: int, b: int|
        0 <= a < dp.len() && 0 <= b < dp.len() && #[trigger] closes(dp[a].0, dp[b].0, k)
            && reported_by(limit, dp[a].1@, dp[b].1@, n, s);
    let m1 = dp[a].1@;
    let m2 = dp[b].1@;
    let (r1, r2) = choose|r1: u64, r2: u64| reported_from(limit, m1, m2, r1, r2, n, s);
    assert(entry_ok(dp[a].0, m1, dice, lim));
    assert(entry_ok(dp[b].0, m2, dice, lim));
    lemma_join_witness(
        dice,
        lim,
        m1[r1],
        dp[a].0.dice(),
        r1 as nat,
        m2[r2],
        dp[b].0.dice(),
        r2 as nat,
        n as nat,
        s,
    );
    lemma_closing_covers(dp[a].0, dp[b].0, k);
}

/// Some computation of the list ends in the same step as `e`.
pub open spec fn holds_last_step(s: Seq<Calculation>, e: Calculation, limit: nat) -> bool {
    exists|i: int| 0 <= i < s.len() && (#[trigger] s[i]).same_last_step(e, limit)
}

/// The computation that applies the last operation of `e` to `first` and
/// `second`.
pub open spec fn with_operands(
    e: Calculation,
    first: Calculation,
    second: Calculation,
) -> Calculation {
    match e {
        Calculation::Add(_, _) => Calculation::Add(Box::new(first), Box::new(second)),
        Calculation::Sub(_, _) => Calculation::Sub(Box::new(first), Box::new(second)),
        Calculation::Mul(_, _) => Calculation::Mul(Box::new(first), Box::new(second)),
        Calculation::Div(_, _) => Calculation::Div(Box::new(first), Box::new(second)),
        Calculation::Cube(_, _) => e,
    }
}

/// Where the list holds, for each computation that the last round reports,
/// one that is the same, it holds for each computation over all dice that
/// gives the target one that ends in the same step.
pub proof fn lemma_last_step_found(
    limit: u64,
    dp: Seq<(UsedCubes, ValueMap)>,
    dice: Seq<nat>,
    n: u64,
    e: Calculation,
    found: Seq<Calculation>,
)
    requires
        dice.len() == 3 || dice.len() == 4,
        faces_fit(dice),
        table_ok(dp, dice, limit as nat),
        table_complete(dp, dice.len()),
        witness(e, dice, limit as nat, all_dice(dice.len()), n as nat),
        forall|a: int, b: int, r1: u64, r2: u64, c: Calculation|
            0 <= a < dp.len() && 0 <= b < dp.len() && #[trigger] closes(
                dp[a].0,
                dp[b].0,
                dice.len(),
            ) && #[trigger] reported_from(limit, dp[a].1@, dp[b].1@, r1, r2, n, c) ==> holds_same(
                found,
                c,
            ),
    ensures
        holds_last_step(found, e, limit as nat),
{
    let k = dice.len();
    let lim = limit as nat;
    lemma_operands_met(e, dice, lim, n as nat);
    let x = e.left().eval(lim)->0;
    let y = e.right().eval(lim)->0;
    let straight = operands_met(dice, lim, x, y);
    let (first, second) = if straight {
        (x, y)
    } else {
        (y, x)
    };
    let (k1, k2) = choose|k1: UsedCubes, k2: UsedCubes|
        #[trigger] closes(k1, k2, k) && yields(k1, dice, lim, first)
            && yields(k2, dice, lim, second);
    lemma_yields_fits(k1, dice, lim, first);
    lemma_yields_fits(k2, dice, lim, second);
    assert(has_key(dp, k1));
    assert(has_key(dp, k2));
    let a = choose|a: int| 0 <= a < dp.len() && (#[trigger] dp[a]).0 == k1;
    let b = choose|b: int| 0 <= b < dp.len() && (#[trigger] dp[b]).0 == k2;
    let m1 = dp[a].1@;
    let m2 = dp[b].1@;
    assert(entry_ok(dp[a].0, m1, dice, lim));
    assert(entry_ok(dp[b].0, m2, dice, lim));
    let r1 = first as u64;
    let r2 = second as u64;
    assert(m1.contains_key(r1) && m2.contains_key(r2));
    assert(m1[r1].eval(lim) == Some(first));
    assert(m2[r2].eval(lim) == Some(second));
    assert(x * y == y * x) by (nonlinear_arith);
    let c = if straight || e is Add || e is Mul {
        with_operands(e, m1[r1], m2[r2])
    } else {
        with_operands(e, m2[r2], m1[r1])
    };
    assert(reported_from(limit, m1, m2, r1, r2, n, c));
    assert(closes(dp[a].0, dp[b].0, k));
    assert(holds_same(found, c));
    let i = choose|i: int| 0 <= i < found.len() && (#[trigger] found[i]).same(c);
    found[i].lemma_same_ends_alike(c, lim);
    assert(found[i].same_last_step(e, lim));
}

/// Which computations over all of the dice `ds` give `n`: `solutions` is
/// extended by one for each last step that gives `n` from two maps of the
/// table, unless it holds one that is the same. The table is used for the
/// search and left empty; its maps go to the pool.
pub fn enumerate_into(
    limit: u64,
    ds: &Vec<u64>,
    dp: &mut Table,
    pool: &mut Vec<ValueMap>,
    solutions: &mut Vec<Calculation>,
    n: u64,
)
    requires
        ds@.len() == 3 || ds@.len() == 4,
        faces_fit(faces(ds@)),
    ensures
        extends(final(solutions)@, old(solutions)@),
        pairwise_different(old(solutions)@) ==> pairwise_different(final(solutions)@),
        forall|i: int|
            old(solutions)@.len() <= i < final(solutions)@.len() ==> witness(
                #[trigger] final(solutions)@[i],
                faces(ds@),
                limit as nat,
                all_dice(ds@.len()),
                n as nat,
            ),
        forall|e: Calculation| #[trigger]
            witness(e, faces(ds@), limit as nat, all_dice(ds@.len()), n as nat)
                ==> holds_last_step(final(solutions)@, e, limit as nat),
        final(dp)@.len() == 0,
        final(pool)@.len() == pool_after(old(pool)@.len() + old(dp)@.len(), ds@.len()),
        pool_clean(old(pool)@) ==> pool_clean(final(pool)@),
{
    let ghost dice = faces(ds@);
    let ghost start = solutions@;
    recycle(dp, pool);
    build_table(limit, ds, dp, pool);
    collect_round(limit, ds.len(), dp, solutions, n);
    proof {
        let found = solutions@;
        assert forall|i: int| start.len() <= i < found.len() implies witness(
            #[trigger] found[i],
            dice,
            limit as nat,
            all_dice(ds@.len()),
            n as nat,
        ) by {
            lemma_report_is_witness(limit, dp@, dice, n, found[i]);
        }
        assert forall|e: Calculation| #[trigger]
            witness(
                e,
                dice,
                limit as nat,
                all_dice(ds@.len()),
                n as nat,
            ) implies holds_last_step(found, e, limit as nat) by {
            lemma_last_step_found(limit, dp@, dice, n, e, found);
        }
    }
    recycle(dp, pool);
}

/// Which computations over all of the dice `ds` give `n`: `solutions`
/// receives one for each last step that gives `n` from two maps of the
/// table, and no two that are the same. The table is used for the search
/// and left empty; its maps go to the pool.
pub fn enumerate(
    limit: u64,
    ds: &Vec<u64>,
    dp: &mut Table,
    pool: &mut Vec<ValueMap>,
    solutions: &mut Vec<Calculation>,
    n: u64,
)
    requires
        ds@.len() == 3 || ds@.len() == 4,
        faces_fit(faces(ds@)),
    ensures
        pairwise_different(final(solutions)@),
        forall|i: int|
            0 <= i < final(solutions)@.len() ==> witness(
                #[trigger] final(solutions)@[i],
                faces(ds@),
                limit as nat,
                all_dice(ds@.len()),
                n as nat,
            ),
        forall|e: Calculation| #[trigger]
            witness(e, faces(ds@), limit as nat, all_dice(ds@.len()), n as nat)
                ==> holds_last_step(final(solutions)@, e, limit as nat),
        final(solutions)@.len() > 0 <==> reachable(faces(ds@), limit as nat, n as nat),
        final(dp)@.len() == 0,
        final(pool)@.len() == pool_after(old(pool)@.len() + old(dp)@.len(), ds@.len()),
        pool_clean(old(pool)@) ==> pool_clean(final(pool)@),
{
    solutions.clear();
    enumerate_into(limit, ds, dp, pool, solutions, n);
    proof {
        let found = solutions@;
        let dice = faces(ds@);
        if reachable(dice, limit as nat, n as nat) {
            let e = choose|e: Calculation|
                witness(e, dice, limit as nat, all_dice(ds@.len()), n as nat);
            assert(holds_last_step(found, e, limit as nat));
        }
        if found.len() > 0 {
            assert(witness(found[0], dice, limit as nat, all_dice(ds@.len()), n as nat));
        }
    }
}

} // verus!
