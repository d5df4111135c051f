//! The rounds of the staged search over a table of value maps.
//!
//! The table holds one map for each set of dice taken up so far: first the
//! single dice, then every pair, then (for four dice) every single die merged
//! with a pair of others. The last round joins the maps whose dice together
//! are all dice.

use crate::arith::{combines, lemma_combines_symmetric};
use crate::collect::{check_for_solutions, extends, lemma_holds_same_extends, reported_by};
use crate::combine::{
    calculate_result_map,
    is_merged,
    holds_same,
    mark_solutions,
    pair_gives,
    pairwise_different,
    reported_from,
    single_cube_entries,
    single_cube_map,
    stored_from,
    ValueMap,
};
use crate::fastgame::UsedCubes;
use crate::game::calculation::Calculation;
use crate::reach::{
    closes,
    faces_fit,
    joins,
    lemma_join_witness,
    lemma_yields_fits,
    search_reaches,
    witness,
    yields,
};
use std::collections::HashMap;
use vstd::prelude::*;

verus! {

broadcast use vstd::std_specs::hash::group_hash_axioms;

/// The table of the search: each set of dice taken up, with its value map.
pub type Table = Vec<(UsedCubes, ValueMap)>;

/// The faces as natural numbers.
pub open spec fn faces(ds: Seq<u64>) -> Seq<nat> {
    Seq::new(ds.len(), |i: int| ds[i] as nat)
}

/// The map `m` under `key` holds exactly the numbers that the key's dice
/// give at their stage, each with a computation over the key's dice that
/// gives it.
pub open spec fn entry_ok(
    key: UsedCubes,
    m: Map<u64, Calculation>,
    dice: Seq<nat>,
    limit: nat,
) -> bool {
    &&& key.well_formed(dice.len())
    &&& forall|v: u64| #[trigger] m.contains_key(v) <==> yields(key, dice, limit, v as nat)
    &&& forall|v: u64| #[trigger]
        m.contains_key(v) ==> witness(m[v], dice, limit, key.dice(), v as nat)
}

/// Every entry of the table is as [`entry_ok`] says.
pub open spec fn table_ok(dp: Seq<(UsedCubes, ValueMap)>, dice: Seq<nat>, limit: nat) -> bool {
    forall|i: int| 0 <= i < dp.len() ==> entry_ok((#[trigger] dp[i]).0, dp[i].1@, dice, limit)
}

/// The table has a map under `key`.
pub open spec fn has_key(dp: Seq<(UsedCubes, ValueMap)>, key: UsedCubes) -> bool {
    exists|i: int| 0 <= i < dp.len() && (#[trigger] dp[i]).0 == key
}

/// `longer` begins with `shorter`.
pub open spec fn table_extends(
    longer: Seq<(UsedCubes, ValueMap)>,
    shorter: Seq<(UsedCubes, ValueMap)>,
) -> bool {
    &&& shorter.len() <= longer.len()
    &&& forall|i: int| 0 <= i < shorter.len() ==> #[trigger] longer[i] == shorter[i]
}

/// The key that a merging round gives to the map merged from the maps
/// under `k1` and `k2`: in the round of the pairs, two single dice with the
/// larger position first; in the round of the triples, a single die and a
/// pair that does not hold it.
pub open spec fn merged_key(k1: UsedCubes, k2: UsedCubes, triples: bool) -> Option<UsedCubes> {
    match (k1, k2) {
        (UsedCubes::OneCube(c1), UsedCubes::OneCube(c2)) => if !triples && c1 > c2 {
            Some(UsedCubes::TwoCubes(c1, c2))
        } else {
            None
        },
        (UsedCubes::OneCube(c1), UsedCubes::TwoCubes(c2, c3)) => if triples && c1 != c2 && c1
            != c3 {
            Some(UsedCubes::ThreeCubes(c1, c2, c3))
        } else {
            None
        },
        _ => None,
    }
}

/// Computes [`merged_key`].
pub fn merge_key(k1: UsedCubes, k2: UsedCubes, triples: bool) -> (key: Option<UsedCubes>)
    ensures
        key == merged_key(k1, k2, triples),
{
    match (k1, k2) {
        (UsedCubes::OneCube(c1), UsedCubes::OneCube(c2)) => if !triples && c1 > c2 {
            Some(UsedCubes::TwoCubes(c1, c2))
        } else {
            None
        },
        (UsedCubes::OneCube(c1), UsedCubes::TwoCubes(c2, c3)) => if triples && c1 != c2 && c1
            != c3 {
            Some(UsedCubes::ThreeCubes(c1, c2, c3))
        } else {
            None
        },
        _ => None,
    }
}

/// Computes [`UsedCubes::well_formed`].
pub fn is_well_formed(key: UsedCubes, k: usize) -> (r: bool)
    ensures
        r == key.well_formed(k as nat),
{
    match key {
        UsedCubes::OneCube(i) => (i as usize) < k,
        UsedCubes::TwoCubes(i, j) => j < i && (i as usize) < k,
        UsedCubes::ThreeCubes(a, b, c) => (a as usize) < k && c < b && (b as usize) < k && a != b
            && a != c,
    }
}

/// Whether the maps under `k1` and `k2` are joined in the last round for `k`
/// dice.
pub fn is_closing(k1: UsedCubes, k2: UsedCubes, k: usize) -> (r: bool)
    ensures
        r == closes(k1, k2, k as nat),
{
    if !is_well_formed(k1, k) || !is_well_formed(k2, k) {
        return false;
    }
    match (k1, k2) {
        (UsedCubes::OneCube(c1), UsedCubes::TwoCubes(c2, c3)) => {
            proof {
                assert(k1.dice().disjoint(k2.dice()) <==> (c1 != c2 && c1 != c3)) by {
                    assert(k1.dice().contains(c1 as nat));
                    assert(k2.dice().contains(c2 as nat) && k2.dice().contains(c3 as nat));
                }
            }
            k == 3 && c1 != c2 && c1 != c3
        },
        (UsedCubes::TwoCubes(c1, c2), UsedCubes::TwoCubes(c3, c4)) => {
            proof {
                assert(k1.dice().disjoint(k2.dice()) <==> (c1 != c3 && c1 != c4 && c2 != c3 && c2
                    != c4)) by {
                    assert(k1.dice().contains(c1 as nat) && k1.dice().contains(c2 as nat));
                    assert(k2.dice().contains(c3 as nat) && k2.dice().contains(c4 as nat));
                }
            }
            k == 4 && c1 != c3 && c1 != c4 && c2 != c3 && c2 != c4
        },
        (UsedCubes::OneCube(c1), UsedCubes::ThreeCubes(c2, c3, c4)) => {
            proof {
                assert(k1.dice().disjoint(k2.dice()) <==> (c1 != c2 && c1 != c3 && c1 != c4)) by {
                    assert(k1.dice().contains(c1 as nat));
                    assert(k2.dice().contains(c2 as nat) && k2.dice().contains(c3 as nat)
                        && k2.dice().contains(c4 as nat));
                }
            }
            k == 4 && c1 != c2 && c1 != c3 && c1 != c4
        },
        _ => false,
    }
}

/// Hands out an empty map: one of the pool, cleared, where the pool has one.
pub fn take_map(pool: &mut Vec<ValueMap>) -> (map: ValueMap)
    ensures
        map@ == Map::<u64, Calculation>::empty(),
        old(pool)@.len() > 0 ==> final(pool)@ == old(pool)@.drop_last(),
        old(pool)@.len() == 0 ==> final(pool)@ == old(pool)@,
        pool_left(final(pool)@, old(pool)@),
{
    match pool.pop() {
        Some(mut map) => {
            map.clear();
            map
        },
        None => HashMap::new(),
    }
}

/// Every map of the pool is empty.
pub open spec fn pool_clean(pool: Seq<ValueMap>) -> bool {
    forall|i: int| 0 <= i < pool.len() ==> (#[trigger] pool[i])@ == Map::<u64, Calculation>::empty()
}

/// The pool `after` is what is left of the pool `before` when maps were
/// taken from its end.
pub open spec fn pool_left(after: Seq<ValueMap>, before: Seq<ValueMap>) -> bool {
    &&& after.len() <= before.len()
    &&& forall|i: int| 0 <= i < after.len() ==> #[trigger] after[i] == before[i]
}

/// How many maps a pool of `held` maps holds after `taken` maps were asked
/// of it: a pool that runs out stays empty, and the maps are made anew.
pub open spec fn left_after(held: nat, taken: nat) -> nat {
    if held >= taken {
        (held - taken) as nat
    } else {
        0
    }
}

/// Empties the table: each of its maps is cleared and handed to the pool.
pub fn recycle(dp: &mut Table, pool: &mut Vec<ValueMap>)
    ensures
        final(dp)@.len() == 0,
        final(pool)@.len() == old(pool)@.len() + old(dp)@.len(),
        forall|i: int| 0 <= i < old(pool)@.len() ==> #[trigger] final(pool)@[i] == old(pool)@[i],
        forall|i: int|
            old(pool)@.len() <= i < final(pool)@.len() ==> (#[trigger] final(pool)@[i])@
                == Map::<u64, Calculation>::empty(),
        pool_clean(old(pool)@) ==> pool_clean(final(pool)@),
{
    let ghost start = pool@;
    let ghost total = dp@.len();
    while dp.len() > 0
        invariant
            pool@.len() + dp@.len() == start.len() + total,
            dp@.len() <= total,
            forall|i: int| 0 <= i < start.len() ==> #[trigger] pool@[i] == start[i],
            forall|i: int|
                start.len() <= i < pool@.len() ==> (#[trigger] pool@[i])@ == Map::<
                    u64,
                    Calculation,
                >::empty(),
        decreases dp@.len(),
    {
        let entry = dp.pop();
        if let Some((_, mut map)) = entry {
            map.clear();
            let ghost before = pool@;
            pool.push(map);
            proof {
                assert forall|i: int| 0 <= i < start.len() implies #[trigger] pool@[i]
                    == start[i] by {
                    assert(pool@[i] == before[i]);
                }
                assert forall|i: int| start.len() <= i < pool@.len() implies (
                #[trigger] pool@[i])@ == Map::<u64, Calculation>::empty() by {
                    if i < before.len() {
                        assert(pool@[i] == before[i]);
                    }
                }
            }
        }
    }
}

/// The map of a single die is as its key demands.
pub proof fn lemma_single_entry_ok(index: usize, face: u64, dice: Seq<nat>, limit: nat)
    requires
        index < dice.len(),
        index <= u32::MAX,
        dice[index as int] == face as nat,
    ensures
        entry_ok(
            UsedCubes::OneCube(index as u32),
            single_cube_entries(index, face),
            dice,
            limit,
        ),
{
    let key = UsedCubes::OneCube(index as u32);
    let m = single_cube_entries(index, face);
    assert forall|v: u64| #[trigger] m.contains_key(v) implies witness(
        m[v],
        dice,
        limit,
        key.dice(),
        v as nat,
    ) by {
        assert(m[v] == Calculation::Cube(index, v));
    }
}

/// The map merged from two maps that are as their keys demand is as the
/// merged key demands.
pub proof fn lemma_merged_entry_ok(
    k1: UsedCubes,
    m1: Map<u64, Calculation>,
    k2: UsedCubes,
    m2: Map<u64, Calculation>,
    triples: bool,
    merged: Map<u64, Calculation>,
    dice: Seq<nat>,
    limit: u64,
)
    requires
        faces_fit(dice),
        entry_ok(k1, m1, dice, limit as nat),
        entry_ok(k2, m2, dice, limit as nat),
        merged_key(k1, k2, triples) is Some,
        is_merged(limit, m1, m2, merged),
    ensures
        entry_ok(merged_key(k1, k2, triples)->0, merged, dice, limit as nat),
{
    let key = merged_key(k1, k2, triples)->0;
    let lim = limit as nat;
    assert(k1.dice().disjoint(k2.dice()));
    assert(k1.dice().union(k2.dice()) =~= key.dice());
    assert forall|v: u64| #[trigger] merged.contains_key(v) implies yields(
        key,
        dice,
        lim,
        v as nat,
    ) && witness(merged[v], dice, lim, key.dice(), v as nat) by {
        let (r1, r2) = choose|r1: u64, r2: u64| stored_from(limit, m1, m2, r1, r2, v, merged[v]);
        assert(m1.contains_key(r1) && m2.contains_key(r2));
        assert(yields(k1, dice, lim, r1 as nat));
        assert(yields(k2, dice, lim, r2 as nat));
        assert(combines(lim, r1 as nat, r2 as nat, v as nat)) by {
            lemma_combines_symmetric(lim, r1 as nat, r2 as nat, v as nat);
        }
        lemma_join_witness(
            dice,
            lim,
            m1[r1],
            k1.dice(),
            r1 as nat,
            m2[r2],
            k2.dice(),
            r2 as nat,
            v as nat,
            merged[v],
        );
    }
    assert forall|v: u64| yields(key, dice, lim, v as nat) implies #[trigger] merged.contains_key(
        v,
    ) by {
        let (x, y) = choose|x: nat, y: nat|
            yields(k1, dice, lim, x) && yields(k2, dice, lim, y) && #[trigger] combines(
                lim,
                x,
                y,
                v as nat,
            );
        lemma_yields_fits(k1, dice, lim, x);
        lemma_yields_fits(k2, dice, lim, y);
        let r1 = x as u64;
        let r2 = y as u64;
        assert(m1.contains_key(r1) && m2.contains_key(r2));
        assert(combines(lim, r1 as nat, r2 as nat, v as nat));
        assert(pair_gives(limit, m1, m2, v));
    }
}

/// The round of the single dice: the empty table receives the map of each
/// die, in the order of the dice.
pub fn single_round(ds: &Vec<u64>, dp: &mut Table, pool: &mut Vec<ValueMap>)
    requires
        old(dp)@.len() == 0,
        ds@.len() <= 4,
        faces_fit(faces(ds@)),
    ensures
        final(dp)@.len() == ds@.len(),
        forall|i: int|
            0 <= i < ds@.len() ==> (#[trigger] final(dp)@[i]).0 == UsedCubes::OneCube(i as u32)
                && final(dp)@[i].1@ == single_cube_entries(i as usize, ds@[i]),
        pool_left(final(pool)@, old(pool)@),
        final(pool)@.len() == left_after(old(pool)@.len(), ds@.len()),
{
    let mut i: usize = 0;
    while i < ds.len()
        invariant
            i <= ds@.len() <= 4,
            dp@.len() == i,
            faces_fit(faces(ds@)),
            pool_left(pool@, old(pool)@),
            pool@.len() == left_after(old(pool)@.len(), i as nat),
            forall|j: int|
                0 <= j < i ==> (#[trigger] dp@[j]).0 == UsedCubes::OneCube(j as u32) && dp@[j].1@
                    == single_cube_entries(j as usize, ds@[j]),
        decreases ds@.len() - i,
    {
        let mut map = take_map(pool);
        proof {
            assert(faces(ds@)[i as int] * 10_000_000 <= u64::MAX);
        }
        single_cube_map(i, ds[i], &mut map);
        dp.push((UsedCubes::OneCube(i as u32), map));
        i = i + 1;
    }
}

/// After the round of the single dice every entry is as its key demands.
pub proof fn lemma_single_round_ok(ds: Seq<u64>, dp: Seq<(UsedCubes, ValueMap)>, limit: nat)
    requires
        ds.len() <= 4,
        dp.len() == ds.len(),
        forall|i: int|
            0 <= i < ds.len() ==> (#[trigger] dp[i]).0 == UsedCubes::OneCube(i as u32) && dp[i].1@
                == single_cube_entries(i as usize, ds[i]),
    ensures
        table_ok(dp, faces(ds), limit),
        forall|i: u32| i < ds.len() ==> #[trigger] has_key(dp, UsedCubes::OneCube(i)),
{
    assert forall|i: int| 0 <= i < dp.len() implies entry_ok(
        (#[trigger] dp[i]).0,
        dp[i].1@,
        faces(ds),
        limit,
    ) by {
        lemma_single_entry_ok(i as usize, ds[i], faces(ds), limit);
    }
    assert forall|i: u32| i < ds.len() implies #[trigger] has_key(dp, UsedCubes::OneCube(i)) by {
        assert(dp[i as int].0 == UsedCubes::OneCube(i));
    }
}

/// 1 where a merging round merges the entries at `a` and `b`, else 0.
pub open spec fn merges_pair(dp: Seq<(UsedCubes, ValueMap)>, a: int, b: int, triples: bool) -> nat {
    if merged_key(dp[a].0, dp[b].0, triples) is Some {
        1
    } else {
        0
    }
}

/// How many of the first `upto` entries a merging round merges the entry
/// at `a` with.
pub open spec fn merges_in_row(
    dp: Seq<(UsedCubes, ValueMap)>,
    a: int,
    upto: int,
    triples: bool,
) -> nat
    decreases upto,
{
    if upto <= 0 {
        0
    } else {
        merges_in_row(dp, a, upto - 1, triples) + merges_pair(dp, a, upto - 1, triples)
    }
}

/// How many maps a merging round makes of the first `rows` entries, each
/// taken with every entry of the table.
pub open spec fn merges(dp: Seq<(UsedCubes, ValueMap)>, rows: int, triples: bool) -> nat
    decreases rows,
{
    if rows <= 0 {
        0
    } else {
        merges(dp, rows - 1, triples) + merges_in_row(dp, rows - 1, dp.len() as int, triples)
    }
}

/// The entry is what a merging round makes of some two entries of the
/// table: its key is their merged key, and its map is merged from their
/// maps.
pub open spec fn merged_from(
    limit: u64,
    dp: Seq<(UsedCubes, ValueMap)>,
    entry: (UsedCubes, ValueMap),
    triples: bool,
) -> bool {
    exists|a: int, b: int|
        0 <= a < dp.len() && 0 <= b < dp.len() && #[trigger] merged_key(
            dp[a].0,
            dp[b].0,
            triples,
        ) == Some(entry.0) && is_merged(limit, dp[a].1@, dp[b].1@, entry.1@)
}

/// A key of the table is a key of each table that begins with it.
pub proof fn lemma_has_key_extends(
    longer: Seq<(UsedCubes, ValueMap)>,
    shorter: Seq<(UsedCubes, ValueMap)>,
    key: UsedCubes,
)
    requires
        table_extends(longer, shorter),
        has_key(shorter, key),
    ensures
        has_key(longer, key),
{
    let i = choose|i: int| 0 <= i < shorter.len() && (#[trigger] shorter[i]).0 == key;
    assert(longer[i].0 == key);
}

/// A merging round: for each two entries of the table that the round takes
/// up (see [`merged_key`]), the map merged from their maps is added to the
/// table under the merged key. Nothing else is added.
pub fn merge_round(limit: u64, triples: bool, dp: &mut Table, pool: &mut Vec<ValueMap>)
    ensures
        table_extends(final(dp)@, old(dp)@),
        forall|a: int, b: int|
            0 <= a < old(dp)@.len() && 0 <= b < old(dp)@.len() && (#[trigger] merged_key(
                old(dp)@[a].0,
                old(dp)@[b].0,
                triples,
            )) is Some ==> has_key(
                final(dp)@,
                merged_key(old(dp)@[a].0, old(dp)@[b].0, triples)->0,
            ),
        forall|i: int|
            old(dp)@.len() <= i < final(dp)@.len() ==> merged_from(
                limit,
                old(dp)@,
                #[trigger] final(dp)@[i],
                triples,
            ),
        final(dp)@.len() == old(dp)@.len() + merges(old(dp)@, old(dp)@.len() as int, triples),
        pool_left(final(pool)@, old(pool)@),
        final(pool)@.len() == left_after(
            old(pool)@.len(),
            merges(old(dp)@, old(dp)@.len() as int, triples),
        ),
{
    let n = dp.len();
    let ghost start = dp@;
    let mut maps: Table = Vec::new();
    let mut a: usize = 0;
    while a < n
        invariant
            a <= n,
            n == dp@.len(),
            dp@ == start,
            pool_left(pool@, old(pool)@),
            pool@.len() == left_after(old(pool)@.len(), maps@.len()),
            maps@.len() == merges(start, a as int, triples),
            forall|i: int|
                0 <= i < maps@.len() ==> merged_from(limit, start, #[trigger] maps@[i], triples),
            forall|i: int, j: int|
                0 <= i < a && 0 <= j < n && (#[trigger] merged_key(
                    start[i].0,
                    start[j].0,
                    triples,
                )) is Some ==> has_key(maps@, merged_key(start[i].0, start[j].0, triples)->0),
        decreases n - a,
    {
        let mut b: usize = 0;
        while b < n
            invariant
                a < n,
                b <= n,
                n == dp@.len(),
                dp@ == start,
                pool_left(pool@, old(pool)@),
                pool@.len() == left_after(old(pool)@.len(), maps@.len()),
                maps@.len() == merges(start, a as int, triples) + merges_in_row(
                    start,
                    a as int,
                    b as int,
                    triples,
                ),
                forall|i: int|
                    0 <= i < maps@.len() ==> merged_from(
                        limit,
                        start,
                        #[trigger] maps@[i],
                        triples,
                    ),
                forall|i: int, j: int|
                    0 <= i < a && 0 <= j < n && (#[trigger] merged_key(
                        start[i].0,
                        start[j].0,
                        triples,
                    )) is Some ==> has_key(
                        maps@,
                        merged_key(start[i].0, start[j].0, triples)->0,
                    ),
                forall|j: int|
                    0 <= j < b && (#[trigger] merged_key(start[a as int].0, start[j].0, triples))
                        is Some ==> has_key(
                        maps@,
                        merged_key(start[a as int].0, start[j].0, triples)->0,
                    ),
            decreases n - b,
        {
            let merged = merge_key(dp[a].0, dp[b].0, triples);
            if let Some(key) = merged {
                let mut map = take_map(pool);
                calculate_result_map(limit, &dp[a].1, &dp[b].1, &mut map);
                let ghost before = maps@;
                maps.push((key, map));
                proof {
                    assert(table_extends(maps@, before));
                    assert(maps@[before.len() as int].0 == key);
                    assert forall|i: int| 0 <= i < maps@.len() implies merged_from(
                        limit,
                        start,
                        #[trigger] maps@[i],
                        triples,
                    ) by {
                        if i < before.len() {
                            assert(maps@[i] == before[i]);
                        } else {
                            assert(merged_key(start[a as int].0, start[b as int].0, triples)
                                == Some(key));
                        }
                    }
                    assert forall|i: int, j: int|
                        0 <= i < a && 0 <= j < n && (#[trigger] merged_key(
                            start[i].0,
                            start[j].0,
                            triples,
                        )) is Some implies has_key(
                        maps@,
                        merged_key(start[i].0, start[j].0, triples)->0,
                    ) by {
                        lemma_has_key_extends(
                            maps@,
                            before,
                            merged_key(start[i].0, start[j].0, triples)->0,
                        );
                    }
                    assert forall|j: int|
                        0 <= j < b + 1 && (#[trigger] merged_key(
                            start[a as int].0,
                            start[j].0,
                            triples,
                        )) is Some implies has_key(
                        maps@,
                        merged_key(start[a as int].0, start[j].0, triples)->0,
                    ) by {
                        if j < b {
                            lemma_has_key_extends(
                                maps@,
                                before,
                                merged_key(start[a as int].0, start[j].0, triples)->0,
                            );
                        }
                    }
                }
            }
            b = b + 1;
        }
        a = a + 1;
    }
    let ghost added = maps@;
    dp.append(&mut maps);
    proof {
        assert(dp@ == start + added);
        assert forall|i: int| start.len() <= i < dp@.len() implies merged_from(
            limit,
            start,
            #[trigger] dp@[i],
            triples,
        ) by {
            assert(dp@[i] == added[i - start.len()]);
        }
        assert forall|i: int, j: int|
            0 <= i < start.len() && 0 <= j < start.len() && (#[trigger] merged_key(
                start[i].0,
                start[j].0,
                triples,
            )) is Some implies has_key(dp@, merged_key(start[i].0, start[j].0, triples)->0) by {
            let key = merged_key(start[i].0, start[j].0, triples)->0;
            let at = choose|at: int| 0 <= at < added.len() && (#[trigger] added[at]).0 == key;
            assert(dp@[start.len() + at] == added[at]);
        }
    }
}

/// After a merging round over a table whose entries are as their keys
/// demand, the entries are so still.
pub proof fn lemma_merge_round_ok(
    limit: u64,
    before: Seq<(UsedCubes, ValueMap)>,
    after: Seq<(UsedCubes, ValueMap)>,
    triples: bool,
    dice: Seq<nat>,
)
    requires
        faces_fit(dice),
        table_ok(before, dice, limit as nat),
        table_extends(after, before),
        forall|i: int|
            before.len() <= i < after.len() ==> merged_from(
                limit,
                before,
                #[trigger] after[i],
                triples,
            ),
    ensures
        table_ok(after, dice, limit as nat),
{
    assert forall|i: int| 0 <= i < after.len() implies entry_ok(
        (#[trigger] after[i]).0,
        after[i].1@,
        dice,
        limit as nat,
    ) by {
        if i < before.len() {
            assert(after[i] == before[i]);
        } else {
            let (a, b) = choose|a: int, b: int|
                0 <= a < before.len() && 0 <= b < before.len() && #[trigger] merged_key(
                    before[a].0,
                    before[b].0,
                    triples,
                ) == Some(after[i].0) && is_merged(limit, before[a].1@, before[b].1@, after[i].1@);
            assert(entry_ok(before[a].0, before[a].1@, dice, limit as nat));
            assert(entry_ok(before[b].0, before[b].1@, dice, limit as nat));
            lemma_merged_entry_ok(
                before[a].0,
                before[a].1@,
                before[b].0,
                before[b].1@,
                triples,
                after[i].1@,
                dice,
                limit,
            );
        }
    }
}

/// Some two entries of the table that the last round joins give `v` in one
/// step.
pub open spec fn closing_gives(
    limit: u64,
    dp: Seq<(UsedCubes, ValueMap)>,
    k: nat,
    v: u64,
) -> bool {
    exists|a: int, b: int|
        0 <= a < dp.len() && 0 <= b < dp.len() && #[trigger] closes(dp[a].0, dp[b].0, k)
            && pair_gives(limit, dp[a].1@, dp[b].1@, v)
}

/// The last round, asking only which numbers are reached: marks, in the
/// table `found` of the numbers from `min` on, each number that one step
/// gives for two entries that the round joins.
pub fn probe_round(
    limit: u64,
    k: usize,
    dp: &Table,
    min: u16,
    found: &mut Vec<bool>,
)
    requires
        min + old(found)@.len() <= u16::MAX + 1,
    ensures
        final(found)@.len() == old(found)@.len(),
        forall|x: int|
            0 <= x < old(found)@.len() ==> #[trigger] final(found)@[x] == (old(found)@[x]
                || closing_gives(limit, dp@, k as nat, (min + x) as u64)),
{
    let n = dp.len();
    let ghost start = found@;
    let mut a: usize = 0;
    while a < n
        invariant
            a <= n,
            n == dp@.len(),
            found@.len() == start.len(),
            min + start.len() <= u16::MAX + 1,
            forall|x: int| 0 <= x < start.len() && start[x] ==> #[trigger] found@[x],
            forall|x: int|
                0 <= x < start.len() && #[trigger] found@[x] ==> start[x] || closing_gives(
                    limit,
                    dp@,
                    k as nat,
                    (min + x) as u64,
                ),
            forall|i: int, j: int, x: int|
                0 <= i < a && 0 <= j < n && 0 <= x < start.len() && #[trigger] closes(
                    dp@[i].0,
                    dp@[j].0,
                    k as nat,
                ) && #[trigger] pair_gives(limit, dp@[i].1@, dp@[j].1@, (min + x) as u64)
                    ==> found@[x],
        decreases n - a,
    {
        let mut b: usize = 0;
        while b < n
            invariant
                a < n,
                b <= n,
                n == dp@.len(),
                found@.len() == start.len(),
                min + start.len() <= u16::MAX + 1,
                forall|x: int| 0 <= x < start.len() && start[x] ==> #[trigger] found@[x],
                forall|x: int|
                    0 <= x < start.len() && #[trigger] found@[x] ==> start[x] || closing_gives(
                        limit,
                        dp@,
                        k as nat,
                        (min + x) as u64,
                    ),
                forall|i: int, j: int, x: int|
                    0 <= i < a && 0 <= j < n && 0 <= x < start.len() && #[trigger] closes(
                        dp@[i].0,
                        dp@[j].0,
                        k as nat,
                    ) && #[trigger] pair_gives(limit, dp@[i].1@, dp@[j].1@, (min + x) as u64)
                        ==> found@[x],
                forall|j: int, x: int|
                    0 <= j < b && 0 <= x < start.len() && #[trigger] closes(
                        dp@[a as int].0,
                        dp@[j].0,
                        k as nat,
                    ) && #[trigger] pair_gives(
                        limit,
                        dp@[a as int].1@,
                        dp@[j].1@,
                        (min + x) as u64,
                    ) ==> found@[x],
            decreases n - b,
        {
            if is_closing(dp[a].0, dp[b].0, k) {
                let ghost before = found@;
                mark_solutions(limit, &dp[a].1, &dp[b].1, min, found);
                proof {
                    assert forall|x: int| 0 <= x < start.len() && #[trigger] found@[x] implies
                        start[x] || closing_gives(limit, dp@, k as nat, (min + x) as u64) by {
                        if !before[x] {
                            assert(closes(dp@[a as int].0, dp@[b as int].0, k as nat));
                            assert(pair_gives(
                                limit,
                                dp@[a as int].1@,
                                dp@[b as int].1@,
                                (min + x) as u64,
                            ));
                        }
                    }
                    assert forall|x: int| 0 <= x < start.len() && start[x] implies #[trigger] found@[x]
                    by {
                        assert(before[x]);
                    }
                }
            }
            b = b + 1;
        }
        a = a + 1;
    }
    proof {
        assert forall|x: int| 0 <= x < start.len() implies #[trigger] found@[x] == (start[x]
            || closing_gives(limit, dp@, k as nat, (min + x) as u64)) by {
            if closing_gives(limit, dp@, k as nat, (min + x) as u64) {
                let (i, j) = choose|i: int, j: int|
                    0 <= i < dp@.len() && 0 <= j < dp@.len() && #[trigger] closes(
                        dp@[i].0,
                        dp@[j].0,
                        k as nat,
                    ) && pair_gives(limit, dp@[i].1@, dp@[j].1@, (min + x) as u64);
                assert(found@[x]);
            }
        }
    }
}

/// `e` is reported for the target `n` from some two entries of the table
/// that the last round joins.
pub open spec fn closing_reports(
    limit: u64,
    dp: Seq<(UsedCubes, ValueMap)>,
    k: nat,
    n: u64,
    e: Calculation,
) -> bool {
    exists|a: int, b: int|
        0 <= a < dp.len() && 0 <= b < dp.len() && #[trigger] closes(dp[a].0, dp[b].0, k)
            && reported_by(limit, dp[a].1@, dp[b].1@, n, e)
}

/// The last round, collecting computations: appends to `solutions` the
/// computations that give `n` in one step from two entries that the round
/// joins, each unless the list holds one that is the same.
pub fn collect_round(
    limit: u64,
    k: usize,
    dp: &Table,
    solutions: &mut Vec<Calculation>,
    n: u64,
)
    ensures
        extends(final(solutions)@, old(solutions)@),
        pairwise_different(old(solutions)@) ==> pairwise_different(final(solutions)@),
        forall|i: int|
            old(solutions)@.len() <= i < final(solutions)@.len() ==> closing_reports(
                limit,
                dp@,
                k as nat,
                n,
                #[trigger] final(solutions)@[i],
            ),
        forall|a: int, b: int, r1: u64, r2: u64, e: Calculation|
            0 <= a < dp@.len() && 0 <= b < dp@.len() && #[trigger] closes(
                dp@[a].0,
                dp@[b].0,
                k as nat,
            ) && #[trigger] reported_from(limit, dp@[a].1@, dp@[b].1@, r1, r2, n, e)
                ==> holds_same(final(solutions)@, e),
{
    let count = dp.len();
    let ghost start = solutions@;
    let mut a: usize = 0;
    while a < count
        invariant
            a <= count,
            count == dp@.len(),
            extends(solutions@, start),
            pairwise_different(start) ==> pairwise_different(solutions@),
            forall|i: int|
                start.len() <= i < solutions@.len() ==> closing_reports(
                    limit,
                    dp@,
                    k as nat,
                    n,
                    #[trigger] solutions@[i],
                ),
            forall|i: int, j: int, r1: u64, r2: u64, e: Calculation|
                0 <= i < a && 0 <= j < count && #[trigger] closes(dp@[i].0, dp@[j].0, k as nat)
                    && #[trigger] reported_from(limit, dp@[i].1@, dp@[j].1@, r1, r2, n, e)
                    ==> holds_same(solutions@, e),
        decreases count - a,
    {
        let mut b: usize = 0;
        while b < count
            invariant
                a < count,
                b <= count,
                count == dp@.len(),
                extends(solutions@, start),
                pairwise_different(start) ==> pairwise_different(solutions@),
                forall|i: int|
                    start.len() <= i < solutions@.len() ==> closing_reports(
                        limit,
                        dp@,
                        k as nat,
                        n,
                        #[trigger] solutions@[i],
                    ),
                forall|i: int, j: int, r1: u64, r2: u64, e: Calculation|
                    0 <= i < a && 0 <= j < count && #[trigger] closes(
                        dp@[i].0,
                        dp@[j].0,
                        k as nat,
                    ) && #[trigger] reported_from(limit, dp@[i].1@, dp@[j].1@, r1, r2, n, e)
                        ==> holds_same(solutions@, e),
                forall|j: int, r1: u64, r2: u64, e: Calculation|
                    0 <= j < b && #[trigger] closes(dp@[a as int].0, dp@[j].0, k as nat)
                        && #[trigger] reported_from(
                        limit,
                        dp@[a as int].1@,
                        dp@[j].1@,
                        r1,
                        r2,
                        n,
                        e,
                    ) ==> holds_same(solutions@, e),
            decreases count - b,
        {
            if is_closing(dp[a].0, dp[b].0, k) {
                let ghost before = solutions@;
                check_for_solutions(limit, &dp[a].1, &dp[b].1, solutions, n);
                proof {
                    let after = solutions@;
                    assert(extends(after, before));
                    assert forall|i: int| start.len() <= i < after.len() implies closing_reports(
                        limit,
                        dp@,
                        k as nat,
                        n,
                        #[trigger] after[i],
                    ) by {
                        if i < before.len() {
                            assert(after[i] == before[i]);
                        } else {
                            assert(closes(dp@[a as int].0, dp@[b as int].0, k as nat));
                            assert(reported_by(
                                limit,
                                dp@[a as int].1@,
                                dp@[b as int].1@,
                                n,
                                after[i],
                            ));
                        }
                    }
                    assert forall|i: int, j: int, r1: u64, r2: u64, e: Calculation|
                        0 <= i < a && 0 <= j < count && #[trigger] closes(
                            dp@[i].0,
                            dp@[j].0,
                            k as nat,
                        ) && #[trigger] reported_from(
                            limit,
                            dp@[i].1@,
                            dp@[j].1@,
                            r1,
                            r2,
                            n,
                            e,
                        ) implies holds_same(after, e) by {
                        lemma_holds_same_extends(after, before, e);
                    }
                    assert forall|j: int, r1: u64, r2: u64, e: Calculation|
                        0 <= j < b + 1 && #[trigger] closes(dp@[a as int].0, dp@[j].0, k as nat)
                            && #[trigger] reported_from(
                            limit,
                            dp@[a as int].1@,
                            dp@[j].1@,
                            r1,
                            r2,
                            n,
                            e,
                        ) implies holds_same(after, e) by {
                        if j < b {
                            lemma_holds_same_extends(after, before, e);
                        }
                    }
                }
            }
            b = b + 1;
        }
        a = a + 1;
    }
}

/// The table has a map under each key that the search for `k` dice builds:
/// every single die, every pair, and for four dice every single die with a
/// pair of others.
pub open spec fn table_complete(dp: Seq<(UsedCubes, ValueMap)>, k: nat) -> bool {
    forall|key: UsedCubes|
        key.well_formed(k) && (k == 4 || !(key is ThreeCubes)) ==> #[trigger] has_key(dp, key)
}

/// After the round of the pairs the table has every pair.
pub proof fn lemma_pairs_complete(
    before: Seq<(UsedCubes, ValueMap)>,
    after: Seq<(UsedCubes, ValueMap)>,
    k: nat,
)
    requires
        k <= 4,
        before.len() == k,
        forall|i: int| 0 <= i < k ==> (#[trigger] before[i]).0 == UsedCubes::OneCube(i as u32),
        table_extends(after, before),
        forall|a: int, b: int|
            0 <= a < before.len() && 0 <= b < before.len() && (#[trigger] merged_key(
                before[a].0,
                before[b].0,
                false,
            )) is Some ==> has_key(after, merged_key(before[a].0, before[b].0, false)->0),
    ensures
        forall|key: UsedCubes|
            key.well_formed(k) && !(key is ThreeCubes) ==> #[trigger] has_key(after, key),
{
    assert forall|key: UsedCubes| key.well_formed(k) && !(key is ThreeCubes) implies #[trigger] has_key(
        after,
        key,
    ) by {
        match key {
            UsedCubes::OneCube(i) => {
                assert(after[i as int] == before[i as int]);
                assert(after[i as int].0 == key);
            },
            UsedCubes::TwoCubes(i, j) => {
                assert(merged_key(before[i as int].0, before[j as int].0, false) == Some(key));
            },
            _ => {},
        }
    }
}

/// After the round of the triples the table of four dice has every key.
pub proof fn lemma_triples_complete(
    before: Seq<(UsedCubes, ValueMap)>,
    after: Seq<(UsedCubes, ValueMap)>,
    k: nat,
)
    requires
        forall|key: UsedCubes|
            key.well_formed(k) && !(key is ThreeCubes) ==> #[trigger] has_key(before, key),
        table_extends(after, before),
        forall|a: int, b: int|
            0 <= a < before.len() && 0 <= b < before.len() && (#[trigger] merged_key(
                before[a].0,
                before[b].0,
                true,
            )) is Some ==> has_key(after, merged_key(before[a].0, before[b].0, true)->0),
    ensures
        forall|key: UsedCubes| key.well_formed(k) ==> #[trigger] has_key(after, key),
{
    assert forall|key: UsedCubes| key.well_formed(k) implies #[trigger] has_key(after, key) by {
        match key {
            UsedCubes::ThreeCubes(a, b, c) => {
                let k1 = UsedCubes::OneCube(a);
                let k2 = UsedCubes::TwoCubes(b, c);
                assert(has_key(before, k1));
                assert(has_key(before, k2));
                let i = choose|i: int| 0 <= i < before.len() && (#[trigger] before[i]).0 == k1;
                let j = choose|j: int| 0 <= j < before.len() && (#[trigger] before[j]).0 == k2;
                assert(merged_key(before[i].0, before[j].0, true) == Some(key));
            },
            _ => {
                lemma_has_key_extends(after, before, key);
            },
        }
    }
}

/// Over a table that is complete and whose entries are as their keys
/// demand, the last round gives exactly what the search reaches.
pub proof fn lemma_closing_exact(
    limit: u64,
    dp: Seq<(UsedCubes, ValueMap)>,
    dice: Seq<nat>,
    v: u64,
)
    requires
        dice.len() == 3 || dice.len() == 4,
        faces_fit(dice),
        table_ok(dp, dice, limit as nat),
        table_complete(dp, dice.len()),
    ensures
        closing_gives(limit, dp, dice.len(), v) <==> search_reaches(dice, limit as nat, v as nat),
{
    let k = dice.len();
    let lim = limit as nat;
    if closing_gives(limit, dp, k, v) {
        let (a, b) = choose|a: int, b: int|
            0 <= a < dp.len() && 0 <= b < dp.len() && #[trigger] closes(dp[a].0, dp[b].0, k)
                && pair_gives(limit, dp[a].1@, dp[b].1@, v);
        let (r1, r2) = choose|r1: u64, r2: u64|
            dp[a].1@.contains_key(r1) && dp[b].1@.contains_key(r2) && #[trigger] combines(
                lim,
                r1 as nat,
                r2 as nat,
                v as nat,
            );
        assert(entry_ok(dp[a].0, dp[a].1@, dice, lim));
        assert(entry_ok(dp[b].0, dp[b].1@, dice, lim));
        assert(yields(dp[a].0, dice, lim, r1 as nat));
        assert(yields(dp[b].0, dice, lim, r2 as nat));
        assert(joins(dp[a].0, dp[b].0, dice, lim, v as nat));
    }
    if search_reaches(dice, lim, v as nat) {
        let (k1, k2) = choose|k1: UsedCubes, k2: UsedCubes| #[trigger]
            closes(k1, k2, k) && joins(k1, k2, dice, lim, v as nat);
        let (x, y) = choose|x: nat, y: nat|
            yields(k1, dice, lim, x) && yields(k2, dice, lim, y) && #[trigger] combines(
                lim,
                x,
                y,
                v as nat,
            );
        lemma_yields_fits(k1, dice, lim, x);
        lemma_yields_fits(k2, dice, lim, y);
        assert(has_key(dp, k1));
        assert(has_key(dp, k2));
        let a = choose|a: int| 0 <= a < dp.len() && (#[trigger] dp[a]).0 == k1;
        let b = choose|b: int| 0 <= b < dp.len() && (#[trigger] dp[b]).0 == k2;
        assert(entry_ok(dp[a].0, dp[a].1@, dice, lim));
        assert(entry_ok(dp[b].0, dp[b].1@, dice, lim));
        let r1 = x as u64;
        let r2 = y as u64;
        assert(dp[a].1@.contains_key(r1) && dp[b].1@.contains_key(r2));
        assert(combines(lim, r1 as nat, r2 as nat, v as nat));
        assert(pair_gives(limit, dp[a].1@, dp[b].1@, v));
        assert(closes(dp[a].0, dp[b].0, k));
    }
}

/// How many maps the table of the search for `k` dice holds: for three
/// dice the three single dice and the three pairs; for four dice the four
/// single dice, the six pairs and the twelve triples.
pub open spec fn table_size(k: nat) -> nat {
    if k == 4 {
        22
    } else {
        6
    }
}

/// How many maps the pool holds after a search for `k` dice, where pool and
/// table held `held` maps before it: all of them, and no fewer than the
/// table of the search, whose maps all go to the pool.
pub open spec fn pool_after(held: nat, k: nat) -> nat {
    if held >= table_size(k) {
        held
    } else {
        table_size(k)
    }
}

/// The round of the pairs makes one map of each two of the single dice.
pub proof fn lemma_pairs_count(dp: Seq<(UsedCubes, ValueMap)>, k: nat)
    requires
        k == 3 || k == 4,
        dp.len() == k,
        forall|i: int| 0 <= i < k ==> (#[trigger] dp[i]).0 == UsedCubes::OneCube(i as u32),
    ensures
        merges(dp, k as int, false) == (if k == 3 {
            3nat
        } else {
            6nat
        }),
{
    reveal_with_fuel(merges, 6);
    reveal_with_fuel(merges_in_row, 6);
    assert(dp[0].0 == UsedCubes::OneCube(0));
    assert(dp[1].0 == UsedCubes::OneCube(1));
    assert(dp[2].0 == UsedCubes::OneCube(2));
    if k == 4 {
        assert(dp[3].0 == UsedCubes::OneCube(3));
    }
}

/// A single die is merged with the pairs that do not hold it, and with
/// nothing else.
proof fn lemma_triples_row(dp: Seq<(UsedCubes, ValueMap)>, a: int)
    requires
        dp.len() == 10,
        0 <= a < 10,
        forall|i: int| 0 <= i < 4 ==> (#[trigger] dp[i]).0 is OneCube,
        forall|i: int| 4 <= i < 10 ==> (#[trigger] dp[i]).0 is TwoCubes,
    ensures
        merges_in_row(dp, a, 10, true) == merges_pair(dp, a, 4, true) + merges_pair(
            dp,
            a,
            5,
            true,
        ) + merges_pair(dp, a, 6, true) + merges_pair(dp, a, 7, true) + merges_pair(
            dp,
            a,
            8,
            true,
        ) + merges_pair(dp, a, 9, true),
        a >= 4 ==> merges_in_row(dp, a, 10, true) == 0,
{
    reveal_with_fuel(merges_in_row, 11);
    assert(dp[0].0 is OneCube && dp[1].0 is OneCube && dp[2].0 is OneCube && dp[3].0 is OneCube);
    assert(dp[4].0 is TwoCubes && dp[5].0 is TwoCubes && dp[6].0 is TwoCubes);
    assert(dp[7].0 is TwoCubes && dp[8].0 is TwoCubes && dp[9].0 is TwoCubes);
    assert(dp[a].0 is OneCube || dp[a].0 is TwoCubes);
}

/// Of four dice, two are not in a pair.
proof fn lemma_triples_column(dp: Seq<(UsedCubes, ValueMap)>, b: int)
    requires
        dp.len() == 10,
        4 <= b < 10,
        forall|i: int| 0 <= i < 4 ==> (#[trigger] dp[i]).0 == UsedCubes::OneCube(i as u32),
        dp[b].0 is TwoCubes,
        dp[b].0.well_formed(4),
    ensures
        merges_pair(dp, 0, b, true) + merges_pair(dp, 1, b, true) + merges_pair(dp, 2, b, true)
            + merges_pair(dp, 3, b, true) == 2,
{
    assert(dp[0].0 == UsedCubes::OneCube(0));
    assert(dp[1].0 == UsedCubes::OneCube(1));
    assert(dp[2].0 == UsedCubes::OneCube(2));
    assert(dp[3].0 == UsedCubes::OneCube(3));
}

/// The round of the triples over the four single dice and their six pairs
/// makes twelve maps: each pair with each of the two dice that it does not
/// hold.
pub proof fn lemma_triples_count(dp: Seq<(UsedCubes, ValueMap)>)
    requires
        dp.len() == 10,
        forall|i: int| 0 <= i < 4 ==> (#[trigger] dp[i]).0 == UsedCubes::OneCube(i as u32),
        forall|i: int|
            4 <= i < 10 ==> (#[trigger] dp[i]).0 is TwoCubes && dp[i].0.well_formed(4),
    ensures
        merges(dp, 10, true) == 12,
{
    reveal_with_fuel(merges, 11);
    lemma_triples_row(dp, 0);
    lemma_triples_row(dp, 1);
    lemma_triples_row(dp, 2);
    lemma_triples_row(dp, 3);
    lemma_triples_row(dp, 4);
    lemma_triples_row(dp, 5);
    lemma_triples_row(dp, 6);
    lemma_triples_row(dp, 7);
    lemma_triples_row(dp, 8);
    lemma_triples_row(dp, 9);
    lemma_triples_column(dp, 4);
    lemma_triples_column(dp, 5);
    lemma_triples_column(dp, 6);
    lemma_triples_column(dp, 7);
    lemma_triples_column(dp, 8);
    lemma_triples_column(dp, 9);
}

/// What the round of the pairs adds to the single dice are pairs of them.
pub proof fn lemma_pairs_are_pairs(
    limit: u64,
    before: Seq<(UsedCubes, ValueMap)>,
    after: Seq<(UsedCubes, ValueMap)>,
    k: nat,
)
    requires
        k <= 4,
        before.len() == k,
        forall|i: int| 0 <= i < k ==> (#[trigger] before[i]).0 == UsedCubes::OneCube(i as u32),
        table_extends(after, before),
        forall|i: int|
            before.len() <= i < after.len() ==> merged_from(
                limit,
                before,
                #[trigger] after[i],
                false,
            ),
    ensures
        forall|i: int| 0 <= i < k ==> (#[trigger] after[i]).0 == UsedCubes::OneCube(i as u32),
        forall|i: int|
            k <= i < after.len() ==> (#[trigger] after[i]).0 is TwoCubes && after[i].0.well_formed(
                k,
            ),
{
    assert forall|i: int| 0 <= i < k implies (#[trigger] after[i]).0 == UsedCubes::OneCube(
        i as u32,
    ) by {
        assert(after[i] == before[i]);
    }
    assert forall|i: int| k <= i < after.len() implies (#[trigger] after[i]).0 is TwoCubes
        && after[i].0.well_formed(k) by {
        let (a, b) = choose|a: int, b: int|
            0 <= a < before.len() && 0 <= b < before.len() && #[trigger] merged_key(
                before[a].0,
                before[b].0,
                false,
            ) == Some(after[i].0) && is_merged(limit, before[a].1@, before[b].1@, after[i].1@);
        assert(before[a].0 == UsedCubes::OneCube(a as u32));
        assert(before[b].0 == UsedCubes::OneCube(b as u32));
    }
}

} // verus!
