//! Gap analysis: for a set of dice, the widest stretch of a range that the
//! dice do not reach.

use crate::arith::{is_scaled, pow10};
use crate::engine::strictly_increasing;
use crate::fastgame::{DiceAmount, Game, LIMIT, MAX_DICES, shown};
use crate::game::calculation::Calculation;
use crate::order::lemma_move_keeps_filter;
use crate::reach::{all_dice, reachable, witness};
use crate::stages::pool_after;
use itertools::Itertools;
use vstd::prelude::*;

verus! {

/// Half the way from `a` up to `b`, rounded down; 0 where `b` is below `a`.
pub open spec fn margin_of(a: int, b: int) -> int {
    if b >= a {
        (b - a) / 2
    } else {
        0
    }
}

/// The number halfway between `a` and `b`, rounded down.
pub open spec fn midpoint_of(a: int, b: int) -> int {
    (a + b) / 2
}

/// How far apart two numbers are.
pub open spec fn apart(x: int, y: int) -> int {
    if x >= y {
        x - y
    } else {
        y - x
    }
}

/// The end of the pair that is nearer to the midpoint: `a` where it is
/// strictly nearer, else `b`.
pub open spec fn closest_of(a: int, b: int) -> int {
    if apart(midpoint_of(a, b), a) < apart(midpoint_of(a, b), b) {
        a
    } else {
        b
    }
}

/// A gap: its midpoint, its margin and the nearer end.
pub struct Gap {
    pub midpoint: int,
    pub margin: int,
    pub closest: int,
}

/// The gap between `a` and `b`.
pub open spec fn gap_of(a: int, b: int) -> Gap {
    Gap { midpoint: midpoint_of(a, b), margin: margin_of(a, b), closest: closest_of(a, b) }
}

/// The pairs between which a gap is measured, in the order in which they
/// are taken up: each two neighbours of the rising list `s`, then the lower
/// bound with the first number, then the last number with the upper bound.
pub open spec fn candidate_pairs(s: Seq<u16>, min: u16, max: u16) -> Seq<(int, int)>
    recommends
        s.len() > 0,
{
    Seq::new((s.len() - 1) as nat, |i: int| (s[i] as int, s[i + 1] as int)).push(
        (min as int, s.first() as int),
    ).push((s.last() as int, max as int))
}

/// The gap with the largest margin among the first `n` pairs, of which
/// there is at least one: the gap of the first pair, unless a later pair has
/// a strictly larger margin than all before it.
pub open spec fn best_of(pairs: Seq<(int, int)>, n: nat) -> Gap
    recommends
        1 <= n <= pairs.len(),
    decreases n,
{
    if n <= 1 {
        gap_of(pairs[0].0, pairs[0].1)
    } else {
        let before = best_of(pairs, (n - 1) as nat);
        let (a, b) = pairs[n - 1];
        if margin_of(a, b) > before.margin {
            gap_of(a, b)
        } else {
            before
        }
    }
}

/// The widest gap of the rising list `s` within the bounds.
pub open spec fn best_gap(s: Seq<u16>, min: u16, max: u16) -> Gap {
    let pairs = candidate_pairs(s, min, max);
    best_of(pairs, pairs.len())
}

/// The gap with the largest margin is the gap of a pair: of the earliest
/// pair whose margin no other pair exceeds.
pub proof fn lemma_best_of_is_first_largest(pairs: Seq<(int, int)>, n: nat)
    requires
        1 <= n <= pairs.len(),
    ensures
        forall|i: int| 0 <= i < n ==> margin_of(pairs[i].0, pairs[i].1) <= best_of(pairs, n).margin,
        exists|i: int|
            0 <= i < n && best_of(pairs, n) == #[trigger] gap_of(pairs[i].0, pairs[i].1) && forall|
                j: int,
            |
                0 <= j < i ==> margin_of(pairs[j].0, pairs[j].1) < best_of(pairs, n).margin,
    decreases n,
{
    if n == 1 {
        assert(best_of(pairs, n) == gap_of(pairs[0].0, pairs[0].1));
    } else {
        lemma_best_of_is_first_largest(pairs, (n - 1) as nat);
        let before = best_of(pairs, (n - 1) as nat);
        let (a, b) = pairs[n - 1];
        if margin_of(a, b) > before.margin {
            assert(best_of(pairs, n) == gap_of(pairs[n - 1].0, pairs[n - 1].1));
        } else {
            let i = choose|i: int|
                0 <= i < n - 1 && before == #[trigger] gap_of(pairs[i].0, pairs[i].1) && forall|
                    j: int,
                |
                    0 <= j < i ==> margin_of(pairs[j].0, pairs[j].1) < before.margin;
            assert(best_of(pairs, n) == gap_of(pairs[i].0, pairs[i].1));
        }
    }
}

/// No number comes before a smaller one.
pub open spec fn rising(s: Seq<u16>) -> bool {
    forall|i: int, j: int| 0 <= i <= j < s.len() ==> s[i] <= s[j]
}

/// For a rising list within its bounds the widest gap is the gap of one of
/// the pairs, no pair has a larger margin, and its midpoint and its nearer
/// end lie within the bounds.
pub proof fn lemma_best_gap_is_of_a_pair(s: Seq<u16>, min: u16, max: u16)
    requires
        s.len() > 0,
        rising(s),
        forall|i: int| 0 <= i < s.len() ==> min <= #[trigger] s[i] <= max,
    ensures
        exists|i: int|
            0 <= i < candidate_pairs(s, min, max).len() && best_gap(s, min, max)
                == #[trigger] gap_of(
                candidate_pairs(s, min, max)[i].0,
                candidate_pairs(s, min, max)[i].1,
            ),
        forall|i: int|
            0 <= i < candidate_pairs(s, min, max).len() ==> margin_of(
                candidate_pairs(s, min, max)[i].0,
                candidate_pairs(s, min, max)[i].1,
            ) <= best_gap(s, min, max).margin,
        min <= best_gap(s, min, max).midpoint <= max,
        min <= best_gap(s, min, max).closest <= max,
{
    let pairs = candidate_pairs(s, min, max);
    lemma_best_of_is_first_largest(pairs, pairs.len());
    let i = choose|i: int|
        0 <= i < pairs.len() && best_of(pairs, pairs.len()) == #[trigger] gap_of(
            pairs[i].0,
            pairs[i].1,
        );
    let (a, b) = pairs[i];
    if i < s.len() - 1 {
        assert(pairs[i] == (s[i] as int, s[i + 1] as int));
    } else if i == s.len() - 1 {
        assert(pairs[i] == (min as int, s[0] as int));
    } else {
        assert(pairs[i] == (s[s.len() - 1] as int, max as int));
    }
    assert(min <= a <= b <= max);
}

/// A gap as the three machine numbers in which it is handed out: midpoint,
/// margin, nearer end.
pub open spec fn as_gap(r: (u16, u16, u16)) -> Gap {
    Gap { midpoint: r.0 as int, margin: r.1 as int, closest: r.2 as int }
}

/// The gap between `a` and `b`: its midpoint, its margin and the nearer
/// end.
fn gap_between(a: u16, b: u16) -> (r: (u16, u16, u16))
    ensures
        as_gap(r) == gap_of(a as int, b as int),
{
    let midpoint: u16 = ((a as u32 + b as u32) / 2) as u16;
    let margin: u16 = if b >= a {
        (b - a) / 2
    } else {
        0
    };
    let to_a: u16 = if midpoint >= a {
        midpoint - a
    } else {
        a - midpoint
    };
    let to_b: u16 = if midpoint >= b {
        midpoint - b
    } else {
        b - midpoint
    };
    let closest = if to_a < to_b {
        a
    } else {
        b
    };
    (midpoint, margin, closest)
}

/// The better of the gap `best` and the gap between `a` and `b`: the second
/// only where its margin is larger.
fn consider(a: u16, b: u16, best: (u16, u16, u16)) -> (r: (u16, u16, u16))
    ensures
        as_gap(r) == if margin_of(a as int, b as int) > best.1 {
            gap_of(a as int, b as int)
        } else {
            as_gap(best)
        },
{
    let gap = gap_between(a, b);
    if gap.1 > best.1 {
        gap
    } else {
        best
    }
}

/// The widest gap of the rising list `solutions` within the bounds `min`
/// and `max`: its midpoint, its margin and the nearer end of the pair. The
/// pairs are each two neighbours of the list, then the lower bound with the
/// first number, then the last number with the upper bound; of pairs with
/// one margin the first counts.
pub fn find_max_midpoint(solutions: &[u16], min: u16, max: u16) -> (r: (u16, u16, u16))
    requires
        solutions@.len() > 0,
    ensures
        as_gap(r) == best_gap(solutions@, min, max),
{
    let ghost pairs = candidate_pairs(solutions@, min, max);
    let n = solutions.len();
    proof {
        assert(pairs.len() == n + 1);
        assert(pairs[n - 1] == (min as int, solutions@[0] as int));
        assert(pairs[n as int] == (solutions@[n - 1] as int, max as int));
    }
    let mut best: (u16, u16, u16);
    if n == 1 {
        best = gap_between(min, solutions[0]);
    } else {
        proof {
            assert(pairs[0] == (solutions@[0] as int, solutions@[1] as int));
        }
        best = gap_between(solutions[0], solutions[1]);
        let mut i: usize = 1;
        while i + 1 < n
            invariant
                n == solutions@.len(),
                1 <= i <= n - 1,
                pairs == candidate_pairs(solutions@, min, max),
                as_gap(best) == best_of(pairs, i as nat),
            decreases n - i,
        {
            proof {
                assert(pairs[i as int] == (solutions@[i as int] as int, solutions@[i + 1] as int));
            }
            best = consider(solutions[i], solutions[i + 1], best);
            i = i + 1;
        }
        best = consider(min, solutions[0], best);
    }
    assert(as_gap(best) == best_of(pairs, n as nat));
    best = consider(solutions[n - 1], max, best);
    assert(as_gap(best) == best_of(pairs, (n + 1) as nat));
    best
}

/// The face of die `i` in the throw with the number `index`, where the
/// throws of dice with six faces are counted with the first die changing
/// fastest.
pub open spec fn die_at(index: nat, i: nat) -> nat
    decreases i,
{
    if i == 0 {
        index % 6 + 1
    } else {
        die_at(index / 6, (i - 1) as nat)
    }
}

/// The throw of four dice with the number `index`.
pub fn permutation_from_index(index: usize) -> (permutation: [u8; MAX_DICES])
    ensures
        forall|i: int| 0 <= i < 4 ==> #[trigger] permutation@[i] == die_at(index as nat, i as nat),
{
    let first: u8 = (index % 6) as u8 + 1;
    let rest = index / 6;
    let second: u8 = (rest % 6) as u8 + 1;
    let rest = rest / 6;
    let third: u8 = (rest % 6) as u8 + 1;
    let rest = rest / 6;
    let fourth: u8 = (rest % 6) as u8 + 1;
    proof {
        reveal_with_fuel(die_at, 5);
    }
    [first, second, third, fourth]
}

/// What the analysis of one set of dice gives.
#[derive(Debug, Clone)]
pub struct GapResult {
    /// The dice; a fourth of 0 where three are in play.
    pub permutation: [u8; MAX_DICES],
    /// The numbers of the range that the dice reach, rising.
    pub solutions: Vec<u16>,
    /// The midpoint of the widest gap.
    pub midpoint: u16,
    /// The margin of the widest gap.
    pub distance: u16,
    /// The end of the widest gap that is nearer to its midpoint.
    pub closest: u16,
}

impl GapResult {
    /// The record of `permutation` before its analysis.
    pub fn new(permutation: [u8; MAX_DICES]) -> (record: Self)
        ensures
            record.permutation == permutation,
            record.solutions@.len() == 0,
            record.midpoint == 0,
            record.distance == 0,
            record.closest == 0,
    {
        GapResult { permutation, solutions: Vec::new(), midpoint: 0, distance: 0, closest: 0 }
    }

    /// The record holds what the first `k` of its dice reach from `min` up
    /// to, not including, `max`, and the widest gap of that.
    pub open spec fn analysed(self, k: nat, min: u16, max: u16) -> bool {
        &&& strictly_increasing(self.solutions@)
        &&& forall|t: u16|
            self.solutions@.contains(t) <==> min <= t < max && reachable(
                shown(self.permutation, k),
                LIMIT as nat,
                t as nat,
            )
        &&& self.solutions@.len() > 0
        &&& as_gap((self.midpoint, self.distance, self.closest)) == best_gap(
            self.solutions@,
            min,
            max,
        )
    }
}

/// Analyses the dice of `gap_result` with the engine `game`: the record
/// receives the numbers from `min` up to, not including, `max` that the
/// dice in play reach, and the widest gap among them. Where the dice reach
/// no number of the range there is no gap to measure: the answer is `false`
/// and the record holds the empty list.
pub fn analyse(game: &mut Game, gap_result: &mut GapResult, min: u16, max: u16) -> (reached: bool)
    ensures
        final(gap_result).permutation == old(gap_result).permutation,
        reached ==> final(gap_result).analysed(old(game).num_dices.count(), min, max),
        !reached ==> final(gap_result).solutions@.len() == 0,
        !reached ==> final(gap_result).midpoint == old(gap_result).midpoint,
        !reached ==> final(gap_result).distance == old(gap_result).distance,
        !reached ==> final(gap_result).closest == old(gap_result).closest,
        reached <==> exists|t: u16|
            min <= t < max && reachable(
                shown(old(gap_result).permutation, old(game).num_dices.count()),
                LIMIT as nat,
                t as nat,
            ),
        final(game).num_dices == old(game).num_dices,
        final(game).dp@.len() == 0,
        final(game).result_map_pool@.len() == pool_after(
            old(game).result_map_pool@.len() + old(game).dp@.len(),
            old(game).num_dices.count(),
        ),
        old(game).at_rest() ==> final(game).at_rest(),
{
    let ghost k = game.num_dices.count();
    match game.num_dices {
        DiceAmount::Three => game.solve_three_fast(
            min,
            max,
            gap_result.permutation,
            &mut gap_result.solutions,
        ),
        DiceAmount::Four => game.solve_four_fast(
            min,
            max,
            gap_result.permutation,
            &mut gap_result.solutions,
        ),
    }
    proof {
        let found = gap_result.solutions@;
        if found.len() > 0 {
            assert(found.contains(found[0]));
        }
        if exists|t: u16|
            min <= t < max && reachable(shown(gap_result.permutation, k), LIMIT as nat, t as nat) {
            let t = choose|t: u16|
                min <= t < max && reachable(
                    shown(gap_result.permutation, k),
                    LIMIT as nat,
                    t as nat,
                );
            assert(found.contains(t));
        }
    }
    if gap_result.solutions.len() == 0 {
        false
    } else {
        let (midpoint, distance, closest) = find_max_midpoint(
            gap_result.solutions.as_slice(),
            min,
            max,
        );
        gap_result.midpoint = midpoint;
        gap_result.distance = distance;
        gap_result.closest = closest;
        true
    }
}

/// The lowest face of a die.
pub const LOWEST_FACE: u8 = 1;

/// The highest face of a die.
pub const HIGHEST_FACE: u8 = 6;

/// `s` names `k` numbers from `low` to `high`, none before a smaller one.
pub open spec fn is_pick(s: Seq<u8>, low: u8, high: u8, k: nat) -> bool {
    &&& s.len() == k
    &&& forall|i: int| 0 <= i < s.len() ==> low <= #[trigger] s[i] <= high
    &&& forall|i: int, j: int| 0 <= i < j < s.len() ==> s[i] <= s[j]
}

/// `s` names `k` faces of a die, none before a smaller one.
pub open spec fn is_face_multiset(s: Seq<u8>, k: nat) -> bool {
    is_pick(s, LOWEST_FACE, HIGHEST_FACE, k)
}

/// `a` comes before `b` in the order of the dictionary.
pub open spec fn lex_below(a: Seq<u8>, b: Seq<u8>) -> bool {
    exists|p: int|
        0 <= p < a.len() && p < b.len() && #[trigger] a[p] < b[p] && forall|q: int|
            0 <= q < p ==> a[q] == b[q]
}

/// Every way to pick `k` of the numbers from `low` to `high` where the
/// order does not count and a number may be picked more than once.
///
/// Trusted: `itertools::Itertools::combinations_with_replacement` on the
/// range from `low` to `high`. The contract says what the crate's source
/// shows: each combination has `k` numbers of the range in rising order,
/// the combinations come in the order of the dictionary, and none is
/// missing.
#[verifier::external_body]
fn face_multisets(low: u8, high: u8, k: usize) -> (all: Vec<Vec<u8>>)
    requires
        k <= MAX_DICES,
    ensures
        forall|i: int| 0 <= i < all@.len() ==> is_pick(#[trigger] all@[i]@, low, high, k as nat),
        forall|i: int, j: int|
            0 <= i < j < all@.len() ==> lex_below(#[trigger] all@[i]@, #[trigger] all@[j]@),
        forall|s: Seq<u8>|
            is_pick(s, low, high, k as nat) ==> exists|i: int|
                0 <= i < all@.len() && #[trigger] all@[i]@ == s,
{
    (low..=high).combinations_with_replacement(k).collect()
}

/// The sum of the first `k` entries.
pub open spec fn sum_of_faces(dice: Seq<nat>, k: nat) -> nat
    decreases k,
{
    if k == 0 {
        0
    } else {
        sum_of_faces(dice, (k - 1) as nat) + dice[k - 1]
    }
}

/// The sum of all faces is reached: by adding them up.
pub proof fn lemma_sum_reachable(dice: Seq<nat>, limit: nat)
    requires
        dice.len() == 3 || dice.len() == 4,
        sum_of_faces(dice, dice.len()) <= limit,
        forall|i: int| 0 <= i < dice.len() ==> #[trigger] dice[i] <= u64::MAX,
    ensures
        reachable(dice, limit, sum_of_faces(dice, dice.len())),
{
    reveal_with_fuel(sum_of_faces, 5);
    reveal_with_fuel(Calculation::indices, 5);
    reveal_with_fuel(Calculation::distinct, 5);
    reveal_with_fuel(Calculation::eval, 5);
    reveal_with_fuel(Calculation::leaves_from, 5);
    assert(pow10(0) == 1);
    assert forall|i: int| 0 <= i < dice.len() implies is_scaled(
        #[trigger] dice[i],
        dice[i],
    ) by {
        assert(dice[i] == dice[i] * pow10(0));
    }
    let c0 = Calculation::Cube(0, dice[0] as u64);
    let c1 = Calculation::Cube(1, dice[1] as u64);
    let c2 = Calculation::Cube(2, dice[2] as u64);
    let two = Calculation::Add(Box::new(c0), Box::new(c1));
    let three = Calculation::Add(Box::new(two), Box::new(c2));
    assert(two.indices() =~= set![0nat, 1nat]);
    assert(three.indices() =~= all_dice(3));
    if dice.len() == 3 {
        assert(witness(three, dice, limit, all_dice(3), sum_of_faces(dice, 3)));
    } else {
        let c3 = Calculation::Cube(3, dice[3] as u64);
        let four = Calculation::Add(Box::new(three), Box::new(c3));
        assert(four.indices() =~= all_dice(4));
        assert(witness(four, dice, limit, all_dice(4), sum_of_faces(dice, 4)));
    }
}

/// The dice of a record, as the faces in play.
pub open spec fn faces_in_play(record: GapResult, k: nat) -> Seq<u8> {
    record.permutation@.take(k as int)
}

/// A record for the faces `faces`, filled up with 0 to four dice.
fn record_for(faces: &Vec<u8>) -> (record: GapResult)
    requires
        faces@.len() <= MAX_DICES,
    ensures
        record.permutation@.take(faces@.len() as int) == faces@,
        forall|i: int| faces@.len() <= i < 4 ==> #[trigger] record.permutation@[i] == 0,
        record.solutions@.len() == 0,
        record.midpoint == 0,
        record.distance == 0,
        record.closest == 0,
{
    let k = faces.len();
    let first: u8 = if k > 0 {
        faces[0]
    } else {
        0
    };
    let second: u8 = if k > 1 {
        faces[1]
    } else {
        0
    };
    let third: u8 = if k > 2 {
        faces[2]
    } else {
        0
    };
    let fourth: u8 = if k > 3 {
        faces[3]
    } else {
        0
    };
    let record = GapResult::new([first, second, third, fourth]);
    proof {
        assert(record.permutation@.take(k as int) =~= faces@);
    }
    record
}

/// The records list every way to pick `k` faces, each once, in the order
/// of the dictionary.
pub open spec fn every_pick(records: Seq<GapResult>, k: nat) -> bool {
    &&& forall|i: int|
        0 <= i < records.len() ==> is_face_multiset(faces_in_play(#[trigger] records[i], k), k)
    &&& forall|i: int, j: int|
        0 <= i < j < records.len() ==> lex_below(
            faces_in_play(#[trigger] records[i], k),
            faces_in_play(#[trigger] records[j], k),
        )
    &&& forall|s: Seq<u8>|
        is_face_multiset(s, k) ==> exists|i: int|
            0 <= i < records.len() && faces_in_play(#[trigger] records[i], k) == s
}

/// The records list every way to pick `k` faces, in the order of the
/// dictionary, each analysed over the range from `min` to `max`.
pub open spec fn all_analysed(records: Seq<GapResult>, k: nat, min: u16, max: u16) -> bool {
    &&& every_pick(records, k)
    &&& forall|i: int| 0 <= i < records.len() ==> (#[trigger] records[i]).analysed(k, min, max)
}

/// A record for each way to pick the dice, none analysed yet: the dice not
/// in play are 0, and so are the numbers of the gap.
pub fn blank_records(num_dices: DiceAmount) -> (records: Vec<GapResult>)
    ensures
        every_pick(records@, num_dices.count()),
        forall|i: int, j: int|
            0 <= i < records@.len() && num_dices.count() <= j < 4
                ==> #[trigger] records@[i].permutation@[j] == 0,
        forall|i: int|
            0 <= i < records@.len() ==> (#[trigger] records@[i]).solutions@.len() == 0
                && records@[i].midpoint == 0 && records@[i].distance == 0 && records@[i].closest
                == 0,
{
    let k: usize = match num_dices {
        DiceAmount::Three => 3,
        DiceAmount::Four => 4,
    };
    let all = face_multisets(LOWEST_FACE, HIGHEST_FACE, k);
    let mut records: Vec<GapResult> = Vec::new();
    let mut i: usize = 0;
    while i < all.len()
        invariant
            i <= all@.len(),
            k == num_dices.count(),
            records@.len() == i,
            forall|j: int| 0 <= j < all@.len() ==> is_face_multiset(#[trigger] all@[j]@, k as nat),
            forall|j: int|
                0 <= j < i ==> faces_in_play(#[trigger] records@[j], k as nat) == all@[j]@,
            forall|a: int, b: int|
                0 <= a < i && k <= b < 4 ==> #[trigger] records@[a].permutation@[b] == 0,
            forall|j: int|
                0 <= j < i ==> (#[trigger] records@[j]).solutions@.len() == 0
                    && records@[j].midpoint == 0 && records@[j].distance == 0
                    && records@[j].closest == 0,
        decreases all@.len() - i,
    {
        proof {
            assert(is_face_multiset(all@[i as int]@, k as nat));
        }
        let record = record_for(&all[i]);
        records.push(record);
        i = i + 1;
    }
    proof {
        let rs = records@;
        let kk = k as nat;
        assert forall|s: Seq<u8>| is_face_multiset(s, kk) implies exists|j: int|
            0 <= j < rs.len() && faces_in_play(#[trigger] rs[j], kk) == s by {
            let j = choose|j: int| 0 <= j < all@.len() && #[trigger] all@[j]@ == s;
            assert(faces_in_play(rs[j], kk) == s);
        }
        assert forall|a: int, b: int| 0 <= a < b < rs.len() implies lex_below(
            faces_in_play(#[trigger] rs[a], kk),
            faces_in_play(#[trigger] rs[b], kk),
        ) by {
            assert(lex_below(all@[a]@, all@[b]@));
        }
        assert forall|a: int| 0 <= a < rs.len() implies is_face_multiset(
            faces_in_play(#[trigger] rs[a], kk),
            kk,
        ) by {
            assert(is_face_multiset(all@[a]@, kk));
        }
    }
    records
}

/// The same dice in the same places.
pub open spec fn same_dice(records: Seq<GapResult>, others: Seq<GapResult>) -> bool {
    &&& records.len() == others.len()
    &&& forall|i: int|
        0 <= i < records.len() ==> (#[trigger] records[i]).permutation == others[i].permutation
}

/// Lists of the same dice list the same picks.
pub proof fn lemma_same_dice_every_pick(
    records: Seq<GapResult>,
    others: Seq<GapResult>,
    k: nat,
)
    requires
        same_dice(records, others),
        every_pick(others, k),
    ensures
        every_pick(records, k),
{
    assert forall|i: int| 0 <= i < records.len() implies faces_in_play(
        #[trigger] records[i],
        k,
    ) == faces_in_play(others[i], k) by {}
    assert forall|s: Seq<u8>| is_face_multiset(s, k) implies exists|i: int|
        0 <= i < records.len() && faces_in_play(#[trigger] records[i], k) == s by {
        let i = choose|i: int| 0 <= i < others.len() && faces_in_play(#[trigger] others[i], k) == s;
        assert(faces_in_play(records[i], k) == s);
    }
    assert forall|i: int, j: int| 0 <= i < j < records.len() implies lex_below(
        faces_in_play(#[trigger] records[i], k),
        faces_in_play(#[trigger] records[j], k),
    ) by {
        assert(lex_below(faces_in_play(others[i], k), faces_in_play(others[j], k)));
    }
    assert forall|i: int| 0 <= i < records.len() implies is_face_multiset(
        faces_in_play(#[trigger] records[i], k),
        k,
    ) by {
        assert(is_face_multiset(faces_in_play(others[i], k), k));
    }
}

/// The gap analysis over every way to pick the dice, for a range that
/// starts at 0 and ends above every sum of four faces.
fn find_distances(num_dices: DiceAmount, max: u16) -> (records: Vec<GapResult>)
    requires
        max > 24,
    ensures
        all_analysed(records@, num_dices.count(), 0, max),
{
    let ghost k = num_dices.count();
    let mut records = blank_records(num_dices);
    let ghost blank = records@;
    let mut game = Game::new(num_dices);
    let count = records.len();
    let mut i: usize = 0;
    while i < count
        invariant
            i <= count,
            count == records@.len(),
            k == num_dices.count(),
            max > 24,
            game.num_dices == num_dices,
            game.at_rest(),
            every_pick(blank, k),
            same_dice(records@, blank),
            forall|j: int| 0 <= j < i ==> (#[trigger] records@[j]).analysed(k, 0, max),
        decreases count - i,
    {
        let ghost before = records@;
        let mut record = records.remove(i);
        let ghost dice = shown(record.permutation, k);
        proof {
            let faces = faces_in_play(blank[i as int], k);
            assert(is_face_multiset(faces, k));
            assert(record.permutation == blank[i as int].permutation);
            assert forall|j: int| 0 <= j < k implies 1 <= #[trigger] dice[j] <= 6 by {
                assert(faces[j] == record.permutation@[j]);
            }
            reveal_with_fuel(sum_of_faces, 5);
            lemma_sum_reachable(dice, LIMIT as nat);
        }
        let reached = analyse(&mut game, &mut record, 0, max);
        proof {
            let total = sum_of_faces(dice, k);
            reveal_with_fuel(sum_of_faces, 5);
            let t = total as u16;
            assert(0 <= t && t < max && reachable(dice, LIMIT as nat, t as nat));
            assert(reached);
        }
        records.insert(i, record);
        proof {
            let after = records@;
            assert forall|j: int| 0 <= j < count implies (#[trigger] after[j]).permutation
                == blank[j].permutation by {
                if j < i {
                    assert(after[j] == before[j]);
                } else if j > i {
                    assert(after[j] == before[j]);
                }
            }
            assert forall|j: int| 0 <= j < i + 1 implies (#[trigger] after[j]).analysed(
                k,
                0,
                max,
            ) by {
                if j < i {
                    assert(after[j] == before[j]);
                }
            }
        }
        i = i + 1;
    }
    proof {
        lemma_same_dice_every_pick(records@, blank, k);
    }
    records
}

/// The gap analysis of three dice over the numbers below 100: one record
/// for each way to pick three faces.
pub fn find_3_distances() -> (records: Vec<GapResult>)
    ensures
        all_analysed(records@, 3, 0, 100),
{
    find_distances(DiceAmount::Three, 100)
}

/// The gap analysis of four dice over the numbers below 1000: one record
/// for each way to pick four faces.
pub fn find_4_distances() -> (records: Vec<GapResult>)
    ensures
        all_analysed(records@, 4, 0, 1000),
{
    find_distances(DiceAmount::Four, 1000)
}

/// No record comes before one with a larger margin.
pub open spec fn sorted_by_margin(s: Seq<GapResult>) -> bool {
    forall|i: int, j: int| 0 <= i < j < s.len() ==> s[i].distance >= s[j].distance
}

/// The records with the margin `d`, in their order.
pub open spec fn with_margin(s: Seq<GapResult>, d: u16) -> Seq<GapResult> {
    s.filter(|r: GapResult| r.distance == d)
}

/// Sorts the records by falling margin. Records of one margin keep their
/// order.
pub fn sort_by_margin(records: &mut Vec<GapResult>)
    ensures
        sorted_by_margin(final(records)@),
        final(records)@.to_multiset() == old(records)@.to_multiset(),
        forall|d: u16| with_margin(final(records)@, d) == with_margin(old(records)@, d),
{
    let n = records.len();
    let mut i: usize = 0;
    while i < n
        invariant
            i <= n,
            records@.len() == n,
            forall|a: int, b: int|
                0 <= a < b < i ==> records@[a].distance >= records@[b].distance,
            records@.to_multiset() == old(records)@.to_multiset(),
            forall|d: u16| with_margin(records@, d) == with_margin(old(records)@, d),
        decreases n - i,
    {
        let ghost before = records@;
        let record = records.remove(i);
        let mut j: usize = 0;
        while j < i && records[j].distance >= record.distance
            invariant
                j <= i < n,
                records@ == before.remove(i as int),
                before.len() == n,
                forall|a: int| 0 <= a < j ==> (#[trigger] records@[a]).distance >= record.distance,
            decreases i - j,
        {
            j = j + 1;
        }
        records.insert(j, record);
        proof {
            vstd::seq_lib::to_multiset_remove(before, i as int);
            vstd::seq_lib::to_multiset_insert(before.remove(i as int), j as int, record);
            assert(before.to_multiset().count(record) > 0) by {
                before.to_multiset_ensures();
                assert(before.contains(record));
            }
            assert(records@.to_multiset() =~= before.to_multiset());
            assert forall|a: int| j <= a < i implies (#[trigger] before[a]).distance
                < before[i as int].distance by {
                assert(before[a] == before.remove(i as int)[a]);
                assert(before[j as int] == before.remove(i as int)[j as int]);
            }
            assert forall|d: u16| with_margin(records@, d) == with_margin(old(records)@, d) by {
                lemma_move_keeps_filter(
                    before,
                    i as int,
                    j as int,
                    |r: GapResult| r.distance == d,
                );
            }
            assert forall|a: int, b: int| 0 <= a < b < i + 1 implies records@[a].distance
                >= records@[b].distance by {
                let after = records@;
                if b < j {
                    assert(after[a] == before[a] && after[b] == before[b]);
                } else if b == j {
                    assert(after[a] == before.remove(i as int)[a]);
                } else {
                    assert(after[b] == before[b - 1]);
                    if a < j {
                        assert(after[a] == before[a]);
                    } else if a == j {
                        assert(before[b - 1].distance <= before[j as int].distance);
                    } else {
                        assert(after[a] == before[a - 1]);
                    }
                }
            }
        }
        i = i + 1;
    }
}

} // verus!
