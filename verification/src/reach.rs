//! What a set of dice reaches: stated over computations, and over the maps
//! that the staged search builds, with the proof that both say the same.

use crate::arith::{
    combines,
    difference_of,
    is_scaled,
    lemma_combines_symmetric,
    pow10,
    product_of,
    quotient_of,
    scalings,
    sum_of,
};
use crate::combine::joined;
use crate::fastgame::UsedCubes;
use crate::game::calculation::Calculation;
use vstd::prelude::*;

verus! {

/// `e` obeys the rules of the search under `limit`, gives `v`, and its
/// leaves are the dice `s` of `dice`, each once.
pub open spec fn witness(e: Calculation, dice: Seq<nat>, limit: nat, s: Set<nat>, v: nat) -> bool {
    &&& e.eval(limit) == Some(v)
    &&& e.distinct()
    &&& e.indices() == s
    &&& e.leaves_from(dice)
}

/// Some computation over exactly the dice `s` gives `v`.
pub open spec fn expressible(dice: Seq<nat>, limit: nat, s: Set<nat>, v: nat) -> bool {
    exists|e: Calculation| witness(e, dice, limit, s, v)
}

/// The positions of `k` dice.
pub open spec fn all_dice(k: nat) -> Set<nat> {
    Set::new(|i: nat| i < k)
}

/// Some computation that uses every die of `dice` exactly once gives `v`.
pub open spec fn reachable(dice: Seq<nat>, limit: nat, v: nat) -> bool {
    expressible(dice, limit, all_dice(dice.len()), v)
}

/// What the map of die `i` holds.
pub open spec fn yields_one(dice: Seq<nat>, i: nat, v: nat) -> bool {
    i < dice.len() && is_scaled(dice[i as int], v)
}

/// What the map of the dice `i` and `j` holds.
pub open spec fn yields_two(dice: Seq<nat>, limit: nat, i: nat, j: nat, v: nat) -> bool {
    exists|x: nat, y: nat|
        yields_one(dice, i, x) && yields_one(dice, j, y) && #[trigger] combines(limit, x, y, v)
}

/// What the map of die `a` merged with the pair `b`, `c` holds.
pub open spec fn yields_three(
    dice: Seq<nat>,
    limit: nat,
    a: nat,
    b: nat,
    c: nat,
    v: nat,
) -> bool {
    exists|x: nat, y: nat|
        yields_one(dice, a, x) && yields_two(dice, limit, b, c, y) && #[trigger] combines(
            limit,
            x,
            y,
            v,
        )
}

/// What the map under `key` holds.
pub open spec fn yields(key: UsedCubes, dice: Seq<nat>, limit: nat, v: nat) -> bool {
    match key {
        UsedCubes::OneCube(i) => yields_one(dice, i as nat, v),
        UsedCubes::TwoCubes(i, j) => yields_two(dice, limit, i as nat, j as nat, v),
        UsedCubes::ThreeCubes(a, b, c) => yields_three(
            dice,
            limit,
            a as nat,
            b as nat,
            c as nat,
            v,
        ),
    }
}

/// One step gives `v` for a number of the map under `k1` and a number of the
/// map under `k2`.
pub open spec fn joins(k1: UsedCubes, k2: UsedCubes, dice: Seq<nat>, limit: nat, v: nat) -> bool {
    exists|x: nat, y: nat|
        yields(k1, dice, limit, x) && yields(k2, dice, limit, y) && #[trigger] combines(
            limit,
            x,
            y,
            v,
        )
}

/// The two keys together use each of `k` dice once, and they are a pair that
/// the last round of the search takes up: one die and a pair for three dice;
/// two pairs, or one die and a triple, for four.
pub open spec fn closes(k1: UsedCubes, k2: UsedCubes, k: nat) -> bool {
    &&& k1.well_formed(k)
    &&& k2.well_formed(k)
    &&& k1.dice().disjoint(k2.dice())
    &&& match (k1, k2) {
        (UsedCubes::OneCube(_), UsedCubes::TwoCubes(_, _)) => k == 3,
        (UsedCubes::TwoCubes(_, _), UsedCubes::TwoCubes(_, _)) => k == 4,
        (UsedCubes::OneCube(_), UsedCubes::ThreeCubes(_, _, _)) => k == 4,
        _ => false,
    }
}

/// The last round of the search meets `v`.
pub open spec fn search_reaches(dice: Seq<nat>, limit: nat, v: nat) -> bool {
    exists|k1: UsedCubes, k2: UsedCubes| #[trigger]
        closes(k1, k2, dice.len()) && joins(k1, k2, dice, limit, v)
}

/// The faces are small enough for every scaling to be a machine number.
pub open spec fn faces_fit(dice: Seq<nat>) -> bool {
    forall|i: int| 0 <= i < dice.len() ==> #[trigger] dice[i] * 10_000_000 <= u64::MAX
}

/// A scaled face is a machine number.
pub proof fn lemma_scaled_fits(face: nat, v: nat)
    requires
        face * 10_000_000 <= u64::MAX,
        is_scaled(face, v),
    ensures
        v <= u64::MAX,
{
    reveal_with_fuel(pow10, 9);
    let p = choose|p: nat| p < scalings() && v == face * #[trigger] pow10(p);
    assert(pow10(p) <= 10_000_000);
    assert(face * pow10(p) <= face * 10_000_000) by (nonlinear_arith)
        requires
            pow10(p) <= 10_000_000,
    ;
}

/// One step on machine numbers gives a machine number.
pub proof fn lemma_combines_fits(limit: nat, x: nat, y: nat, v: nat)
    requires
        limit <= u64::MAX,
        x <= u64::MAX,
        y <= u64::MAX,
        combines(limit, x, y, v),
    ensures
        v <= u64::MAX,
{
    if quotient_of(x, y) == Some(v) {
        assert(x / y <= x) by (nonlinear_arith)
            requires
                y > 0,
        ;
    }
    if quotient_of(y, x) == Some(v) {
        assert(y / x <= y) by (nonlinear_arith)
            requires
                x > 0,
        ;
    }
}

/// Every number of a map is a machine number.
pub proof fn lemma_yields_fits(key: UsedCubes, dice: Seq<nat>, limit: nat, v: nat)
    requires
        faces_fit(dice),
        limit <= u64::MAX,
        yields(key, dice, limit, v),
    ensures
        v <= u64::MAX,
    decreases key.size(),
{
    match key {
        UsedCubes::OneCube(i) => {
            lemma_scaled_fits(dice[i as int], v);
        },
        UsedCubes::TwoCubes(i, j) => {
            let (x, y) = choose|x: nat, y: nat|
                yields_one(dice, i as nat, x) && yields_one(dice, j as nat, y)
                    && #[trigger] combines(limit, x, y, v);
            lemma_scaled_fits(dice[i as int], x);
            lemma_scaled_fits(dice[j as int], y);
            lemma_combines_fits(limit, x, y, v);
        },
        UsedCubes::ThreeCubes(a, b, c) => {
            let (x, y) = choose|x: nat, y: nat|
                yields_one(dice, a as nat, x) && yields_two(dice, limit, b as nat, c as nat, y)
                    && #[trigger] combines(limit, x, y, v);
            lemma_scaled_fits(dice[a as int], x);
            lemma_yields_fits(UsedCubes::TwoCubes(b, c), dice, limit, y);
            lemma_combines_fits(limit, x, y, v);
        },
    }
}

/// Two computations over separate dice, joined by one step, are a
/// computation over both sets of dice.
pub proof fn lemma_join_witness(
    dice: Seq<nat>,
    limit: nat,
    ea: Calculation,
    sa: Set<nat>,
    a: nat,
    eb: Calculation,
    sb: Set<nat>,
    b: nat,
    v: nat,
    e: Calculation,
)
    requires
        witness(ea, dice, limit, sa, a),
        witness(eb, dice, limit, sb, b),
        sa.disjoint(sb),
        joined(limit, a, ea, b, eb, v, e) || joined(limit, b, eb, a, ea, v, e),
    ensures
        witness(e, dice, limit, sa.union(sb), v),
{
    assert(sa.union(sb) =~= sb.union(sa));
    assert(sb.disjoint(sa));
}

/// One step on the values of two computations over separate dice gives the
/// value of a computation over both sets of dice.
pub proof fn lemma_join_expressible(
    dice: Seq<nat>,
    limit: nat,
    sa: Set<nat>,
    a: nat,
    sb: Set<nat>,
    b: nat,
    v: nat,
)
    requires
        expressible(dice, limit, sa, a),
        expressible(dice, limit, sb, b),
        sa.disjoint(sb),
        combines(limit, a, b, v),
    ensures
        expressible(dice, limit, sa.union(sb), v),
{
    let ea = choose|e: Calculation| witness(e, dice, limit, sa, a);
    let eb = choose|e: Calculation| witness(e, dice, limit, sb, b);
    let e = if sum_of(limit, a, b) == Some(v) {
        Calculation::Add(Box::new(ea), Box::new(eb))
    } else if difference_of(a, b) == Some(v) {
        Calculation::Sub(Box::new(ea), Box::new(eb))
    } else if difference_of(b, a) == Some(v) {
        Calculation::Sub(Box::new(eb), Box::new(ea))
    } else if product_of(limit, a, b) == Some(v) {
        Calculation::Mul(Box::new(ea), Box::new(eb))
    } else if quotient_of(a, b) == Some(v) {
        Calculation::Div(Box::new(ea), Box::new(eb))
    } else {
        Calculation::Div(Box::new(eb), Box::new(ea))
    };
    lemma_join_witness(dice, limit, ea, sa, a, eb, sb, b, v, e);
}

/// A computation with more than one leaf falls into two computations over
/// separate dice whose values give its value in one step.
pub proof fn lemma_split(e: Calculation, dice: Seq<nat>, limit: nat, s: Set<nat>, v: nat)
    requires
        witness(e, dice, limit, s, v),
        !(e is Cube),
    ensures
        e.left().eval(limit) is Some,
        e.right().eval(limit) is Some,
        witness(e.left(), dice, limit, e.left().indices(), e.left().eval(limit)->0),
        witness(e.right(), dice, limit, e.right().indices(), e.right().eval(limit)->0),
        e.left().indices().disjoint(e.right().indices()),
        e.left().indices().union(e.right().indices()) == s,
        combines(limit, e.left().eval(limit)->0, e.right().eval(limit)->0, v),
        exists|i: nat| e.left().indices().contains(i),
        exists|i: nat| e.right().indices().contains(i),
{
    e.left().lemma_indices_inhabited();
    e.right().lemma_indices_inhabited();
}

/// A computation over one die is that die's leaf.
pub proof fn lemma_single(e: Calculation, dice: Seq<nat>, limit: nat, i: nat, v: nat)
    requires
        witness(e, dice, limit, set![i], v),
    ensures
        yields_one(dice, i, v),
{
    if !(e is Cube) {
        lemma_split(e, dice, limit, set![i], v);
        let a = choose|a: nat| e.left().indices().contains(a);
        let b = choose|b: nat| e.right().indices().contains(b);
        assert(set![i].contains(a));
        assert(set![i].contains(b));
    } else {
        assert(e.indices().contains(i));
    }
}

/// What the map of one die holds is what computations over that die give.
pub proof fn lemma_one_expressible(dice: Seq<nat>, limit: nat, i: nat, v: nat)
    requires
        yields_one(dice, i, v),
        v <= u64::MAX,
        i <= usize::MAX,
    ensures
        expressible(dice, limit, set![i], v),
{
    let e = Calculation::Cube(i as usize, v as u64);
    assert(witness(e, dice, limit, set![i], v));
}

/// The dice `i` and `j` can be split into two parts in two ways only.
pub proof fn lemma_split_pair(sa: Set<nat>, sb: Set<nat>, i: nat, j: nat)
    requires
        sa.disjoint(sb),
        sa.union(sb) == set![i, j],
        exists|x: nat| sa.contains(x),
        exists|x: nat| sb.contains(x),
    ensures
        (sa == set![i] && sb == set![j]) || (sa == set![j] && sb == set![i]),
{
    let s = set![i, j];
    let x = choose|x: nat| sa.contains(x);
    let y = choose|y: nat| sb.contains(y);
    assert(s.contains(x) && s.contains(y));
    assert forall|z: nat| sa.contains(z) implies z == i || z == j by {
        assert(s.contains(z));
    }
    assert forall|z: nat| sb.contains(z) implies z == i || z == j by {
        assert(s.contains(z));
    }
    assert(s.contains(i) && s.contains(j));
    if sa.contains(i) {
        assert(sa =~= set![i]);
        assert(sb =~= set![j]);
    } else {
        assert(sa =~= set![j]);
        assert(sb =~= set![i]);
    }
}

/// The map of two dice does not depend on the order in which they are named.
pub proof fn lemma_yields_two_symmetric(dice: Seq<nat>, limit: nat, i: nat, j: nat, v: nat)
    requires
        yields_two(dice, limit, i, j, v),
    ensures
        yields_two(dice, limit, j, i, v),
{
    let (x, y) = choose|x: nat, y: nat|
        yields_one(dice, i, x) && yields_one(dice, j, y) && #[trigger] combines(limit, x, y, v);
    lemma_combines_symmetric(limit, x, y, v);
    assert(combines(limit, y, x, v));
}

/// What computations over two dice give is in the map of the two.
pub proof fn lemma_pair(e: Calculation, dice: Seq<nat>, limit: nat, i: nat, j: nat, v: nat)
    requires
        witness(e, dice, limit, set![i, j], v),
        i != j,
    ensures
        yields_two(dice, limit, i, j, v),
{
    if e is Cube {
        assert(e.indices().contains(i) && e.indices().contains(j));
    } else {
        lemma_split(e, dice, limit, set![i, j], v);
        let l = e.left();
        let r = e.right();
        let x = l.eval(limit)->0;
        let y = r.eval(limit)->0;
        lemma_split_pair(l.indices(), r.indices(), i, j);
        if l.indices() == set![i] {
            lemma_single(l, dice, limit, i, x);
            lemma_single(r, dice, limit, j, y);
            assert(combines(limit, x, y, v));
        } else {
            lemma_single(l, dice, limit, j, x);
            lemma_single(r, dice, limit, i, y);
            lemma_combines_symmetric(limit, x, y, v);
            assert(combines(limit, y, x, v));
        }
    }
}

/// What the map of two dice holds, computations over the two give.
pub proof fn lemma_two_expressible(dice: Seq<nat>, limit: nat, i: nat, j: nat, v: nat)
    requires
        yields_two(dice, limit, i, j, v),
        faces_fit(dice),
        i != j,
        i <= usize::MAX,
        j <= usize::MAX,
    ensures
        expressible(dice, limit, set![i, j], v),
{
    let (x, y) = choose|x: nat, y: nat|
        yields_one(dice, i, x) && yields_one(dice, j, y) && #[trigger] combines(limit, x, y, v);
    lemma_scaled_fits(dice[i as int], x);
    lemma_scaled_fits(dice[j as int], y);
    lemma_one_expressible(dice, limit, i, x);
    lemma_one_expressible(dice, limit, j, y);
    lemma_join_expressible(dice, limit, set![i], x, set![j], y, v);
    assert(set![i].union(set![j]) =~= set![i, j]);
}

/// What the map of a die and a pair holds, computations over the three give.
pub proof fn lemma_three_expressible(
    dice: Seq<nat>,
    limit: nat,
    a: nat,
    b: nat,
    c: nat,
    v: nat,
)
    requires
        yields_three(dice, limit, a, b, c, v),
        faces_fit(dice),
        a != b,
        a != c,
        b != c,
        a <= usize::MAX,
        b <= usize::MAX,
        c <= usize::MAX,
    ensures
        expressible(dice, limit, set![a, b, c], v),
{
    let (x, y) = choose|x: nat, y: nat|
        yields_one(dice, a, x) && yields_two(dice, limit, b, c, y) && #[trigger] combines(
            limit,
            x,
            y,
            v,
        );
    lemma_scaled_fits(dice[a as int], x);
    lemma_one_expressible(dice, limit, a, x);
    lemma_two_expressible(dice, limit, b, c, y);
    lemma_join_expressible(dice, limit, set![a], x, set![b, c], y, v);
    assert(set![a].union(set![b, c]) =~= set![a, b, c]);
}

/// What the map under a key holds, computations over the key's dice give.
pub proof fn lemma_yields_expressible(key: UsedCubes, dice: Seq<nat>, limit: nat, v: nat)
    requires
        key.well_formed(dice.len()),
        faces_fit(dice),
        limit <= u64::MAX,
        yields(key, dice, limit, v),
    ensures
        expressible(dice, limit, key.dice(), v),
{
    match key {
        UsedCubes::OneCube(i) => {
            lemma_yields_fits(key, dice, limit, v);
            lemma_one_expressible(dice, limit, i as nat, v);
        },
        UsedCubes::TwoCubes(i, j) => {
            lemma_two_expressible(dice, limit, i as nat, j as nat, v);
        },
        UsedCubes::ThreeCubes(a, b, c) => {
            lemma_three_expressible(dice, limit, a as nat, b as nat, c as nat, v);
        },
    }
}

/// Three dice, the first in one part and the second in the other, can be
/// split in two ways only.
pub proof fn lemma_split_triple(sa: Set<nat>, sb: Set<nat>, a: nat, b: nat, c: nat)
    requires
        sa.disjoint(sb),
        sa.union(sb) == set![a, b, c],
        sa.contains(a),
        sb.contains(b),
        a != b && a != c && b != c,
    ensures
        (sa == set![a, c] && sb == set![b]) || (sa == set![a] && sb == set![b, c]),
{
    let s = set![a, b, c];
    assert forall|z: nat| sa.contains(z) implies z == a || z == b || z == c by {
        assert(s.contains(z));
    }
    assert forall|z: nat| sb.contains(z) implies z == a || z == b || z == c by {
        assert(s.contains(z));
    }
    assert(s.contains(c));
    if sa.contains(c) {
        assert(sa =~= set![a, c]);
        assert(sb =~= set![b]);
    } else {
        assert(sa =~= set![a]);
        assert(sb =~= set![b, c]);
    }
}

/// Four dice, the first in one part and the second in the other, can be
/// split in four ways only.
pub proof fn lemma_split_quad(sa: Set<nat>, sb: Set<nat>, a: nat, b: nat, c: nat, d: nat)
    requires
        sa.disjoint(sb),
        sa.union(sb) == set![a, b, c, d],
        sa.contains(a),
        sb.contains(b),
        a != b && a != c && a != d && b != c && b != d && c != d,
    ensures
        ({
            ||| sa == set![a, c, d] && sb == set![b]
            ||| sa == set![a, c] && sb == set![b, d]
            ||| sa == set![a, d] && sb == set![b, c]
            ||| sa == set![a] && sb == set![b, c, d]
        }),
{
    let s = set![a, b, c, d];
    assert forall|z: nat| sa.contains(z) implies z == a || z == b || z == c || z == d by {
        assert(s.contains(z));
    }
    assert forall|z: nat| sb.contains(z) implies z == a || z == b || z == c || z == d by {
        assert(s.contains(z));
    }
    assert(s.contains(c) && s.contains(d));
    if sa.contains(c) {
        if sa.contains(d) {
            assert(sa =~= set![a, c, d]);
            assert(sb =~= set![b]);
        } else {
            assert(sa =~= set![a, c]);
            assert(sb =~= set![b, d]);
        }
    } else {
        if sa.contains(d) {
            assert(sa =~= set![a, d]);
            assert(sb =~= set![b, c]);
        } else {
            assert(sa =~= set![a]);
            assert(sb =~= set![b, c, d]);
        }
    }
}

/// The key of the pair of two positions.
pub open spec fn pair_key(i: nat, j: nat) -> UsedCubes {
    if i > j {
        UsedCubes::TwoCubes(i as u32, j as u32)
    } else {
        UsedCubes::TwoCubes(j as u32, i as u32)
    }
}

/// The key of a position merged with the pair of two others.
pub open spec fn triple_key(a: nat, i: nat, j: nat) -> UsedCubes {
    if i > j {
        UsedCubes::ThreeCubes(a as u32, i as u32, j as u32)
    } else {
        UsedCubes::ThreeCubes(a as u32, j as u32, i as u32)
    }
}

/// What computations over two dice give is in the map under the pair's key.
pub proof fn lemma_pair_key(e: Calculation, dice: Seq<nat>, limit: nat, i: nat, j: nat, v: nat)
    requires
        witness(e, dice, limit, set![i, j], v),
        i != j,
        i <= u32::MAX,
        j <= u32::MAX,
    ensures
        yields(pair_key(i, j), dice, limit, v),
        pair_key(i, j).dice() == set![i, j],
{
    lemma_pair(e, dice, limit, i, j, v);
    lemma_yields_two_symmetric(dice, limit, i, j, v);
    assert(set![i, j] =~= set![j, i]);
}

/// Joining a die with a pair's map.
proof fn lemma_triple_from_parts(
    l: Calculation,
    r: Calculation,
    dice: Seq<nat>,
    limit: nat,
    a: nat,
    i: nat,
    j: nat,
    x: nat,
    y: nat,
    v: nat,
)
    requires
        witness(l, dice, limit, set![a], x),
        witness(r, dice, limit, set![i, j], y),
        combines(limit, x, y, v),
        a != i && a != j && i != j,
        a <= u32::MAX,
        i <= u32::MAX,
        j <= u32::MAX,
    ensures
        yields(triple_key(a, i, j), dice, limit, v),
        triple_key(a, i, j).dice() == set![a, i, j],
{
    lemma_single(l, dice, limit, a, x);
    lemma_pair_key(r, dice, limit, i, j, y);
    assert(set![a, i, j] =~= set![a, j, i]);
}

/// What computations over three dice give is in the map under one of the
/// three keys that name the three dice.
pub proof fn lemma_triple(
    e: Calculation,
    dice: Seq<nat>,
    limit: nat,
    a: nat,
    b: nat,
    c: nat,
    v: nat,
)
    requires
        witness(e, dice, limit, set![a, b, c], v),
        a != b && a != c && b != c,
        a <= u32::MAX,
        b <= u32::MAX,
        c <= u32::MAX,
    ensures
        ({
            ||| yields(triple_key(a, b, c), dice, limit, v)
            ||| yields(triple_key(b, a, c), dice, limit, v)
            ||| yields(triple_key(c, a, b), dice, limit, v)
        }),
{
    let s = set![a, b, c];
    if e is Cube {
        assert(e.indices().contains(a) && e.indices().contains(b));
    } else {
        lemma_split(e, dice, limit, s, v);
        let l = e.left();
        let r = e.right();
        let x = l.eval(limit)->0;
        let y = r.eval(limit)->0;
        let p = choose|p: nat| l.indices().contains(p);
        let q = choose|q: nat| r.indices().contains(q);
        assert(s.contains(p) && s.contains(q));
        let t: nat = if a != p && a != q {
            a
        } else if b != p && b != q {
            b
        } else {
            c
        };
        assert(s =~= set![p, q, t]);
        lemma_split_triple(l.indices(), r.indices(), p, q, t);
        lemma_combines_symmetric(limit, x, y, v);
        if l.indices() == set![p] && r.indices() == set![q, t] {
            lemma_triple_from_parts(l, r, dice, limit, p, q, t, x, y, v);
            assert(triple_key(p, q, t) == triple_key(p, t, q));
        } else {
            lemma_triple_from_parts(r, l, dice, limit, q, p, t, y, x, v);
            assert(triple_key(q, p, t) == triple_key(q, t, p));
        }
    }
}

/// What the last round of the search meets, some computation over all dice
/// gives.
pub proof fn lemma_search_sound(dice: Seq<nat>, limit: nat, v: nat)
    requires
        dice.len() == 3 || dice.len() == 4,
        faces_fit(dice),
        limit <= u64::MAX,
        search_reaches(dice, limit, v),
    ensures
        reachable(dice, limit, v),
{
    let k = dice.len();
    let (k1, k2) = choose|k1: UsedCubes, k2: UsedCubes| #[trigger]
        closes(k1, k2, k) && joins(k1, k2, dice, limit, v);
    let (x, y) = choose|x: nat, y: nat|
        yields(k1, dice, limit, x) && yields(k2, dice, limit, y) && #[trigger] combines(
            limit,
            x,
            y,
            v,
        );
    lemma_yields_expressible(k1, dice, limit, x);
    lemma_yields_expressible(k2, dice, limit, y);
    lemma_join_expressible(dice, limit, k1.dice(), x, k2.dice(), y, v);
    assert(k1.dice().union(k2.dice()) =~= all_dice(k)) by {
        lemma_closing_covers(k1, k2, k);
    }
}

/// The keys of a closing pair name all dice.
pub proof fn lemma_closing_covers(k1: UsedCubes, k2: UsedCubes, k: nat)
    requires
        closes(k1, k2, k),
        k == 3 || k == 4,
    ensures
        k1.dice().union(k2.dice()) =~= all_dice(k),
{
    let u = k1.dice().union(k2.dice());
    assert forall|z: nat| z < k implies u.contains(z) by {
        match (k1, k2) {
            (UsedCubes::OneCube(a), UsedCubes::TwoCubes(b, c)) => {
                assert(k1.dice().contains(a as nat));
                assert(k2.dice().contains(b as nat) && k2.dice().contains(c as nat));
            },
            (UsedCubes::OneCube(a), UsedCubes::ThreeCubes(b, c, d)) => {
                assert(k1.dice().contains(a as nat));
                assert(k2.dice().contains(b as nat) && k2.dice().contains(c as nat)
                    && k2.dice().contains(d as nat));
            },
            (UsedCubes::TwoCubes(a, b), UsedCubes::TwoCubes(c, d)) => {
                assert(k1.dice().contains(a as nat) && k1.dice().contains(b as nat));
                assert(k2.dice().contains(c as nat) && k2.dice().contains(d as nat));
            },
            _ => {},
        }
    }
}

/// The last round of the search takes up two maps of which the first holds
/// `x` and the second holds `y`.
pub open spec fn operands_met(dice: Seq<nat>, limit: nat, x: nat, y: nat) -> bool {
    exists|k1: UsedCubes, k2: UsedCubes| #[trigger]
        closes(k1, k2, dice.len()) && yields(k1, dice, limit, x) && yields(k2, dice, limit, y)
}

/// A single die and a computation over the two others, of three dice.
proof fn lemma_triple_one_two(
    l: Calculation,
    r: Calculation,
    dice: Seq<nat>,
    limit: nat,
    a: nat,
    b: nat,
    c: nat,
    x: nat,
    y: nat,
)
    requires
        dice.len() == 3,
        witness(l, dice, limit, set![a], x),
        witness(r, dice, limit, set![b, c], y),
        a != b && a != c && b != c,
        a < 3 && b < 3 && c < 3,
    ensures
        operands_met(dice, limit, x, y),
{
    lemma_single(l, dice, limit, a, x);
    lemma_pair_key(r, dice, limit, b, c, y);
    let k1 = UsedCubes::OneCube(a as u32);
    let k2 = pair_key(b, c);
    assert(k1.dice().disjoint(k2.dice()));
    assert(closes(k1, k2, 3));
}

/// A single die and a computation over the three others, of four dice.
proof fn lemma_quad_one_three(
    l: Calculation,
    r: Calculation,
    dice: Seq<nat>,
    limit: nat,
    a: nat,
    b: nat,
    c: nat,
    d: nat,
    x: nat,
    y: nat,
)
    requires
        dice.len() == 4,
        witness(l, dice, limit, set![a], x),
        witness(r, dice, limit, set![b, c, d], y),
        a != b && a != c && a != d && b != c && b != d && c != d,
        a < 4 && b < 4 && c < 4 && d < 4,
    ensures
        operands_met(dice, limit, x, y),
{
    lemma_single(l, dice, limit, a, x);
    lemma_triple(r, dice, limit, b, c, d, y);
    let k1 = UsedCubes::OneCube(a as u32);
    let k2 = if yields(triple_key(b, c, d), dice, limit, y) {
        triple_key(b, c, d)
    } else if yields(triple_key(c, b, d), dice, limit, y) {
        triple_key(c, b, d)
    } else {
        triple_key(d, b, c)
    };
    assert(k1.dice().disjoint(k2.dice()));
    assert(closes(k1, k2, 4));
}

/// Computations over two pairs of four dice.
proof fn lemma_quad_two_two(
    l: Calculation,
    r: Calculation,
    dice: Seq<nat>,
    limit: nat,
    a: nat,
    b: nat,
    c: nat,
    d: nat,
    x: nat,
    y: nat,
)
    requires
        dice.len() == 4,
        witness(l, dice, limit, set![a, b], x),
        witness(r, dice, limit, set![c, d], y),
        a != b && a != c && a != d && b != c && b != d && c != d,
        a < 4 && b < 4 && c < 4 && d < 4,
    ensures
        operands_met(dice, limit, x, y),
{
    lemma_pair_key(l, dice, limit, a, b, x);
    lemma_pair_key(r, dice, limit, c, d, y);
    let k1 = pair_key(a, b);
    let k2 = pair_key(c, d);
    assert(k1.dice().disjoint(k2.dice()));
    assert(closes(k1, k2, 4));
}

/// A computation over all dice has two operands, and the last round of the
/// search takes up two maps that hold the operands' values, in one order or
/// the other.
pub proof fn lemma_operands_met(e: Calculation, dice: Seq<nat>, limit: nat, v: nat)
    requires
        dice.len() == 3 || dice.len() == 4,
        witness(e, dice, limit, all_dice(dice.len()), v),
    ensures
        !(e is Cube),
        e.left().eval(limit) is Some,
        e.right().eval(limit) is Some,
        combines(limit, e.left().eval(limit)->0, e.right().eval(limit)->0, v),
        operands_met(dice, limit, e.left().eval(limit)->0, e.right().eval(limit)->0)
            || operands_met(dice, limit, e.right().eval(limit)->0, e.left().eval(limit)->0),
{
    let k = dice.len();
    let s = all_dice(k);
    assert(s.contains(0) && s.contains(1));
    if e is Cube {
        assert(e.indices().contains(0) && e.indices().contains(1));
    } else {
        lemma_split(e, dice, limit, s, v);
        let l = e.left();
        let r = e.right();
        let x = l.eval(limit)->0;
        let y = r.eval(limit)->0;
        let a = choose|p: nat| l.indices().contains(p);
        let b = choose|q: nat| r.indices().contains(q);
        assert(s.contains(a) && s.contains(b));
        if k == 3 {
            let c: nat = if a != 0 && b != 0 {
                0
            } else if a != 1 && b != 1 {
                1
            } else {
                2
            };
            assert(s =~= set![a, b, c]);
            lemma_split_triple(l.indices(), r.indices(), a, b, c);
            if l.indices() == set![a, c] && r.indices() == set![b] {
                lemma_triple_one_two(r, l, dice, limit, b, a, c, y, x);
            } else {
                lemma_triple_one_two(l, r, dice, limit, a, b, c, x, y);
            }
        } else {
            let c: nat = if a != 0 && b != 0 {
                0
            } else if a != 1 && b != 1 {
                1
            } else {
                2
            };
            let d: nat = if a != 3 && b != 3 {
                3
            } else if a != 2 && b != 2 {
                2
            } else {
                1
            };
            assert(s =~= set![a, b, c, d]);
            lemma_split_quad(l.indices(), r.indices(), a, b, c, d);
            if l.indices() == set![a, c, d] && r.indices() == set![b] {
                lemma_quad_one_three(r, l, dice, limit, b, a, c, d, y, x);
            } else if l.indices() == set![a, c] && r.indices() == set![b, d] {
                lemma_quad_two_two(l, r, dice, limit, a, c, b, d, x, y);
            } else if l.indices() == set![a, d] && r.indices() == set![b, c] {
                lemma_quad_two_two(l, r, dice, limit, a, d, b, c, x, y);
            } else {
                lemma_quad_one_three(l, r, dice, limit, a, b, c, d, x, y);
            }
        }
    }
}

/// What a computation over all dice gives, the last round of the search
/// meets.
pub proof fn lemma_search_complete(e: Calculation, dice: Seq<nat>, limit: nat, v: nat)
    requires
        dice.len() == 3 || dice.len() == 4,
        witness(e, dice, limit, all_dice(dice.len()), v),
    ensures
        search_reaches(dice, limit, v),
{
    lemma_operands_met(e, dice, limit, v);
    let x = e.left().eval(limit)->0;
    let y = e.right().eval(limit)->0;
    lemma_combines_symmetric(limit, x, y, v);
    if operands_met(dice, limit, x, y) {
        let (k1, k2) = choose|k1: UsedCubes, k2: UsedCubes| #[trigger]
            closes(k1, k2, dice.len()) && yields(k1, dice, limit, x) && yields(
                k2,
                dice,
                limit,
                y,
            );
        assert(joins(k1, k2, dice, limit, v));
    } else {
        let (k1, k2) = choose|k1: UsedCubes, k2: UsedCubes| #[trigger]
            closes(k1, k2, dice.len()) && yields(k1, dice, limit, y) && yields(
                k2,
                dice,
                limit,
                x,
            );
        assert(joins(k1, k2, dice, limit, v));
    }
}

/// The staged search meets exactly the numbers that some computation over
/// all dice gives.
pub proof fn lemma_search_exact(dice: Seq<nat>, limit: nat, v: nat)
    requires
        dice.len() == 3 || dice.len() == 4,
        faces_fit(dice),
        limit <= u64::MAX,
    ensures
        search_reaches(dice, limit, v) <==> reachable(dice, limit, v),
{
    if search_reaches(dice, limit, v) {
        lemma_search_sound(dice, limit, v);
    }
    if reachable(dice, limit, v) {
        let e = choose|e: Calculation| witness(e, dice, limit, all_dice(dice.len()), v);
        lemma_search_complete(e, dice, limit, v);
    }
}

} // verus!
