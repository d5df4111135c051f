//! What holds of the search as a whole.

use crate::engine::strictly_increasing;
use crate::game::calculation::Calculation;
use crate::order::{lemma_leaves_positive, lemma_score_bound, scoreable};
use crate::reach::{all_dice, reachable, witness};
use vstd::prelude::*;

verus! {

/// Every computation that the search hands out gives the target exactly, in
/// the natural numbers, and its leaves are all the dice, each once: no die
/// is left out and none is named by two leaves.
pub proof fn lemma_solution_is_exact(e: Calculation, dice: Seq<nat>, limit: nat, target: nat)
    requires
        witness(e, dice, limit, all_dice(dice.len()), target),
    ensures
        e.value() == Some(target),
        e.leaf_indices().no_duplicates(),
        e.leaf_indices().len() == dice.len(),
        forall|i: nat| i < dice.len() <==> e.leaf_indices().contains(i),
{
    e.lemma_eval_is_value(limit);
    e.lemma_leaf_indices();
    let leaves = e.leaf_indices();
    assert(forall|i: nat| i < dice.len() <==> leaves.contains(i));
    leaves.unique_seq_to_set();
    assert(leaves.to_set() =~= all_dice(dice.len()));
    lemma_all_dice_len(dice.len());
}

/// There are `k` positions of `k` dice.
pub proof fn lemma_all_dice_len(k: nat)
    ensures
        all_dice(k).finite(),
        all_dice(k).len() == k,
    decreases k,
{
    if k == 0 {
        assert(all_dice(0) =~= Set::<nat>::empty());
    } else {
        lemma_all_dice_len((k - 1) as nat);
        assert(all_dice(k) =~= all_dice((k - 1) as nat).insert((k - 1) as nat));
    }
}

/// A sum is the same whichever operand is written first, and so is a
/// product.
pub proof fn lemma_sum_and_product_commute(a: Calculation, b: Calculation)
    ensures
        Calculation::Add(Box::new(a), Box::new(b)).same(Calculation::Add(Box::new(b), Box::new(a))),
        Calculation::Mul(Box::new(a), Box::new(b)).same(Calculation::Mul(Box::new(b), Box::new(a))),
{
    a.lemma_same_reflexive();
    b.lemma_same_reflexive();
}

/// A difference with its operands exchanged is the same only where the
/// operands are the same, and so is a quotient.
pub proof fn lemma_difference_and_quotient_keep_order(a: Calculation, b: Calculation)
    ensures
        Calculation::Sub(Box::new(a), Box::new(b)).same(Calculation::Sub(Box::new(b), Box::new(a)))
            <==> a.same(b),
        Calculation::Div(Box::new(a), Box::new(b)).same(Calculation::Div(Box::new(b), Box::new(a)))
            <==> a.same(b),
{
    a.lemma_same_symmetric(b);
}

/// Two rising lists that hold the same numbers are one list.
pub proof fn lemma_rising_lists_agree(first: Seq<u16>, second: Seq<u16>)
    requires
        strictly_increasing(first),
        strictly_increasing(second),
        forall|t: u16| first.contains(t) <==> second.contains(t),
    ensures
        first == second,
    decreases first.len(),
{
    if first.len() == 0 {
        if second.len() > 0 {
            assert(second.contains(second[0]));
        }
        assert(first =~= second);
    } else {
        assert(first.contains(first[0]));
        assert(second.len() > 0);
        assert(second.contains(second[0]));
        // the first numbers are the least of their lists
        let a = first[0];
        let b = second[0];
        let at_b = choose|i: int| 0 <= i < second.len() && second[i] == a;
        let at_a = choose|i: int| 0 <= i < first.len() && first[i] == b;
        assert(a == b);
        let rest_a = first.drop_first();
        let rest_b = second.drop_first();
        assert forall|t: u16| rest_a.contains(t) <==> rest_b.contains(t) by {
            if rest_a.contains(t) {
                let i = choose|i: int| 0 <= i < rest_a.len() && rest_a[i] == t;
                assert(first[i + 1] == t);
                assert(first.contains(t));
                let j = choose|j: int| 0 <= j < second.len() && second[j] == t;
                assert(t > a);
                assert(rest_b[j - 1] == t);
            }
            if rest_b.contains(t) {
                let i = choose|i: int| 0 <= i < rest_b.len() && rest_b[i] == t;
                assert(second[i + 1] == t);
                assert(second.contains(t));
                let j = choose|j: int| 0 <= j < first.len() && first[j] == t;
                assert(t > b);
                assert(rest_a[j - 1] == t);
            }
        }
        assert(strictly_increasing(rest_a)) by {
            assert forall|i: int, j: int| 0 <= i < j < rest_a.len() implies rest_a[i]
                < rest_a[j] by {
                assert(first[i + 1] < first[j + 1]);
            }
        }
        assert(strictly_increasing(rest_b)) by {
            assert forall|i: int, j: int| 0 <= i < j < rest_b.len() implies rest_b[i]
                < rest_b[j] by {
                assert(second[i + 1] < second[j + 1]);
            }
        }
        lemma_rising_lists_agree(rest_a, rest_b);
        assert(first =~= seq![a] + rest_a);
        assert(second =~= seq![b] + rest_b);
    }
}

/// Asking twice which numbers of a range the dice reach gives one answer,
/// whatever the engine kept from earlier calls: the answer is fixed by the
/// range and the dice.
pub proof fn lemma_probe_is_repeatable(
    first: Seq<u16>,
    second: Seq<u16>,
    min: u16,
    max: u16,
    dice: Seq<nat>,
    limit: nat,
)
    requires
        strictly_increasing(first),
        strictly_increasing(second),
        forall|t: u16| first.contains(t) <==> min <= t < max && reachable(dice, limit, t as nat),
        forall|t: u16| second.contains(t) <==> min <= t < max && reachable(dice, limit, t as nat),
    ensures
        first == second,
{
    lemma_rising_lists_agree(first, second);
}

/// The two questions agree: a number of the range is among the reached
/// numbers exactly where the computations found for it are not none.
pub proof fn lemma_probe_agrees_with_enumerate(
    reached: Seq<u16>,
    solutions: Seq<Calculation>,
    min: u16,
    max: u16,
    target: u16,
    dice: Seq<nat>,
    limit: nat,
)
    requires
        min <= target < max,
        forall|t: u16| reached.contains(t) <==> min <= t < max && reachable(dice, limit, t as nat),
        solutions.len() > 0 <==> reachable(dice, limit, target as nat),
    ensures
        reached.contains(target) <==> solutions.len() > 0,
{
}

/// Every computation that the search hands out for up to four dice that
/// show no zero can be scored: no leaf holds zero, and the score is at most
/// 294.
pub proof fn lemma_solution_is_scoreable(e: Calculation, dice: Seq<nat>, limit: nat, target: nat)
    requires
        dice.len() <= 4,
        forall|i: int| 0 <= i < dice.len() ==> #[trigger] dice[i] >= 1,
        witness(e, dice, limit, all_dice(dice.len()), target),
    ensures
        scoreable(e),
        e.spec_score() <= 294,
{
    lemma_solution_is_exact(e, dice, limit, target);
    lemma_score_bound(e);
    lemma_leaves_positive(e, dice);
}

/// The computation with each die `i` named `place[i]` instead.
pub open spec fn renamed(e: Calculation, place: Seq<nat>) -> Calculation
    decreases e,
{
    match e {
        Calculation::Cube(i, v) => Calculation::Cube(place[i as int] as usize, v),
        Calculation::Add(a, b) => Calculation::Add(
            Box::new(renamed(*a, place)),
            Box::new(renamed(*b, place)),
        ),
        Calculation::Sub(a, b) => Calculation::Sub(
            Box::new(renamed(*a, place)),
            Box::new(renamed(*b, place)),
        ),
        Calculation::Mul(a, b) => Calculation::Mul(
            Box::new(renamed(*a, place)),
            Box::new(renamed(*b, place)),
        ),
        Calculation::Div(a, b) => Calculation::Div(
            Box::new(renamed(*a, place)),
            Box::new(renamed(*b, place)),
        ),
    }
}

/// `other` holds the dice of `dice` in another order: die `i` lies at
/// `place[i]`, and the die at `j` came from `back[j]`.
pub open spec fn rearranged(
    dice: Seq<nat>,
    other: Seq<nat>,
    place: Seq<nat>,
    back: Seq<nat>,
) -> bool {
    &&& dice.len() == other.len() == place.len() == back.len()
    &&& dice.len() <= usize::MAX
    &&& forall|i: int|
        0 <= i < dice.len() ==> (#[trigger] place[i]) < dice.len() && back[place[i] as int] == i
            && other[place[i] as int] == dice[i]
    &&& forall|j: int|
        0 <= j < dice.len() ==> (#[trigger] back[j]) < dice.len() && place[back[j] as int] == j
}

/// Renaming the dice of a computation as they are rearranged keeps its
/// value, keeps each die to one leaf, and makes it a computation over the
/// rearranged dice.
pub proof fn lemma_renamed(
    e: Calculation,
    dice: Seq<nat>,
    other: Seq<nat>,
    place: Seq<nat>,
    back: Seq<nat>,
    limit: nat,
)
    requires
        rearranged(dice, other, place, back),
        e.leaves_from(dice),
    ensures
        renamed(e, place).eval(limit) == e.eval(limit),
        renamed(e, place).leaves_from(other),
        forall|j: nat|
            renamed(e, place).indices().contains(j) <==> j < dice.len() && e.indices().contains(
                back[j as int],
            ),
        forall|i: nat| e.indices().contains(i) ==> i < dice.len(),
        e.distinct() ==> renamed(e, place).distinct(),
    decreases e,
{
    match e {
        Calculation::Cube(i, v) => {
            assert(place[i as int] < dice.len());
            assert(renamed(e, place).indices().contains(place[i as int]));
        },
        _ => {
            let a = e.left();
            let b = e.right();
            lemma_renamed(a, dice, other, place, back, limit);
            lemma_renamed(b, dice, other, place, back, limit);
            let ra = renamed(a, place);
            let rb = renamed(b, place);
            assert(renamed(e, place).left() == ra && renamed(e, place).right() == rb);
            assert(e.indices() == a.indices().union(b.indices()));
            assert(renamed(e, place).indices() == ra.indices().union(rb.indices()));
            if e.distinct() {
                assert(a.distinct() && b.distinct() && a.indices().disjoint(b.indices()));
                assert(ra.indices().disjoint(rb.indices())) by {
                    assert forall|j: nat| ra.indices().contains(j) implies !rb.indices().contains(
                        j,
                    ) by {
                        assert(a.indices().contains(back[j as int]));
                    }
                }
            }
        },
    }
}

/// What the dice reach does not depend on the order in which they lie.
pub proof fn lemma_order_of_dice_does_not_matter(
    dice: Seq<nat>,
    other: Seq<nat>,
    place: Seq<nat>,
    back: Seq<nat>,
    limit: nat,
    target: nat,
)
    requires
        rearranged(dice, other, place, back),
    ensures
        reachable(dice, limit, target) <==> reachable(other, limit, target),
{
    let k = dice.len();
    if reachable(dice, limit, target) {
        let e = choose|e: Calculation| witness(e, dice, limit, all_dice(k), target);
        lemma_renamed(e, dice, other, place, back, limit);
        assert(renamed(e, place).indices() =~= all_dice(k));
        assert(witness(renamed(e, place), other, limit, all_dice(k), target));
    }
    if reachable(other, limit, target) {
        assert(rearranged(other, dice, back, place));
        let e = choose|e: Calculation| witness(e, other, limit, all_dice(k), target);
        lemma_renamed(e, other, dice, back, place, limit);
        assert(renamed(e, back).indices() =~= all_dice(k));
        assert(witness(renamed(e, back), dice, limit, all_dice(k), target));
    }
}

} // verus!
