//! Ordering solutions from the simplest to the hardest.

use crate::arith::{pow10, scalings};
use crate::game::calculation::{lemma_log10_floor_bound, Calculation};
use std::cmp::Ordering;
use vstd::prelude::*;

verus! {

/// The score of the computation can be computed: no leaf holds zero, and
/// the score is a machine number.
pub open spec fn scoreable(e: Calculation) -> bool {
    e.leaves_positive() && e.spec_score() <= u32::MAX
}

/// The score is at most 82 for each leaf, less 34.
pub proof fn lemma_score_bound(e: Calculation)
    ensures
        e.spec_score() + 34 <= 82 * e.leaf_indices().len(),
    decreases e,
{
    match e {
        Calculation::Cube(_, v) => {
            lemma_log10_floor_bound(v as nat);
        },
        _ => {
            lemma_score_bound(e.left());
            lemma_score_bound(e.right());
        },
    }
}

/// A computation whose leaves are scaled faces of dice that show no zero
/// has no leaf that holds zero.
pub proof fn lemma_leaves_positive(e: Calculation, dice: Seq<nat>)
    requires
        e.leaves_from(dice),
        forall|i: int| 0 <= i < dice.len() ==> #[trigger] dice[i] >= 1,
    ensures
        e.leaves_positive(),
    decreases e,
{
    match e {
        Calculation::Cube(i, v) => {
            let p = choose|p: nat|
                p < scalings() && v as nat == dice[i as int] * #[trigger] pow10(p);
            lemma_pow10_positive(p);
            assert(dice[i as int] * pow10(p) >= 1) by (nonlinear_arith)
                requires
                    dice[i as int] >= 1,
                    pow10(p) >= 1,
            ;
        },
        _ => {
            lemma_leaves_positive(e.left(), dice);
            lemma_leaves_positive(e.right(), dice);
        },
    }
}

/// A power of ten is at least one.
pub proof fn lemma_pow10_positive(p: nat)
    ensures
        pow10(p) >= 1,
    decreases p,
{
    if p > 0 {
        lemma_pow10_positive((p - 1) as nat);
    }
}

/// Which of two solutions comes first when they are ordered by score: the
/// first where its score is not above the other's, else the second. The
/// answer is never that they are equal.
pub fn compare_solutions_by_score(a: &Calculation, b: &Calculation) -> (r: Ordering)
    requires
        scoreable(*a),
        scoreable(*b),
    ensures
        a.spec_score() <= b.spec_score() ==> r == Ordering::Less,
        a.spec_score() > b.spec_score() ==> r == Ordering::Greater,
{
    let score_a = a.score();
    let score_b = b.score();
    if score_a <= score_b {
        Ordering::Less
    } else {
        Ordering::Greater
    }
}

/// Taking the element at `from` out and putting it in again at `to`, past
/// no element that is chosen together with it, leaves the chosen elements
/// in their order.
pub proof fn lemma_move_keeps_filter<T>(s: Seq<T>, from: int, to: int, chosen: spec_fn(T) -> bool)
    requires
        0 <= to <= from < s.len(),
        forall|a: int| to <= a < from ==> !(chosen(#[trigger] s[a]) && chosen(s[from])),
    ensures
        s.remove(from).insert(to, s[from]).filter(chosen) == s.filter(chosen),
{
    let x = s[from];
    let head = s.take(to);
    let middle = s.subrange(to, from);
    let tail = s.skip(from + 1);
    let moved = s.remove(from).insert(to, x);
    assert(s =~= head + middle + seq![x] + tail);
    assert(moved =~= head + seq![x] + middle + tail);
    Seq::filter_distributes_over_add(head, middle, chosen);
    Seq::filter_distributes_over_add(head + middle, seq![x], chosen);
    Seq::filter_distributes_over_add(head + middle + seq![x], tail, chosen);
    Seq::filter_distributes_over_add(head, seq![x], chosen);
    Seq::filter_distributes_over_add(head + seq![x], middle, chosen);
    Seq::filter_distributes_over_add(head + seq![x] + middle, tail, chosen);
    if chosen(x) {
        assert(middle.filter(chosen) =~= Seq::<T>::empty()) by {
            if middle.filter(chosen).len() > 0 {
                let r = middle.filter(chosen)[0];
                middle.lemma_filter_pred(chosen, 0);
                assert(middle.filter(chosen).contains(r));
                middle.lemma_filter_contains_rev(chosen, r);
                let at = choose|at: int| 0 <= at < middle.len() && middle[at] == r;
                assert(s[to + at] == r);
            }
        }
    } else {
        assert(seq![x].filter(chosen) =~= Seq::<T>::empty()) by {
            if seq![x].filter(chosen).len() > 0 {
                let r = seq![x].filter(chosen)[0];
                seq![x].lemma_filter_pred(chosen, 0);
                assert(seq![x].filter(chosen).contains(r));
                seq![x].lemma_filter_contains_rev(chosen, r);
            }
        }
    }
    assert(head.filter(chosen) + seq![x].filter(chosen) + middle.filter(chosen) =~= head.filter(
        chosen,
    ) + middle.filter(chosen) + seq![x].filter(chosen));
}

/// The solutions with the score `score`, in their order.
pub open spec fn with_score(s: Seq<Calculation>, score: nat) -> Seq<Calculation> {
    s.filter(|c: Calculation| c.spec_score() == score)
}

/// No solution comes before one of a smaller score.
pub open spec fn sorted_by_score(s: Seq<Calculation>) -> bool {
    forall|i: int, j: int| 0 <= i < j < s.len() ==> s[i].spec_score() <= s[j].spec_score()
}

/// Sorts the solutions by rising score. Solutions of one score keep their
/// order.
pub fn sort_by_score(solutions: &mut Vec<Calculation>)
    requires
        forall|i: int| 0 <= i < old(solutions)@.len() ==> scoreable(#[trigger] old(solutions)@[i]),
    ensures
        sorted_by_score(final(solutions)@),
        final(solutions)@.to_multiset() == old(solutions)@.to_multiset(),
        forall|score: nat|
            with_score(final(solutions)@, score) == with_score(old(solutions)@, score),
{
    let n = solutions.len();
    let mut i: usize = 0;
    while i < n
        invariant
            i <= n,
            solutions@.len() == n,
            forall|a: int| 0 <= a < n ==> scoreable(#[trigger] solutions@[a]),
            forall|a: int, b: int|
                0 <= a < b < i ==> solutions@[a].spec_score() <= solutions@[b].spec_score(),
            solutions@.to_multiset() == old(solutions)@.to_multiset(),
            forall|score: nat| with_score(solutions@, score) == with_score(old(solutions)@, score),
        decreases n - i,
    {
        let ghost before = solutions@;
        let solution = solutions.remove(i);
        let score = solution.score();
        proof {
            assert forall|a: int| 0 <= a < n - 1 implies scoreable(#[trigger] solutions@[a]) by {
                if a < i {
                    assert(solutions@[a] == before[a]);
                } else {
                    assert(solutions@[a] == before[a + 1]);
                }
            }
        }
        let mut j: usize = 0;
        while j < i && solutions[j].score() <= score
            invariant
                j <= i < n,
                solutions@ == before.remove(i as int),
                before.len() == n,
                score == solution.spec_score(),
                forall|a: int| 0 <= a < n ==> scoreable(#[trigger] before[a]),
                forall|a: int| 0 <= a < n - 1 ==> scoreable(#[trigger] solutions@[a]),
                forall|a: int| 0 <= a < j ==> (#[trigger] solutions@[a]).spec_score() <= score,
            decreases i - j,
        {
            j = j + 1;
        }
        solutions.insert(j, solution);
        proof {
            vstd::seq_lib::to_multiset_remove(before, i as int);
            vstd::seq_lib::to_multiset_insert(before.remove(i as int), j as int, solution);
            assert(before.to_multiset().count(solution) > 0) by {
                before.to_multiset_ensures();
                assert(before.contains(solution));
            }
            assert(solutions@.to_multiset() =~= before.to_multiset());
            let after = solutions@;
            assert forall|a: int| j <= a < i implies (#[trigger] before[a]).spec_score()
                > before[i as int].spec_score() by {
                assert(before[a] == before.remove(i as int)[a]);
                assert(before[j as int] == before.remove(i as int)[j as int]);
            }
            assert forall|score: nat| with_score(after, score) == with_score(
                old(solutions)@,
                score,
            ) by {
                lemma_move_keeps_filter(
                    before,
                    i as int,
                    j as int,
                    |c: Calculation| c.spec_score() == score,
                );
            }
            assert forall|a: int| 0 <= a < n implies scoreable(#[trigger] after[a]) by {
                if a < j {
                    assert(after[a] == before[a]);
                } else if a == j {
                    assert(after[a] == before[i as int]);
                } else if a <= i {
                    assert(after[a] == before[a - 1]);
                } else {
                    assert(after[a] == before[a]);
                }
            }
            assert forall|a: int, b: int| 0 <= a < b < i + 1 implies after[a].spec_score()
                <= after[b].spec_score() by {
                if b < j {
                    assert(after[a] == before[a] && after[b] == before[b]);
                } else if b == j {
                    assert(after[a] == before.remove(i as int)[a]);
                } else {
                    assert(after[b] == before[b - 1]);
                    if a < j {
                        assert(after[a] == before[a]);
                    } else if a == j {
                        assert(before[j as int] == before.remove(i as int)[j as int]);
                        assert(before[j as int].spec_score() <= before[b - 1].spec_score());
                    } else {
                        assert(after[a] == before[a - 1]);
                    }
                }
            }
        }
        i = i + 1;
    }
}

} // verus!
