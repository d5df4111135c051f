//! Which three-digit numbers each throw of four dice reaches.

use crate::combine::ValueMap;
use crate::engine::{probe, strictly_increasing};
use crate::game::LIMIT;
use crate::gaps::{die_at, permutation_from_index};
use crate::reach::reachable;
use crate::stages::{faces, Table};
use vstd::prelude::*;

verus! {

/// The number of throws that are looked at by default.
pub const THROWS: usize = 1296;

/// For each throw of four dice, by its number, the reached numbers.
pub struct Solver {
    pub best_distance: Vec<Vec<u16>>,
}

/// The faces of the throw with the number `index`.
pub open spec fn throw_faces(index: nat) -> Seq<nat> {
    Seq::new(4, |i: int| die_at(index, i as nat))
}

/// `list` is `before` followed by the numbers from 100 to 999 that the
/// throw with the number `index` reaches, rising.
pub open spec fn extended_by_reached(list: Seq<u16>, before: Seq<u16>, index: nat) -> bool {
    &&& before.len() <= list.len()
    &&& list.take(before.len() as int) == before
    &&& strictly_increasing(list.skip(before.len() as int))
    &&& forall|t: u16|
        list.skip(before.len() as int).contains(t) <==> 100 <= t < 1000 && reachable(
            throw_faces(index),
            LIMIT as nat,
            t as nat,
        )
}

impl Solver {
    /// A solver that has looked at no throw.
    pub fn new() -> (solver: Self)
        ensures
            solver.best_distance@.len() == 0,
    {
        Solver { best_distance: Vec::with_capacity(THROWS) }
    }

    /// Extends each list of the solver, by its place taken as the number of
    /// a throw, by the three-digit numbers that the throw reaches. Hands
    /// out one empty list for each of the 1296 throws.
    pub fn find_4_distances(&mut self) -> (distances: Vec<Vec<u16>>)
        ensures
            distances@.len() == THROWS,
            forall|i: int| 0 <= i < distances@.len() ==> (#[trigger] distances@[i])@.len() == 0,
            final(self).best_distance@.len() == old(self).best_distance@.len(),
            forall|i: int|
                0 <= i < old(self).best_distance@.len() ==> extended_by_reached(
                    (#[trigger] final(self).best_distance@[i])@,
                    old(self).best_distance@[i]@,
                    i as nat,
                ),
    {
        let mut distances: Vec<Vec<u16>> = Vec::with_capacity(THROWS);
        let mut made: usize = 0;
        while made < THROWS
            invariant
                made <= THROWS,
                distances@.len() == made,
                forall|i: int| 0 <= i < made ==> (#[trigger] distances@[i])@.len() == 0,
            decreases THROWS - made,
        {
            distances.push(Vec::new());
            made = made + 1;
        }
        let count = self.best_distance.len();
        let mut dp: Table = Vec::new();
        let mut pool: Vec<ValueMap> = Vec::new();
        let mut found: Vec<u16> = Vec::new();
        let mut index: usize = 0;
        while index < count
            invariant
                index <= count,
                count == self.best_distance@.len(),
                count == old(self).best_distance@.len(),
                forall|i: int|
                    0 <= i < index ==> extended_by_reached(
                        (#[trigger] self.best_distance@[i])@,
                        old(self).best_distance@[i]@,
                        i as nat,
                    ),
                forall|i: int|
                    index <= i < count ==> #[trigger] self.best_distance@[i] == old(
                        self,
                    ).best_distance@[i],
            decreases count - index,
        {
            let permutation = permutation_from_index(index);
            let mut ds: Vec<u64> = Vec::new();
            ds.push(permutation[0] as u64);
            ds.push(permutation[1] as u64);
            ds.push(permutation[2] as u64);
            ds.push(permutation[3] as u64);
            proof {
                assert(faces(ds@) =~= throw_faces(index as nat));
            }
            probe(LIMIT, &ds, &mut dp, &mut pool, 100, 1000, &mut found);
            let ghost before = self.best_distance@;
            let ghost list_before = self.best_distance@[index as int]@;
            let ghost reached = found@;
            let mut list = self.best_distance.remove(index);
            list.append(&mut found);
            proof {
                assert(list@.take(list_before.len() as int) =~= list_before);
                assert(list@.skip(list_before.len() as int) =~= reached);
            }
            self.best_distance.insert(index, list);
            proof {
                assert forall|i: int| 0 <= i < index + 1 implies extended_by_reached(
                    (#[trigger] self.best_distance@[i])@,
                    old(self).best_distance@[i]@,
                    i as nat,
                ) by {
                    if i < index {
                        assert(self.best_distance@[i] == before[i]);
                    }
                }
                assert forall|i: int| index + 1 <= i < count implies #[trigger] self.best_distance@[i]
                    == old(self).best_distance@[i] by {
                    assert(self.best_distance@[i] == before[i]);
                }
            }
            index = index + 1;
        }
        distances
    }
}

} // verus!
