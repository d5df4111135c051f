//! The interactive game: one target number, one set of dice, every solution.

use crate::combine::{pairwise_different, ValueMap};
use crate::collect::extends;
use crate::engine::{enumerate_into, holds_last_step};
use crate::game::calculation::Calculation;
use crate::output::{game_string, game_text};
use crate::reach::{all_dice, faces_fit, witness};
use crate::stages::{faces, Table};
use vstd::prelude::*;

pub mod calculation;

verus! {

/// The largest number that a step may give in this game.
pub const LIMIT: u64 = 18446744073709551615;

/// How many dice are in play.
#[derive(Debug, Clone, Copy, Hash, PartialEq, Eq, Structural)]
pub enum DiceAmount {
    Four,
    Three,
}

impl DiceAmount {
    /// The number of dice.
    pub open spec fn count(self) -> nat {
        match self {
            DiceAmount::Four => 4,
            DiceAmount::Three => 3,
        }
    }
}

/// A target number, the dice thrown for it, and the solutions found so far.
#[derive(Debug, Clone)]
pub struct Game {
    pub num_dices: DiceAmount,
    pub num: u64,
    pub dices: [u64; 4],
    pub solutions: Vec<Calculation>,
}

/// The faces of the first `k` dice.
pub open spec fn shown(dices: [u64; 4], k: nat) -> Seq<nat> {
    Seq::new(k, |i: int| dices@[i] as nat)
}

/// A number from `low` to `high`, both included, picked at random.
///
/// Trusted: `rand::random_range` on an inclusive range. The contract says
/// only that the number lies in the range, which is what the crate
/// documents; the range must not be empty, or the call panics.
#[verifier::external_body]
fn random_in(low: u64, high: u64) -> (r: u64)
    requires
        low <= high,
    ensures
        low <= r <= high,
{
    rand::random_range(low..=high)
}

/// Four dice thrown at random.
fn throw_dice() -> (dices: [u64; 4])
    ensures
        forall|i: int| 0 <= i < 4 ==> 1 <= #[trigger] dices@[i] <= 6,
{
    [random_in(1, 6), random_in(1, 6), random_in(1, 6), random_in(1, 6)]
}

/// The first `k` dice as the values that the search works on.
fn dice_values(dices: &[u64; 4], k: usize) -> (ds: Vec<u64>)
    requires
        k <= 4,
    ensures
        ds@.len() == k,
        faces(ds@) == shown(*dices, k as nat),
{
    let mut ds: Vec<u64> = Vec::new();
    let mut i: usize = 0;
    while i < k
        invariant
            i <= k <= 4,
            ds@.len() == i,
            forall|j: int| 0 <= j < i ==> #[trigger] ds@[j] == dices@[j],
        decreases k - i,
    {
        ds.push(dices[i]);
        i = i + 1;
    }
    proof {
        assert(faces(ds@) =~= shown(*dices, k as nat));
    }
    ds
}

impl Game {
    /// A game with a random target and random dice: the target has two
    /// digits at most for three dice and three digits for four.
    pub fn new(num_dices: DiceAmount) -> (game: Self)
        ensures
            game.num_dices == num_dices,
            num_dices == DiceAmount::Three ==> 1 <= game.num <= 99,
            num_dices == DiceAmount::Four ==> 100 <= game.num <= 999,
            forall|i: int| 0 <= i < 4 ==> 1 <= #[trigger] game.dices@[i] <= 6,
            game.solutions@.len() == 0,
    {
        let num: u64 = match num_dices {
            DiceAmount::Three => random_in(1, 99),
            DiceAmount::Four => random_in(100, 999),
        };
        let dices = throw_dice();
        Game { num_dices, num, dices, solutions: Vec::new() }
    }

    /// The game of the target `num` and the dice `dices`.
    pub fn of(num_dices: DiceAmount, num: u64, dices: [u64; 4]) -> (game: Self)
        ensures
            game.num_dices == num_dices,
            game.num == num,
            game.dices == dices,
            game.solutions@.len() == 0,
    {
        Game { num_dices, num, dices, solutions: Vec::new() }
    }

    /// The game of the target `num` with random dice.
    pub fn of_number(num_dices: DiceAmount, num: u64) -> (game: Self)
        ensures
            game.num_dices == num_dices,
            game.num == num,
            forall|i: int| 0 <= i < 4 ==> 1 <= #[trigger] game.dices@[i] <= 6,
            game.solutions@.len() == 0,
    {
        let dices = throw_dice();
        Game { num_dices, num, dices, solutions: Vec::new() }
    }

    /// The dice in play, as faces.
    pub open spec fn faces_in_play(self) -> Seq<nat> {
        shown(self.dices, self.num_dices.count())
    }

    /// Finds the computations over all dice in play that give the target.
    /// The solutions found before stay; the list is extended by
    /// computations that obey the rules, use each die in play once and give
    /// the target, none the same as one in the list, until the list holds,
    /// for each such computation, one that ends in the same step.
    pub fn solve(&mut self)
        requires
            faces_fit(old(self).faces_in_play()),
        ensures
            final(self).num_dices == old(self).num_dices,
            final(self).num == old(self).num,
            final(self).dices == old(self).dices,
            extends(final(self).solutions@, old(self).solutions@),
            pairwise_different(old(self).solutions@) ==> pairwise_different(
                final(self).solutions@,
            ),
            forall|i: int|
                old(self).solutions@.len() <= i < final(self).solutions@.len() ==> witness(
                    #[trigger] final(self).solutions@[i],
                    old(self).faces_in_play(),
                    LIMIT as nat,
                    all_dice(old(self).num_dices.count()),
                    old(self).num as nat,
                ),
            forall|e: Calculation| #[trigger]
                witness(
                    e,
                    old(self).faces_in_play(),
                    LIMIT as nat,
                    all_dice(old(self).num_dices.count()),
                    old(self).num as nat,
                ) ==> holds_last_step(final(self).solutions@, e, LIMIT as nat),
    {
        match self.num_dices {
            DiceAmount::Three => self.solve_three(),
            DiceAmount::Four => self.solve_four(),
        }
    }

    /// The computations over the first three dice that give the target.
    fn solve_three(&mut self)
        requires
            faces_fit(shown(old(self).dices, 3)),
        ensures
            final(self).num_dices == old(self).num_dices,
            final(self).num == old(self).num,
            final(self).dices == old(self).dices,
            extends(final(self).solutions@, old(self).solutions@),
            pairwise_different(old(self).solutions@) ==> pairwise_different(
                final(self).solutions@,
            ),
            forall|i: int|
                old(self).solutions@.len() <= i < final(self).solutions@.len() ==> witness(
                    #[trigger] final(self).solutions@[i],
                    shown(old(self).dices, 3),
                    LIMIT as nat,
                    all_dice(3),
                    old(self).num as nat,
                ),
            forall|e: Calculation| #[trigger]
                witness(
                    e,
                    shown(old(self).dices, 3),
                    LIMIT as nat,
                    all_dice(3),
                    old(self).num as nat,
                )
                    ==> holds_last_step(final(self).solutions@, e, LIMIT as nat),
    {
        let ds = dice_values(&self.dices, 3);
        let mut dp: Table = Vec::new();
        let mut pool: Vec<ValueMap> = Vec::new();
        enumerate_into(LIMIT, &ds, &mut dp, &mut pool, &mut self.solutions, self.num);
    }

    /// The computations over the four dice that give the target.
    fn solve_four(&mut self)
        requires
            faces_fit(shown(old(self).dices, 4)),
        ensures
            final(self).num_dices == old(self).num_dices,
            final(self).num == old(self).num,
            final(self).dices == old(self).dices,
            extends(final(self).solutions@, old(self).solutions@),
            pairwise_different(old(self).solutions@) ==> pairwise_different(
                final(self).solutions@,
            ),
            forall|i: int|
                old(self).solutions@.len() <= i < final(self).solutions@.len() ==> witness(
                    #[trigger] final(self).solutions@[i],
                    shown(old(self).dices, 4),
                    LIMIT as nat,
                    all_dice(4),
                    old(self).num as nat,
                ),
            forall|e: Calculation| #[trigger]
                witness(
                    e,
                    shown(old(self).dices, 4),
                    LIMIT as nat,
                    all_dice(4),
                    old(self).num as nat,
                )
                    ==> holds_last_step(final(self).solutions@, e, LIMIT as nat),
    {
        let ds = dice_values(&self.dices, 4);
        let mut dp: Table = Vec::new();
        let mut pool: Vec<ValueMap> = Vec::new();
        enumerate_into(LIMIT, &ds, &mut dp, &mut pool, &mut self.solutions, self.num);
    }
}

impl Game {
    /// The dice in play, as the renderer takes them.
    pub open spec fn dice_in_play(self) -> Seq<u64> {
        Seq::new(self.num_dices.count(), |i: int| self.dices@[i])
    }

    /// The game as it is shown.
    pub fn to_text(&self) -> (text: String)
        ensures
            text@ == game_text(self.num, self.dice_in_play()),
    {
        let k: usize = match self.num_dices {
            DiceAmount::Three => 3,
            DiceAmount::Four => 4,
        };
        let mut dice: Vec<u64> = Vec::new();
        let mut i: usize = 0;
        while i < k
            invariant
                i <= k <= 4,
                dice@.len() == i,
                forall|j: int| 0 <= j < i ==> #[trigger] dice@[j] == self.dices@[j],
            decreases k - i,
        {
            dice.push(self.dices[i]);
            i = i + 1;
        }
        proof {
            assert(dice@ =~= self.dice_in_play());
        }
        game_string(self.num, dice.as_slice())
    }
}

} // verus!
