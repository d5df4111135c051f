//! The search engine: which numbers a set of dice reaches, and how.

use crate::combine::{pairwise_different, ValueMap};
use crate::engine::{enumerate, holds_last_step, probe, strictly_increasing};
use crate::game::calculation::Calculation;
use crate::output::{game_string, game_text};
use crate::reach::{all_dice, faces_fit, reachable, witness};
use crate::stages::{faces, pool_after, pool_clean, Table};
use vstd::prelude::*;

verus! {

/// The most dice that a game takes.
pub const MAX_DICES: usize = 4;

/// The largest number that a step may give in this engine.
pub const LIMIT: u64 = 4294967295;

/// How many dice are in play.
#[derive(Debug, Clone, Copy, Hash, PartialEq, Eq, Structural)]
pub enum DiceAmount {
    Four,
    Three,
}

/// The dice that a value map has used, by their positions.
#[derive(Debug, Clone, Copy, Hash, PartialEq, Eq, Structural)]
pub enum UsedCubes {
    OneCube(u32),
    TwoCubes(u32, u32),
    ThreeCubes(u32, u32, u32),
}

impl DiceAmount {
    /// The number of dice.
    pub open spec fn count(self) -> nat {
        match self {
            DiceAmount::Four => 4,
            DiceAmount::Three => 3,
        }
    }
}

impl UsedCubes {
    /// The positions are below `k`, no position occurs twice, and a pair is
    /// written with its larger position first.
    pub open spec fn well_formed(self, k: nat) -> bool {
        match self {
            UsedCubes::OneCube(i) => i < k,
            UsedCubes::TwoCubes(i, j) => j < i < k,
            UsedCubes::ThreeCubes(a, b, c) => a < k && c < b < k && a != b && a != c,
        }
    }

    /// The positions as a set.
    pub open spec fn dice(self) -> Set<nat> {
        match self {
            UsedCubes::OneCube(i) => set![i as nat],
            UsedCubes::TwoCubes(i, j) => set![i as nat, j as nat],
            UsedCubes::ThreeCubes(a, b, c) => set![a as nat, b as nat, c as nat],
        }
    }

    /// How many dice are used.
    pub open spec fn size(self) -> nat {
        match self {
            UsedCubes::OneCube(_) => 1,
            UsedCubes::TwoCubes(_, _) => 2,
            UsedCubes::ThreeCubes(_, _, _) => 3,
        }
    }
}

/// A game that is solved over and over: it keeps the table of the search and
/// a pool of emptied maps between the calls.
#[derive(Debug, Clone)]
pub struct Game {
    pub num_dices: DiceAmount,
    pub num: u32,
    pub dices: [u8; MAX_DICES],
    pub solutions: Vec<Calculation>,
    pub result_map_pool: Vec<ValueMap>,
    pub dp: Table,
}

/// The faces of the first `k` dice.
pub open spec fn shown(dices: [u8; MAX_DICES], k: nat) -> Seq<nat> {
    Seq::new(k, |i: int| dices@[i] as nat)
}

/// The first `k` dice as the values that the search works on.
pub fn dice_values(dices: &[u8; MAX_DICES], k: usize) -> (ds: Vec<u64>)
    requires
        k <= MAX_DICES,
    ensures
        ds@.len() == k,
        faces(ds@) == shown(*dices, k as nat),
        faces_fit(faces(ds@)),
{
    let mut ds: Vec<u64> = Vec::new();
    let mut i: usize = 0;
    while i < k
        invariant
            i <= k <= MAX_DICES,
            ds@.len() == i,
            forall|j: int| 0 <= j < i ==> #[trigger] ds@[j] == dices@[j] as u64,
        decreases k - i,
    {
        ds.push(dices[i] as u64);
        i = i + 1;
    }
    proof {
        assert(faces(ds@) =~= shown(*dices, k as nat));
    }
    ds
}

impl Game {
    /// The pool holds only empty maps, and the table is empty.
    pub open spec fn at_rest(self) -> bool {
        pool_clean(self.result_map_pool@) && self.dp@.len() == 0
    }

    /// A game of `num_dices` dice with nothing set and nothing kept.
    pub fn new(num_dices: DiceAmount) -> (game: Self)
        ensures
            game.num_dices == num_dices,
            game.num == 0,
            game.dices@ == seq![0u8, 0u8, 0u8, 0u8],
            game.solutions@.len() == 0,
            game.result_map_pool@.len() == 0,
            game.dp@.len() == 0,
            game.at_rest(),
    {
        Game {
            num_dices,
            num: 0,
            dices: [0u8; MAX_DICES],
            solutions: Vec::new(),
            result_map_pool: Vec::new(),
            dp: Vec::new(),
        }
    }

    /// Sets the target `value` and the dice, and finds the computations over
    /// all dice in play that give the target: `solutions` holds no two that
    /// are the same, only computations that obey the rules, use each die in
    /// play once and give the target, and for each such computation one that
    /// ends in the same step.
    pub fn solve(&mut self, value: u32, dices: [u8; MAX_DICES])
        ensures
            final(self).num_dices == old(self).num_dices,
            final(self).num == value,
            final(self).dices == dices,
            pairwise_different(final(self).solutions@),
            forall|i: int|
                0 <= i < final(self).solutions@.len() ==> witness(
                    #[trigger] final(self).solutions@[i],
                    shown(dices, old(self).num_dices.count()),
                    LIMIT as nat,
                    all_dice(old(self).num_dices.count()),
                    value as nat,
                ),
            forall|e: Calculation| #[trigger]
                witness(
                    e,
                    shown(dices, old(self).num_dices.count()),
                    LIMIT as nat,
                    all_dice(old(self).num_dices.count()),
                    value as nat,
                ) ==> holds_last_step(final(self).solutions@, e, LIMIT as nat),
            final(self).solutions@.len() > 0 <==> reachable(
                shown(dices, old(self).num_dices.count()),
                LIMIT as nat,
                value as nat,
            ),
            final(self).dp@.len() == 0,
            final(self).result_map_pool@.len() == pool_after(
                old(self).result_map_pool@.len() + old(self).dp@.len(),
                old(self).num_dices.count(),
            ),
            pool_clean(old(self).result_map_pool@) ==> final(self).at_rest(),
    {
        self.num = value;
        self.dices = dices;
        self.solutions.clear();
        match self.num_dices {
            DiceAmount::Three => self.solve_three(),
            DiceAmount::Four => self.solve_four(),
        }
    }

    /// Which numbers from `min` up to, not including, `max` the first three
    /// of `dices` reach: `solutions` receives them in rising order.
    pub fn solve_three_fast(
        &mut self,
        min: u16,
        max: u16,
        dices: [u8; MAX_DICES],
        solutions: &mut Vec<u16>,
    )
        ensures
            strictly_increasing(final(solutions)@),
            forall|t: u16|
                final(solutions)@.contains(t) <==> min <= t < max && reachable(
                    shown(dices, 3),
                    LIMIT as nat,
                    t as nat,
                ),
            final(self).num_dices == old(self).num_dices,
            final(self).num == old(self).num,
            final(self).dices == old(self).dices,
            final(self).solutions@.len() == 0,
            final(self).dp@.len() == 0,
            final(self).result_map_pool@.len() == pool_after(
                old(self).result_map_pool@.len() + old(self).dp@.len(),
                3,
            ),
            pool_clean(old(self).result_map_pool@) ==> final(self).at_rest(),
    {
        self.solutions.clear();
        let ds = dice_values(&dices, 3);
        probe(LIMIT, &ds, &mut self.dp, &mut self.result_map_pool, min, max, solutions);
    }

    /// Which numbers from `min` up to, not including, `max` the four `dices`
    /// reach: `solutions` receives them in rising order.
    pub fn solve_four_fast(
        &mut self,
        min: u16,
        max: u16,
        dices: [u8; MAX_DICES],
        solutions: &mut Vec<u16>,
    )
        ensures
            strictly_increasing(final(solutions)@),
            forall|t: u16|
                final(solutions)@.contains(t) <==> min <= t < max && reachable(
                    shown(dices, 4),
                    LIMIT as nat,
                    t as nat,
                ),
            final(self).num_dices == old(self).num_dices,
            final(self).num == old(self).num,
            final(self).dices == old(self).dices,
            final(self).solutions@.len() == 0,
            final(self).dp@.len() == 0,
            final(self).result_map_pool@.len() == pool_after(
                old(self).result_map_pool@.len() + old(self).dp@.len(),
                4,
            ),
            pool_clean(old(self).result_map_pool@) ==> final(self).at_rest(),
    {
        self.solutions.clear();
        let ds = dice_values(&dices, 4);
        probe(LIMIT, &ds, &mut self.dp, &mut self.result_map_pool, min, max, solutions);
    }

    /// The computations over the first three dice that give the target.
    fn solve_three(&mut self)
        ensures
            final(self).num_dices == old(self).num_dices,
            final(self).num == old(self).num,
            final(self).dices == old(self).dices,
            pairwise_different(final(self).solutions@),
            forall|i: int|
                0 <= i < final(self).solutions@.len() ==> witness(
                    #[trigger] final(self).solutions@[i],
                    shown(old(self).dices, 3),
                    LIMIT as nat,
                    all_dice(3),
                    old(self).num as nat,
                ),
            forall|e: Calculation| #[trigger]
                witness(
                    e,
                    shown(old(self).dices, 3),
                    LIMIT as nat,
                    all_dice(3),
                    old(self).num as nat,
                )
                    ==> holds_last_step(final(self).solutions@, e, LIMIT as nat),
            final(self).solutions@.len() > 0 <==> reachable(
                shown(old(self).dices, 3),
                LIMIT as nat,
                old(self).num as nat,
            ),
            final(self).dp@.len() == 0,
            final(self).result_map_pool@.len() == pool_after(
                old(self).result_map_pool@.len() + old(self).dp@.len(),
                3,
            ),
            pool_clean(old(self).result_map_pool@) ==> final(self).at_rest(),
    {
        let ds = dice_values(&self.dices, 3);
        enumerate(
            LIMIT,
            &ds,
            &mut self.dp,
            &mut self.result_map_pool,
            &mut self.solutions,
            self.num as u64,
        );
    }

    /// The computations over the four dice that give the target.
    fn solve_four(&mut self)
        ensures
            final(self).num_dices == old(self).num_dices,
            final(self).num == old(self).num,
            final(self).dices == old(self).dices,
            pairwise_different(final(self).solutions@),
            forall|i: int|
                0 <= i < final(self).solutions@.len() ==> witness(
                    #[trigger] final(self).solutions@[i],
                    shown(old(self).dices, 4),
                    LIMIT as nat,
                    all_dice(4),
                    old(self).num as nat,
                ),
            forall|e: Calculation| #[trigger]
                witness(
                    e,
                    shown(old(self).dices, 4),
                    LIMIT as nat,
                    all_dice(4),
                    old(self).num as nat,
                )
                    ==> holds_last_step(final(self).solutions@, e, LIMIT as nat),
            final(self).solutions@.len() > 0 <==> reachable(
                shown(old(self).dices, 4),
                LIMIT as nat,
                old(self).num as nat,
            ),
            final(self).dp@.len() == 0,
            final(self).result_map_pool@.len() == pool_after(
                old(self).result_map_pool@.len() + old(self).dp@.len(),
                4,
            ),
            pool_clean(old(self).result_map_pool@) ==> final(self).at_rest(),
    {
        let ds = dice_values(&self.dices, 4);
        enumerate(
            LIMIT,
            &ds,
            &mut self.dp,
            &mut self.result_map_pool,
            &mut self.solutions,
            self.num as u64,
        );
    }
}

impl Game {
    /// The dice in play, as the renderer takes them.
    pub open spec fn dice_in_play(self) -> Seq<u64> {
        Seq::new(self.num_dices.count(), |i: int| self.dices@[i] as u64)
    }

    /// The game as it is shown.
    pub fn to_text(&self) -> (text: String)
        ensures
            text@ == game_text(self.num as u64, self.dice_in_play()),
    {
        let k: usize = match self.num_dices {
            DiceAmount::Three => 3,
            DiceAmount::Four => 4,
        };
        let mut dice: Vec<u64> = Vec::new();
        let mut i: usize = 0;
        while i < k
            invariant
                i <= k <= 4,
                dice@.len() == i,
                forall|j: int| 0 <= j < i ==> #[trigger] dice@[j] == self.dices@[j] as u64,
            decreases k - i,
        {
            dice.push(self.dices[i] as u64);
            i = i + 1;
        }
        proof {
            assert(dice@ =~= self.dice_in_play());
        }
        game_string(self.num as u64, dice.as_slice())
    }
}

} // verus!
