//! The player record and the comparison predicates of the ranking order:
//! a player beats another when its ratio is higher, or when the ratios are
//! equal and it is younger; two players are tied when ratio and age agree.

use vstd::prelude::*;

verus! {

/// One competitor: a strength score (higher is stronger), an age (lower is
/// younger) and a display name. The name takes no part in the ranking order;
/// it only distinguishes players structurally.
#[derive(Debug)]
pub struct Player {
    pub ratio: u16,
    pub age: u8,
    pub name: String,
}

/// The outcome of one aggregation run: the player judged best, and the
/// players tied with it (empty when the champion is unique).
#[derive(Debug)]
pub struct Pronostics {
    pub champion: Player,
    pub possible_champions: Vec<Player>,
}

/// `a` outranks `b` on the primary key alone.
pub open spec fn stronger(a: Player, b: Player) -> bool {
    a.ratio > b.ratio
}

/// `a` wins the secondary tiebreak against `b`.
pub open spec fn younger(a: Player, b: Player) -> bool {
    a.age < b.age
}

/// The tie criterion: equal ratio and equal age. Names are not compared.
pub open spec fn tied(a: Player, b: Player) -> bool {
    a.ratio == b.ratio && a.age == b.age
}

/// The strict ranking order: higher ratio, or equal ratio and younger age.
/// For any two players exactly one of `beats(a, b)`, `beats(b, a)` and
/// `tied(a, b)` holds.
pub open spec fn beats(a: Player, b: Player) -> bool {
    a.ratio > b.ratio || (a.ratio == b.ratio && a.age < b.age)
}

/// Structural equality of players: ratio, age and name all agree.
pub open spec fn same_player(a: Player, b: Player) -> bool {
    a.ratio == b.ratio && a.age == b.age && a.name@ == b.name@
}

/// The zero-valued placeholder that an aggregation of an empty pool returns.
pub open spec fn is_placeholder(p: Player) -> bool {
    p.ratio == 0 && p.age == 0 && p.name@ == Seq::<char>::empty()
}

/// True iff `target` has the strictly higher ratio.
pub fn is_stronger(target: &Player, other: &Player) -> (r: bool)
    ensures
        r == stronger(*target, *other),
{
    target.ratio > other.ratio
}

/// True iff `target` has the strictly lower age.
pub fn is_younger(target: &Player, other: &Player) -> (r: bool)
    ensures
        r == younger(*target, *other),
{
    target.age < other.age
}

/// True iff the two players are tied: same ratio and same age.
pub fn are_equal_players(target: &Player, other: &Player) -> (r: bool)
    ensures
        r == tied(*target, *other),
{
    target.ratio == other.ratio && target.age == other.age
}

impl Clone for Player {
    fn clone(&self) -> (r: Self)
        ensures
            r == *self,
    {
        Player { ratio: self.ratio, age: self.age, name: self.name.clone() }
    }
}

impl PartialEq for Player {
    fn eq(&self, other: &Self) -> (r: bool) {
        self.ratio == other.ratio && self.age == other.age && self.name == other.name
    }
}

impl vstd::std_specs::cmp::PartialEqSpecImpl for Player {
    open spec fn obeys_eq_spec() -> bool {
        true
    }

    open spec fn eq_spec(&self, other: &Self) -> bool {
        same_player(*self, *other)
    }
}

impl Default for Player {
    /// The placeholder player: ratio 0, age 0, empty name.
    fn default() -> (r: Self)
        ensures
            is_placeholder(r),
    {
        Player { ratio: 0, age: 0, name: String::new() }
    }
}

impl Default for Pronostics {
    /// The empty result: placeholder champion and no possible champions.
    fn default() -> (r: Self)
        ensures
            is_placeholder(r.champion),
            r.possible_champions@.len() == 0,
    {
        Pronostics { champion: Player::default(), possible_champions: Vec::new() }
    }
}

} // verus!
