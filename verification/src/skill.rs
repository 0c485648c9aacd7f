//! How good a computer opponent is.
//!
//! An RTS opponent does not have an IQ. What it has is three things that can
//! be turned down without lying to the player: how often it thinks, how much
//! of its income it spends, and how much it commits before it attacks.
//! Everything below is those three scaled by one number. No cheating: the
//! hardest opponent sees the same fog and pays the same prices.
//!
//! Everything here is derived from the difficulty and the tick. No randomness
//! and no wall clock: two peers running the same match must issue the same
//! commands on the same ticks.

use vstd::prelude::*;
use crate::value::TICKS_PER_SECOND;

verus! {

/// How well a computer opponent plays, and whether it attacks at all.
#[derive(Clone, Copy, PartialEq, Eq, PartialOrd, Ord, Hash, Debug, Structural)]
pub enum Difficulty {
    /// Plays as well as `Easy` and never attacks. It builds a base and an
    /// army, and defends itself if you come to it.
    Dummy,
    Easy,
    Medium,
    /// Roughly a competent human. The ceiling, deliberately.
    Hard,
}

/// Competence, as a percentage of a competent human.
pub open spec fn competence_of(d: Difficulty) -> u32 {
    match d {
        Difficulty::Dummy | Difficulty::Easy => 40,
        Difficulty::Medium => 70,
        Difficulty::Hard => 100,
    }
}

/// Ticks between decisions: a quarter second at full competence, scaled
/// inversely, never below one tick.
pub open spec fn think_interval_of(d: Difficulty) -> int {
    let interval = (TICKS_PER_SECOND / 4) as int * 100 / competence_of(d) as int;
    if interval < 1 {
        1
    } else {
        interval
    }
}

/// The place of a difficulty on the ladder.
pub open spec fn rank(d: Difficulty) -> int {
    match d {
        Difficulty::Dummy => 0,
        Difficulty::Easy => 1,
        Difficulty::Medium => 2,
        Difficulty::Hard => 3,
    }
}

impl Default for Difficulty {
    /// The opponent a new player meets first: one that never attacks.
    fn default() -> (r: Difficulty)
        ensures
            r == Difficulty::Dummy,
    {
        Difficulty::Dummy
    }
}

impl Difficulty {
    /// Competence, as a percentage of a competent human.
    ///
    /// The steps are even rather than tuned: an even ladder is honest about
    /// being arbitrary.
    pub fn competence(self) -> (r: u32)
        ensures
            r == competence_of(self),
    {
        match self {
            // Dummy thinks exactly as well as Easy; the only difference is
            // what it is willing to do with the conclusion.
            Difficulty::Dummy | Difficulty::Easy => 40,
            Difficulty::Medium => 70,
            Difficulty::Hard => 100,
        }
    }

    /// Whether this opponent will ever leave its base to attack.
    pub fn attacks(self) -> (r: bool)
        ensures
            r == !(self is Dummy),
    {
        !matches!(self, Difficulty::Dummy)
    }

    /// Ticks between decisions. Falls as skill rises.
    pub fn think_interval(self) -> (r: u32)
        ensures
            r == think_interval_of(self),
            r >= 1,
    {
        let quarter_second = TICKS_PER_SECOND / 4;
        let interval = quarter_second * 100 / self.competence();
        if interval < 1 {
            1
        } else {
            interval
        }
    }

    /// The share of its income it will actually commit, as a percentage.
    /// Never below half: an opponent that spent almost nothing would look
    /// broken rather than bad.
    pub fn spend_share(self) -> (r: u32)
        ensures
            r == 50 + competence_of(self) / 2,
    {
        50 + self.competence() / 2
    }

    /// How many harvesters it tries to keep working.
    pub fn harvesters_wanted(self) -> (r: u32)
        ensures
            r == 2 + competence_of(self) / 40,
    {
        2 + self.competence() / 40
    }

    /// How many fighting units it gathers before attacking.
    pub fn attack_at(self) -> (r: u32)
        ensures
            r == 4 + competence_of(self) / 12,
    {
        4 + self.competence() / 12
    }
}

/// The ladder climbs: above the dummy, every number that describes
/// competence moves the same way, so a harder opponent is harder in every
/// respect: more competent, quicker to react, spending more of its income,
/// keeping at least as many harvesters.
pub proof fn lemma_the_ladder_climbs(worse: Difficulty, better: Difficulty)
    requires
        1 <= rank(worse) < rank(better),
    ensures
        competence_of(better) > competence_of(worse),
        think_interval_of(better) <= think_interval_of(worse),
        50 + competence_of(better) / 2 > 50 + competence_of(worse) / 2,
        2 + competence_of(better) / 40 >= 2 + competence_of(worse) / 40,
{
}

/// A dummy is as clever as an easy opponent: same head, different appetite.
pub proof fn lemma_dummy_thinks_like_easy()
    ensures
        competence_of(Difficulty::Dummy) == competence_of(Difficulty::Easy),
        think_interval_of(Difficulty::Dummy) == think_interval_of(Difficulty::Easy),
{
}

} // verus!
