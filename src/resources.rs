use vstd::prelude::*;

verus! {

/// Length of a round, in milliseconds.
pub const ROUND_MS: i64 = 30_000;

/// How long a floating reward text stays, in milliseconds.
pub const REWARD_TEXT_MS: i64 = 1_000;

/// How long the reward sprite left where an enemy was destroyed stays, in milliseconds.
pub const REWARD_FILE_MS: i64 = 1_000;

/// The number of enemies destroyed in the current round.
#[derive(Clone, Copy, Debug, PartialEq, Eq, Structural)]
pub struct Scoring {
    pub bug_fix: u32,
}

impl Default for Scoring {
    fn default() -> (r: Scoring)
        ensures
            r.bug_fix == 0,
    {
        Scoring { bug_fix: 0 }
    }
}

impl Scoring {
    /// One more enemy destroyed.
    pub fn record_hit(&mut self)
        requires
            old(self).bug_fix < u32::MAX,
        ensures
            final(self).bug_fix == old(self).bug_fix + 1,
    {
        self.bug_fix = self.bug_fix + 1;
    }
}

/// Remaining time of the round, in milliseconds; it goes below zero when the
/// round is over.
#[derive(Clone, Copy, Debug, PartialEq, Eq, Structural)]
pub struct Timer(pub i64);

impl Timer {
    /// Counts down by the real time elapsed since the last tick.
    pub fn update(&mut self, elapsed_ms: u32)
        requires
            old(self).0 >= i64::MIN + elapsed_ms,
        ensures
            final(self).0 == old(self).0 - elapsed_ms,
    {
        self.0 = self.0 - elapsed_ms as i64;
    }

    /// The round is over once the remaining time is below zero.
    pub open spec fn is_over_spec(&self) -> bool {
        self.0 < 0
    }

    /// The round is over once the remaining time is below zero.
    pub fn is_over(&self) -> (r: bool)
        ensures
            r == self.is_over_spec(),
    {
        self.0 < 0
    }

    /// Remaining time shown to the player: never below zero.
    pub fn displayed_ms(&self) -> (r: i64)
        ensures
            r == if self.0 < 0 {
                0
            } else {
                self.0
            },
    {
        if self.0 < 0 {
            0
        } else {
            self.0
        }
    }
}

/// A lifetime: its owner is despawned once `current_time` reaches `duration`
/// (both in milliseconds).
#[derive(Clone, Copy, Debug, PartialEq, Eq, Structural)]
pub struct Temporary {
    pub duration: i64,
    pub current_time: i64,
}

impl Temporary {
    pub open spec fn expired(self) -> bool {
        self.current_time >= self.duration
    }

    pub open spec fn can_age(self, elapsed_ms: u32) -> bool {
        self.current_time + elapsed_ms <= i64::MAX
    }

    pub open spec fn aged(self, elapsed_ms: u32) -> Temporary {
        Temporary { duration: self.duration, current_time: (self.current_time + elapsed_ms) as i64 }
    }

    /// Adds the real time elapsed since the last tick; says whether the
    /// lifetime is over.
    pub fn age(&mut self, elapsed_ms: u32) -> (expired: bool)
        requires
            old(self).can_age(elapsed_ms),
        ensures
            *final(self) == old(self).aged(elapsed_ms),
            expired == final(self).expired(),
    {
        self.current_time = self.current_time + elapsed_ms as i64;
        self.current_time >= self.duration
    }
}

} // verus!
