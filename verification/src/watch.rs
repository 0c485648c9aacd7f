//! Noticing that the rules or the map changed on disk, so the match can be
//! restarted from the same seed. Restarted, not patched: rules feed the
//! rules hash two peers agree on, and values swapped into a running match
//! would leave it in a state no replay reproduces.
//!
//! Looking means walking a directory tree, so it is done only every so many
//! frames, and the answer kept is a single timestamp: the newest
//! modification time under the watched roots. The question is only "has
//! anything changed", and that answer moves whenever a file is saved; a
//! deleted file can move it backwards, which also reads as a change.

use vstd::prelude::*;

verus! {

/// Frames between looks: twice a second at sixty frames.
pub const CHECK_EVERY: u32 = 30;

/// What is being watched, as last seen.
pub struct RulesWatch {
    /// The newest modification time seen, in nanoseconds since the epoch.
    newest: Option<u128>,
    /// Frames left before the next look.
    countdown: u32,
}

impl RulesWatch {
    /// A watch that has just looked and seen `newest`.
    pub fn new(newest: Option<u128>) -> (r: RulesWatch)
        ensures
            r.newest_seen() == newest,
            r.frames_left() == CHECK_EVERY,
    {
        RulesWatch { newest, countdown: CHECK_EVERY }
    }

    /// The newest modification time seen.
    pub closed spec fn newest_seen(&self) -> Option<u128> {
        self.newest
    }

    /// Frames left before the next look.
    pub closed spec fn frames_left(&self) -> u32 {
        self.countdown
    }

    /// Counts a frame, and says whether it is time to look: once the
    /// countdown has run out, when it starts again.
    pub fn look_due(&mut self) -> (r: bool)
        ensures
            r == (old(self).frames_left() == 0),
            final(self).frames_left() == if r {
                CHECK_EVERY
            } else {
                (old(self).frames_left() - 1) as u32
            },
            final(self).newest_seen() == old(self).newest_seen(),
    {
        if self.countdown > 0 {
            self.countdown = self.countdown - 1;
            return false;
        }
        self.countdown = CHECK_EVERY;
        true
    }

    /// Whether what a look found differs from what was last seen, in either
    /// direction; what was found is remembered.
    pub fn changed(&mut self, newest: Option<u128>) -> (r: bool)
        ensures
            r == (newest != old(self).newest_seen()),
            final(self).newest_seen() == newest,
            final(self).frames_left() == old(self).frames_left(),
    {
        let same = match (newest, self.newest) {
            (Some(a), Some(b)) => a == b,
            (None, None) => true,
            _ => false,
        };
        self.newest = newest;
        !same
    }
}

} // verus!
