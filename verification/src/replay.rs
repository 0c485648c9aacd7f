//! Recording and replaying matches.
//!
//! A replay is the match seed plus the command log. That is all: lockstep
//! already requires that those two things determine everything else. It is
//! the primary debugging tool for the rest of the project: when two peers
//! diverge, the command log reproduces the divergence offline.

use vstd::prelude::*;
use crate::command::{command_views, copy_commands, Command, CommandView, Tick};
use crate::protocol::PROTOCOL_VERSION;
use crate::text::{append_decimal, decimal};

verus! {

/// Bumped when the replay file layout changes.
pub const REPLAY_FORMAT_VERSION: u32 = 1;

/// A recorded match.
#[derive(Debug)]
pub struct Replay {
    pub format_version: u32,
    /// The protocol, and therefore simulation behaviour, this was recorded
    /// under. A replay from a different build will not reproduce.
    pub protocol_version: u32,
    pub seed: u64,
    /// Identifies the map and starting units.
    pub setup_hash: u64,
    pub player_count: u8,
    /// Commands as executed, one entry per tick that ran. Ticks with no
    /// commands are recorded too, so the log's length is the match length.
    pub turns: Vec<Vec<Command>>,
}

/// The commands of every recorded tick.
pub open spec fn turns_view(r: Replay) -> Seq<Seq<CommandView>> {
    r.turns@.map_values(|v: Vec<Command>| command_views(v@))
}

impl Replay {
    /// An empty recording for a match with this seed and setup, made by
    /// this build.
    pub fn new(seed: u64, setup_hash: u64, player_count: u8) -> (r: Replay)
        ensures
            r.format_version == REPLAY_FORMAT_VERSION,
            r.protocol_version == PROTOCOL_VERSION,
            r.seed == seed,
            r.setup_hash == setup_hash,
            r.player_count == player_count,
            turns_view(r) == Seq::<Seq<CommandView>>::empty(),
    {
        let r = Replay {
            format_version: REPLAY_FORMAT_VERSION,
            protocol_version: PROTOCOL_VERSION,
            seed,
            setup_hash,
            player_count,
            turns: Vec::new(),
        };
        assert(turns_view(r) =~= Seq::<Seq<CommandView>>::empty());
        r
    }

    /// Records the commands executed for one tick.
    pub fn record(&mut self, commands: &Vec<Command>)
        ensures
            turns_view(*final(self)) == turns_view(*old(self)).push(command_views(commands@)),
            final(self).format_version == old(self).format_version,
            final(self).protocol_version == old(self).protocol_version,
            final(self).seed == old(self).seed,
            final(self).setup_hash == old(self).setup_hash,
            final(self).player_count == old(self).player_count,
    {
        let copy = copy_commands(commands);
        self.turns.push(copy);
        assert(turns_view(*self) =~= turns_view(*old(self)).push(command_views(commands@)));
    }

    /// Ticks recorded.
    pub fn length(&self) -> (r: Tick)
        ensures
            r == self.turns@.len() as u32,
    {
        self.turns.len() as Tick
    }

    pub fn is_empty(&self) -> (r: bool)
        ensures
            r == (self.turns@.len() == 0),
    {
        self.turns.len() == 0
    }

    /// Commands for a tick, or `None` past the end of the recording.
    pub fn commands_at(&self, tick: Tick) -> (r: Option<&Vec<Command>>)
        ensures
            match r {
                Some(v) => tick < self.turns@.len() && command_views(v@) == turns_view(*self)[tick as int],
                None => tick >= self.turns@.len(),
            },
    {
        if (tick as usize) < self.turns.len() {
            Some(&self.turns[tick as usize])
        } else {
            None
        }
    }

    /// Accepts a recording that was read back, refusing one this build
    /// cannot reproduce: a different file layout first, then a different
    /// protocol. Playing back something that merely looks plausible is far
    /// worse than refusing.
    pub fn check_loaded(self) -> (r: Result<Replay, ReplayError>)
        ensures
            match r {
                Ok(v) => self.format_version == REPLAY_FORMAT_VERSION && self.protocol_version
                    == PROTOCOL_VERSION && v.format_version == self.format_version
                    && v.protocol_version == self.protocol_version && v.seed == self.seed
                    && v.setup_hash == self.setup_hash && v.player_count == self.player_count
                    && turns_view(v) == turns_view(self),
                Err(e) => if self.format_version != REPLAY_FORMAT_VERSION {
                    e == ReplayError::FormatMismatch {
                        found: self.format_version,
                        expected: REPLAY_FORMAT_VERSION,
                    }
                } else {
                    self.protocol_version != PROTOCOL_VERSION && e
                        == ReplayError::ProtocolMismatch {
                        found: self.protocol_version,
                        expected: PROTOCOL_VERSION,
                    }
                },
            },
    {
        if self.format_version != REPLAY_FORMAT_VERSION {
            return Err(
                ReplayError::FormatMismatch {
                    found: self.format_version,
                    expected: REPLAY_FORMAT_VERSION,
                },
            );
        }
        if self.protocol_version != PROTOCOL_VERSION {
            return Err(
                ReplayError::ProtocolMismatch {
                    found: self.protocol_version,
                    expected: PROTOCOL_VERSION,
                },
            );
        }
        Ok(self)
    }
}

/// What can go wrong reading a replay back.
#[derive(Debug)]
pub enum ReplayError {
    /// The file could not be read; the operating system's words.
    Io(String),
    /// The file is not a replay; the parser's words.
    Parse(String),
    FormatMismatch { found: u32, expected: u32 },
    ProtocolMismatch { found: u32, expected: u32 },
}

/// How a replay error reads.
pub open spec fn replay_error_text(e: ReplayError) -> Seq<char> {
    match e {
        ReplayError::Io(m) => "could not read the replay: "@ + m@,
        ReplayError::Parse(m) => "the replay file is malformed: "@ + m@,
        ReplayError::FormatMismatch { found, expected } => "replay format "@ + decimal(found as nat)
            + " cannot be read by this build, which expects "@ + decimal(expected as nat),
        ReplayError::ProtocolMismatch { found, expected } => "this replay was recorded by protocol "@
            + decimal(found as nat) + "; this build is "@ + decimal(expected as nat)
            + ", and would simulate it differently"@,
    }
}

impl ReplayError {
    /// The error as a sentence.
    pub fn to_string(&self) -> (r: String)
        ensures
            r@ == replay_error_text(*self),
    {
        match self {
            ReplayError::Io(m) => {
                let mut s = String::from_str("could not read the replay: ");
                s.append(m.as_str());
                s
            },
            ReplayError::Parse(m) => {
                let mut s = String::from_str("the replay file is malformed: ");
                s.append(m.as_str());
                s
            },
            ReplayError::FormatMismatch { found, expected } => {
                let mut s = String::from_str("replay format ");
                append_decimal(&mut s, *found as u64);
                s.append(" cannot be read by this build, which expects ");
                append_decimal(&mut s, *expected as u64);
                s
            },
            ReplayError::ProtocolMismatch { found, expected } => {
                let mut s = String::from_str("this replay was recorded by protocol ");
                append_decimal(&mut s, *found as u64);
                s.append("; this build is ");
                append_decimal(&mut s, *expected as u64);
                s.append(", and would simulate it differently");
                s
            },
        }
    }
}

} // verus!
