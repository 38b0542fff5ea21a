//! A replay is a seed plus a command log: kilobytes for a whole match, and
//! the primary bug-report format. A replay is a file, and files are not
//! trusted: every field that sizes an allocation or steers a loop is
//! checked before the replay is run.

use vstd::prelude::*;
use crate::command::{named_ids, command_error_text, Command, CommandError, MAX_COMMAND_IDS, MAX_PLAYERS};
use crate::fx::dec_digits;
use crate::text::{hex_digits, push_hex, push_unsigned};
use crate::simulation::SimConfig;

verus! {

/// Everything needed to reproduce a match.
#[derive(Clone, PartialEq, Eq, Debug)]
pub struct Replay {
    /// Format version; bumped when `Command` or `SimConfig` change shape.
    pub version: u32,
    /// Match seed.
    pub seed: u64,
    /// Match parameters.
    pub config: SimConfig,
    /// How many ticks the recorded match ran.
    pub ticks: u64,
    /// `(issue_tick, command)` pairs, in issue order.
    pub commands: Vec<(u64, Command)>,
}

/// Why a replay was rejected before it was run.
#[derive(Clone, Copy, PartialEq, Eq, Structural, Debug)]
pub enum ReplayError {
    /// Recorded by a build with a different replay format.
    Version {
        /// The version in the file.
        got: u32,
        /// The version this build reads.
        expected: u32,
    },
    /// `ticks` exceeds [`Replay::MAX_TICKS`].
    TooLong {
        /// The value in the file.
        got: u64,
    },
    /// Commands are not in non-decreasing issue-tick order.
    OutOfOrder {
        /// Index of the first command that goes backwards.
        index: usize,
        /// Its issue tick.
        tick: u64,
        /// The issue tick of the command before it.
        previous: u64,
    },
    /// A command claims to have been issued after the match ended.
    IssuedAfterEnd {
        /// Index of the command.
        index: usize,
        /// Its issue tick.
        tick: u64,
        /// The recorded match length.
        ticks: u64,
    },
    /// A command is structurally malformed.
    BadCommand {
        /// Index of the command.
        index: usize,
        /// What is wrong with it.
        source: CommandError,
    },
}

/// Two runs of the same replay disagreed.
#[derive(Clone, Copy, PartialEq, Eq, Structural, Debug)]
pub struct Divergence {
    /// First tick with mismatched hashes.
    pub tick: u64,
    /// Hash from the first run.
    pub first: u64,
    /// Hash from the second run.
    pub second: u64,
}

/// Why a replay's determinism check did not return a hash.
#[derive(Clone, Copy, PartialEq, Eq, Structural, Debug)]
pub enum VerifyError {
    /// The replay was rejected before it ran.
    Invalid(ReplayError),
    /// Two runs of the same replay disagreed.
    Diverged(Divergence),
}

impl From<ReplayError> for VerifyError {
    fn from(e: ReplayError) -> (r: VerifyError) {
        VerifyError::Invalid(e)
    }
}

impl vstd::std_specs::convert::FromSpecImpl<ReplayError> for VerifyError {
    open spec fn obeys_from_spec() -> bool {
        true
    }

    open spec fn from_spec(e: ReplayError) -> VerifyError {
        VerifyError::Invalid(e)
    }
}

/// What is structurally wrong with a command, if anything: the player
/// first, then the length of its entity list.
pub open spec fn command_error(c: Command) -> Option<CommandError> {
    if c.player >= MAX_PLAYERS {
        Some(CommandError::PlayerOutOfRange { player: c.player })
    } else if named_ids(c.kind) > MAX_COMMAND_IDS {
        Some(CommandError::TooManyIds { len: named_ids(c.kind) as usize })
    } else {
        None
    }
}

/// The issue tick the `i`-th command must not go below: that of the one
/// before it, or 0 for the first.
pub open spec fn previous_tick(cmds: Seq<(u64, Command)>, i: int) -> u64 {
    if i == 0 { 0 } else { cmds[i - 1].0 }
}

/// What is wrong with the `i`-th entry of a log for a match of `ticks`
/// ticks: going backwards, then lying after the end, then a malformed
/// command.
pub open spec fn entry_error(cmds: Seq<(u64, Command)>, ticks: u64, i: int) -> Option<ReplayError> {
    let t = cmds[i].0;
    if t < previous_tick(cmds, i) {
        Some(ReplayError::OutOfOrder { index: i as usize, tick: t, previous: previous_tick(cmds, i) })
    } else if t > ticks {
        Some(ReplayError::IssuedAfterEnd { index: i as usize, tick: t, ticks })
    } else {
        match command_error(cmds[i].1) {
            Some(e) => Some(ReplayError::BadCommand { index: i as usize, source: e }),
            None => None,
        }
    }
}

/// The error of the first bad entry from `i` on, or none.
pub open spec fn first_entry_error(cmds: Seq<(u64, Command)>, ticks: u64, i: int) -> Option<ReplayError>
    decreases cmds.len() - i,
{
    if i < 0 || i >= cmds.len() {
        None
    } else {
        match entry_error(cmds, ticks, i) {
            Some(e) => Some(e),
            None => first_entry_error(cmds, ticks, i + 1),
        }
    }
}

/// The verdict on a replay: the version, then the length, then the first
/// bad entry of the log.
pub open spec fn verdict(version: u32, ticks: u64, cmds: Seq<(u64, Command)>) -> Result<(), ReplayError> {
    if version != 1 {
        Err(ReplayError::Version { got: version, expected: 1 })
    } else if ticks > 10_000_000 {
        Err(ReplayError::TooLong { got: ticks })
    } else {
        match first_entry_error(cmds, ticks, 0) {
            Some(e) => Err(e),
            None => Ok(()),
        }
    }
}

/// With no bad entry from `i` on, every entry from `i` on is good.
proof fn lemma_no_first_error(cmds: Seq<(u64, Command)>, ticks: u64, i: int)
    requires
        0 <= i,
        first_entry_error(cmds, ticks, i) is None,
    ensures
        forall|j: int| i <= j < cmds.len() ==> #[trigger] entry_error(cmds, ticks, j) is None,
    decreases cmds.len() - i,
{
    if i < cmds.len() {
        lemma_no_first_error(cmds, ticks, i + 1);
    }
}

impl Replay {
    /// Current format version.
    pub const VERSION: u32 = 1;

    /// Longest match this build will run from a file: ten million ticks,
    /// orders of magnitude beyond a real match.
    pub const MAX_TICKS: u64 = 10_000_000;

    /// Checks the replay is well-formed and safe to run: the version this
    /// build reads, at most [`Replay::MAX_TICKS`] ticks, and then, command
    /// by command, issue ticks that never go backwards and never pass the
    /// end (a command issued on the final tick is legal and never runs),
    /// and well-formed commands. The first problem found is reported.
    pub fn validate(&self) -> (r: Result<(), ReplayError>)
        ensures
            r == verdict(self.version, self.ticks, self.commands@),
            r is Ok <==> self.version == 1 && self.ticks <= 10_000_000 && forall|i: int|
                0 <= i < self.commands@.len() ==> #[trigger] entry_error(self.commands@, self.ticks, i) is None,
    {
        if self.version != Replay::VERSION {
            return Err(ReplayError::Version { got: self.version, expected: Replay::VERSION });
        }
        if self.ticks > Replay::MAX_TICKS {
            return Err(ReplayError::TooLong { got: self.ticks });
        }
        let ghost cmds = self.commands@;
        let mut previous: u64 = 0;
        let mut index: usize = 0;
        while index < self.commands.len()
            invariant
                cmds == self.commands@,
                self.version == 1,
                self.ticks <= 10_000_000,
                index <= cmds.len(),
                previous == previous_tick(cmds, index as int),
                first_entry_error(cmds, self.ticks, 0) == first_entry_error(cmds, self.ticks, index as int),
                forall|j: int| 0 <= j < index ==> #[trigger] entry_error(cmds, self.ticks, j) is None,
            decreases cmds.len() - index,
        {
            let tick = self.commands[index].0;
            if tick < previous {
                return Err(ReplayError::OutOfOrder { index, tick, previous });
            }
            if tick > self.ticks {
                return Err(ReplayError::IssuedAfterEnd { index, tick, ticks: self.ticks });
            }
            match self.commands[index].1.validate() {
                Err(source) => {
                    return Err(ReplayError::BadCommand { index, source });
                },
                Ok(()) => {},
            }
            assert(entry_error(cmds, self.ticks, index as int) is None);
            previous = tick;
            index = index + 1;
        }
        proof {
            assert(first_entry_error(cmds, self.ticks, index as int) is None);
        }
        Ok(())
    }
}

/// What a rejected replay reads as.
pub open spec fn replay_error_text(e: ReplayError) -> Seq<char> {
    match e {
        ReplayError::Version { got, expected } => "replay version "@ + dec_digits(got as nat)
            + " but this build reads version "@ + dec_digits(expected as nat),
        ReplayError::TooLong { got } => "replay claims "@ + dec_digits(got as nat) + " ticks, limit is "@ + dec_digits(
            10_000_000,
        ),
        ReplayError::OutOfOrder { index, tick, previous } => "command "@ + dec_digits(index as nat) + " is issued at tick "@
            + dec_digits(tick as nat) + ", after tick "@ + dec_digits(previous as nat),
        ReplayError::IssuedAfterEnd { index, tick, ticks } => "command "@ + dec_digits(index as nat)
            + " is issued at tick "@ + dec_digits(tick as nat) + ", after the match ends at "@ + dec_digits(ticks as nat),
        ReplayError::BadCommand { index, source } => "command "@ + dec_digits(index as nat) + ": "@ + command_error_text(
            source,
        ),
    }
}

/// What a divergence reads as: the tick, then both hashes in sixteen hex
/// digits.
pub open spec fn divergence_text(d: Divergence) -> Seq<char> {
    "state diverged at tick "@ + dec_digits(d.tick as nat) + ": "@ + hex_digits(d.first as nat, 16) + " vs "@
        + hex_digits(d.second as nat, 16)
}

/// What a failed determinism check reads as.
pub open spec fn verify_error_text(e: VerifyError) -> Seq<char> {
    match e {
        VerifyError::Invalid(r) => "invalid replay: "@ + replay_error_text(r),
        VerifyError::Diverged(d) => "DESYNC "@ + divergence_text(d),
    }
}

impl ReplayError {
    /// The rejection in words, naming the command at fault.
    pub fn to_string(&self) -> (r: String)
        ensures
            r@ == replay_error_text(*self),
    {
        let mut s = String::new();
        match *self {
            ReplayError::Version { got, expected } => {
                s.append("replay version ");
                push_unsigned(&mut s, got as u64);
                s.append(" but this build reads version ");
                push_unsigned(&mut s, expected as u64);
            },
            ReplayError::TooLong { got } => {
                s.append("replay claims ");
                push_unsigned(&mut s, got);
                s.append(" ticks, limit is ");
                push_unsigned(&mut s, Replay::MAX_TICKS);
            },
            ReplayError::OutOfOrder { index, tick, previous } => {
                s.append("command ");
                push_unsigned(&mut s, index as u64);
                s.append(" is issued at tick ");
                push_unsigned(&mut s, tick);
                s.append(", after tick ");
                push_unsigned(&mut s, previous);
            },
            ReplayError::IssuedAfterEnd { index, tick, ticks } => {
                s.append("command ");
                push_unsigned(&mut s, index as u64);
                s.append(" is issued at tick ");
                push_unsigned(&mut s, tick);
                s.append(", after the match ends at ");
                push_unsigned(&mut s, ticks);
            },
            ReplayError::BadCommand { index, source } => {
                s.append("command ");
                push_unsigned(&mut s, index as u64);
                s.append(": ");
                let t = source.to_string();
                s.append(t.as_str());
            },
        }
        proof {
            assert(s@ =~= replay_error_text(*self));
        }
        s
    }
}

impl Divergence {
    /// The divergence in words: `state diverged at tick 4: 00000000000000ff vs ...`.
    pub fn to_string(&self) -> (r: String)
        ensures
            r@ == divergence_text(*self),
    {
        let mut s = String::new();
        s.append("state diverged at tick ");
        push_unsigned(&mut s, self.tick);
        s.append(": ");
        push_hex(&mut s, self.first, 16);
        s.append(" vs ");
        push_hex(&mut s, self.second, 16);
        proof {
            assert(s@ =~= divergence_text(*self));
        }
        s
    }
}

impl VerifyError {
    /// The failure in words.
    pub fn to_string(&self) -> (r: String)
        ensures
            r@ == verify_error_text(*self),
    {
        let mut s = String::new();
        match *self {
            VerifyError::Invalid(e) => {
                s.append("invalid replay: ");
                let t = e.to_string();
                s.append(t.as_str());
            },
            VerifyError::Diverged(d) => {
                s.append("DESYNC ");
                let t = d.to_string();
                s.append(t.as_str());
            },
        }
        proof {
            assert(s@ =~= verify_error_text(*self));
        }
        s
    }
}

} // verus!
