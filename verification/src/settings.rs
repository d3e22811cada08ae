//! What the environment decides about the daemon.

use crate::store;
use crate::text;
use vstd::prelude::*;

verus! {

/// Seconds with nobody connected after which the daemon may exit, where a
/// service manager owns the listening socket: the next connection starts it
/// again. Longer than the metrics daemon's equivalent because starting this one
/// opens a database.
pub const IDLE_EXIT: u64 = 120;

/// How often, in seconds, the idle watch wakes to see whether that grace has
/// run out.
pub const IDLE_TICK: u64 = 10;

/// Bytes the archive may occupy, from what the environment says.
pub open spec fn budget_of(value: Option<Seq<char>>) -> int {
    match value {
        Some(value) => match text::signed_value(value) {
            Some(bytes) => if bytes < 0 || bytes > i64::MAX {
                store::DEFAULT_BUDGET as int
            } else if bytes == 0 {
                i64::MAX as int
            } else {
                bytes
            },
            None => store::DEFAULT_BUDGET as int,
        },
        None => store::DEFAULT_BUDGET as int,
    }
}

/// Bytes the archive may occupy before eviction starts.
///
/// There is deliberately no limit on the number of entries: a long history of
/// short text costs almost nothing, and a count is the wrong thing to ration.
/// Zero means no budget at all — the archive grows until the disk says
/// otherwise, which is the user's business and not the daemon's. Nonsense
/// leaves the default rather than shrinking the archive to it.
pub fn budget(value: Option<&str>) -> (bytes: i64)
    ensures
        bytes == budget_of(text::optional_slice(value)),
{
    match value {
        Some(value) => match text::parse_signed(value) {
            Some(bytes) => if bytes < 0 {
                store::DEFAULT_BUDGET
            } else if bytes == 0 {
                i64::MAX
            } else {
                bytes
            },
            None => store::DEFAULT_BUDGET,
        },
        None => store::DEFAULT_BUDGET,
    }
}

/// A number the environment states, where it is one that can be held.
pub open spec fn stated(value: Option<Seq<char>>) -> Option<nat> {
    match value {
        Some(value) => match text::unsigned_value(value) {
            Some(n) => if n <= u32::MAX {
                Some(n)
            } else {
                None
            },
            None => None,
        },
        None => None,
    }
}

fn read_number(value: Option<&str>) -> (number: Option<u64>)
    ensures
        match number {
            Some(n) => stated(text::optional_slice(value)) == Some(n as nat),
            None => stated(text::optional_slice(value)) is None,
        },
{
    match value {
        Some(value) => text::parse_unsigned(&text::chars_of(value), u32::MAX as u64),
        None => None,
    }
}

/// Whether the service manager passed a listening socket to this very process:
/// at least one descriptor, addressed to this process and not to one it was
/// started from.
pub fn inherits_listener(listening: Option<&str>, owner: Option<&str>, process: u32) -> (answer:
    bool)
    ensures
        answer == ((stated(text::optional_slice(listening)) matches Some(count) && count >= 1)
            && stated(text::optional_slice(owner)) == Some(process as nat)),
{
    match (read_number(listening), read_number(owner)) {
        (Some(count), Some(owner)) => count >= 1 && owner == process as u64,
        _ => false,
    }
}

/// Whether the daemon may exit when idle. Only a manager-owned socket may be
/// left unattended, since it is what starts the daemon again; and one that is
/// itself watching the clipboard is in continuous use.
pub fn may_exit_when_idle(socket_activated: bool, capturing: bool) -> (answer: bool)
    ensures
        answer == (socket_activated && !capturing),
{
    socket_activated && !capturing
}

/// How long nobody has been connected.
pub struct IdleWatch {
    idle_for: u64,
}

impl View for IdleWatch {
    type V = nat;

    /// The seconds.
    closed spec fn view(&self) -> nat {
        self.idle_for as nat
    }
}

impl IdleWatch {
    pub closed spec fn well_formed(self) -> bool {
        self.idle_for < IDLE_EXIT
    }

    pub fn new() -> (watch: IdleWatch)
        ensures
            watch.well_formed(),
            watch@ == 0,
    {
        IdleWatch { idle_for: 0 }
    }

    /// Takes note of how many are connected at a tick, and tells whether the
    /// grace has run out.
    ///
    /// The archive is durable and every entry is saved before its request is
    /// answered, so there is nothing to flush: the process can simply go, and
    /// the next connection brings it back.
    pub fn tick(&mut self, connected: usize) -> (exit: bool)
        requires
            old(self).well_formed(),
        ensures
            exit == (connected == 0 && old(self)@ + IDLE_TICK >= IDLE_EXIT),
            !exit ==> final(self).well_formed() && final(self)@ == (if connected > 0 {
                0
            } else {
                old(self)@ + IDLE_TICK
            }),
    {
        if connected > 0 {
            self.idle_for = 0;
            return false;
        }
        self.idle_for += IDLE_TICK;
        self.idle_for >= IDLE_EXIT
    }
}

/// Unix seconds as an entry records them. A clock that cannot be read is not a
/// reason to lose a clipboard entry, so the epoch stands in and the entry sorts
/// oldest.
pub fn stamp(since_epoch: Option<u64>) -> (at: i64)
    ensures
        at == (match since_epoch {
            Some(seconds) => if seconds <= i64::MAX {
                seconds as int
            } else {
                seconds - u64::MAX - 1
            },
            None => 0,
        }),
{
    match since_epoch {
        Some(seconds) => if seconds <= i64::MAX as u64 {
            seconds as i64
        } else {
            // The count wraps, as far beyond any clock as that is.
            -((u64::MAX - seconds) as i64) - 1
        },
        None => 0,
    }
}

// ---------------------------------------------------------------------------
// What the environment means
// ---------------------------------------------------------------------------

/// A number of bytes is the budget; nothing at all, nonsense, a negative number
/// and one too large to count with leave five gibibytes, and zero takes the
/// limit away.
pub proof fn a_stated_budget_is_the_budget(value: Seq<char>)
    ensures
        budget_of(None) == 5_368_709_120,
        text::signed_value(value) is None ==> budget_of(Some(value)) == 5_368_709_120,
        text::signed_value(value) matches Some(bytes) ==> {
            &&& 0 < bytes <= 0x7fff_ffff_ffff_ffff ==> budget_of(Some(value)) == bytes
            &&& bytes == 0 ==> budget_of(Some(value)) == 0x7fff_ffff_ffff_ffff
            &&& bytes < 0 || bytes > 0x7fff_ffff_ffff_ffff ==> budget_of(Some(value))
                == 5_368_709_120
        },
{
}

/// A number the environment states is taken as it is, as far as thirty-two bits
/// reach.
pub proof fn a_stated_number_is_taken_as_it_is(value: Seq<char>, n: nat)
    ensures
        stated(None) is None,
        stated(Some(value)) == Some(n) <==> text::unsigned_value(value) == Some(n) && n
            <= 0xffff_ffff,
        IDLE_EXIT == 120,
        IDLE_TICK == 10,
{
}

} // verus!
