use crate::stream::pow2;
use crate::table::same_bytes;
use vstd::prelude::*;

verus! {

/// Longest wait, in seconds, for the server's answer to one ClientHello.
pub const MAX_HELLO_WAIT_SECS: u64 = 10;

/// Seconds to wait for an answer to hello attempt `k` (from 0): doubling, at most ten.
pub open spec fn hello_timeout(k: nat) -> nat {
    let p = pow2(if k < 10 { k } else { 10 });
    if p < MAX_HELLO_WAIT_SECS { p } else { MAX_HELLO_WAIT_SECS as nat }
}

proof fn lemma_pow2_at_least_16(k: nat)
    requires
        k >= 4,
    ensures
        pow2(k) >= 16,
    decreases k,
{
    if k == 4 {
        reveal_with_fuel(pow2, 5);
    } else {
        lemma_pow2_at_least_16((k - 1) as nat);
    }
}

/// The wait for hello attempt `attempt`.
pub fn hello_timeout_secs(attempt: u64) -> (r: u64)
    ensures
        r == hello_timeout(attempt as nat),
{
    proof {
        reveal_with_fuel(pow2, 5);
        if attempt >= 4 {
            lemma_pow2_at_least_16(if attempt < 10 { attempt as nat } else { 10 });
        }
    }
    if attempt == 0 {
        1
    } else if attempt == 1 {
        2
    } else if attempt == 2 {
        4
    } else if attempt == 3 {
        8
    } else {
        MAX_HELLO_WAIT_SECS
    }
}

/// What came of one ClientHello.
#[derive(Clone, Debug, PartialEq, Eq)]
pub enum HelloEvent {
    /// No answer within the wait.
    TimedOut,
    /// An answer arrived: the long-term public key of the ServerHello in it, or `None` if it
    /// held no ServerHello that could be read.
    Reply { server_long_pk: Option<Vec<u8>> },
    /// Sending or receiving failed.
    IoError,
}

/// What the client does next in its handshake.
#[derive(Clone, Copy, Debug, PartialEq, Eq, Structural)]
pub enum HelloAction {
    /// Send a fresh ClientHello and wait this many seconds.
    Retry { timeout_secs: u64 },
    /// The server proved the expected key: set up the session.
    Accept,
    /// The server answered with another key: the connection is refused.
    Refuse,
    /// Give up with the I/O error.
    Fail,
}

/// One step of the client handshake after attempt `attempt`: a timeout or an unreadable
/// answer leads to the next attempt with a longer wait; a ServerHello is accepted only if
/// it carries the expected long-term key.
pub fn hello_step(attempt: u64, expected_pk: &[u8], evt: &HelloEvent) -> (r: (u64, HelloAction))
    requires
        attempt < u64::MAX,
    ensures
        (match evt {
            HelloEvent::TimedOut => true,
            HelloEvent::Reply { server_long_pk } => server_long_pk.is_none(),
            HelloEvent::IoError => false,
        }) ==> r == ((attempt + 1) as u64, HelloAction::Retry { timeout_secs: hello_timeout((attempt + 1) as nat) as u64 }),
        (match evt {
            HelloEvent::Reply { server_long_pk } => server_long_pk.is_some(),
            _ => false,
        }) ==> r.0 == attempt && r.1 == (if evt->server_long_pk.unwrap()@ == expected_pk@ {
            HelloAction::Accept
        } else {
            HelloAction::Refuse
        }),
        evt is IoError ==> r == (attempt, HelloAction::Fail),
{
    match evt {
        HelloEvent::Reply { server_long_pk: Some(pk) } => {
            if same_bytes(pk.as_slice(), expected_pk) {
                (attempt, HelloAction::Accept)
            } else {
                (attempt, HelloAction::Refuse)
            }
        },
        HelloEvent::IoError => (attempt, HelloAction::Fail),
        _ => {
            let next = attempt + 1;
            (next, HelloAction::Retry { timeout_secs: hello_timeout_secs(next) })
        },
    }
}

/// How long, in microseconds, a worker may go without traffic before it resumes again.
pub const RESUME_IDLE_US: u64 = 1_000_000;

/// Whether more than `RESUME_IDLE_US` passed since `t`, if there is a `t`.
pub open spec fn idle_since(t: Option<u64>, now: u64) -> bool {
    match t {
        Some(t) => now > t && now - t > RESUME_IDLE_US,
        None => false,
    }
}

/// The bookkeeping of one client worker, which owns one socket (one shard): how many
/// packets came from the server, and when to re-announce the shard with a ClientResume.
/// Times are microseconds.
pub struct ClientWorker {
    last_incoming: Option<u64>,
    last_resume: Option<u64>,
    announced: bool,
    received: u64,
}

impl ClientWorker {
    pub closed spec fn last_incoming(&self) -> Option<u64> {
        self.last_incoming
    }

    pub closed spec fn last_resume(&self) -> Option<u64> {
        self.last_resume
    }

    pub closed spec fn announced(&self) -> bool {
        self.announced
    }

    pub closed spec fn received(&self) -> u64 {
        self.received
    }

    /// A worker that has neither sent nor received anything.
    pub fn new() -> (r: Self)
        ensures
            r.last_incoming().is_none(),
            r.last_resume().is_none(),
            !r.announced(),
            r.received() == 0,
    {
        ClientWorker { last_incoming: None, last_resume: None, announced: false, received: 0 }
    }

    /// A packet came in at `now`; it counts only if it came from the server.
    pub fn on_incoming(&mut self, from_server: bool, now: u64)
        ensures
            final(self).last_incoming() == Some(now),
            final(self).last_resume() == old(self).last_resume(),
            final(self).announced() == old(self).announced(),
            final(self).received() == if from_server && old(self).received() < u64::MAX {
                (old(self).received() + 1) as u64
            } else {
                old(self).received()
            },
    {
        if from_server && self.received < u64::MAX {
            self.received = self.received + 1;
        }
        self.last_incoming = Some(now);
    }

    /// A packet is about to go out at `now`: `true` if a ClientResume must go first, which is
    /// on the first packet, or when the server has been silent, or no resume was sent, for
    /// over a second.
    pub fn on_outgoing(&mut self, now: u64) -> (r: bool)
        ensures
            r == (!old(self).announced() || idle_since(old(self).last_incoming(), now) || idle_since(
                old(self).last_resume(),
                now,
            )),
            r ==> final(self).announced() && final(self).last_resume() == Some(now),
            !r ==> final(self).announced() == old(self).announced() && final(self).last_resume() == old(self).last_resume(),
            final(self).last_incoming() == old(self).last_incoming(),
            final(self).received() == old(self).received(),
    {
        let stale_in = match self.last_incoming {
            Some(t) => now > t && now - t > RESUME_IDLE_US,
            None => false,
        };
        let stale_out = match self.last_resume {
            Some(t) => now > t && now - t > RESUME_IDLE_US,
            None => false,
        };
        if !self.announced || stale_in || stale_out {
            self.announced = true;
            self.last_resume = Some(now);
            true
        } else {
            false
        }
    }

    /// Packets received from the server since the last reset.
    pub fn get_received_count(&self) -> (r: u64)
        ensures
            r == self.received(),
    {
        self.received
    }

    /// Starts counting again from zero.
    pub fn reset_received_count(&mut self)
        ensures
            final(self).received() == 0,
            final(self).last_incoming() == old(self).last_incoming(),
            final(self).last_resume() == old(self).last_resume(),
            final(self).announced() == old(self).announced(),
    {
        self.received = 0;
    }
}

} // verus!
