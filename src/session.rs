//! Decisions of the client session and of the listener loop.
//!
//! The loops themselves read sockets, sleep and write; each turn they hand
//! what happened to the functions here and perform the action these return.

use crate::frame::{declared_size, size_error, DecodeStep, FrameDecoder, HEADER_SIZE};
use crate::rate::{admits, after_admit, RateLimiter};
use vstd::prelude::*;

verus! {

/// What a read on a client's socket gave.
#[derive(Clone, Copy, Debug, PartialEq, Eq, Structural)]
pub enum ReadOutcome {
    /// Some bytes arrived.
    Data,
    /// Nothing arrived before the read timeout, or the read would block.
    TimedOut,
    /// The peer closed the connection: a read of zero bytes.
    Closed,
    /// Any other I/O failure.
    Failed,
}

/// Whether a session goes on reading after a read.
pub open spec fn keeps_reading(running: bool, outcome: ReadOutcome) -> bool {
    running && (outcome == ReadOutcome::Data || outcome == ReadOutcome::TimedOut)
}

/// Decides after each read whether the session goes on. A shutdown, a peer
/// that closed and a hard failure all end it; a timeout does not.
pub fn continue_after_read(running: bool, outcome: ReadOutcome) -> (r: bool)
    ensures
        r == keeps_reading(running, outcome),
{
    running && match outcome {
        ReadOutcome::Data | ReadOutcome::TimedOut => true,
        ReadOutcome::Closed | ReadOutcome::Failed => false,
    }
}

/// What the listener's accept gave.
#[derive(Clone, Copy, Debug, PartialEq, Eq, Structural)]
pub enum AcceptOutcome {
    /// A connection was accepted.
    Connection,
    /// No connection is waiting.
    WouldBlock,
    /// Accepting failed.
    Failed,
}

/// What the listener does next.
#[derive(Clone, Copy, Debug, PartialEq, Eq, Structural)]
pub enum ListenerAction {
    /// Start a session for the accepted connection.
    Spawn,
    /// Drop the accepted connection without a word: the server is full.
    Refuse,
    /// Sleep one poll interval, then accept again.
    Sleep,
    /// Leave the loop.
    Stop,
}

pub open spec fn listener_action(running: bool, outcome: AcceptOutcome, has_room: bool) -> ListenerAction {
    if !running {
        ListenerAction::Stop
    } else {
        match outcome {
            AcceptOutcome::Connection => if has_room {
                ListenerAction::Spawn
            } else {
                ListenerAction::Refuse
            },
            AcceptOutcome::WouldBlock => ListenerAction::Sleep,
            AcceptOutcome::Failed => ListenerAction::Stop,
        }
    }
}

/// Decides what the listener does with the outcome of an accept, given
/// whether the registry has room for one more connection.
pub fn listener_step(running: bool, outcome: AcceptOutcome, has_room: bool) -> (r: ListenerAction)
    ensures
        r == listener_action(running, outcome, has_room),
{
    if !running {
        return ListenerAction::Stop;
    }
    match outcome {
        AcceptOutcome::Connection => if has_room {
            ListenerAction::Spawn
        } else {
            ListenerAction::Refuse
        },
        AcceptOutcome::WouldBlock => ListenerAction::Sleep,
        AcceptOutcome::Failed => ListenerAction::Stop,
    }
}

/// Once the stop flag is down, the listener leaves its loop whatever accept
/// gave, and every session leaves its loop after its next read, whatever
/// that read gave.
pub proof fn lemma_shutdown_stops_loops(accepted: AcceptOutcome, has_room: bool, read: ReadOutcome)
    ensures
        listener_action(false, accepted, has_room) == ListenerAction::Stop,
        !keeps_reading(false, read),
{
}

/// While `max_players` connections or more are live, every connection
/// accepted is dropped without a session being started.
pub proof fn lemma_full_server_refuses(live: nat, max_players: int)
    requires
        live >= max_players,
    ensures
        listener_action(true, AcceptOutcome::Connection, live < max_players) == ListenerAction::Refuse,
{
}

/// What a session does with the bytes it has buffered.
#[derive(Debug, PartialEq, Eq)]
pub enum SessionAction {
    /// No complete frame yet: read again.
    Wait,
    /// Broadcast this frame, header included, exactly as received.
    Forward(Vec<u8>),
    /// A frame arrived over the rate limit and is dropped.
    Drop,
    /// The peer broke the protocol: close the connection.
    Disconnect,
}

/// One client's session: its identifier, the bytes received and not yet
/// framed, and its rate limiter. Each admitted message weighs one: the limit
/// counts messages per second.
pub struct Session {
    id: u32,
    decoder: FrameDecoder,
    limiter: RateLimiter,
}

impl Session {
    pub closed spec fn wf(&self) -> bool {
        self.limiter.wf()
    }

    pub closed spec fn spec_id(&self) -> u32 {
        self.id
    }

    /// The bytes received and not yet handed out.
    pub closed spec fn pending(&self) -> Seq<u8> {
        self.decoder@
    }

    /// The rate limiter's remembered entries.
    pub closed spec fn window(&self) -> Seq<(u64, u32)> {
        self.limiter@
    }

    /// Messages admitted per window.
    pub closed spec fn limit(&self) -> int {
        self.limiter.limit()
    }

    /// A session for connection `id`, admitting at most `max_rate` messages
    /// per second; a negative rate admits none.
    pub fn new(id: u32, max_rate: i32) -> (s: Session)
        ensures
            s.wf(),
            s.spec_id() == id,
            s.pending() == Seq::<u8>::empty(),
            s.window() == Seq::<(u64, u32)>::empty(),
            s.limit() == if max_rate < 0 { 0 } else { max_rate as int },
    {
        let threshold: u32 = if max_rate < 0 { 0 } else { max_rate as u32 };
        Session { id, decoder: FrameDecoder::new(), limiter: RateLimiter::new(threshold) }
    }

    pub fn id(&self) -> (r: u32)
        ensures
            r == self.spec_id(),
    {
        self.id
    }

    /// Buffers bytes just read from the socket.
    pub fn receive(&mut self, chunk: &[u8])
        requires
            old(self).wf(),
        ensures
            final(self).wf(),
            final(self).spec_id() == old(self).spec_id(),
            final(self).limit() == old(self).limit(),
            final(self).window() == old(self).window(),
            final(self).pending() == old(self).pending() + chunk@,
    {
        self.decoder.push(chunk);
    }

    /// Takes the next complete frame off the buffered bytes at time `now`
    /// (milliseconds) and decides its fate: a size out of bounds closes the
    /// connection; a frame within bounds counts against the rate limit and
    /// is forwarded when admitted, dropped otherwise.
    pub fn next_action(&mut self, now: u64) -> (r: SessionAction)
        requires
            old(self).wf(),
        ensures
            final(self).wf(),
            final(self).spec_id() == old(self).spec_id(),
            final(self).limit() == old(self).limit(),
            ({
                let p = old(self).pending();
                if p.len() < HEADER_SIZE {
                    r == SessionAction::Wait && final(self).pending() == p && final(self).window()
                        == old(self).window()
                } else if size_error(declared_size(p)) is Some {
                    r == SessionAction::Disconnect && final(self).pending() == p
                        && final(self).window() == old(self).window()
                } else if p.len() < declared_size(p) {
                    r == SessionAction::Wait && final(self).pending() == p && final(self).window()
                        == old(self).window()
                } else {
                    &&& final(self).pending() == p.subrange(declared_size(p), p.len() as int)
                    &&& final(self).window() == after_admit(old(self).window(), old(self).limit(), now, 1)
                    &&& if admits(old(self).window(), old(self).limit(), now as int) {
                        r matches SessionAction::Forward(f) && f@ == p.subrange(0, declared_size(p))
                    } else {
                        r == SessionAction::Drop
                    }
                }
            }),
    {
        match self.decoder.next_frame() {
            DecodeStep::NeedMore => SessionAction::Wait,
            DecodeStep::Violation(_) => SessionAction::Disconnect,
            DecodeStep::Frame(f) => {
                if self.limiter.try_admit(now, 1) {
                    SessionAction::Forward(f)
                } else {
                    SessionAction::Drop
                }
            },
        }
    }
}

} // verus!
