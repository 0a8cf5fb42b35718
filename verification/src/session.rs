//! The one-command-in-flight transport handshake.
//!
//! The session owns the command sequence and decides every step of the
//! protocol: which bytes to write next, whether a received line
//! acknowledges the outstanding command, and that a read timeout ends
//! the whole session.  The caller performs the channel writes and reads
//! and feeds back what happened; it cannot send a second command while
//! one is outstanding, because sending demands an idle session and only
//! an acknowledging line makes it idle again.

use crate::command::spec_wire_line;
use crate::Command;
use vstd::prelude::*;

verus! {

/// The one fatal transport failure: no acknowledging line arrived
/// within the configured timeout.
#[derive(Clone, Copy, Debug, PartialEq, Eq, Structural)]
pub enum StreamError {
    AcknowledgmentTimeout,
}

/// Where the handshake stands.
#[derive(Clone, Copy, Debug, PartialEq, Eq, Structural)]
pub enum Phase {
    /// No command is outstanding; the next one may be sent.
    Idle,
    /// A command has been written and its acknowledgment is awaited.
    AwaitingAck,
    /// The session failed fatally and must not send again.
    Terminated,
}

/// A line acknowledges when it contains the two marker bytes `OK`.
pub open spec fn spec_acknowledges(line: Seq<u8>) -> bool {
    exists|k: int| 0 <= k && k + 2 <= line.len() && #[trigger] line[k] == 79 && line[k + 1] == 75
}

/// Decides whether a received line acknowledges the outstanding command.
pub fn line_acknowledges(line: &[u8]) -> (r: bool)
    ensures
        r == spec_acknowledges(line@),
{
    if line.len() < 2 {
        return false;
    }
    let mut k: usize = 0;
    while k < line.len() - 1
        invariant
            line@.len() >= 2,
            0 <= k < line@.len(),
            forall|t: int| 0 <= t < k ==> !(#[trigger] line@[t] == 79 && line@[t + 1] == 75),
        decreases line@.len() - k,
    {
        if line[k] == 79 && line[k + 1] == 75 {
            assert(spec_acknowledges(line@));
            return true;
        }
        k = k + 1;
    }
    false
}

/// Streams a finite command sequence with a full round trip per command.
pub struct TransportSession {
    commands: Vec<Command>,
    cursor: usize,
    phase: Phase,
}

impl TransportSession {
    /// The queued commands, in send order.
    pub closed spec fn commands_view(&self) -> Seq<Command> {
        self.commands@
    }

    /// How many commands have completed their round trip.
    pub closed spec fn sent(&self) -> int {
        self.cursor as int
    }

    /// The protocol state.
    pub closed spec fn state(&self) -> Phase {
        self.phase
    }

    /// The cursor never passes the end, and a command is outstanding
    /// only while one actually remains.
    pub closed spec fn wf(&self) -> bool {
        &&& self.cursor <= self.commands@.len()
        &&& (self.phase == Phase::AwaitingAck ==> self.cursor < self.commands@.len())
    }

    pub fn new(commands: Vec<Command>) -> (r: TransportSession)
        ensures
            r.commands_view() == commands@,
            r.sent() == 0,
            r.state() == Phase::Idle,
            r.wf(),
    {
        TransportSession { commands, cursor: 0, phase: Phase::Idle }
    }

    /// Whether every queued command has been sent and acknowledged.
    pub fn finished(&self) -> (r: bool)
        requires
            self.wf(),
        ensures
            r == (self.state() == Phase::Idle && self.sent() == self.commands_view().len()),
    {
        match self.phase {
            Phase::Idle => self.cursor == self.commands.len(),
            _ => false,
        }
    }

    /// Whether the session may begin sending the next command now.
    pub fn can_send(&self) -> (r: bool)
        requires
            self.wf(),
        ensures
            r == (self.state() == Phase::Idle && self.sent() < self.commands_view().len()),
    {
        match self.phase {
            Phase::Idle => self.cursor < self.commands.len(),
            _ => false,
        }
    }

    /// Begins the next round trip: only an idle session with a command
    /// left may send, and the returned bytes are exactly the wire line
    /// of that command.
    pub fn begin_send(&mut self) -> (line: Vec<u8>)
        requires
            old(self).wf(),
            old(self).state() == Phase::Idle,
            old(self).sent() < old(self).commands_view().len(),
        ensures
            line@ == spec_wire_line(old(self).commands_view()[old(self).sent()]),
            final(self).state() == Phase::AwaitingAck,
            final(self).sent() == old(self).sent(),
            final(self).commands_view() == old(self).commands_view(),
            final(self).wf(),
    {
        let c = self.commands[self.cursor];
        self.phase = Phase::AwaitingAck;
        c.wire_line()
    }

    /// Feeds one received line: an acknowledging line completes the
    /// round trip, any other line leaves the session waiting for more.
    pub fn on_line(&mut self, line: &[u8]) -> (acked: bool)
        requires
            old(self).wf(),
            old(self).state() == Phase::AwaitingAck,
        ensures
            acked == spec_acknowledges(line@),
            final(self).commands_view() == old(self).commands_view(),
            acked ==> final(self).state() == Phase::Idle && final(self).sent() == old(self).sent()
                + 1,
            !acked ==> *final(self) == *old(self),
            final(self).wf(),
    {
        let ok = line_acknowledges(line);
        if ok {
            let n = self.commands.len();
            assert(self.cursor < n);
            self.phase = Phase::Idle;
            self.cursor = self.cursor + 1;
        }
        ok
    }

    /// Notes that the channel read timed out: the session terminates
    /// fatally and nothing may be sent again.
    pub fn on_timeout(&mut self) -> (e: StreamError)
        requires
            old(self).wf(),
            old(self).state() == Phase::AwaitingAck,
        ensures
            e == StreamError::AcknowledgmentTimeout,
            final(self).state() == Phase::Terminated,
            final(self).commands_view() == old(self).commands_view(),
            final(self).sent() == old(self).sent(),
            final(self).wf(),
    {
        self.phase = Phase::Terminated;
        StreamError::AcknowledgmentTimeout
    }
}

/// Accumulates channel bytes into lines, one byte at a time, as the
/// acknowledgment read loop observes them; a line terminator completes
/// the buffered line, terminator included.
pub struct LineAssembler {
    buf: Vec<u8>,
}

impl LineAssembler {
    /// The bytes of the line accumulated so far.
    pub closed spec fn buffered(&self) -> Seq<u8> {
        self.buf@
    }

    pub fn new() -> (r: LineAssembler)
        ensures
            r.buffered() == Seq::<u8>::empty(),
    {
        LineAssembler { buf: Vec::new() }
    }

    /// Feeds one received byte; a line terminator yields the completed
    /// line and empties the buffer.
    pub fn push_byte(&mut self, b: u8) -> (line: Option<Vec<u8>>)
        ensures
            b == 10 ==> match line {
                Some(l) => l@ == old(self).buffered().push(10u8) && final(self).buffered()
                    == Seq::<u8>::empty(),
                None => false,
            },
            b != 10 ==> line is None && final(self).buffered() == old(self).buffered().push(b),
    {
        self.buf.push(b);
        if b == 10 {
            let mut done: Vec<u8> = Vec::new();
            core::mem::swap(&mut done, &mut self.buf);
            Some(done)
        } else {
            None
        }
    }
}

} // verus!
