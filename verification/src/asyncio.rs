//! The decisions of an event-driven reactor: tokens for its sources, waits that honour a
//! deadline, and a round trip through a non-blocking stream.
//!
//! Times are nanoseconds since some origin. Whoever drives these polls the system for readiness,
//! reads the clock and the stream, and hands back what it saw.

use vstd::prelude::*;

verus! {

/// A readiness event: the token of its source, and whether the source is readable.
#[derive(Clone, Copy, Debug, PartialEq, Eq, Structural)]
pub struct Event {
    pub token: usize,
    pub readable: bool,
}

/// Hands out tokens, each one once.
#[derive(Debug)]
pub struct Tokens {
    next: usize,
}

impl Tokens {
    /// The token to be handed out next.
    pub closed spec fn view(&self) -> usize {
        self.next
    }

    /// The first token is 1.
    pub fn new() -> (r: Tokens)
        ensures
            r@ == 1,
    {
        Tokens { next: 1 }
    }

    /// A token that was not handed out before; `None` when they are used up.
    pub fn allot(&mut self) -> (r: Option<usize>)
        ensures
            match r {
                Some(t) => t == old(self)@ && old(self)@ < usize::MAX && final(self)@ == t + 1,
                None => old(self)@ == usize::MAX && final(self)@ == old(self)@,
            },
    {
        if self.next == usize::MAX {
            return None;
        }
        let t: usize = self.next;
        self.next = self.next + 1;
        Some(t)
    }
}

impl Default for Tokens {
    fn default() -> (r: Tokens)
        ensures
            r@ == 1,
    {
        Tokens::new()
    }
}

/// What came of polling for readiness.
#[derive(Debug, PartialEq, Eq)]
pub enum Polled {
    /// The events that were seen, none if the poll timed out.
    Events(Vec<Event>),
    /// The poll was interrupted.
    Interrupted,
    /// The poll failed.
    Failed,
}

/// What a wait does next.
#[derive(Clone, Copy, Debug, PartialEq, Eq, Structural)]
pub enum WaitStep {
    /// Poll for at most this long.
    Poll(u128),
    /// The source is readable.
    Ready,
    /// The deadline has passed.
    TimedOut,
    /// The poll failed; so does the wait.
    Failed,
}

/// Whether the events say that the source of `token` is readable.
pub open spec fn heard(events: Seq<Event>, token: usize) -> bool {
    exists|i: int|
        0 <= i < events.len() && (#[trigger] events[i]).token == token && events[i].readable
}

/// Whether the source of `token` is readable. Events of other sources are ignored.
pub fn is_readable(events: &Vec<Event>, token: usize) -> (r: bool)
    ensures
        r == heard(events@, token),
{
    let mut i: usize = 0;
    while i < events.len()
        invariant
            i <= events.len(),
            forall|j: int|
                0 <= j < i ==> (#[trigger] events@[j]).token != token || !events@[j].readable,
        decreases events.len() - i,
    {
        if events[i].token == token && events[i].readable {
            return true;
        }
        i = i + 1;
    }
    false
}

/// How a wait starts, or goes on, at time `now`: it polls for what is left until the deadline,
/// and gives up at the deadline.
pub open spec fn wait_from(now: u128, deadline: u128) -> WaitStep {
    if now >= deadline {
        WaitStep::TimedOut
    } else {
        WaitStep::Poll((deadline - now) as u128)
    }
}

/// The first step of a wait until `deadline`.
pub fn begin_wait(now: u128, deadline: u128) -> (r: WaitStep)
    ensures
        r == wait_from(now, deadline),
{
    if now >= deadline {
        WaitStep::TimedOut
    } else {
        WaitStep::Poll(deadline - now)
    }
}

/// The step of a wait for `token` after a poll, with the time read after it. An interrupted poll
/// is retried within the same deadline, and so is one that saw only other sources.
pub fn after_poll(polled: &Polled, token: usize, now: u128, deadline: u128) -> (r: WaitStep)
    ensures
        r == (match *polled {
            Polled::Events(events) => if heard(events@, token) {
                WaitStep::Ready
            } else {
                wait_from(now, deadline)
            },
            Polled::Interrupted => wait_from(now, deadline),
            Polled::Failed => WaitStep::Failed,
        }),
{
    match polled {
        Polled::Events(events) => if is_readable(events, token) {
            WaitStep::Ready
        } else {
            begin_wait(now, deadline)
        },
        Polled::Interrupted => begin_wait(now, deadline),
        Polled::Failed => WaitStep::Failed,
    }
}

/// Why a round trip failed by itself, without an error from the system.
#[derive(Clone, Copy, Debug, PartialEq, Eq, Structural)]
pub enum RoundTripError {
    /// Nothing arrived before the deadline.
    TimedOut,
    /// The peer closed the stream instead.
    UnexpectedEof,
}

impl RoundTripError {
    /// The error in words.
    pub fn message(&self) -> (r: &'static str)
        ensures
            r@ == (match *self {
                RoundTripError::TimedOut => "no readiness event before the deadline"@,
                RoundTripError::UnexpectedEof => "peer closed the stream"@,
            }),
    {
        match self {
            RoundTripError::TimedOut => "no readiness event before the deadline",
            RoundTripError::UnexpectedEof => "peer closed the stream",
        }
    }
}

/// What a non-blocking read returned.
#[derive(Clone, Copy, Debug, PartialEq, Eq, Structural)]
pub enum ReadOutcome {
    /// This many bytes; 0 at the end of the stream.
    Bytes(usize),
    /// Nothing was there after all, or the read was interrupted.
    Retry,
    /// The read failed.
    Failed,
}

/// What a round trip does next.
#[derive(Clone, Copy, Debug, PartialEq, Eq, Structural)]
pub enum RoundTripStep {
    /// Wait for readiness, for at most this long.
    Wait(u128),
    /// Read from the stream.
    Read,
    /// Done: this many bytes were read.
    Done(usize),
    /// Over, with this error.
    Over(RoundTripError),
    /// The read failed; so does the round trip.
    Failed,
}

/// How a round trip waits at time `now`.
pub open spec fn trip_from(now: u128, deadline: u128) -> RoundTripStep {
    match wait_from(now, deadline) {
        WaitStep::Poll(left) => RoundTripStep::Wait(left),
        _ => RoundTripStep::Over(RoundTripError::TimedOut),
    }
}

/// The step of a round trip once its payload is written.
pub fn begin_trip(now: u128, deadline: u128) -> (r: RoundTripStep)
    ensures
        r == trip_from(now, deadline),
{
    match begin_wait(now, deadline) {
        WaitStep::Poll(left) => RoundTripStep::Wait(left),
        _ => RoundTripStep::Over(RoundTripError::TimedOut),
    }
}

/// The step of a round trip after its wait: read if there is something to read.
pub fn after_wait(ready: bool) -> (r: RoundTripStep)
    ensures
        r == (if ready {
            RoundTripStep::Read
        } else {
            RoundTripStep::Over(RoundTripError::TimedOut)
        }),
{
    if ready {
        RoundTripStep::Read
    } else {
        RoundTripStep::Over(RoundTripError::TimedOut)
    }
}

/// The step of a round trip after a read, with the time read after it. A spurious readiness event
/// shows up as a read that has to be retried: it waits again, within the same deadline.
pub fn after_read(outcome: ReadOutcome, now: u128, deadline: u128) -> (r: RoundTripStep)
    ensures
        r == (match outcome {
            ReadOutcome::Bytes(n) => if n == 0 {
                RoundTripStep::Over(RoundTripError::UnexpectedEof)
            } else {
                RoundTripStep::Done(n)
            },
            ReadOutcome::Retry => trip_from(now, deadline),
            ReadOutcome::Failed => RoundTripStep::Failed,
        }),
{
    match outcome {
        ReadOutcome::Bytes(n) => if n == 0 {
            RoundTripStep::Over(RoundTripError::UnexpectedEof)
        } else {
            RoundTripStep::Done(n)
        },
        ReadOutcome::Retry => begin_trip(now, deadline),
        ReadOutcome::Failed => RoundTripStep::Failed,
    }
}

/// A wait or a round trip that goes on, goes on for exactly the time that is left; at the deadline
/// both are over.
pub proof fn law_a_trip_waits_for_what_is_left(now: u128, deadline: u128)
    ensures
        now < deadline ==> (wait_from(now, deadline) matches WaitStep::Poll(left) && now + left
            == deadline),
        now < deadline ==> (trip_from(now, deadline) matches RoundTripStep::Wait(left) && now + left
            == deadline),
        now >= deadline ==> wait_from(now, deadline) == WaitStep::TimedOut,
        now >= deadline ==> trip_from(now, deadline) == RoundTripStep::Over(
            RoundTripError::TimedOut,
        ),
{
}

/// A source is heard exactly if one of the events is its own and says that it is readable: events
/// that say neither make no difference.
pub proof fn law_only_its_own_events_count(events: Seq<Event>, e: Event, token: usize)
    ensures
        !heard(Seq::empty(), token),
        e.token == token && e.readable ==> heard(events.push(e), token),
        e.token != token || !e.readable ==> (heard(events.push(e), token) <==> heard(
            events,
            token,
        )),
{
    let all = events.push(e);
    assert(all[events.len() as int] == e);
    if heard(events, token) {
        let i = choose|i: int|
            0 <= i < events.len() && (#[trigger] events[i]).token == token && events[i].readable;
        assert(all[i] == events[i]);
    }
    if heard(all, token) && (e.token != token || !e.readable) {
        let i = choose|i: int|
            0 <= i < all.len() && (#[trigger] all[i]).token == token && all[i].readable;
        assert(events[i] == all[i]);
    }
}

/// A wait never outlasts its deadline: no poll is longer than the time left, and at the deadline
/// the wait is over.
pub proof fn law_waits_end_at_the_deadline(now: u128, deadline: u128)
    ensures
        wait_from(now, deadline) matches WaitStep::Poll(left) ==> 0 < left && now + left
            == deadline,
        now >= deadline ==> wait_from(now, deadline) == WaitStep::TimedOut,
{
}

} // verus!
