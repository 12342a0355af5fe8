use keystory::asyncio::{
    after_poll, after_read, after_wait, begin_trip, begin_wait, is_readable, Event, Polled,
    ReadOutcome, RoundTripError, RoundTripStep, Tokens, WaitStep,
};

#[test]
fn tokens_are_handed_out_once() {
    let mut t = Tokens::new();
    assert_eq!(t.allot(), Some(1));
    assert_eq!(t.allot(), Some(2));
    assert_eq!(Tokens::default().allot(), Some(1));
}

#[test]
fn waits_honour_the_deadline() {
    assert_eq!(begin_wait(10, 60), WaitStep::Poll(50));
    assert_eq!(begin_wait(60, 60), WaitStep::TimedOut);
    assert_eq!(begin_wait(61, 60), WaitStep::TimedOut);
    let none = Polled::Events(vec![]);
    assert_eq!(after_poll(&none, 1, 59, 60), WaitStep::Poll(1));
    assert_eq!(after_poll(&none, 1, 60, 60), WaitStep::TimedOut);
    assert_eq!(after_poll(&Polled::Interrupted, 1, 30, 60), WaitStep::Poll(30));
    assert_eq!(after_poll(&Polled::Interrupted, 1, 90, 60), WaitStep::TimedOut);
    assert_eq!(after_poll(&Polled::Failed, 1, 0, 60), WaitStep::Failed);
}

#[test]
fn only_the_own_source_counts() {
    let other = Event { token: 2, readable: true };
    let hangup = Event { token: 1, readable: false };
    let own = Event { token: 1, readable: true };
    assert!(!is_readable(&vec![other, hangup], 1));
    assert!(is_readable(&vec![other, hangup, own], 1));
    assert_eq!(
        after_poll(&Polled::Events(vec![other, hangup]), 1, 10, 60),
        WaitStep::Poll(50)
    );
    assert_eq!(after_poll(&Polled::Events(vec![other, own]), 1, 99, 60), WaitStep::Ready);
}

#[test]
fn round_trips() {
    assert_eq!(begin_trip(0, 5), RoundTripStep::Wait(5));
    assert_eq!(begin_trip(5, 5), RoundTripStep::Over(RoundTripError::TimedOut));
    assert_eq!(after_wait(true), RoundTripStep::Read);
    assert_eq!(after_wait(false), RoundTripStep::Over(RoundTripError::TimedOut));
    assert_eq!(after_read(ReadOutcome::Bytes(11), 9, 5), RoundTripStep::Done(11));
    assert_eq!(
        after_read(ReadOutcome::Bytes(0), 0, 5),
        RoundTripStep::Over(RoundTripError::UnexpectedEof)
    );
    assert_eq!(after_read(ReadOutcome::Retry, 3, 5), RoundTripStep::Wait(2));
    assert_eq!(
        after_read(ReadOutcome::Retry, 5, 5),
        RoundTripStep::Over(RoundTripError::TimedOut)
    );
    assert_eq!(after_read(ReadOutcome::Failed, 0, 5), RoundTripStep::Failed);
    assert_eq!(
        RoundTripError::TimedOut.message(),
        "no readiness event before the deadline"
    );
    assert_eq!(RoundTripError::UnexpectedEof.message(), "peer closed the stream");
}
