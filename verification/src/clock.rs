//! Stopwatches, and the one that reads the system clock.

use std::time::{Duration, Instant};

use vstd::prelude::*;

verus! {

/// The instant type of the system clock.
#[verifier::external_type_specification]
#[verifier::external_body]
pub struct ExInstant(Instant);

/// `std::time::Instant::now`. What the clock shows is not stated.
#[verifier::external_body]
fn now() -> Instant {
    Instant::now()
}

/// `std::time::Instant::elapsed`. How much time has passed is not stated.
#[verifier::external_body]
fn elapsed(started: &Instant) -> Duration {
    started.elapsed()
}

/// A stopwatch that measures what happens to a subject between a start and a stop, with
/// something shown beside it. What it may tell, each type that implements the trait says
/// for itself.
pub trait Stopwatch<S, P>: Sized {
    /// Whether the stopwatch was started and not stopped since.
    spec fn running(&self) -> bool;

    /// Whether a start, with the subject as it is in `subject` and what is shown as in
    /// `shown`, may take the stopwatch from `before` to `after`.
    spec fn started(before: Self, subject: S, shown: P, after: Self) -> bool;

    /// Whether a stop, with the subject as it is in `subject` and what is shown as in
    /// `shown`, may take the stopwatch from `before` to `after` and tell `latency`.
    spec fn stopped(before: Self, subject: S, shown: P, after: Self, latency: Duration) -> bool;

    /// Starts to measure.
    fn start(&mut self, subject: &S, shown: &P)
        requires
            !old(self).running(),
        ensures
            final(self).running(),
            Self::started(*old(self), *subject, *shown, *final(self)),
    ;

    /// Ends the measurement, and tells how long it has been since the start.
    fn stop(&mut self, subject: &S, shown: &P) -> (latency: Duration)
        requires
            old(self).running(),
        ensures
            !final(self).running(),
            Self::stopped(*old(self), *subject, *shown, *final(self), latency),
    ;
}

/// Whether a stopwatch that is started in `before` with the subject as it is in `from`, and
/// next stopped with the subject as it is in `to`, may end in `after` and tell `latency`,
/// where `shown` is shown at the start and nothing else has been shown by the stop.
pub open spec fn spanned<S, P, C: Stopwatch<S, P>>(
    before: C,
    from: S,
    to: S,
    shown: P,
    after: C,
    latency: Duration,
) -> bool {
    exists|running: C|
        C::started(before, from, shown, running) && #[trigger] C::stopped(
            running,
            to,
            shown,
            after,
            latency,
        )
}

/// The stopwatch that reads the system clock. It holds the instant of its start from there
/// to the stop, and no longer. It keeps, as ghost state, every latency that it has told.
/// What the clock shows, and so how long a latency is, is not stated.
pub struct SystemClock {
    since: Option<Instant>,
    readings: Ghost<Seq<Duration>>,
}

impl SystemClock {
    /// The instant of the start, while the stopwatch is running.
    pub closed spec fn since(&self) -> Option<Instant> {
        self.since
    }

    /// Every latency that the stopwatch has told.
    pub closed spec fn readings(&self) -> Seq<Duration> {
        self.readings@
    }

    /// A stopwatch that has told nothing yet.
    pub fn new() -> (clock: Self)
        ensures
            clock.since() is None,
            clock.readings() == Seq::<Duration>::empty(),
    {
        SystemClock { since: None, readings: Ghost(Seq::empty()) }
    }
}

impl<S, P> Stopwatch<S, P> for SystemClock {
    open spec fn running(&self) -> bool {
        self.since() is Some
    }

    /// The instant of the start is one that the system clock gave.
    closed spec fn started(before: Self, subject: S, shown: P, after: Self) -> bool {
        &&& before.since() is None
        &&& after.since() is Some
        &&& call_ensures(now, (), after.since()->0)
        &&& after.readings() == before.readings()
    }

    /// The latency is what the system clock gave for the instant of the start.
    closed spec fn stopped(
        before: Self,
        subject: S,
        shown: P,
        after: Self,
        latency: Duration,
    ) -> bool {
        &&& before.since() is Some
        &&& after.since() is None
        &&& call_ensures(elapsed, (&before.since()->0,), latency)
        &&& after.readings() == before.readings().push(latency)
    }

    fn start(&mut self, subject: &S, shown: &P) {
        self.since = Some(now());
    }

    fn stop(&mut self, subject: &S, shown: &P) -> (latency: Duration) {
        let since = self.since.take().unwrap();
        let latency = elapsed(&since);
        proof {
            self.readings@ = self.readings@.push(latency);
        }
        latency
    }
}

/// The system stopwatch keeps the latency of every span that it measures, and nothing else.
pub proof fn lemma_span_is_kept<S, P>(
    before: SystemClock,
    from: S,
    to: S,
    shown: P,
    after: SystemClock,
    latency: Duration,
)
    requires
        spanned::<S, P, SystemClock>(before, from, to, shown, after, latency),
    ensures
        after.readings() == before.readings().push(latency),
{
}

/// A latency of the system stopwatch is what the clock gives for one instant, and that is the
/// instant which the clock gave at the start.
proof fn law_latency_is_from_the_start<S, P>(
    before: SystemClock,
    from: S,
    to: S,
    shown: P,
    after: SystemClock,
    latency: Duration,
)
    requires
        spanned::<S, P, SystemClock>(before, from, to, shown, after, latency),
    ensures
        before.since() is None,
        after.since() is None,
        exists|since: Instant| #[trigger]
            call_ensures(now, (), since) && call_ensures(elapsed, (&since,), latency),
{
    let running = choose|running: SystemClock|
        <SystemClock as Stopwatch<S, P>>::started(before, from, shown, running)
            && #[trigger] <SystemClock as Stopwatch<S, P>>::stopped(
            running,
            to,
            shown,
            after,
            latency,
        );
    assert(call_ensures(now, (), running.since()->0));
}

} // verus!
