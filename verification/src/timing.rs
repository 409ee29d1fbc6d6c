//! Wall-clock measurement of recomputations.
//!
//! A `Stopwatch` times the evaluation of one node and keeps a record of what it
//! did: when it read the clock, when it called the node's function, and what it
//! read afterwards. Only its own methods add to that record, so a record of the
//! form start, call, reading shows that the reading covers that call alone.
use std::time::{Duration, Instant};
use vstd::prelude::*;

verus! {

/// std's monotonic clock reading, held opaquely.
#[verifier::external_type_specification]
#[verifier::external_body]
pub struct ExInstant(Instant);

/// `Instant::now`: the current time. Nothing is stated of it.
#[verifier::external_body]
fn instant_now() -> Instant {
    Instant::now()
}

/// `Instant::elapsed`: the time since `t`. Nothing is stated of it.
#[verifier::external_body]
fn instant_elapsed(t: &Instant) -> Duration {
    t.elapsed()
}

/// `Duration::as_micros`: the whole microseconds of `d`. Nothing is stated of it.
#[verifier::external_body]
fn duration_as_micros(d: &Duration) -> u128 {
    d.as_micros()
}

/// One step of a timed evaluation.
pub enum TimeEvent {
    /// The clock was read and gave this instant.
    Start(Instant),
    /// The function of this node was called and returned.
    Called(usize),
    /// The whole microseconds elapsed since the instant were read.
    Read(Instant, u64),
}

/// Times one evaluation and records its steps.
pub struct Stopwatch {
    events: Ghost<Seq<TimeEvent>>,
}

impl View for Stopwatch {
    type V = Seq<TimeEvent>;

    closed spec fn view(&self) -> Seq<TimeEvent> {
        self.events@
    }
}

/// `events` is the record of one evaluation of `node` timed alone: the clock
/// was read, then the node's function was called and returned, then the
/// microseconds elapsed since that first reading were read, giving `micros`.
pub open spec fn timed_alone(events: Seq<TimeEvent>, node: usize, micros: u64) -> bool {
    &&& events.len() == 3
    &&& events[1] == TimeEvent::Called(node)
    &&& events[0] matches TimeEvent::Start(t) && events[2] == TimeEvent::Read(t, micros)
}

impl Stopwatch {
    /// A stopwatch that has done nothing yet.
    pub fn new() -> (w: Stopwatch)
        ensures
            w@ == Seq::<TimeEvent>::empty(),
    {
        Stopwatch { events: Ghost(Seq::empty()) }
    }

    /// Reads the clock.
    pub fn start(&mut self) -> (t: Instant)
        ensures
            final(self)@ == old(self)@.push(TimeEvent::Start(t)),
    {
        let t = instant_now();
        self.events = Ghost(self.events@.push(TimeEvent::Start(t)));
        t
    }

    /// Calls `f` on `args`, the function of node `node`.
    pub fn call<V, F: Fn(&[Option<&V>]) -> V>(&mut self, node: usize, f: &F, args: &[Option<&V>]) -> (v: V)
        requires
            f.requires((args,)),
        ensures
            f.ensures((args,), v),
            final(self)@ == old(self)@.push(TimeEvent::Called(node)),
    {
        let v = f(args);
        self.events = Ghost(self.events@.push(TimeEvent::Called(node)));
        v
    }

    /// Reads the whole microseconds elapsed since `t0`.
    pub fn micros_since(&mut self, t0: &Instant) -> (r: u64)
        ensures
            final(self)@ == old(self)@.push(TimeEvent::Read(*t0, r)),
    {
        let micros = duration_as_micros(&instant_elapsed(t0));
        let r = micros as u64;
        self.events = Ghost(self.events@.push(TimeEvent::Read(*t0, r)));
        r
    }
}

} // verus!
