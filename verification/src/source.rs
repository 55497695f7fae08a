//! Pull-based event sources: the trait every source implements and the
//! deterministic in-memory source that replays a fixed sequence.

use vstd::prelude::*;

use crate::event::{same_event, Event};

verus! {

/// Anything an event source can fail with
#[derive(Debug, Clone, PartialEq, Eq)]
pub enum EventSourceError {
    /// The source has no more events and will not produce any in the future
    Closed,
    /// Source-specific failure, owns the upstream error message
    Backend(String),
}

/// A pull-based source of behavioral events, `next_event` blocks until an
/// event arrives or returns `Closed` when the source is exhausted, or
/// `Backend` for transient failures the caller may want to retry
pub trait EventSource {
    /// Block until the next event arrives, or report the source's terminal state
    fn next_event(&mut self) -> Result<Event, EventSourceError>;
}

/// In-memory event source that replays a fixed sequence
#[derive(Debug)]
pub struct SyntheticSource {
    events: Vec<Event>,
    cursor: usize,
}

impl SyntheticSource {
    /// The full sequence this source replays
    pub closed spec fn events(&self) -> Seq<Event> {
        self.events@
    }

    /// How many events have been yielded so far
    pub closed spec fn cursor(&self) -> nat {
        self.cursor as nat
    }

    /// Events still to be yielded
    pub open spec fn spec_remaining(&self) -> nat {
        if self.cursor() <= self.events().len() {
            (self.events().len() - self.cursor()) as nat
        } else {
            0
        }
    }

    /// Build from a fixed sequence of events, yielded in order
    pub fn new(events: Vec<Event>) -> (source: SyntheticSource)
        ensures
            source.events() == events@,
            source.cursor() == 0,
    {
        SyntheticSource { events, cursor: 0 }
    }

    /// How many events remain to be yielded
    pub fn remaining(&self) -> (n: usize)
        ensures
            n == self.spec_remaining(),
    {
        if self.cursor <= self.events.len() {
            self.events.len() - self.cursor
        } else {
            0
        }
    }
}

impl SyntheticSource {
    /// One call of `next_event` taking `before` to `after` and returning `r`:
    /// the next event of the sequence while one remains, else `Closed` with
    /// nothing changed
    pub open spec fn next_event_step(
        before: SyntheticSource,
        after: SyntheticSource,
        r: Result<Event, EventSourceError>,
    ) -> bool {
        &&& after.events() == before.events()
        &&& before.cursor() < before.events().len() ==> {
            &&& r matches Ok(e) && same_event(e, before.events()[before.cursor() as int])
            &&& after.cursor() == before.cursor() + 1
        }
        &&& before.cursor() >= before.events().len() ==> {
            &&& r == Err::<Event, EventSourceError>(EventSourceError::Closed)
            &&& after.cursor() == before.cursor()
        }
    }
}

impl EventSource for SyntheticSource {
    /// Yields the next event of the sequence, or `Closed` once it is exhausted
    fn next_event(&mut self) -> (r: Result<Event, EventSourceError>)
        ensures
            SyntheticSource::next_event_step(*old(self), *final(self), r),
    {
        if self.cursor >= self.events.len() {
            return Err(EventSourceError::Closed);
        }
        let event = self.events[self.cursor].duplicate();
        self.cursor = self.cursor + 1;
        Ok(event)
    }
}

/// Smaller of two naturals
pub open spec fn min_nat(a: nat, b: nat) -> nat {
    if a <= b {
        a
    } else {
        b
    }
}

/// A run of `next_event` calls on a source fresh from `SyntheticSource::new(v)`:
/// after `k` calls, failing ones included, the source has yielded `min(k, n)`
/// events and `remaining` is `n - min(k, n)`, so it counts down by one per
/// event and never rises; the `i`-th call returns the `i`-th event of `v`
/// while `i < n`, and `Closed` on every call after that
pub proof fn lemma_synthetic_run(
    v: Seq<Event>,
    states: Seq<SyntheticSource>,
    results: Seq<Result<Event, EventSourceError>>,
)
    requires
        states.len() == results.len() + 1,
        states[0].events() == v,
        states[0].cursor() == 0,
        forall|i: int|
            0 <= i < results.len() ==> #[trigger] SyntheticSource::next_event_step(
                states[i],
                states[i + 1],
                results[i],
            ),
    ensures
        forall|k: int|
            0 <= k < states.len() ==> {
                &&& (#[trigger] states[k]).events() == v
                &&& states[k].cursor() == min_nat(k as nat, v.len())
                &&& states[k].spec_remaining() == v.len() - min_nat(k as nat, v.len())
            },
        forall|i: int|
            0 <= i < results.len() && i < v.len() ==> (#[trigger] results[i] matches Ok(e) && same_event(
                e,
                v[i],
            )),
        forall|i: int|
            0 <= i < results.len() && i >= v.len() ==> #[trigger] results[i] == Err::<
                Event,
                EventSourceError,
            >(EventSourceError::Closed),
    decreases results.len(),
{
    if results.len() > 0 {
        let m = (results.len() - 1) as int;
        let ps = states.take(m + 1);
        let pr = results.take(m);
        assert forall|i: int| 0 <= i < pr.len() implies #[trigger] SyntheticSource::next_event_step(
            ps[i],
            ps[i + 1],
            pr[i],
        ) by {
            assert(SyntheticSource::next_event_step(states[i], states[i + 1], results[i]));
        }
        lemma_synthetic_run(v, ps, pr);
        assert(SyntheticSource::next_event_step(states[m], states[m + 1], results[m]));
        assert(ps[m] == states[m]);
        assert forall|k: int| 0 <= k < states.len() implies {
            &&& (#[trigger] states[k]).events() == v
            &&& states[k].cursor() == min_nat(k as nat, v.len())
            &&& states[k].spec_remaining() == v.len() - min_nat(k as nat, v.len())
        } by {
            if k <= m {
                assert(ps[k] == states[k]);
            }
        }
        assert forall|i: int| 0 <= i < results.len() && i < v.len() implies (
        #[trigger] results[i] matches Ok(e) && same_event(e, v[i])) by {
            if i < m {
                assert(pr[i] == results[i]);
            }
        }
        assert forall|i: int| 0 <= i < results.len() && i >= v.len() implies #[trigger] results[i]
            == Err::<Event, EventSourceError>(EventSourceError::Closed) by {
            if i < m {
                assert(pr[i] == results[i]);
            }
        }
    }
}

} // verus!
