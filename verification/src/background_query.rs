//! Blocking queries away from rendering, of which only the latest counts.

use vstd::prelude::*;

verus! {

/// What came from the worker since the last poll.
pub enum Arrival<T> {
    /// Nothing yet.
    Nothing,
    /// The answer.
    Value(T),
    /// The worker is gone without an answer.
    Disconnected,
}

/// At most one running query, and at most one that waits for it to end. A
/// query that blocks cannot be interrupted, so that a further request replaces
/// the one that waits.
pub struct BackgroundQuery<Q> {
    running: bool,
    pending: Option<Q>,
    discard_result: bool,
}

/// What is known of the queries.
pub struct Queries<Q> {
    /// Whether a worker is running.
    pub running: bool,
    /// The request that waits.
    pub waiting: Option<Q>,
    /// Whether the running worker's answer is no longer wanted.
    pub discards: bool,
}

/// No worker, and no request.
pub open spec fn idle<Q>() -> Queries<Q> {
    Queries { running: false, waiting: None, discards: false }
}

/// After a request.
pub open spec fn requested<Q>(queries: Queries<Q>, query: Q) -> Queries<Q> {
    Queries { waiting: Some(query), discards: true, ..queries }
}

/// After all requests were dropped.
pub open spec fn dropped<Q>(queries: Queries<Q>) -> Queries<Q> {
    Queries { waiting: None, discards: true, ..queries }
}

/// The answer that is given out.
pub open spec fn answer<Q, T>(queries: Queries<Q>, arrival: Arrival<T>) -> Option<T> {
    match arrival {
        Arrival::Value(value) if queries.running && !queries.discards => Some(value),
        _ => None,
    }
}

/// The query that is started.
pub open spec fn started<Q, T>(queries: Queries<Q>, arrival: Arrival<T>) -> Option<Q> {
    if queries.running && arrival is Nothing {
        None
    } else {
        queries.waiting
    }
}

/// After a poll.
pub open spec fn polled<Q, T>(queries: Queries<Q>, arrival: Arrival<T>) -> Queries<Q> {
    if queries.running && arrival is Nothing {
        queries
    } else {
        Queries {
            running: queries.waiting is Some,
            waiting: None,
            discards: queries.discards && queries.waiting is None,
        }
    }
}

impl<Q> View for BackgroundQuery<Q> {
    type V = Queries<Q>;

    closed spec fn view(&self) -> Queries<Q> {
        Queries { running: self.running, waiting: self.pending, discards: self.discard_result }
    }
}

impl<Q> Default for BackgroundQuery<Q> {
    fn default() -> (query: Self)
        ensures
            query@ == idle::<Q>(),
    {
        BackgroundQuery { running: false, pending: None, discard_result: false }
    }
}

impl<Q> BackgroundQuery<Q> {
    /// Whether a query is running or waits.
    pub fn is_active(&self) -> (active: bool)
        ensures
            active == (self@.running || self@.waiting is Some),
    {
        self.running || self.pending.is_some()
    }

    /// Asks a query, in place of the one that waits. The answer to the running
    /// one is no longer wanted.
    pub fn request(&mut self, query: Q)
        ensures
            final(self)@ == requested(old(self)@, query),
    {
        self.pending = Some(query);
        self.discard_result = true;
    }

    /// Drops the request that waits, and the answer to the running one.
    pub fn cancel(&mut self)
        ensures
            final(self)@ == dropped(old(self)@),
    {
        self.pending = None;
        self.discard_result = true;
    }

    /// Takes what came from the worker. Gives out the answer, where it is
    /// wanted, and the query to start now, where no worker runs any longer and
    /// one waits.
    pub fn poll<T>(&mut self, arrival: Arrival<T>) -> (next: (Option<T>, Option<Q>))
        ensures
            next.0 == answer(old(self)@, arrival),
            next.1 == started(old(self)@, arrival),
            final(self)@ == polled(old(self)@, arrival),
    {
        let mut result: Option<T> = None;
        if self.running {
            match arrival {
                Arrival::Value(value) => {
                    self.running = false;
                    if !self.discard_result {
                        result = Some(value);
                    }
                },
                Arrival::Disconnected => {
                    self.running = false;
                },
                Arrival::Nothing => {},
            }
        }
        let mut start: Option<Q> = None;
        if !self.running {
            std::mem::swap(&mut start, &mut self.pending);
            if start.is_some() {
                self.running = true;
                self.discard_result = false;
            }
        }
        (result, start)
    }
}

/// What happens to the queries.
pub enum Event<Q, T> {
    Request(Q),
    Cancel,
    Poll(Arrival<T>),
}

/// After events in a row, from the first on.
pub open spec fn after<Q, T>(events: Seq<Event<Q, T>>) -> Queries<Q>
    decreases events.len(),
{
    if events.len() == 0 {
        idle()
    } else {
        let before = after(events.drop_last());
        match events.last() {
            Event::Request(query) => requested(before, query),
            Event::Cancel => dropped(before),
            Event::Poll(arrival) => polled(before, arrival),
        }
    }
}

/// The last query that was asked; None where none was, or where all were dropped
/// since.
pub open spec fn latest<Q, T>(events: Seq<Event<Q, T>>) -> Option<Q>
    decreases events.len(),
{
    if events.len() == 0 {
        None
    } else {
        match events.last() {
            Event::Request(query) => Some(query),
            Event::Cancel => None,
            Event::Poll(_) => latest(events.drop_last()),
        }
    }
}

/// The query that was started last.
pub open spec fn current<Q, T>(events: Seq<Event<Q, T>>) -> Option<Q>
    decreases events.len(),
{
    if events.len() == 0 {
        None
    } else {
        let before = current(events.drop_last());
        match events.last() {
            Event::Poll(arrival) => match started(after(events.drop_last()), arrival) {
                Some(query) => Some(query),
                None => before,
            },
            _ => before,
        }
    }
}

/// Only the latest query counts: whatever happened before, an answer is given out
/// only to the query that was asked last, and only where it was not dropped.
pub proof fn lemma_only_latest<Q, T>(events: Seq<Event<Q, T>>, arrival: Arrival<T>)
    ensures
        answer(after(events), arrival) is Some ==> latest(events) is Some && current(events)
            == latest(events),
        after(events).waiting is Some ==> after(events).waiting == latest(events),
{
    lemma_wanted_is_latest(events);
}

proof fn lemma_wanted_is_latest<Q, T>(events: Seq<Event<Q, T>>)
    ensures
        ({
            let queries = after(events);
            &&& queries.running && !queries.discards ==> latest(events) is Some && current(events)
                == latest(events)
            &&& queries.waiting is Some ==> queries.waiting == latest(events)
        }),
    decreases events.len(),
{
    if events.len() > 0 {
        lemma_wanted_is_latest(events.drop_last());
    }
}

/// The latest query is asked in the end: it waits no longer than until the next poll
/// after the running worker is gone.
pub proof fn lemma_latest_is_started<Q, T>(queries: Queries<Q>, query: Q, arrival: Arrival<T>)
    requires
        !queries.running || !(arrival is Nothing),
    ensures
        started(requested(queries, query), arrival) == Some(query),
        polled(requested(queries, query), arrival).running,
{
}

} // verus!
