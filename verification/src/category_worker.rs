//! Category totals computed against a shared scan tree without blocking
//! rendering.

use std::sync::atomic::AtomicBool;
use std::sync::Arc;

use vstd::prelude::*;

use crate::background_query::Arrival;
use crate::categories;
use crate::categories::{compute_stats_cancellable, CategoryStats};
use crate::tree;
use crate::tree::{FileNode, Tree};

verus! {

/// One computation at a time, which can be cancelled.
pub struct CategoryWorker {
    running: bool,
    cancelled: bool,
    subject: Ghost<Tree>,
}

/// A computation to run, which shares the tree while it runs.
pub struct CategoryJob {
    tree: Arc<FileNode>,
}

impl CategoryJob {
    /// The tree whose totals are wanted.
    pub closed spec fn subject(&self) -> Tree {
        (*self.tree)@
    }

    #[verifier::type_invariant]
    spec fn countable(self) -> bool {
        categories::countable(tree::files((*self.tree)@))
    }

    /// Sums up, or gives up once `cancelled` is set. The tree is let go before the
    /// result is given out, so that it can be edited again.
    pub fn sum_up(self, cancelled: &AtomicBool) -> (result: CategoryResult)
        ensures
            result.subject() == self.subject(),
            result.totals() matches Some(stats) ==> stats.entries@ == categories::stats_of(
                tree::files(self.subject()),
            ),
            call_ensures(
                AtomicBool::load,
                (cancelled, std::sync::atomic::Ordering::Relaxed),
                result.totals() is None,
            ),
    {
        proof {
            use_type_invariant(&self);
        }
        let stats = compute_stats_cancellable(&self.tree, cancelled);
        CategoryResult { stats, subject: Ghost((*self.tree)@) }
    }
}

/// What came of a computation.
pub struct CategoryResult {
    stats: Option<CategoryStats>,
    subject: Ghost<Tree>,
}

impl CategoryResult {
    /// The tree that was summed up.
    pub closed spec fn subject(&self) -> Tree {
        self.subject@
    }

    /// The totals; None where the computation gave up.
    pub closed spec fn totals(&self) -> Option<CategoryStats> {
        self.stats
    }

    #[verifier::type_invariant]
    spec fn true_totals(self) -> bool {
        self.stats matches Some(stats) ==> stats.entries@ == categories::stats_of(
            tree::files(self.subject@),
        )
    }
}

/// What came from the worker, as totals.
pub open spec fn totals_in(arrival: Arrival<CategoryResult>) -> Arrival<Option<CategoryStats>> {
    match arrival {
        Arrival::Nothing => Arrival::Nothing,
        Arrival::Value(result) => Arrival::Value(result.totals()),
        Arrival::Disconnected => Arrival::Disconnected,
    }
}

pub enum Poll {
    /// Nothing yet.
    Pending,
    /// The totals; None where the computation was cancelled.
    Complete(Option<CategoryStats>),
    /// The worker is gone without an answer.
    Failed,
}

/// What is given out of what came from the worker.
pub open spec fn outcome(
    running: bool,
    cancelled: bool,
    arrival: Arrival<Option<CategoryStats>>,
) -> Poll {
    if !running {
        Poll::Pending
    } else {
        match arrival {
            Arrival::Nothing => Poll::Pending,
            Arrival::Value(stats) => Poll::Complete(
                if cancelled {
                    None
                } else {
                    stats
                },
            ),
            Arrival::Disconnected => if cancelled {
                Poll::Complete(None)
            } else {
                Poll::Failed
            },
        }
    }
}

/// Whether a worker that was running still runs after these arrivals.
pub open spec fn still_running(arrivals: Seq<Arrival<Option<CategoryStats>>>) -> bool {
    forall|i: int| 0 <= i < arrivals.len() ==> #[trigger] arrivals[i] is Nothing
}

/// Once a computation was cancelled its totals are never shown, however many polls
/// follow and whatever they bring: the first that brings something ends it without
/// totals, and the others bring nothing.
pub proof fn lemma_cancelled_shows_nothing(
    arrivals: Seq<Arrival<Option<CategoryStats>>>,
    i: int,
)
    requires
        0 <= i < arrivals.len(),
    ensures
        ({
            let poll = outcome(still_running(arrivals.take(i)), true, arrivals[i]);
            &&& poll == Poll::Pending || poll == Poll::Complete(None)
            &&& forall|j: int|
                i < j < arrivals.len() && poll != Poll::Pending ==> outcome(
                    still_running(#[trigger] arrivals.take(j)),
                    true,
                    arrivals[j],
                ) == Poll::Pending
        }),
{
    let poll = outcome(still_running(arrivals.take(i)), true, arrivals[i]);
    assert forall|j: int| i < j < arrivals.len() && poll != Poll::Pending implies outcome(
        still_running(#[trigger] arrivals.take(j)),
        true,
        arrivals[j],
    ) == Poll::Pending by {
        assert(!(arrivals.take(j)[i] is Nothing));
    }
}

impl Default for CategoryWorker {
    fn default() -> (worker: Self)
        ensures
            !worker.is_running(),
            !worker.is_cancelled(),
    {
        CategoryWorker { running: false, cancelled: false, subject: Ghost(arbitrary()) }
    }
}

impl CategoryWorker {
    /// Whether a computation is running.
    pub closed spec fn is_running(&self) -> bool {
        self.running
    }

    /// Whether its totals are no longer wanted.
    pub closed spec fn is_cancelled(&self) -> bool {
        self.cancelled
    }

    /// The tree that the latest computation was started with.
    pub closed spec fn subject(&self) -> Tree {
        self.subject@
    }

    pub fn is_active(&self) -> (active: bool)
        ensures
            active == self.is_running(),
    {
        self.running
    }

    /// Starts a computation, and gives it out to be run.
    pub fn start(&mut self, tree: Arc<FileNode>) -> (job: CategoryJob)
        requires
            !old(self).is_running(),
            categories::countable(tree::files((*tree)@)),
        ensures
            final(self).is_running(),
            !final(self).is_cancelled(),
            final(self).subject() == (*tree)@,
            job.subject() == (*tree)@,
    {
        self.running = true;
        self.cancelled = false;
        self.subject = Ghost((*tree)@);
        CategoryJob { tree }
    }

    /// Cancels the computation.
    pub fn cancel(&mut self)
        ensures
            final(self).is_cancelled(),
            final(self).is_running() == old(self).is_running(),
            final(self).subject() == old(self).subject(),
    {
        self.cancelled = true;
    }

    /// Takes what came from the worker. A result that was finished just before
    /// the cancellation is dropped too. Totals that are given out are those of the
    /// tree that the result speaks of: where it came from the job that runs, the tree
    /// that the computation was started with.
    pub fn poll(&mut self, arrival: Arrival<CategoryResult>) -> (poll: Poll)
        ensures
            poll == outcome(old(self).is_running(), old(self).is_cancelled(), totals_in(arrival)),
            final(self).is_running() == (old(self).is_running() && arrival is Nothing),
            final(self).is_cancelled() == old(self).is_cancelled(),
            final(self).subject() == old(self).subject(),
            poll matches Poll::Complete(Some(stats)) ==> arrival is Value && stats.entries@
                == categories::stats_of(tree::files(arrival->Value_0.subject())),
            poll matches Poll::Complete(Some(stats)) ==> (arrival->Value_0.subject() == old(
                self,
            ).subject() ==> stats.entries@ == categories::stats_of(
                tree::files(old(self).subject()),
            )),
    {
        if !self.running {
            return Poll::Pending;
        }
        match arrival {
            Arrival::Nothing => Poll::Pending,
            Arrival::Value(result) => {
                proof {
                    use_type_invariant(&result);
                }
                self.running = false;
                Poll::Complete(
                    if self.cancelled {
                        None
                    } else {
                        result.stats
                    },
                )
            },
            Arrival::Disconnected => {
                self.running = false;
                if self.cancelled {
                    Poll::Complete(None)
                } else {
                    Poll::Failed
                }
            },
        }
    }
}

/// A computation that was started and not cancelled gives out what it came to, once; one
/// that was cancelled gives out nothing.
pub proof fn lemma_started(
    at_start: &mut CategoryWorker,
    at_poll: &mut CategoryWorker,
    tree: Arc<FileNode>,
    job: CategoryJob,
    result: CategoryResult,
    poll: Poll,
)
    requires
        call_ensures(CategoryWorker::start, (at_start, tree), job),
        *final(at_start) == *old(at_poll),
        call_ensures(CategoryWorker::poll, (at_poll, Arrival::Value(result)), poll),
    ensures
        job.subject() == (*tree)@,
        poll == Poll::Complete(result.totals()),
        !final(at_poll).is_running(),
{
}

/// See `lemma_started`.
pub proof fn lemma_cancelled(
    at_cancel: &mut CategoryWorker,
    at_poll: &mut CategoryWorker,
    arrival: Arrival<CategoryResult>,
    poll: Poll,
)
    requires
        call_ensures(CategoryWorker::cancel, (at_cancel,), ()),
        *final(at_cancel) == *old(at_poll),
        call_ensures(CategoryWorker::poll, (at_poll, arrival), poll),
    ensures
        poll is Pending || poll == Poll::Complete(None),
        final(at_poll).is_running() ==> old(at_cancel).is_running() && arrival is Nothing,
{
}

} // verus!
