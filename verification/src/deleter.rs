//! Deletion in the background, one job at a time.

use vstd::prelude::*;

use crate::path::NodePath;

verus! {

/// What became of each path: the message of an error, where there was one.
pub type DeleteResults = Vec<(NodePath, Option<String>)>;

/// Outcome from [`BackgroundDeleter::poll`].
pub enum PollResult {
    /// Deletion still running, or nothing was started.
    Pending,
    /// Deletion finished, with what became of each path.
    Done(DeleteResults),
}

/// A job to run: the paths to delete, and whether they go to the trash.
pub struct DeleteJob {
    pub paths: Vec<NodePath>,
    pub use_trash: bool,
}

/// How one path is deleted.
#[derive(Clone, Copy, Debug, PartialEq, Eq, Structural)]
pub enum DeleteMethod {
    Trash,
    RemoveDir,
    RemoveFile,
}

/// How a path is deleted: to the trash where that is asked for, else as what it is.
pub open spec fn way(use_trash: bool, is_dir: bool) -> DeleteMethod {
    if use_trash {
        DeleteMethod::Trash
    } else if is_dir {
        DeleteMethod::RemoveDir
    } else {
        DeleteMethod::RemoveFile
    }
}

/// How to delete a path: to the trash where that is asked for, else as what it
/// is.
pub fn delete_method(use_trash: bool, is_dir: bool) -> (method: DeleteMethod)
    ensures
        method == way(use_trash, is_dir),
{
    if use_trash {
        DeleteMethod::Trash
    } else if is_dir {
        DeleteMethod::RemoveDir
    } else {
        DeleteMethod::RemoveFile
    }
}

/// A job while it runs: the paths are taken one by one, in their order, and what became
/// of each is recorded.
pub struct DeleteRun {
    /// The paths that are left, the next one last.
    waiting: Vec<NodePath>,
    results: DeleteResults,
    use_trash: bool,
}

impl DeleteRun {
    /// The paths of the job.
    pub closed spec fn paths(&self) -> Seq<NodePath> {
        self.results@.map_values(|result: (NodePath, Option<String>)| result.0)
            + self.waiting@.reverse()
    }

    /// What was recorded of its first paths.
    pub closed spec fn recorded(&self) -> Seq<Option<String>> {
        self.results@.map_values(|result: (NodePath, Option<String>)| result.1)
    }

    /// Whether the paths go to the trash.
    pub closed spec fn trashes(&self) -> bool {
        self.use_trash
    }

    /// Takes up a job.
    pub fn new(job: DeleteJob) -> (run: DeleteRun)
        ensures
            run.paths() == job.paths@,
            run.recorded().len() == 0,
            run.trashes() == job.use_trash,
    {
        let mut paths = job.paths;
        let mut waiting: Vec<NodePath> = Vec::new();
        while paths.len() > 0
            invariant
                paths@ + waiting@.reverse() == job.paths@,
            decreases paths@.len(),
        {
            let ghost before = paths@ + waiting@.reverse();
            match paths.pop() {
                Some(path) => waiting.push(path),
                None => {},
            }
            assert(paths@ + waiting@.reverse() =~= before);
        }
        let run = DeleteRun { waiting, results: Vec::new(), use_trash: job.use_trash };
        assert(run.paths() =~= job.paths@);
        run
    }

    /// The path to delete next.
    pub fn next(&self) -> (path: Option<&NodePath>)
        ensures
            match path {
                Some(path) => self.recorded().len() < self.paths().len() && *path
                    == self.paths()[self.recorded().len() as int],
                None => self.recorded().len() == self.paths().len(),
            },
    {
        if self.waiting.len() == 0 {
            None
        } else {
            Some(&self.waiting[self.waiting.len() - 1])
        }
    }

    /// How to delete a path of this job.
    pub fn method(&self, is_dir: bool) -> (method: DeleteMethod)
        ensures
            method == way(self.trashes(), is_dir),
    {
        delete_method(self.use_trash, is_dir)
    }

    /// Records what became of the next path.
    pub fn record(&mut self, error: Option<String>)
        requires
            old(self).recorded().len() < old(self).paths().len(),
        ensures
            final(self).recorded() == old(self).recorded().push(error),
            final(self).paths() == old(self).paths(),
            final(self).trashes() == old(self).trashes(),
    {
        match self.waiting.pop() {
            Some(path) => self.results.push((path, error)),
            None => {},
        }
        assert(self.paths() =~= old(self).paths());
        assert(self.recorded() =~= old(self).recorded().push(error));
    }

    /// What became of each path of the job: one result for each, in their order.
    pub fn finish(self) -> (results: DeleteResults)
        requires
            self.recorded().len() == self.paths().len(),
        ensures
            results@.len() == self.paths().len(),
            forall|i: int|
                0 <= i < results@.len() ==> (#[trigger] results@[i]).0 == self.paths()[i]
                    && results@[i].1 == self.recorded()[i],
    {
        self.results
    }
}

/// What a poll gives out.
pub open spec fn given(running: bool, arrived: Option<DeleteResults>) -> PollResult {
    match arrived {
        Some(results) if running => PollResult::Done(results),
        _ => PollResult::Pending,
    }
}

/// Whether a job that was running still runs after these arrivals.
pub open spec fn still_running(arrivals: Seq<Option<DeleteResults>>) -> bool {
    forall|i: int| 0 <= i < arrivals.len() ==> #[trigger] arrivals[i] is None
}

/// How often the results of a running job are given out over polls in a row.
pub open spec fn times_given(arrivals: Seq<Option<DeleteResults>>) -> nat
    decreases arrivals.len(),
{
    if arrivals.len() == 0 {
        0
    } else {
        let before = arrivals.drop_last();
        times_given(before) + if given(still_running(before), arrivals.last()) is Done {
            1nat
        } else {
            0
        }
    }
}

/// The results of a job are given out exactly once, however often it is polled: not
/// before they have arrived, and never again.
pub proof fn lemma_given_once(arrivals: Seq<Option<DeleteResults>>)
    ensures
        times_given(arrivals) == if still_running(arrivals) {
            0nat
        } else {
            1
        },
    decreases arrivals.len(),
{
    if arrivals.len() > 0 {
        let before = arrivals.drop_last();
        lemma_given_once(before);
        if still_running(arrivals) {
            assert forall|i: int| 0 <= i < before.len() implies #[trigger] before[i] is None by {
                assert(arrivals[i] is None);
            }
        } else if still_running(before) {
            let i = choose|i: int| 0 <= i < arrivals.len() && !(#[trigger] arrivals[i] is None);
            assert(i < before.len() ==> before[i] is None);
            assert(arrivals.last() is Some);
        } else {
            let i = choose|i: int| 0 <= i < before.len() && !(#[trigger] before[i] is None);
            assert(!(arrivals[i] is None));
        }
    }
}

/// Manages a single background deletion job at a time.
pub struct BackgroundDeleter {
    active: bool,
    done: usize,
    total: usize,
}

impl Default for BackgroundDeleter {
    fn default() -> (deleter: Self)
        ensures
            !deleter.running(),
            deleter.finished() == 0,
            deleter.size() == 0,
    {
        BackgroundDeleter { active: false, done: 0, total: 0 }
    }
}

impl BackgroundDeleter {
    /// Whether a job is running.
    pub closed spec fn running(&self) -> bool {
        self.active
    }

    /// How many of its paths are done.
    pub closed spec fn finished(&self) -> nat {
        self.done as nat
    }

    /// How many paths it has.
    pub closed spec fn size(&self) -> nat {
        self.total as nat
    }

    /// Whether a deletion job is currently running.
    pub fn is_active(&self) -> (active: bool)
        ensures
            active == self.running(),
    {
        self.active
    }

    /// Number of items processed so far.
    pub fn done_count(&self) -> (done: usize)
        ensures
            done == self.finished(),
    {
        self.done
    }

    /// Total number of items in the current job.
    pub fn total(&self) -> (total: usize)
        ensures
            total == self.size(),
    {
        self.total
    }

    /// Starts a job, and gives it out to be run. Nothing is started where there
    /// are no paths or a job is running.
    pub fn start(&mut self, paths: Vec<NodePath>, use_trash: bool) -> (job: Option<DeleteJob>)
        ensures
            job is Some <==> paths@.len() > 0 && !old(self).running(),
            match job {
                Some(job) => {
                    &&& job.paths == paths
                    &&& job.use_trash == use_trash
                    &&& final(self).running()
                    &&& final(self).finished() == 0
                    &&& final(self).size() == paths@.len()
                },
                None => *final(self) == *old(self),
            },
    {
        if paths.len() == 0 || self.active {
            return None;
        }
        self.active = true;
        self.done = 0;
        self.total = paths.len();
        Some(DeleteJob { paths, use_trash })
    }

    /// Notes how many paths are done.
    pub fn note_progress(&mut self, done: usize)
        ensures
            final(self).running() == old(self).running(),
            final(self).finished() == done,
            final(self).size() == old(self).size(),
    {
        self.done = done;
    }

    /// Takes the results, where they have arrived. Gives them out exactly once
    /// per job; all of its paths are done then.
    pub fn poll(&mut self, arrived: Option<DeleteResults>) -> (result: PollResult)
        ensures
            result == given(old(self).running(), arrived),
            final(self).running() == (old(self).running() && arrived is None),
            result is Done ==> final(self).finished() == final(self).size(),
            result is Pending ==> final(self).finished() == old(self).finished(),
            final(self).size() == old(self).size(),
    {
        if !self.active {
            return PollResult::Pending;
        }
        match arrived {
            Some(results) => {
                self.active = false;
                self.done = self.total;
                PollResult::Done(results)
            },
            None => PollResult::Pending,
        }
    }
}

/// Where the trash was asked for nothing is removed for good; else a directory is removed as
/// one, and nothing else is.
pub proof fn lemma_way(is_dir: bool)
    ensures
        way(true, is_dir) == DeleteMethod::Trash,
        way(false, is_dir) != DeleteMethod::Trash,
        way(false, is_dir) == DeleteMethod::RemoveDir <==> is_dir,
{
}

/// A job begins with its first path and goes on to the next once something was recorded
/// of one, and is over after its last.
pub proof fn lemma_in_turn(
    job: DeleteJob,
    run: DeleteRun,
    first: Option<&NodePath>,
    at_record: &mut DeleteRun,
    error: Option<String>,
    then: Option<&NodePath>,
)
    requires
        call_ensures(DeleteRun::new, (job,), run),
        call_ensures(DeleteRun::next, (&run,), first),
        call_ensures(DeleteRun::record, (at_record, error), ()),
        call_ensures(DeleteRun::next, (&*final(at_record),), then),
    ensures
        first is Some <==> job.paths@.len() > 0,
        first matches Some(path) ==> *path == job.paths@[0],
        ({
            let done = old(at_record).recorded().len() as int + 1;
            &&& final(at_record).recorded().last() == error
            &&& final(at_record).recorded().len() == done
            &&& then matches Some(path) ==> done < old(at_record).paths().len() && *path == old(
                at_record,
            ).paths()[done]
            &&& then is None ==> done == old(at_record).paths().len()
        }),
{
}

/// Each path of a job has what was recorded of it, and whether the trash was asked for
/// decides how all of them are deleted.
pub proof fn lemma_results(
    job: DeleteJob,
    begun: DeleteRun,
    method: DeleteMethod,
    is_dir: bool,
    run: DeleteRun,
    results: DeleteResults,
    i: int,
)
    requires
        call_ensures(DeleteRun::new, (job,), begun),
        call_ensures(DeleteRun::method, (&begun, is_dir), method),
        call_ensures(DeleteRun::finish, (run,), results),
        0 <= i < run.paths().len(),
    ensures
        job.use_trash <==> method == DeleteMethod::Trash,
        !job.use_trash ==> (is_dir <==> method == DeleteMethod::RemoveDir),
        results@.len() == run.paths().len(),
        results@[i].0 == run.paths()[i],
        results@[i].1 == run.recorded()[i],
{
}

} // verus!
