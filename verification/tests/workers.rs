use std::sync::atomic::AtomicBool;
use std::sync::Arc;

use disk_cleaner::background_query::{Arrival, BackgroundQuery};
use disk_cleaner::categories::{compute_stats, FileCategory};
use disk_cleaner::category_worker::{CategoryWorker, Poll};
use disk_cleaner::deleter::{
    delete_method, BackgroundDeleter, DeleteJob, DeleteMethod, DeleteResults, DeleteRun, PollResult,
};
use disk_cleaner::path::NodePath;
use disk_cleaner::tree::{dir, leaf};

fn path(text: &str) -> NodePath {
    NodePath::new(text)
}

fn nothing() -> Arrival<u32> {
    Arrival::Nothing
}

#[test]
fn blocked_query_does_not_block_polling_or_start_more_workers() {
    let mut query: BackgroundQuery<&str> = BackgroundQuery::default();
    query.request("blocked");
    assert_eq!(query.poll(nothing()), (None, Some("blocked")));
    query.request("superseded");
    query.request("latest");
    assert_eq!(query.poll(nothing()), (None, None));
    assert!(query.is_active());
    assert_eq!(query.poll(Arrival::Value(1)), (None, Some("latest")));
    assert_eq!(query.poll(Arrival::Value(3)), (Some(3), None));
    assert!(!query.is_active());
}

#[test]
fn replacement_discards_a_result_already_waiting_in_the_channel() {
    let mut query: BackgroundQuery<&str> = BackgroundQuery::default();
    query.request("first");
    assert_eq!(query.poll(nothing()), (None, Some("first")));
    query.request("second");
    assert_eq!(query.poll(Arrival::Value(1)), (None, Some("second")));
    assert_eq!(query.poll(Arrival::Value(2)), (Some(2), None));
}

#[test]
fn cancellation_discards_queued_and_completed_results() {
    let mut query: BackgroundQuery<&str> = BackgroundQuery::default();
    query.request("first");
    assert_eq!(query.poll(nothing()), (None, Some("first")));
    query.request("cancelled");
    query.cancel();
    assert_eq!(query.poll(Arrival::Value(1)), (None, None));
    assert!(!query.is_active());
    query.request("next");
    assert_eq!(query.poll(nothing()), (None, Some("next")));
    assert_eq!(query.poll(Arrival::Value(2)), (Some(2), None));
}

#[test]
fn slow_discovery_does_not_delay_an_independent_capacity_query() {
    let mut discovery: BackgroundQuery<&str> = BackgroundQuery::default();
    let mut capacity: BackgroundQuery<&str> = BackgroundQuery::default();
    discovery.request("discover");
    assert_eq!(discovery.poll(nothing()), (None, Some("discover")));
    capacity.request("capacity");
    assert_eq!(
        capacity.poll(Arrival::<Option<(u64, u64)>>::Nothing),
        (None, Some("capacity"))
    );
    assert_eq!(
        capacity.poll(Arrival::Value(Some((100, 40)))),
        (Some(Some((100, 40))), None)
    );
    assert!(discovery.is_active());
    assert_eq!(discovery.poll(Arrival::Value(0)), (Some(0), None));
}

#[test]
fn disconnected_worker_can_be_replaced() {
    let mut query: BackgroundQuery<&str> = BackgroundQuery::default();
    query.request("first");
    assert_eq!(query.poll(Arrival::<Option<u64>>::Nothing), (None, Some("first")));
    query.request("second");
    assert_eq!(query.poll(Arrival::<Option<u64>>::Disconnected), (None, Some("second")));
    assert_eq!(query.poll(Arrival::Value(None::<u64>)), (Some(None), None));
    assert!(!query.is_active());
}

#[test]
fn returns_totals_and_releases_tree_for_editing() {
    let mut tree = Arc::new(dir("root", vec![leaf("movie.mp4", 200), leaf("empty.zip", 0)]));
    let mut worker = CategoryWorker::default();
    let job = worker.start(tree.clone());
    assert!(worker.is_active());
    assert!(matches!(worker.poll(Arrival::Nothing), Poll::Pending));
    let result = job.sum_up(&AtomicBool::new(false));
    assert!(Arc::get_mut(&mut tree).is_some());
    let stats = match worker.poll(Arrival::Value(result)) {
        Poll::Complete(stats) => stats.unwrap(),
        _ => panic!("no totals"),
    };
    assert_eq!(stats.entries, compute_stats(&tree).entries);
    assert!(!worker.is_active());
}

#[test]
fn cancelled_result_is_discarded_and_next_job_succeeds() {
    let mut worker = CategoryWorker::default();
    let old = Arc::new(dir("old", vec![leaf("old.zip", 200)]));
    let job = worker.start(old.clone());
    worker.cancel();
    let late = job.sum_up(&AtomicBool::new(false));
    assert!(matches!(worker.poll(Arrival::Value(late)), Poll::Complete(None)));
    assert_eq!(Arc::strong_count(&old), 1);
    let job = worker.start(Arc::new(dir("new", vec![leaf("new.txt", 10)])));
    match worker.poll(Arrival::Value(job.sum_up(&AtomicBool::new(false)))) {
        Poll::Complete(Some(stats)) => {
            assert_eq!(stats.entries, [(FileCategory::Document, 10, 1)]);
        }
        _ => panic!("no totals"),
    }
}

#[test]
fn a_job_gives_up_once_it_is_cancelled() {
    let mut worker = CategoryWorker::default();
    let job = worker.start(Arc::new(dir("root", vec![leaf("a.zip", 200)])));
    let result = job.sum_up(&AtomicBool::new(true));
    assert!(matches!(worker.poll(Arrival::Value(result)), Poll::Complete(None)));
}

#[test]
fn a_worker_that_is_gone_has_failed_unless_it_was_cancelled() {
    let tree = Arc::new(dir("root", vec![]));
    let mut worker = CategoryWorker::default();
    assert!(matches!(worker.poll(Arrival::Disconnected), Poll::Pending));
    worker.start(tree.clone());
    assert!(matches!(worker.poll(Arrival::Disconnected), Poll::Failed));
    worker.start(tree);
    worker.cancel();
    assert!(matches!(worker.poll(Arrival::Disconnected), Poll::Complete(None)));
}

/// Runs a job to its end: a path fails where its text is among `failing`.
fn run(job: DeleteJob, failing: &[&str]) -> DeleteResults {
    let mut run = DeleteRun::new(job);
    while let Some(path) = run.next() {
        let fails = failing.contains(&path.to_text().as_str());
        run.record(if fails { Some(String::from("in use")) } else { None });
    }
    run.finish()
}

fn done(paths: &[&str]) -> DeleteResults {
    paths.iter().map(|p| (path(p), None)).collect()
}

#[test]
fn empty_paths_is_noop() {
    let mut d = BackgroundDeleter::default();
    assert!(d.start(vec![], false).is_none());
    assert!(!d.is_active());
    assert_eq!(d.total(), 0);
}

#[test]
fn second_start_while_active_is_noop() {
    let mut d = BackgroundDeleter::default();
    let job = d.start(vec![path("first.txt")], false).unwrap();
    assert_eq!(job.paths.len(), 1);
    assert!(!job.use_trash);
    assert!(d.is_active());
    assert_eq!(d.total(), 1);
    assert!(d.start(vec![path("second.txt")], false).is_none());
    assert_eq!(d.total(), 1, "should still be first job");
    match d.poll(Some(run(job, &[]))) {
        PollResult::Done(results) => assert_eq!(results.len(), 1),
        PollResult::Pending => panic!("not done"),
    }
}

#[test]
fn can_start_new_job_after_completion() {
    let mut d = BackgroundDeleter::default();
    let first = d.start(vec![path("first.txt")], false).unwrap();
    assert!(matches!(d.poll(Some(run(first, &[]))), PollResult::Done(r) if r.len() == 1));
    let second = d.start(vec![path("second.txt")], true).unwrap();
    assert!(second.use_trash);
    assert!(d.is_active());
    assert!(matches!(d.poll(Some(run(second, &[]))), PollResult::Done(r) if r.len() == 1));
}

#[test]
fn progress_counter_increments() {
    let mut d = BackgroundDeleter::default();
    let job = d.start(vec![path("a.txt"), path("b.txt")], false).unwrap();
    assert_eq!(d.done_count(), 0);
    d.note_progress(1);
    assert_eq!(d.done_count(), 1);
    assert!(matches!(d.poll(None), PollResult::Pending));
    assert_eq!(d.done_count(), 1);
    assert!(matches!(d.poll(Some(run(job, &[]))), PollResult::Done(r) if r.len() == 2));
    assert_eq!(d.done_count(), d.total());
    assert_eq!(d.done_count(), 2);
}

#[test]
fn results_are_the_paths_of_the_job_in_their_order() {
    let mut d = BackgroundDeleter::default();
    let job = d.start(vec![path("/a/x"), path("/a/y"), path("/a/z")], false).unwrap();
    let fresh = DeleteRun::new(DeleteJob { paths: vec![path("/a/x")], use_trash: true });
    assert_eq!(fresh.method(true), DeleteMethod::Trash);
    assert_eq!(fresh.next().unwrap().to_text(), "/a/x");
    let results = run(job, &["/a/y"]);
    let texts: Vec<String> = results.iter().map(|(path, _)| path.to_text()).collect();
    assert_eq!(texts, ["/a/x", "/a/y", "/a/z"]);
    let errors: Vec<Option<&str>> = results.iter().map(|(_, error)| error.as_deref()).collect();
    assert_eq!(errors, [None, Some("in use"), None]);
}

#[test]
fn poll_returns_pending_when_idle() {
    let mut d = BackgroundDeleter::default();
    assert!(matches!(d.poll(None), PollResult::Pending));
    assert!(matches!(d.poll(Some(done(&["a.txt"]))), PollResult::Pending));
}

#[test]
fn poll_returns_done_exactly_once() {
    let mut d = BackgroundDeleter::default();
    let job = d.start(vec![path("once.txt")], false).unwrap();
    assert!(matches!(d.poll(None), PollResult::Pending));
    assert!(matches!(d.poll(Some(run(job, &[]))), PollResult::Done(r) if r.len() == 1));
    assert!(matches!(d.poll(None), PollResult::Pending));
    assert!(!d.is_active());
}

#[test]
fn the_way_of_deletion_depends_on_the_path() {
    assert_eq!(delete_method(true, true), DeleteMethod::Trash);
    assert_eq!(delete_method(true, false), DeleteMethod::Trash);
    assert_eq!(delete_method(false, true), DeleteMethod::RemoveDir);
    assert_eq!(delete_method(false, false), DeleteMethod::RemoveFile);
}
