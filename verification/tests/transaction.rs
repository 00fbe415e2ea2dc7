use aerugo::transaction::{DependencyTracker, Error, Status};

#[test]
fn add_missing() {
    let mut tracker = DependencyTracker::new();
    let a = tracker.create_id();
    // An id of another tracker, which is not in this one.
    let mut other = DependencyTracker::new();
    let _ = other.create_id();
    let missing = other.create_id();

    assert_eq!(tracker.add_dependency(a, missing), Err(Error::NotPresent));
    assert_eq!(tracker.add_dependency(missing, a), Err(Error::NotPresent));
}

#[test]
fn stale_dependents_do_not_block() {
    // Finishing leaves stale dependents entries; a dependency that closes no cycle is still added.
    let mut tracker = DependencyTracker::new();
    let a = tracker.create_id();
    let b = tracker.create_id();
    let d = tracker.create_id();
    let e = tracker.create_id();
    assert_eq!(tracker.add_dependency(a, b), Ok(Status::Queued));
    assert_eq!(tracker.add_dependency(a, d), Ok(Status::Queued));
    tracker.finish(b);
    assert_eq!(tracker.add_dependency(b, a), Ok(Status::Queued));
    assert_eq!(tracker.add_dependency(b, e), Ok(Status::Queued));
}

/// ```text
/// A -> A
/// ```
#[test]
fn self_dependency() {
    let mut tracker = DependencyTracker::new();
    let a = tracker.create_id();
    assert_eq!(tracker.add_dependency(a, a), Err(Error::CausesCycle));
}

/// ```text
/// B -> A -> B
/// ```
#[test]
fn cyclic_dependency() {
    let mut tracker = DependencyTracker::new();
    let a = tracker.create_id();
    let b = tracker.create_id();
    assert_eq!(tracker.add_dependency(a, b), Ok(Status::Queued));
    assert_eq!(tracker.add_dependency(b, a), Err(Error::CausesCycle));
}

/// ```text
/// A
/// ```
#[test]
fn fail_one() {
    let mut tracker = DependencyTracker::new();
    let a = tracker.create_id();

    tracker.fail(a);

    assert_eq!(tracker.get_status(a), Some(Status::Failed));

    let failed = tracker.drain_failed();
    assert!(failed.contains(&a));
    assert_eq!(failed.len(), 1);
}

/// ```text
/// C -> B -> A
/// ```
#[test]
fn fail_chain() {
    let mut tracker = DependencyTracker::new();
    let a = tracker.create_id();
    let b = tracker.create_id();
    let c = tracker.create_id();
    assert!(tracker.add_dependency(a, b).is_ok());
    assert!(tracker.add_dependency(b, c).is_ok());

    tracker.fail(c);
    assert_eq!(tracker.get_status(a), Some(Status::Failed));
    assert_eq!(tracker.get_status(b), Some(Status::Failed));
    assert_eq!(tracker.get_status(c), Some(Status::Failed));

    let failed = tracker.drain_failed();
    assert!(failed.contains(&a));
    assert!(failed.contains(&b));
    assert!(failed.contains(&c));
    assert_eq!(failed.len(), 3);
}

/// ```text
/// B -\
///     -> A
/// C -/
/// ```
#[test]
fn fail_merge() {
    let mut tracker = DependencyTracker::new();
    let a = tracker.create_id();
    let b = tracker.create_id();
    let c = tracker.create_id();
    assert!(tracker.add_dependency(a, b).is_ok());
    assert!(tracker.add_dependency(a, c).is_ok());

    // B failed, C should still be queued but A must fail.
    tracker.fail(b);
    assert_eq!(tracker.get_status(a), Some(Status::Failed));
    assert_eq!(tracker.get_status(b), Some(Status::Failed));
    assert_eq!(tracker.get_status(c), Some(Status::Queued));

    let failed = tracker.drain_failed();
    assert!(failed.contains(&a));
    assert!(failed.contains(&b));
    assert!(!failed.contains(&c));
    assert_eq!(failed.len(), 2);
}

/// ```text
///     /--> A
/// C --
///     \--> B
/// ```
#[test]
fn fail_branch() {
    let mut tracker = DependencyTracker::new();
    let a = tracker.create_id();
    let b = tracker.create_id();
    let c = tracker.create_id();
    assert!(tracker.add_dependency(a, c).is_ok());
    assert!(tracker.add_dependency(b, c).is_ok());

    // C failed, A and B must also fail.
    tracker.fail(c);
    assert_eq!(tracker.get_status(a), Some(Status::Failed));
    assert_eq!(tracker.get_status(b), Some(Status::Failed));
    assert_eq!(tracker.get_status(c), Some(Status::Failed));

    let failed = tracker.drain_failed();
    assert!(failed.contains(&a));
    assert!(failed.contains(&b));
    assert!(failed.contains(&c));
    assert_eq!(failed.len(), 3);
}

/// ```text
/// A
/// ```
#[test]
fn finish_one() {
    let mut tracker = DependencyTracker::new();
    let a = tracker.create_id();

    tracker.finish(a);
    assert_eq!(tracker.get_status(a), Some(Status::Finished));

    let finished = tracker.drain_finished();
    assert!(finished.contains(&a));
    assert_eq!(finished.len(), 1);
}

/// ```text
/// B -> A
/// ```
#[test]
fn finish_chain() {
    let mut tracker = DependencyTracker::new();
    let a = tracker.create_id();
    let b = tracker.create_id();

    assert!(tracker.add_dependency(a, b).is_ok());

    tracker.finish(b);
    assert_eq!(tracker.get_status(a), Some(Status::Finished));
    assert_eq!(tracker.get_status(b), Some(Status::Finished));

    let finished = tracker.drain_finished();
    assert!(finished.contains(&a));
    assert!(finished.contains(&b));
}

/// ```text
///     /--> A
/// C --
///     \--> B
/// ```
#[test]
fn finish_branch() {
    let mut tracker = DependencyTracker::new();
    let a = tracker.create_id();
    let b = tracker.create_id();
    let c = tracker.create_id();
    assert!(tracker.add_dependency(a, c).is_ok());
    assert!(tracker.add_dependency(b, c).is_ok());

    tracker.finish(c);
    assert_eq!(tracker.get_status(a), Some(Status::Finished));
    assert_eq!(tracker.get_status(b), Some(Status::Finished));
    assert_eq!(tracker.get_status(c), Some(Status::Finished));

    let finished = tracker.drain_finished();
    assert!(finished.contains(&a));
    assert!(finished.contains(&b));
    assert!(finished.contains(&c));
}

/// ```text
/// B -\
///     -> A
/// C -/
/// ```
#[test]
fn finish_merge() {
    let mut tracker = DependencyTracker::new();
    let a = tracker.create_id();
    let b = tracker.create_id();
    let c = tracker.create_id();
    assert!(tracker.add_dependency(a, b).is_ok());
    assert!(tracker.add_dependency(a, c).is_ok());

    // B finished, C and A should still be queued.
    tracker.finish(b);
    assert_eq!(tracker.get_status(b), Some(Status::Finished));

    assert_eq!(tracker.get_status(c), Some(Status::Queued));
    assert_eq!(tracker.get_status(a), Some(Status::Queued));

    let finished = tracker.drain_finished();
    assert!(finished.contains(&b));
    assert!(!finished.contains(&a));
    assert!(!finished.contains(&c));
    assert_eq!(finished.len(), 1);

    // C finished, so A must also finish
    tracker.finish(c);
    assert_eq!(tracker.get_status(c), Some(Status::Finished));
    assert_eq!(tracker.get_status(a), Some(Status::Finished));

    let finished = tracker.drain_finished();
    assert!(finished.contains(&a));
    assert!(finished.contains(&c));
    assert!(!finished.contains(&b));
    assert_eq!(finished.len(), 2);
}

/// ```text
/// D -> B -\
///          -> A
/// C ------/
/// ```
#[test]
fn finish_merge_chain() {
    let mut tracker = DependencyTracker::new();
    let a = tracker.create_id();
    let b = tracker.create_id();
    let c = tracker.create_id();
    let d = tracker.create_id();
    assert!(tracker.add_dependency(a, b).is_ok());
    assert!(tracker.add_dependency(b, d).is_ok());
    assert!(tracker.add_dependency(a, c).is_ok());

    // D finished, B should be finished A and C should still be queued.
    tracker.finish(d);
    assert_eq!(tracker.get_status(d), Some(Status::Finished));
    assert_eq!(tracker.get_status(b), Some(Status::Finished));

    assert_eq!(tracker.get_status(a), Some(Status::Queued));
    assert_eq!(tracker.get_status(c), Some(Status::Queued));

    let finished = tracker.drain_finished();
    assert!(finished.contains(&b));
    assert!(finished.contains(&d));
    assert!(!finished.contains(&a));
    assert!(!finished.contains(&c));
    assert_eq!(finished.len(), 2);

    // B finished, C and A should still be queued.
    tracker.finish(b);
    assert_eq!(tracker.get_status(b), Some(Status::Finished));

    assert_eq!(tracker.get_status(c), Some(Status::Queued));
    assert_eq!(tracker.get_status(a), Some(Status::Queued));

    let finished = tracker.drain_finished();
    assert!(finished.contains(&b));
    assert!(!finished.contains(&a));
    assert!(!finished.contains(&c));
    assert_eq!(finished.len(), 1);

    // C finished, so A must also finish
    tracker.finish(c);
    assert_eq!(tracker.get_status(c), Some(Status::Finished));
    assert_eq!(tracker.get_status(a), Some(Status::Finished));

    let finished = tracker.drain_finished();
    assert!(finished.contains(&a));
    assert!(finished.contains(&c));
    assert!(!finished.contains(&b));
    assert_eq!(finished.len(), 2);
}

/// ```text
/// D -\      /-> A
///     -> C -
/// E -/      \-> B
/// ```
#[test]
fn finish_merge_branch() {
    let mut tracker = DependencyTracker::new();
    let a = tracker.create_id();
    let b = tracker.create_id();
    let c = tracker.create_id();
    let d = tracker.create_id();
    let e = tracker.create_id();

    assert!(tracker.add_dependency(c, d).is_ok());
    assert!(tracker.add_dependency(c, e).is_ok());
    assert!(tracker.add_dependency(a, c).is_ok());
    assert!(tracker.add_dependency(b, c).is_ok());

    // D finished, everything else should be queued.
    tracker.finish(d);
    assert_eq!(tracker.get_status(d), Some(Status::Finished));

    assert_eq!(tracker.get_status(a), Some(Status::Queued));
    assert_eq!(tracker.get_status(b), Some(Status::Queued));
    assert_eq!(tracker.get_status(c), Some(Status::Queued));
    assert_eq!(tracker.get_status(e), Some(Status::Queued));

    let finished = tracker.drain_finished();
    assert!(finished.contains(&d));
    assert!(!finished.contains(&a));
    assert!(!finished.contains(&b));
    assert!(!finished.contains(&c));
    assert!(!finished.contains(&e));
    assert_eq!(finished.len(), 1);

    // E finished, everything should finish
    tracker.finish(e);
    assert_eq!(tracker.get_status(a), Some(Status::Finished));
    assert_eq!(tracker.get_status(b), Some(Status::Finished));
    assert_eq!(tracker.get_status(c), Some(Status::Finished));
    assert_eq!(tracker.get_status(e), Some(Status::Finished));

    let finished = tracker.drain_finished();
    assert!(!finished.contains(&d));
    assert!(finished.contains(&a));
    assert!(finished.contains(&b));
    assert!(finished.contains(&c));
    assert!(finished.contains(&e));
    assert_eq!(finished.len(), 4);
}

/// ```text
/// C -> B -> A
/// ```
#[test]
fn finish_middle() {
    let mut tracker = DependencyTracker::new();
    let a = tracker.create_id();
    let b = tracker.create_id();
    let c = tracker.create_id();

    assert!(tracker.add_dependency(a, b).is_ok());
    assert!(tracker.add_dependency(b, c).is_ok());

    // Middle node was finished, so nothing is finished
    tracker.finish(b);
    assert_eq!(tracker.get_status(a), Some(Status::Queued));
    assert_eq!(tracker.get_status(b), Some(Status::Queued));
    assert_eq!(tracker.get_status(c), Some(Status::Queued));

    let finished = tracker.drain_finished();
    assert!(finished.is_empty());

    // C finished, so all should finish
    tracker.finish(c);
    assert_eq!(tracker.get_status(a), Some(Status::Finished));
    assert_eq!(tracker.get_status(b), Some(Status::Finished));
    assert_eq!(tracker.get_status(c), Some(Status::Finished));

    let finished = tracker.drain_finished();
    assert!(finished.contains(&a));
    assert!(finished.contains(&b));
    assert!(finished.contains(&c));
    assert_eq!(finished.len(), 3);
}

#[test]
fn depending_on_finished_is_queued_without_edge() {
    let mut tracker = DependencyTracker::new();
    let a = tracker.create_id();
    let b = tracker.create_id();
    tracker.finish(b);
    assert_eq!(tracker.add_dependency(a, b), Ok(Status::Queued));
    // a does not wait for b, so finishing a finishes only a.
    tracker.finish(a);
    assert_eq!(tracker.get_status(a), Some(Status::Finished));
}

#[test]
fn depending_on_failed_fails() {
    let mut tracker = DependencyTracker::new();
    let a = tracker.create_id();
    let b = tracker.create_id();
    tracker.fail(b);
    assert_eq!(tracker.add_dependency(a, b), Ok(Status::Failed));
}

#[test]
fn drains_empty_the_lists() {
    let mut tracker = DependencyTracker::new();
    let a = tracker.create_id();
    tracker.fail(a);
    assert_eq!(tracker.drain_failed(), vec![a]);
    assert!(tracker.drain_failed().is_empty());
    assert!(tracker.drain_finished().is_empty());
    assert_eq!(Status::default(), Status::Queued);
}

#[test]
fn finish_diamond_reports_each_once() {
    let mut tracker = DependencyTracker::new();
    let a = tracker.create_id();
    let b = tracker.create_id();
    let c = tracker.create_id();
    let d = tracker.create_id();
    // b and c depend on a; d depends on b and c.
    assert_eq!(tracker.add_dependency(b, a), Ok(Status::Queued));
    assert_eq!(tracker.add_dependency(c, a), Ok(Status::Queued));
    assert_eq!(tracker.add_dependency(d, b), Ok(Status::Queued));
    assert_eq!(tracker.add_dependency(d, c), Ok(Status::Queued));
    tracker.finish(a);
    // d is queued by both b and c, and finishes once.
    assert_eq!(tracker.drain_finished(), vec![a, b, c, d]);
    assert_eq!(tracker.get_status(d), Some(Status::Finished));
}

#[test]
fn fail_diamond_reports_each_once() {
    let mut tracker = DependencyTracker::new();
    let a = tracker.create_id();
    let b = tracker.create_id();
    let c = tracker.create_id();
    let d = tracker.create_id();
    assert_eq!(tracker.add_dependency(b, a), Ok(Status::Queued));
    assert_eq!(tracker.add_dependency(c, a), Ok(Status::Queued));
    assert_eq!(tracker.add_dependency(d, b), Ok(Status::Queued));
    assert_eq!(tracker.add_dependency(d, c), Ok(Status::Queued));
    tracker.fail(a);
    assert_eq!(tracker.drain_failed(), vec![a, b, c, d]);
    assert_eq!(tracker.get_status(d), Some(Status::Failed));
}

#[test]
fn finish_after_finished_node_gains_a_dependency() {
    let mut tracker = DependencyTracker::new();
    let a = tracker.create_id();
    let b = tracker.create_id();
    let c = tracker.create_id();
    assert_eq!(tracker.add_dependency(a, b), Ok(Status::Queued));
    assert_eq!(tracker.add_dependency(a, c), Ok(Status::Queued));
    tracker.finish(b);
    assert_eq!(tracker.drain_finished(), vec![b]);
    // b has finished, but may still come to depend on a.
    assert_eq!(tracker.add_dependency(b, a), Ok(Status::Queued));
    tracker.finish(c);
    assert_eq!(tracker.get_status(c), Some(Status::Finished));
    assert_eq!(tracker.get_status(a), Some(Status::Finished));
    // Once a has finished, b's dependencies have all finished again: it is reported once more,
    // and a, already finished in this call, is passed over.
    assert_eq!(tracker.drain_finished(), vec![c, a, b]);
}

#[test]
fn fail_after_finished_node_gains_a_dependency() {
    let mut tracker = DependencyTracker::new();
    let a = tracker.create_id();
    let b = tracker.create_id();
    let c = tracker.create_id();
    assert_eq!(tracker.add_dependency(a, b), Ok(Status::Queued));
    assert_eq!(tracker.add_dependency(a, c), Ok(Status::Queued));
    tracker.finish(b);
    assert_eq!(tracker.add_dependency(b, a), Ok(Status::Queued));
    tracker.fail(c);
    assert_eq!(tracker.drain_failed(), vec![c, a, b]);
    assert_eq!(tracker.get_status(b), Some(Status::Failed));
}
