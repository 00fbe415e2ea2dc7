use aerugo::cli::{AerugoArgs, BackendSelection};
use aerugo::shell::{handle_identifier, CommitOutcome, ForeignToplevelInstance, Shell};

#[test]
fn initial_commit_gives_ids_in_order() {
    let mut shell = Shell::new();
    shell.add_pending_toplevel(10);
    shell.add_pending_toplevel(11);
    assert_eq!(shell.commit(11, false), CommitOutcome::Initial(1));
    assert_eq!(shell.commit(10, false), CommitOutcome::Initial(2));
    assert_eq!(shell.get_state(1).unwrap().surface, 11);
    assert_eq!(shell.get_state(2).unwrap().surface, 10);
    assert!(!shell.get_state(1).unwrap().mapped);
    assert!(shell.get_state(3).is_none());
}

#[test]
fn later_commits_map_and_unmap() {
    let mut shell = Shell::new();
    shell.add_pending_toplevel(10);
    assert_eq!(shell.commit(10, false), CommitOutcome::Initial(1));
    // A commit without a buffer leaves a toplevel that is not mapped as it is.
    assert_eq!(shell.commit(10, false), CommitOutcome::Existing(1));
    assert!(!shell.get_state(1).unwrap().mapped);
    // A commit with a buffer maps it.
    assert_eq!(shell.commit(10, true), CommitOutcome::Existing(1));
    assert!(shell.get_state(1).unwrap().mapped);
    assert_eq!(shell.commit(10, true), CommitOutcome::Existing(1));
    // A commit without a buffer unmaps it and makes it new again.
    assert_eq!(shell.commit(10, false), CommitOutcome::Unmapped(vec![]));
    assert!(shell.get_state(1).is_none());
    assert_eq!(shell.commit(10, false), CommitOutcome::Initial(2));
    assert_eq!(shell.commit(99, false), CommitOutcome::Unknown);
}

#[test]
fn removing_toplevels() {
    let mut shell = Shell::new();
    shell.add_pending_toplevel(10);
    shell.add_pending_toplevel(20);
    shell.add_pending_toplevel(10);
    assert_eq!(shell.commit(20, false), CommitOutcome::Initial(1));
    // Both pending entries of surface 10 go; no committed toplevel is on it.
    assert_eq!(shell.remove_toplevel(10), None);
    assert_eq!(shell.commit(10, false), CommitOutcome::Unknown);
    assert_eq!(shell.remove_toplevel(20), Some(1));
    assert!(shell.get_state(1).is_none());
    // Ids are never given out twice.
    shell.add_pending_toplevel(20);
    assert_eq!(shell.commit(20, false), CommitOutcome::Initial(2));
}

#[test]
fn handles_and_instances() {
    let mut shell = Shell::new();
    shell
        .foreign_toplevel_instances
        .insert(5, ForeignToplevelInstance { instance: 5, stopped: false });
    assert_eq!(shell.foreign_toplevel_instances.len(), 1);

    shell.add_pending_toplevel(10);
    assert_eq!(shell.commit(10, false), CommitOutcome::Initial(1));
    let mut toplevel = shell.get_state(1).unwrap().clone();
    toplevel.handles = vec![3, 4, 3];
    toplevel.remove_handle(3);
    assert_eq!(toplevel.handles, vec![4, 3]);
    toplevel.remove_handle(9);
    assert_eq!(toplevel.handles, vec![4, 3]);
}

#[test]
fn handle_identifiers() {
    assert_eq!(handle_identifier(0, 1), "00000000000000000000000000000001");
    assert_eq!(
        handle_identifier(0x0123_4567_89AB_CDEF, u64::MAX),
        "0123456789ABCDEFFFFFFFFFFFFFFFFF"
    );
}

#[test]
fn backend_selection_defaults_to_auto() {
    assert_eq!(BackendSelection::default(), BackendSelection::Auto);
    let args = AerugoArgs { backend: BackendSelection::default() };
    assert_eq!(args.backend, BackendSelection::Auto);
}

#[test]
fn handles_are_recorded_and_closed_on_unmap() {
    let mut shell = Shell::new();
    shell.add_pending_toplevel(10);
    assert_eq!(shell.commit(10, false), CommitOutcome::Initial(1));
    assert_eq!(
        shell.create_handle(1, 0xAB, 500),
        Some(String::from("00000000000000AB0000000000000001"))
    );
    assert_eq!(shell.create_handle(1, 0xAB, 501).unwrap(), handle_identifier(0xAB, 1));
    assert_eq!(shell.create_handle(7, 0xAB, 502), None);
    assert_eq!(shell.get_state(1).unwrap().handles, vec![500, 501]);
    assert!(shell.remove_handle(1, 500));
    assert!(!shell.remove_handle(7, 500));
    assert_eq!(shell.get_state(1).unwrap().handles, vec![501]);
    assert_eq!(shell.create_handle(1, 0xAB, 503).unwrap().len(), 32);
    assert_eq!(shell.commit(10, true), CommitOutcome::Existing(1));
    assert_eq!(shell.commit(10, false), CommitOutcome::Unmapped(vec![501, 503]));
}

#[test]
fn handle_identifier_pads_and_uses_uppercase() {
    assert_eq!(handle_identifier(0, 0), "00000000000000000000000000000000");
    assert_eq!(handle_identifier(u64::MAX, 0xabc), "FFFFFFFFFFFFFFFF0000000000000ABC");
}
