//! The pending-file debouncer: coalescing and draining.

use vector_store::pending::{PendingFile, ProjectState};

fn change(path: &str, mtime: u64) -> PendingFile {
    PendingFile {
        worktree_db_id: 0,
        relative_path: path.to_string(),
        absolute_path: format!("/w/{}", path),
        language_id: 1,
        mtime,
    }
}

#[test]
fn coalescing_keeps_first_instant_and_last_payload() {
    let mut state = ProjectState::new(vec![(7, 0)]);
    state.update_pending_files(change("a.src", 10), 13);
    state.update_pending_files(change("a.src", 11), 14);
    assert_eq!(state.pending_files.len(), 1);
    assert_eq!(state.pending_files[0].reindex_at, 13);
    assert_eq!(state.pending_files[0].file.mtime, 11);
}

#[test]
fn distinct_paths_do_not_coalesce() {
    let mut state = ProjectState::new(vec![(7, 0)]);
    state.update_pending_files(change("a.src", 10), 13);
    state.update_pending_files(change("b.src", 10), 13);
    assert_eq!(state.pending_files.len(), 2);
}

#[test]
fn drain_takes_only_due_entries() {
    let mut state = ProjectState::new(vec![(7, 0)]);
    state.update_pending_files(change("a.src", 0), 3);
    state.update_pending_files(change("b.src", 5), 8);
    let due = state.get_outstanding_files(4);
    assert_eq!(due.len(), 1);
    assert_eq!(due[0].relative_path, "a.src");
    assert_eq!(state.pending_files.len(), 1);
    assert_eq!(state.pending_files[0].file.relative_path, "b.src");
}

#[test]
fn debounced_save() {
    // three changes to the same path within the delay, then a fourth
    // change after the first deadline has passed
    let mut state = ProjectState::new(vec![(7, 0)]);
    let mut submissions: Vec<PendingFile> = Vec::new();

    // burst at 0 s, 0.5 s and 1 s; the deadline is mtime + 3 s
    state.update_pending_files(change("a.src", 0), 3);
    submissions.extend(state.get_outstanding_files(0));
    state.update_pending_files(change("a.src", 0), 3);
    submissions.extend(state.get_outstanding_files(0));
    state.update_pending_files(change("a.src", 1), 4);
    submissions.extend(state.get_outstanding_files(1));
    assert_eq!(submissions.len(), 0);

    // the fourth change arrives at 4 s, past the first deadline
    submissions.extend(state.get_outstanding_files(4));
    assert_eq!(submissions.len(), 1);
    assert_eq!(submissions[0].relative_path, "a.src");
    assert_eq!(submissions[0].mtime, 1);

    state.update_pending_files(change("a.src", 4), 7);
    submissions.extend(state.get_outstanding_files(4));
    // the fourth change waits for its own deadline
    assert_eq!(submissions.len(), 1);
    assert_eq!(state.pending_files.len(), 1);
}
