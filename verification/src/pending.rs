//! Per-project state: worktree id mapping and the pending-file
//! debouncer.
//!
//! A change notification for a path does not reindex it at once: the
//! path is held in `pending_files` until its scheduled reindex instant
//! has passed. Re-submitting an already pending path replaces the
//! payload but keeps the first scheduled instant, so a burst of edits
//! on one path coalesces into a single parse submission.

use vstd::prelude::*;

verus! {

/// A work item waiting to be parsed: where the file lives, which
/// language configuration applies, and the modification time observed
/// when the change was noticed.
pub struct PendingFile {
    pub worktree_db_id: u64,
    pub relative_path: String,
    pub absolute_path: String,
    pub language_id: u64,
    pub mtime: u64,
}

/// A pending file together with the instant at which it becomes due.
pub struct PendingEntry {
    pub file: PendingFile,
    pub reindex_at: u64,
}

/// Per-project record: the map from the project's worktree ids to
/// database worktree ids, and the debouncer.
pub struct ProjectState {
    pub worktree_db_ids: Vec<(u64, u64)>,
    pub pending_files: Vec<PendingEntry>,
}

/// Are the pending paths pairwise distinct?
pub open spec fn pending_keys_unique(entries: Seq<PendingEntry>) -> bool {
    forall|i: int, j: int|
        0 <= i < j < entries.len() ==> (#[trigger] entries[i]).file.relative_path@ != (
        #[trigger] entries[j]).file.relative_path@
}

/// Is some entry pending for `path`?
pub open spec fn has_pending(entries: Seq<PendingEntry>, path: Seq<char>) -> bool {
    exists|i: int| 0 <= i < entries.len() && entries[i].file.relative_path@ == path
}

/// The first entry pending for `path`, if any.
pub open spec fn pending_lookup(entries: Seq<PendingEntry>, path: Seq<char>) -> Option<PendingEntry>
    decreases entries.len(),
{
    if entries.len() == 0 {
        None
    } else if entries[0].file.relative_path@ == path {
        Some(entries[0])
    } else {
        pending_lookup(entries.drop_first(), path)
    }
}

/// The debouncer after submitting `file` at scheduled instant `at`: an
/// entry already pending for the path keeps its place and its original
/// instant but takes the new payload; otherwise a fresh entry is
/// appended.
pub open spec fn pending_after_update(
    entries: Seq<PendingEntry>,
    file: PendingFile,
    at: u64,
) -> Seq<PendingEntry>
    decreases entries.len(),
{
    if entries.len() == 0 {
        seq![PendingEntry { file: file, reindex_at: at }]
    } else if entries[0].file.relative_path@ == file.relative_path@ {
        seq![PendingEntry { file: file, reindex_at: entries[0].reindex_at }] + entries.drop_first()
    } else {
        seq![entries[0]] + pending_after_update(entries.drop_first(), file, at)
    }
}

/// The entries whose instant has not yet arrived at `now`, in order.
pub open spec fn still_pending(entries: Seq<PendingEntry>, now: u64) -> Seq<PendingEntry>
    decreases entries.len(),
{
    if entries.len() == 0 {
        Seq::empty()
    } else {
        let rest = still_pending(entries.drop_last(), now);
        if entries.last().reindex_at > now {
            rest.push(entries.last())
        } else {
            rest
        }
    }
}

/// The files of the entries due at `now`, in order.
pub open spec fn due_files(entries: Seq<PendingEntry>, now: u64) -> Seq<PendingFile>
    decreases entries.len(),
{
    if entries.len() == 0 {
        Seq::empty()
    } else {
        let rest = due_files(entries.drop_last(), now);
        if entries.last().reindex_at <= now {
            rest.push(entries.last().file)
        } else {
            rest
        }
    }
}

/// How many of `files` carry the relative path `path`.
pub open spec fn count_path(files: Seq<PendingFile>, path: Seq<char>) -> nat
    decreases files.len(),
{
    if files.len() == 0 {
        0
    } else {
        count_path(files.drop_last(), path) + if files.last().relative_path@ == path {
            1nat
        } else {
            0nat
        }
    }
}

impl ProjectState {
    /// Structural invariant: pending paths are unique, as are the
    /// project-side worktree ids of the mapping.
    pub open spec fn wf(self) -> bool {
        &&& pending_keys_unique(self.pending_files@)
        &&& forall|i: int, j: int|
            0 <= i < j < self.worktree_db_ids@.len() ==> (#[trigger] self.worktree_db_ids@[i]).0
                != (#[trigger] self.worktree_db_ids@[j]).0
    }

    /// A fresh project record with the given worktree id mapping and
    /// nothing pending.
    pub fn new(worktree_db_ids: Vec<(u64, u64)>) -> (s: ProjectState)
        requires
            forall|i: int, j: int|
                0 <= i < j < worktree_db_ids@.len() ==> (#[trigger] worktree_db_ids@[i]).0 != (
                #[trigger] worktree_db_ids@[j]).0,
        ensures
            s.wf(),
            s.worktree_db_ids == worktree_db_ids,
            s.pending_files@.len() == 0,
    {
        ProjectState { worktree_db_ids, pending_files: Vec::new() }
    }

    /// Submits a pending file scheduled for `reindex_at`. If the path
    /// is already pending, the payload is replaced but the original
    /// instant is kept, coalescing bursts of changes.
    pub fn update_pending_files(&mut self, pending_file: PendingFile, reindex_at: u64)
        requires
            old(self).wf(),
        ensures
            final(self).wf(),
            final(self).worktree_db_ids == old(self).worktree_db_ids,
            final(self).pending_files@ == pending_after_update(
                old(self).pending_files@,
                pending_file,
                reindex_at,
            ),
    {
        let n: usize = self.pending_files.len();
        let mut i: usize = 0;
        while i < n
            invariant
                old(self).wf(),
                *self == *old(self),
                n == self.pending_files@.len(),
                i <= n,
                forall|j: int|
                    0 <= j < i ==> (#[trigger] self.pending_files@[j]).file.relative_path@
                        != pending_file.relative_path@,
            decreases n - i,
        {
            if self.pending_files[i].file.relative_path == pending_file.relative_path {
                let kept: u64 = self.pending_files[i].reindex_at;
                proof {
                    lemma_update_found(
                        self.pending_files@,
                        pending_file,
                        reindex_at,
                        i as int,
                    );
                }
                let ghost pre = self.pending_files@;
                self.pending_files[i] = PendingEntry { file: pending_file, reindex_at: kept };
                proof {
                    assert(self.pending_files@ =~= pre.update(
                        i as int,
                        PendingEntry { file: pending_file, reindex_at: pre[i as int].reindex_at },
                    ));
                }
                return ;
            }
            i = i + 1;
        }
        proof {
            lemma_update_absent(self.pending_files@, pending_file, reindex_at);
        }
        self.pending_files.push(PendingEntry { file: pending_file, reindex_at });
        proof {
            assert(self.pending_files@ =~= pending_after_update(
                old(self).pending_files@,
                pending_file,
                reindex_at,
            ));
        }
    }

    /// Removes and returns every pending file whose scheduled instant
    /// has arrived; entries scheduled later stay pending.
    pub fn get_outstanding_files(&mut self, now: u64) -> (r: Vec<PendingFile>)
        requires
            old(self).wf(),
        ensures
            final(self).wf(),
            final(self).worktree_db_ids == old(self).worktree_db_ids,
            final(self).pending_files@ == still_pending(old(self).pending_files@, now),
            r@ == due_files(old(self).pending_files@, now),
    {
        let mut due: Vec<PendingFile> = Vec::new();
        let mut kept: Vec<PendingEntry> = Vec::new();
        let n: usize = self.pending_files.len();
        let mut i: usize = 0;
        proof {
            assert(self.pending_files@.take(0) =~= Seq::<PendingEntry>::empty());
        }
        while i < n
            invariant
                old(self).wf(),
                *self == *old(self),
                n == self.pending_files@.len(),
                i <= n,
                due@ == due_files(self.pending_files@.take(i as int), now),
                kept@ == still_pending(self.pending_files@.take(i as int), now),
            decreases n - i,
        {
            proof {
                assert(self.pending_files@.take(i + 1).drop_last() =~= self.pending_files@.take(
                    i as int,
                ));
                assert(self.pending_files@.take(i + 1).last() == self.pending_files@[i as int]);
            }
            if self.pending_files[i].reindex_at <= now {
                due.push(clone_pending_file(&self.pending_files[i].file));
            } else {
                kept.push(clone_pending_entry(&self.pending_files[i]));
            }
            i = i + 1;
        }
        proof {
            assert(self.pending_files@.take(n as int) =~= self.pending_files@);
            lemma_still_pending_unique(self.pending_files@, now);
        }
        self.pending_files = kept;
        due
    }
}

/// The debouncer after a whole burst of submissions, first to last.
pub open spec fn pending_after_burst(
    entries: Seq<PendingEntry>,
    burst: Seq<(PendingFile, u64)>,
) -> Seq<PendingEntry>
    decreases burst.len(),
{
    if burst.len() == 0 {
        entries
    } else {
        pending_after_burst(
            pending_after_update(entries, burst[0].0, burst[0].1),
            burst.drop_first(),
        )
    }
}

/// Debounce coalescing: a burst of submissions for one path that is
/// not yet pending leaves exactly one entry for it, carrying the last
/// payload and the first scheduled instant. Draining at an instant at
/// or past that first instant therefore produces exactly one parse
/// submission for the path and leaves nothing pending for it; draining
/// earlier produces none and keeps the path pending.
pub proof fn lemma_debounce_coalescing(
    entries: Seq<PendingEntry>,
    burst: Seq<(PendingFile, u64)>,
    path: Seq<char>,
    now: u64,
)
    requires
        pending_keys_unique(entries),
        !has_pending(entries, path),
        burst.len() > 0,
        forall|b: int| 0 <= b < burst.len() ==> (#[trigger] burst[b]).0.relative_path@ == path,
    ensures
        pending_after_burst(entries, burst) == entries.push(
            PendingEntry { file: burst.last().0, reindex_at: burst[0].1 },
        ),
        now >= burst[0].1 ==> count_path(due_files(pending_after_burst(entries, burst), now), path)
            == 1,
        now >= burst[0].1 ==> !has_pending(
            still_pending(pending_after_burst(entries, burst), now),
            path,
        ),
        now < burst[0].1 ==> count_path(due_files(pending_after_burst(entries, burst), now), path)
            == 0,
        now < burst[0].1 ==> has_pending(
            still_pending(pending_after_burst(entries, burst), now),
            path,
        ),
{
    let entry = PendingEntry { file: burst.last().0, reindex_at: burst[0].1 };
    lemma_burst_on_fresh(entries, burst, path);
    let out = entries.push(entry);
    assert(out.drop_last() =~= entries);
    assert(out.last() == entry);
    assert forall|j: int|
        0 <= j < entries.len() implies (#[trigger] entries[j]).file.relative_path@ != path by {
        if entries[j].file.relative_path@ == path {
            assert(has_pending(entries, path));
        }
    }
    lemma_no_path_after_drain(entries, now, path);
    if now >= burst[0].1 {
        assert(due_files(out, now) == due_files(entries, now).push(entry.file));
        assert(due_files(out, now).drop_last() =~= due_files(entries, now));
        assert(still_pending(out, now) == still_pending(entries, now));
        assert forall|j: int|
            0 <= j < still_pending(out, now).len() implies (
        #[trigger] still_pending(out, now)[j]).file.relative_path@ != path by {}
    } else {
        assert(due_files(out, now) == due_files(entries, now));
        assert(still_pending(out, now) == still_pending(entries, now).push(entry));
        assert(still_pending(out, now)[still_pending(out, now).len() - 1] == entry);
        assert(has_pending(still_pending(out, now), path));
    }
}

/// A burst on a path that is pending at position `i` replaces that
/// entry in place with the last payload, keeping the stored instant.
proof fn lemma_burst_on_existing(
    s: Seq<PendingEntry>,
    burst: Seq<(PendingFile, u64)>,
    path: Seq<char>,
    i: int,
)
    requires
        pending_keys_unique(s),
        0 <= i < s.len(),
        s[i].file.relative_path@ == path,
        burst.len() > 0,
        forall|b: int| 0 <= b < burst.len() ==> (#[trigger] burst[b]).0.relative_path@ == path,
    ensures
        pending_after_burst(s, burst) == s.update(
            i,
            PendingEntry { file: burst.last().0, reindex_at: s[i].reindex_at },
        ),
    decreases burst.len(),
{
    assert forall|j: int|
        0 <= j < i implies (#[trigger] s[j]).file.relative_path@ != path by {
        if s[j].file.relative_path@ == path {
            assert((#[trigger] s[j]).file.relative_path@ == (#[trigger] s[i]).file.relative_path@);
        }
    }
    lemma_update_found(s, burst[0].0, burst[0].1, i);
    let s1 = s.update(i, PendingEntry { file: burst[0].0, reindex_at: s[i].reindex_at });
    if burst.len() == 1 {
        assert(pending_after_burst(s, burst) == pending_after_burst(s1, burst.drop_first()));
    } else {
        assert forall|a: int, b: int|
            0 <= a < b < s1.len() implies (#[trigger] s1[a]).file.relative_path@ != (
        #[trigger] s1[b]).file.relative_path@ by {
            assert(s[a].file.relative_path@ != s[b].file.relative_path@);
        }
        lemma_burst_on_existing(s1, burst.drop_first(), path, i);
        assert(s1.update(
            i,
            PendingEntry { file: burst.drop_first().last().0, reindex_at: s1[i].reindex_at },
        ) =~= s.update(i, PendingEntry { file: burst.last().0, reindex_at: s[i].reindex_at }));
    }
}

/// A burst on a path that is not yet pending appends one entry: the
/// last payload with the first scheduled instant.
proof fn lemma_burst_on_fresh(
    entries: Seq<PendingEntry>,
    burst: Seq<(PendingFile, u64)>,
    path: Seq<char>,
)
    requires
        pending_keys_unique(entries),
        !has_pending(entries, path),
        burst.len() > 0,
        forall|b: int| 0 <= b < burst.len() ==> (#[trigger] burst[b]).0.relative_path@ == path,
    ensures
        pending_after_burst(entries, burst) == entries.push(
            PendingEntry { file: burst.last().0, reindex_at: burst[0].1 },
        ),
{
    assert forall|j: int|
        0 <= j < entries.len() implies (#[trigger] entries[j]).file.relative_path@ != path by {
        if entries[j].file.relative_path@ == path {
            assert(has_pending(entries, path));
        }
    }
    lemma_update_absent(entries, burst[0].0, burst[0].1);
    let e1 = PendingEntry { file: burst[0].0, reindex_at: burst[0].1 };
    let s1 = entries.push(e1);
    if burst.len() == 1 {
        assert(pending_after_burst(entries, burst) == pending_after_burst(s1, burst.drop_first()));
    } else {
        assert forall|a: int, b: int|
            0 <= a < b < s1.len() implies (#[trigger] s1[a]).file.relative_path@ != (
        #[trigger] s1[b]).file.relative_path@ by {
            if b < entries.len() {
                assert(entries[a].file.relative_path@ != entries[b].file.relative_path@);
            } else {
                assert(s1[b] == e1);
                assert(s1[a] == entries[a]);
            }
        }
        assert(s1[entries.len() as int].file.relative_path@ == path);
        lemma_burst_on_existing(s1, burst.drop_first(), path, entries.len() as int);
        assert(s1.update(
            entries.len() as int,
            PendingEntry {
                file: burst.drop_first().last().0,
                reindex_at: s1[entries.len() as int].reindex_at,
            },
        ) =~= entries.push(PendingEntry { file: burst.last().0, reindex_at: burst[0].1 }));
    }
}

/// Draining entries none of which carries `path` yields no submission
/// for `path` and keeps nothing pending for it.
proof fn lemma_no_path_after_drain(s: Seq<PendingEntry>, now: u64, path: Seq<char>)
    requires
        forall|j: int| 0 <= j < s.len() ==> (#[trigger] s[j]).file.relative_path@ != path,
    ensures
        count_path(due_files(s, now), path) == 0,
        forall|j: int|
            0 <= j < still_pending(s, now).len() ==> (
            #[trigger] still_pending(s, now)[j]).file.relative_path@ != path,
    decreases s.len(),
{
    if s.len() > 0 {
        assert forall|j: int|
            0 <= j < s.drop_last().len() implies (
        #[trigger] s.drop_last()[j]).file.relative_path@ != path by {
            assert(s.drop_last()[j] == s[j]);
        }
        lemma_no_path_after_drain(s.drop_last(), now, path);
        if s.last().reindex_at <= now {
            assert(due_files(s, now) == due_files(s.drop_last(), now).push(s.last().file));
            assert(due_files(s, now).drop_last() =~= due_files(s.drop_last(), now));
        } else {
            assert forall|j: int|
                0 <= j < still_pending(s, now).len() implies (
            #[trigger] still_pending(s, now)[j]).file.relative_path@ != path by {
                if j < still_pending(s.drop_last(), now).len() {
                    assert(still_pending(s, now)[j] == still_pending(s.drop_last(), now)[j]);
                } else {
                    assert(still_pending(s, now)[j] == s.last());
                }
            }
        }
    }
}

/// An exact copy of a pending file.
fn clone_pending_file(f: &PendingFile) -> (r: PendingFile)
    ensures
        r == *f,
{
    PendingFile {
        worktree_db_id: f.worktree_db_id,
        relative_path: f.relative_path.clone(),
        absolute_path: f.absolute_path.clone(),
        language_id: f.language_id,
        mtime: f.mtime,
    }
}

/// An exact copy of a pending entry.
fn clone_pending_entry(e: &PendingEntry) -> (r: PendingEntry)
    ensures
        r == *e,
{
    PendingEntry { file: clone_pending_file(&e.file), reindex_at: e.reindex_at }
}

/// Updating a path that is pending at position `i` replaces that entry
/// in place, keeping its instant.
proof fn lemma_update_found(s: Seq<PendingEntry>, file: PendingFile, at: u64, i: int)
    requires
        0 <= i < s.len(),
        s[i].file.relative_path@ == file.relative_path@,
        forall|j: int|
            0 <= j < i ==> (#[trigger] s[j]).file.relative_path@ != file.relative_path@,
    ensures
        pending_after_update(s, file, at) == s.update(
            i,
            PendingEntry { file: file, reindex_at: s[i].reindex_at },
        ),
    decreases i,
{
    if i == 0 {
        assert(pending_after_update(s, file, at) =~= s.update(
            0,
            PendingEntry { file: file, reindex_at: s[0].reindex_at },
        ));
    } else {
        assert forall|j: int|
            0 <= j < i - 1 implies (#[trigger] s.drop_first()[j]).file.relative_path@
            != file.relative_path@ by {
            assert(s.drop_first()[j] == s[j + 1]);
        }
        assert(s.drop_first()[i - 1] == s[i]);
        lemma_update_found(s.drop_first(), file, at, i - 1);
        assert(s.update(i, PendingEntry { file: file, reindex_at: s[i].reindex_at }).drop_first()
            =~= s.drop_first().update(
            i - 1,
            PendingEntry { file: file, reindex_at: s[i].reindex_at },
        ));
        assert(pending_after_update(s, file, at) =~= s.update(
            i,
            PendingEntry { file: file, reindex_at: s[i].reindex_at },
        ));
    }
}

/// Updating a path that is not pending appends a fresh entry.
proof fn lemma_update_absent(s: Seq<PendingEntry>, file: PendingFile, at: u64)
    requires
        forall|j: int|
            0 <= j < s.len() ==> (#[trigger] s[j]).file.relative_path@ != file.relative_path@,
    ensures
        pending_after_update(s, file, at) == s.push(
            PendingEntry { file: file, reindex_at: at },
        ),
    decreases s.len(),
{
    if s.len() == 0 {
        assert(pending_after_update(s, file, at) =~= s.push(
            PendingEntry { file: file, reindex_at: at },
        ));
    } else {
        assert forall|j: int|
            0 <= j < s.drop_first().len() implies (
        #[trigger] s.drop_first()[j]).file.relative_path@ != file.relative_path@ by {
            assert(s.drop_first()[j] == s[j + 1]);
        }
        lemma_update_absent(s.drop_first(), file, at);
        assert(pending_after_update(s, file, at) =~= s.push(
            PendingEntry { file: file, reindex_at: at },
        ));
    }
}

/// The entries that stay pending keep unique paths, and each of them
/// is one of the original entries.
proof fn lemma_still_pending_unique(s: Seq<PendingEntry>, now: u64)
    requires
        pending_keys_unique(s),
    ensures
        pending_keys_unique(still_pending(s, now)),
        forall|j: int|
            0 <= j < still_pending(s, now).len() ==> exists|k: int|
                0 <= k < s.len() && s[k] == #[trigger] still_pending(s, now)[j],
    decreases s.len(),
{
    if s.len() > 0 {
        assert forall|a: int, b: int|
            0 <= a < b < s.drop_last().len() implies (
        #[trigger] s.drop_last()[a]).file.relative_path@ != (
        #[trigger] s.drop_last()[b]).file.relative_path@ by {
            assert(s.drop_last()[a] == s[a]);
            assert(s.drop_last()[b] == s[b]);
        }
        lemma_still_pending_unique(s.drop_last(), now);
        let out = still_pending(s, now);
        let rest = still_pending(s.drop_last(), now);
        assert forall|j: int| 0 <= j < out.len() implies exists|k: int|
            0 <= k < s.len() && s[k] == #[trigger] out[j] by {
            if j < rest.len() {
                assert(rest[j] == out[j]);
                let k = choose|k: int|
                    0 <= k < s.drop_last().len() && s.drop_last()[k] == rest[j];
                assert(s[k] == out[j]);
            } else {
                assert(out[j] == s.last());
                assert(s[s.len() - 1] == out[j]);
            }
        }
        assert forall|a: int, b: int|
            0 <= a < b < out.len() implies (#[trigger] out[a]).file.relative_path@ != (
        #[trigger] out[b]).file.relative_path@ by {
            if b < rest.len() {
            } else if out.len() > rest.len() {
                // b is the appended last entry of s; a comes from the prefix
                let k = choose|k: int|
                    0 <= k < s.drop_last().len() && s.drop_last()[k] == rest[a];
                assert(s[k] == out[a]);
                assert(out[b] == s[s.len() - 1]);
            }
        }
    }
}

} // verus!
