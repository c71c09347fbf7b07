//! The vector store: project registry, bootstrap diffing, the
//! database-writer commands, and top-k search.
//!
//! Attaching a project registers its worktrees in the database, diffs
//! the discovered files against the stored rows — submitting changed
//! or new files for parsing and deleting rows whose files are gone —
//! and records the project's worktree-id mapping. Searching scores
//! every stored document of the project's worktrees against a query
//! embedding and returns the best matches in descending order.

use vstd::prelude::*;

use crate::db::{
    FileRow,
    VectorDatabase,
    file_lookup,
    file_row_of,
    files_without,
    has_file,
    has_worktree_path,
    is_file_key,
    lemma_lookup_after_delete,
    lemma_lookup_is_match,
    mtimes_of,
    stored_mtime_of,
};
use crate::indexer::IndexedFile;
use crate::pending::{PendingFile, ProjectState};

verus! {

/// One search hit: the project-side worktree id and the document's
/// stored metadata.
pub struct SearchResult {
    pub worktree_id: u64,
    pub name: String,
    pub offset: usize,
    pub file_path: String,
}

/// A command for the database writer, the single owner of the store's
/// write handle.
pub enum DbWrite {
    InsertFile { worktree_id: u64, indexed_file: IndexedFile },
    Delete { worktree_id: u64, path: String },
    FindOrCreateWorktree { path: String },
}

/// One file found while walking a worktree. `language_id` identifies
/// the language's embedding configuration and is absent when the
/// file's language has none — such a file is never indexed.
pub struct DiscoveredFile {
    pub relative_path: String,
    pub absolute_path: String,
    pub mtime: u64,
    pub language_id: Option<u64>,
}

/// One worktree of a project as the walk reports it.
pub struct WorktreeDiscovery {
    pub worktree_id: u64,
    pub abs_path: String,
    pub files: Vec<DiscoveredFile>,
}

/// The store: the vector database, the embedding dimension every
/// persisted document must have, and the attached projects.
pub struct VectorStore {
    pub db: VectorDatabase,
    pub dimension: usize,
    pub projects: Vec<(u64, ProjectState)>,
}

/// Is `path` among the discovered files, with an embedding
/// configuration?
pub open spec fn path_discovered(ds: Seq<DiscoveredFile>, path: Seq<char>) -> bool {
    exists|i: int|
        0 <= i < ds.len() && ds[i].relative_path@ == path && ds[i].language_id is Some
}

/// Must this discovered file be (re)indexed: it has a configuration
/// and is either unknown to the store or stored with another mtime.
pub open spec fn needs_reindex(files: Seq<FileRow>, db_id: u64, f: DiscoveredFile) -> bool {
    f.language_id is Some && stored_mtime_of(files, db_id, f.relative_path@) != Some(f.mtime)
}

/// The parse submission a discovered file becomes.
pub open spec fn pending_of(db_id: u64, f: DiscoveredFile) -> PendingFile {
    PendingFile {
        worktree_db_id: db_id,
        relative_path: f.relative_path,
        absolute_path: f.absolute_path,
        language_id: f.language_id->0,
        mtime: f.mtime,
    }
}

/// The parse submissions one worktree's discovery produces against the
/// stored rows, in discovery order.
pub open spec fn submissions_for(
    files: Seq<FileRow>,
    db_id: u64,
    ds: Seq<DiscoveredFile>,
) -> Seq<PendingFile>
    decreases ds.len(),
{
    if ds.len() == 0 {
        Seq::empty()
    } else {
        let rest = submissions_for(files, db_id, ds.drop_last());
        if needs_reindex(files, db_id, ds.last()) {
            rest.push(pending_of(db_id, ds.last()))
        } else {
            rest
        }
    }
}

/// The submissions of a whole project: each worktree's, in order,
/// against the rows stored when the attach began.
pub open spec fn submissions_concat(
    files: Seq<FileRow>,
    m: Seq<(u64, u64)>,
    ws: Seq<WorktreeDiscovery>,
) -> Seq<PendingFile>
    decreases ws.len(),
{
    if ws.len() == 0 || m.len() != ws.len() {
        Seq::empty()
    } else {
        submissions_concat(files, m.drop_last(), ws.drop_last()) + submissions_for(
            files,
            m.last().1,
            ws.last().files@,
        )
    }
}

/// The first registered project with the given id, if any.
pub open spec fn project_lookup(ps: Seq<(u64, ProjectState)>, project_id: u64) -> Option<
    ProjectState,
>
    decreases ps.len(),
{
    if ps.len() == 0 {
        None
    } else if ps[0].0 == project_id {
        Some(ps[0].1)
    } else {
        project_lookup(ps.drop_first(), project_id)
    }
}

impl VectorStore {
    /// Structural invariant: the database is well-formed, every
    /// persisted embedding has the store's dimension, the dimension is
    /// positive, project ids are unique and each project record is
    /// well-formed.
    pub open spec fn wf(self) -> bool {
        &&& self.db.wf()
        &&& self.db.uniform_dimension(self.dimension as nat)
        &&& self.dimension > 0
        &&& forall|i: int, j: int|
            0 <= i < j < self.projects@.len() ==> (#[trigger] self.projects@[i]).0 != (
            #[trigger] self.projects@[j]).0
        &&& forall|i: int| 0 <= i < self.projects@.len() ==> (#[trigger] self.projects@[i]).1.wf()
    }

    /// A fresh store for embeddings of the given dimension.
    pub fn new(dimension: usize) -> (s: VectorStore)
        requires
            dimension > 0,
        ensures
            s.wf(),
            s.dimension == dimension,
            s.db.worktrees@.len() == 0,
            s.db.files@.len() == 0,
            s.projects@.len() == 0,
    {
        VectorStore { db: VectorDatabase::new(), dimension, projects: Vec::new() }
    }

    /// The id of the worktree row for this absolute path, created on
    /// first sight. Idempotent.
    pub fn find_or_create_worktree(&mut self, abs_path: &String) -> (id: u64)
        requires
            old(self).wf(),
        ensures
            final(self).wf(),
            final(self).db.files == old(self).db.files,
            final(self).projects == old(self).projects,
            final(self).dimension == old(self).dimension,
            (id as int) < final(self).db.worktrees@.len(),
            final(self).db.worktrees@[id as int].abs_path@ == abs_path@,
            has_worktree_path(old(self).db.worktrees@, abs_path@) ==> final(self).db.worktrees
                == old(self).db.worktrees,
            !has_worktree_path(old(self).db.worktrees@, abs_path@) ==> {
                &&& id as int == old(self).db.worktrees@.len()
                &&& final(self).db.worktrees@.len() == old(self).db.worktrees@.len() + 1
                &&& final(self).db.worktrees@.subrange(0, old(self).db.worktrees@.len() as int)
                    == old(self).db.worktrees@
            },
    {
        self.db.find_or_create_worktree(abs_path)
    }

    /// Applies one writer command. An insert is skipped — the store is
    /// left as it was — when its worktree id is unknown or any of its
    /// documents does not carry an embedding of the store's dimension;
    /// a find-or-create command answers with the worktree id.
    pub fn apply_db_write(&mut self, job: DbWrite) -> (r: Option<u64>)
        requires
            old(self).wf(),
        ensures
            final(self).wf(),
            final(self).projects == old(self).projects,
            final(self).dimension == old(self).dimension,
            match job {
                DbWrite::InsertFile { worktree_id, indexed_file } => {
                    &&& r is None
                    &&& final(self).db.worktrees == old(self).db.worktrees
                    &&& if worktree_id < old(self).db.worktrees@.len() && (forall|j: int|
                        0 <= j < indexed_file.documents@.len() ==> (
                        #[trigger] indexed_file.documents@[j]).embedding@.len() == old(self).dimension) {
                        final(self).db.files@ == files_without(
                            old(self).db.files@,
                            worktree_id,
                            indexed_file.path@,
                        ).push(file_row_of(worktree_id, indexed_file))
                    } else {
                        final(self).db.files == old(self).db.files
                    }
                },
                DbWrite::Delete { worktree_id, path } => {
                    &&& r is None
                    &&& final(self).db.worktrees == old(self).db.worktrees
                    &&& final(self).db.files@ == files_without(
                        old(self).db.files@,
                        worktree_id,
                        path@,
                    )
                },
                DbWrite::FindOrCreateWorktree { path } => {
                    &&& r is Some
                    &&& final(self).db.files == old(self).db.files
                    &&& (r->0 as int) < final(self).db.worktrees@.len()
                    &&& final(self).db.worktrees@[r->0 as int].abs_path@ == path@
                    &&& (has_worktree_path(old(self).db.worktrees@, path@) ==> final(self).db.worktrees == old(self).db.worktrees)
                    &&& (!has_worktree_path(old(self).db.worktrees@, path@) ==> final(self).db.worktrees@.len() == old(self).db.worktrees@.len() + 1)
                },
            },
    {
        match job {
            DbWrite::InsertFile { worktree_id, indexed_file } => {
                let mut dims_ok: bool = true;
                let n: usize = indexed_file.documents.len();
                let mut j: usize = 0;
                while j < n
                    invariant
                        n == indexed_file.documents@.len(),
                        j <= n,
                        dims_ok == (forall|l: int|
                            0 <= l < j ==> (
                            #[trigger] indexed_file.documents@[l]).embedding@.len()
                                == self.dimension),
                    decreases n - j,
                {
                    if indexed_file.documents[j].embedding.len() != self.dimension {
                        dims_ok = false;
                    }
                    j = j + 1;
                }
                if worktree_id < self.db.worktrees.len() as u64 && dims_ok {
                    self.db.insert_file(worktree_id, indexed_file);
                    proof {
                        assert(self.db.uniform_dimension(self.dimension as nat));
                    }
                }
                None
            },
            DbWrite::Delete { worktree_id, path } => {
                self.db.delete_file(worktree_id, &path);
                proof {
                    assert(self.db.uniform_dimension(self.dimension as nat));
                }
                None
            },
            DbWrite::FindOrCreateWorktree { path } => {
                let id: u64 = self.db.find_or_create_worktree(&path);
                Some(id)
            },
        }
    }

    /// Diffs one worktree's discovered files against its stored rows:
    /// returns the parse submissions — files with a configuration that
    /// are unknown or stored with another mtime — and deletes every
    /// stored row whose path was not discovered with a configuration.
    pub fn bootstrap_worktree(&mut self, db_id: u64, files: &Vec<DiscoveredFile>) -> (r: Vec<
        PendingFile,
    >)
        requires
            old(self).wf(),
        ensures
            final(self).wf(),
            final(self).db.worktrees == old(self).db.worktrees,
            final(self).projects == old(self).projects,
            final(self).dimension == old(self).dimension,
            r@ == submissions_for(old(self).db.files@, db_id, files@),
            forall|p: Seq<char>|
                #[trigger] file_lookup(final(self).db.files@, db_id, p) == if path_discovered(
                    files@,
                    p,
                ) {
                    file_lookup(old(self).db.files@, db_id, p)
                } else {
                    None::<FileRow>
                },
            forall|wt: u64, p: Seq<char>|
                wt != db_id ==> #[trigger] file_lookup(final(self).db.files@, wt, p)
                    == file_lookup(old(self).db.files@, wt, p),
    {
        let ghost files0 = self.db.files@;
        // Phase one: collect submissions; the store is only read.
        let mut subs: Vec<PendingFile> = Vec::new();
        let n: usize = files.len();
        let mut i: usize = 0;
        proof {
            assert(files@.take(0) =~= Seq::<DiscoveredFile>::empty());
        }
        while i < n
            invariant
                *self == *old(self),
                files0 == self.db.files@,
                n == files@.len(),
                i <= n,
                subs@ == submissions_for(files0, db_id, files@.take(i as int)),
            decreases n - i,
        {
            proof {
                assert(files@.take(i + 1).drop_last() =~= files@.take(i as int));
                assert(files@.take(i + 1).last() == files@[i as int]);
            }
            let f: &DiscoveredFile = &files[i];
            if let Some(language_id) = f.language_id {
                let stored: Option<u64> = self.db.lookup_mtime(db_id, &f.relative_path);
                let needs: bool = match stored {
                    Some(m) => m != f.mtime,
                    None => true,
                };
                if needs {
                    subs.push(
                        PendingFile {
                            worktree_db_id: db_id,
                            relative_path: f.relative_path.clone(),
                            absolute_path: f.absolute_path.clone(),
                            language_id,
                            mtime: f.mtime,
                        },
                    );
                    proof {
                        assert(subs@.last() == pending_of(db_id, files@[i as int]));
                        assert(subs@.drop_last() =~= submissions_for(
                            files0,
                            db_id,
                            files@.take(i as int),
                        ));
                        assert(subs@ =~= submissions_for(files0, db_id, files@.take(i + 1)));
                    }
                }
            }
            i = i + 1;
        }
        proof {
            assert(files@.take(n as int) =~= files@);
        }
        // Phase two: delete every stored row whose path was not
        // discovered with a configuration.
        let stored: Vec<(String, u64)> = self.db.get_file_mtimes(db_id);
        let m: usize = stored.len();
        let mut j: usize = 0;
        while j < m
            invariant
                old(self).wf(),
                self.wf(),
                files0 == old(self).db.files@,
                self.db.worktrees == old(self).db.worktrees,
                self.projects == old(self).projects,
                self.dimension == old(self).dimension,
                m == stored@.len(),
                j <= m,
                stored@ == mtimes_of(files0, db_id),
                forall|p: Seq<char>|
                    path_discovered(files@, p) ==> #[trigger] file_lookup(self.db.files@, db_id, p)
                        == file_lookup(files0, db_id, p),
                forall|p: Seq<char>|
                    !path_discovered(files@, p) && (exists|l: int|
                        0 <= l < j && (#[trigger] stored@[l]).0@ == p) ==> file_lookup(
                        self.db.files@,
                        db_id,
                        p,
                    ) is None,
                forall|p: Seq<char>|
                    !(exists|l: int| 0 <= l < j && (#[trigger] stored@[l]).0@ == p)
                        ==> #[trigger] file_lookup(self.db.files@, db_id, p) == file_lookup(
                        files0,
                        db_id,
                        p,
                    ),
                forall|wt: u64, p: Seq<char>|
                    wt != db_id ==> #[trigger] file_lookup(self.db.files@, wt, p) == file_lookup(
                        files0,
                        wt,
                        p,
                    ),
            decreases m - j,
        {
            let discovered: bool = discovered_with_config(files, &stored[j].0);
            if !discovered {
                let ghost pre = self.db.files@;
                self.db.delete_file(db_id, &stored[j].0);
                proof {
                    assert(self.db.uniform_dimension(self.dimension as nat));
                    assert forall|wt: u64, p: Seq<char>| true implies #[trigger] file_lookup(
                        self.db.files@,
                        wt,
                        p,
                    ) == (if wt == db_id && p == stored@[j as int].0@ {
                        None::<FileRow>
                    } else {
                        file_lookup(pre, wt, p)
                    }) by {
                        lemma_lookup_after_delete(pre, db_id, stored@[j as int].0@, wt, p);
                    }
                }
            }
            j = j + 1;
        }
        proof {
            assert forall|p: Seq<char>| true implies #[trigger] file_lookup(
                self.db.files@,
                db_id,
                p,
            ) == (if path_discovered(files@, p) {
                file_lookup(files0, db_id, p)
            } else {
                None::<FileRow>
            }) by {
                if !path_discovered(files@, p) {
                    if file_lookup(files0, db_id, p) is Some {
                        lemma_mtimes_has_path(files0, db_id, p);
                    }
                }
            }
        }
        subs
    }
}

/// Does one of the first `k` mapping entries carry the database
/// worktree id `wt`?
pub open spec fn id_in_prefix(m: Seq<(u64, u64)>, k: int, wt: u64) -> bool {
    exists|a: int| 0 <= a < k && (#[trigger] m[a]).1 == wt
}

impl VectorStore {
    /// Records a project's state under its id, replacing any earlier
    /// record for the same project.
    fn register_project(&mut self, project_id: u64, st: ProjectState)
        requires
            old(self).wf(),
            st.wf(),
        ensures
            final(self).wf(),
            final(self).db == old(self).db,
            final(self).dimension == old(self).dimension,
            project_lookup(final(self).projects@, project_id) == Some(st),
    {
        let n: usize = self.projects.len();
        let mut i: usize = 0;
        while i < n
            invariant
                old(self).wf(),
                st.wf(),
                *self == *old(self),
                n == self.projects@.len(),
                i <= n,
                forall|j: int| 0 <= j < i ==> (#[trigger] self.projects@[j]).0 != project_id,
            decreases n - i,
        {
            if self.projects[i].0 == project_id {
                let ghost pre = self.projects@;
                self.projects[i] = (project_id, st);
                proof {
                    assert forall|j: int| 0 <= j < i implies (#[trigger] self.projects@[j]).0
                        != project_id by {
                        assert(self.projects@[j] == pre[j]);
                    }
                    lemma_project_lookup_at(self.projects@, i as int, project_id);
                    assert(self.wf()) by {
                        assert(forall|j: int|
                            0 <= j < pre.len() && j != i as int ==> (#[trigger] self.projects@[j])
                                == pre[j]);
                        assert(self.projects@[i as int].0 == pre[i as int].0);
                        assert(self.projects@[i as int].1.wf());
                    }
                }
                return ;
            }
            i = i + 1;
        }
        let ghost pre = self.projects@;
        self.projects.push((project_id, st));
        proof {
            assert forall|j: int| 0 <= j < pre.len() implies (#[trigger] self.projects@[j]).0
                != project_id by {
                assert(self.projects@[j] == pre[j]);
            }
            assert(self.projects@[pre.len() as int] == (project_id, st));
            lemma_project_lookup_at(self.projects@, pre.len() as int, project_id);
            assert(self.wf()) by {
                assert(forall|j: int|
                    0 <= j < pre.len() ==> (#[trigger] self.projects@[j]) == pre[j]);
            }
        }
    }

    /// Attaches a project: registers each worktree in the database,
    /// diffs every worktree's discovered files against the stored rows
    /// — deleting rows whose files are gone — and records the
    /// project's worktree-id mapping with an empty debouncer. Returns
    /// the parse submissions of all worktrees, in order.
    pub fn add_project(&mut self, project_id: u64, worktrees: &Vec<WorktreeDiscovery>) -> (r: Vec<
        PendingFile,
    >)
        requires
            old(self).wf(),
            forall|a: int, b: int|
                0 <= a < b < worktrees@.len() ==> (#[trigger] worktrees@[a]).abs_path@ != (
                #[trigger] worktrees@[b]).abs_path@,
            forall|a: int, b: int|
                0 <= a < b < worktrees@.len() ==> (#[trigger] worktrees@[a]).worktree_id != (
                #[trigger] worktrees@[b]).worktree_id,
        ensures
            final(self).wf(),
            final(self).dimension == old(self).dimension,
            project_lookup(final(self).projects@, project_id) is Some,
            ({
                let st = project_lookup(final(self).projects@, project_id)->0;
                let m = st.worktree_db_ids@;
                &&& st.pending_files@.len() == 0
                &&& m.len() == worktrees@.len()
                &&& forall|k: int|
                    0 <= k < worktrees@.len() ==> (#[trigger] m[k]).0
                        == worktrees@[k].worktree_id
                &&& forall|k: int|
                    0 <= k < worktrees@.len() ==> ((#[trigger] m[k]).1 as int)
                        < final(self).db.worktrees@.len()
                        && final(self).db.worktrees@[m[k].1 as int].abs_path@
                        == worktrees@[k].abs_path@
                &&& forall|a: int, b: int|
                    0 <= a < b < worktrees@.len() ==> (#[trigger] m[a]).1 != (#[trigger] m[b]).1
                &&& r@ == submissions_concat(old(self).db.files@, m, worktrees@)
                &&& forall|k: int, p: Seq<char>|
                    0 <= k < worktrees@.len() ==> #[trigger] file_lookup(
                        final(self).db.files@,
                        m[k].1,
                        p,
                    ) == (if path_discovered(worktrees@[k].files@, p) {
                        file_lookup(old(self).db.files@, m[k].1, p)
                    } else {
                        None::<FileRow>
                    })
                &&& forall|wt: u64, p: Seq<char>|
                    !id_in_prefix(m, worktrees@.len() as int, wt) ==> #[trigger] file_lookup(
                        final(self).db.files@,
                        wt,
                        p,
                    ) == file_lookup(old(self).db.files@, wt, p)
            }),
    {
        let nw: usize = worktrees.len();
        // Register every worktree and collect the id mapping.
        let mut mapping: Vec<(u64, u64)> = Vec::new();
        let mut k: usize = 0;
        while k < nw
            invariant
                old(self).wf(),
                self.wf(),
                self.db.files == old(self).db.files,
                self.projects == old(self).projects,
                self.dimension == old(self).dimension,
                nw == worktrees@.len(),
                k <= nw,
                mapping@.len() == k,
                forall|a: int, b: int|
                    0 <= a < b < worktrees@.len() ==> (#[trigger] worktrees@[a]).abs_path@ != (
                    #[trigger] worktrees@[b]).abs_path@,
                forall|a: int|
                    0 <= a < k ==> (#[trigger] mapping@[a]).0 == worktrees@[a].worktree_id,
                forall|a: int|
                    0 <= a < k ==> ((#[trigger] mapping@[a]).1 as int) < self.db.worktrees@.len()
                        && self.db.worktrees@[mapping@[a].1 as int].abs_path@
                        == worktrees@[a].abs_path@,
            decreases nw - k,
        {
            let ghost pre = self.db.worktrees@;
            let id: u64 = self.db.find_or_create_worktree(&worktrees[k].abs_path);
            proof {
                assert forall|a: int|
                    0 <= a < k implies ((#[trigger] mapping@[a]).1 as int)
                    < self.db.worktrees@.len() && self.db.worktrees@[
                mapping@[a].1 as int].abs_path@ == worktrees@[a].abs_path@ by {
                    if self.db.worktrees@.len() == pre.len() + 1 {
                        assert(self.db.worktrees@.subrange(0, pre.len() as int)[mapping@[
                        a].1 as int] == self.db.worktrees@[mapping@[a].1 as int]);
                    }
                }
            }
            mapping.push((worktrees[k].worktree_id, id));
            k = k + 1;
        }
        proof {
            assert forall|a: int, b: int|
                0 <= a < b < nw implies (#[trigger] mapping@[a]).1 != (
            #[trigger] mapping@[b]).1 by {
                assert(worktrees@[a].abs_path@ != worktrees@[b].abs_path@);
            }
        }
        // Diff each worktree against its stored rows.
        let ghost files0 = self.db.files@;
        let ghost wt1 = self.db.worktrees@;
        let mut subs_all: Vec<PendingFile> = Vec::new();
        let mut k2: usize = 0;
        proof {
            assert(mapping@.take(0) =~= Seq::<(u64, u64)>::empty());
            assert(worktrees@.take(0) =~= Seq::<WorktreeDiscovery>::empty());
        }
        while k2 < nw
            invariant
                self.wf(),
                nw == worktrees@.len(),
                k2 <= nw,
                mapping@.len() == nw,
                self.db.worktrees@ == wt1,
                self.projects == old(self).projects,
                self.dimension == old(self).dimension,
                files0 == old(self).db.files@,
                forall|a: int, b: int|
                    0 <= a < b < nw ==> (#[trigger] mapping@[a]).1 != (#[trigger] mapping@[b]).1,
                subs_all@ == submissions_concat(
                    files0,
                    mapping@.take(k2 as int),
                    worktrees@.take(k2 as int),
                ),
                forall|a: int, p: Seq<char>|
                    0 <= a < k2 ==> #[trigger] file_lookup(self.db.files@, mapping@[a].1, p) == (
                    if path_discovered(worktrees@[a].files@, p) {
                        file_lookup(files0, mapping@[a].1, p)
                    } else {
                        None::<FileRow>
                    }),
                forall|wt: u64, p: Seq<char>|
                    !id_in_prefix(mapping@, k2 as int, wt) ==> #[trigger] file_lookup(
                        self.db.files@,
                        wt,
                        p,
                    ) == file_lookup(files0, wt, p),
            decreases nw - k2,
        {
            let db_id: u64 = mapping[k2].1;
            let ghost pre = self.db.files@;
            proof {
                assert(!id_in_prefix(mapping@, k2 as int, db_id)) by {
                    if id_in_prefix(mapping@, k2 as int, db_id) {
                        let a = choose|a: int|
                            0 <= a < k2 && (#[trigger] mapping@[a]).1 == db_id;
                        assert(mapping@[a].1 != mapping@[k2 as int].1);
                    }
                }
                assert forall|p: Seq<char>| true implies #[trigger] file_lookup(pre, db_id, p)
                    == file_lookup(files0, db_id, p) by {
                    assert(file_lookup(self.db.files@, db_id, p) == file_lookup(
                        files0,
                        db_id,
                        p,
                    ));
                }
            }
            let mut subs: Vec<PendingFile> = self.bootstrap_worktree(db_id, &worktrees[k2].files);
            proof {
                lemma_submissions_same(pre, files0, db_id, worktrees@[k2 as int].files@);
            }
            subs_all.append(&mut subs);
            proof {
                assert(mapping@.take(k2 + 1).drop_last() =~= mapping@.take(k2 as int));
                assert(worktrees@.take(k2 + 1).drop_last() =~= worktrees@.take(k2 as int));
                assert(mapping@.take(k2 + 1).last() == mapping@[k2 as int]);
                assert(worktrees@.take(k2 + 1).last() == worktrees@[k2 as int]);
                assert(subs_all@ =~= submissions_concat(
                    files0,
                    mapping@.take(k2 + 1),
                    worktrees@.take(k2 + 1),
                ));
                assert forall|a: int, p: Seq<char>|
                    0 <= a < k2 + 1 implies #[trigger] file_lookup(
                    self.db.files@,
                    mapping@[a].1,
                    p,
                ) == (if path_discovered(worktrees@[a].files@, p) {
                    file_lookup(files0, mapping@[a].1, p)
                } else {
                    None::<FileRow>
                }) by {
                    if a < k2 {
                        assert(mapping@[a].1 != db_id);
                        assert(file_lookup(self.db.files@, mapping@[a].1, p) == file_lookup(
                            pre,
                            mapping@[a].1,
                            p,
                        ));
                    } else {
                        assert(file_lookup(pre, db_id, p) == file_lookup(files0, db_id, p));
                    }
                }
                assert forall|wt: u64, p: Seq<char>|
                    !id_in_prefix(mapping@, k2 + 1, wt) implies #[trigger] file_lookup(
                    self.db.files@,
                    wt,
                    p,
                ) == file_lookup(files0, wt, p) by {
                    assert(!id_in_prefix(mapping@, k2 as int, wt)) by {
                        if id_in_prefix(mapping@, k2 as int, wt) {
                            let a = choose|a: int|
                                0 <= a < k2 && (#[trigger] mapping@[a]).1 == wt;
                            assert(0 <= a && a < k2 + 1 && (#[trigger] mapping@[a]).1 == wt);
                        }
                    }
                    assert(mapping@[k2 as int].1 != wt) by {
                        if mapping@[k2 as int].1 == wt {
                            let a0: int = k2 as int;
                            assert(0 <= a0 && a0 < k2 + 1 && (#[trigger] mapping@[a0]).1 == wt);
                        }
                    }
                    assert(file_lookup(self.db.files@, wt, p) == file_lookup(pre, wt, p));
                }
            }
            k2 = k2 + 1;
        }
        proof {
            assert(mapping@.take(nw as int) =~= mapping@);
            assert(worktrees@.take(nw as int) =~= worktrees@);
        }
        let st: ProjectState = ProjectState::new(mapping);
        self.register_project(project_id, st);
        subs_all
    }
}

/// Why a search could not run.
#[derive(Debug)]
pub enum SearchError {
    ProjectNotAdded,
}

/// The database worktree ids of a project's mapping.
pub open spec fn dbids_of(m: Seq<(u64, u64)>) -> Seq<u64> {
    m.map_values(|p: (u64, u64)| p.1)
}

/// The smaller of two integers.
pub open spec fn min_int(a: int, b: int) -> int {
    if a <= b {
        a
    } else {
        b
    }
}

/// Is document `di` of file `fi` part of the search scope?
pub open spec fn in_scope(files: Seq<FileRow>, dbids: Seq<u64>, fi: int, di: int) -> bool {
    &&& 0 <= fi < files.len()
    &&& dbids.contains(files[fi].worktree_id)
    &&& 0 <= di < files[fi].documents@.len()
}

/// The similarity of document `(fi, di)` to the query embedding.
pub open spec fn score_of(files: Seq<FileRow>, q: Seq<i32>, fi: int, di: int) -> int {
    crate::embedding::dot_spec(files[fi].documents@[di].embedding@, q)
}

/// How many documents the scope holds.
pub open spec fn scope_size(files: Seq<FileRow>, dbids: Seq<u64>) -> nat
    decreases files.len(),
{
    if files.len() == 0 {
        0
    } else {
        scope_size(files.drop_last(), dbids) + if dbids.contains(files.last().worktree_id) {
            files.last().documents@.len()
        } else {
            0
        }
    }
}

/// Is the triple list sorted by descending score?
pub open spec fn sorted_desc(top: Seq<(usize, usize, i128)>) -> bool {
    forall|a: int, b: int| 0 <= a < b < top.len() ==> (#[trigger] top[a]).2 >= (#[trigger] top[b]).2
}

/// Do the triples name pairwise distinct documents?
pub open spec fn distinct_pairs(top: Seq<(usize, usize, i128)>) -> bool {
    forall|a: int, b: int|
        0 <= a < b < top.len() ==> ((#[trigger] top[a]).0, top[a].1) != ((#[trigger] top[b]).0,
        top[b].1)
}

/// Does the triple list hold document `(fi, di)`?
pub open spec fn picked(top: Seq<(usize, usize, i128)>, fi: int, di: int) -> bool {
    exists|idx: int| 0 <= idx < top.len() && (#[trigger] top[idx]).0 == fi && top[idx].1 == di
}

/// What a correct search answer looks like: `picks` names one stored
/// document per result, the picks are distinct, in scope and sorted by
/// descending similarity to `q`, every document of the scope that was
/// not picked scores no better than the worst pick, as many documents
/// are returned as the scope and the limit allow, and each result
/// carries its document's stored metadata with the worktree id mapped
/// back through the project's mapping.
pub open spec fn search_valid(
    files: Seq<FileRow>,
    m: Seq<(u64, u64)>,
    q: Seq<i32>,
    limit: int,
    res: Seq<SearchResult>,
    picks: Seq<(int, int)>,
) -> bool {
    let dbids = dbids_of(m);
    &&& picks.len() == res.len()
    &&& res.len() == min_int(limit, scope_size(files, dbids) as int)
    &&& forall|i: int|
        0 <= i < picks.len() ==> in_scope(files, dbids, (#[trigger] picks[i]).0, picks[i].1)
    &&& forall|a: int, b: int| 0 <= a < b < picks.len() ==> picks[a] != picks[b]
    &&& forall|a: int, b: int|
        0 <= a < b < picks.len() ==> score_of(files, q, (#[trigger] picks[a]).0, picks[a].1)
            >= score_of(files, q, (#[trigger] picks[b]).0, picks[b].1)
    &&& forall|fi: int, di: int|
        #![trigger in_scope(files, dbids, fi, di)]
        in_scope(files, dbids, fi, di) && !picks.contains((fi, di)) ==> picks.len() == limit && (
        picks.len() == 0 || score_of(files, q, fi, di) <= score_of(
            files,
            q,
            picks[picks.len() - 1].0,
            picks[picks.len() - 1].1,
        ))
    &&& forall|i: int|
        0 <= i < picks.len() ==> {
            let row = files[(#[trigger] picks[i]).0];
            let doc = row.documents@[picks[i].1];
            &&& res[i].name == doc.name
            &&& res[i].offset == doc.offset
            &&& res[i].file_path == row.relative_path
            &&& exists|k: int|
                0 <= k < m.len() && (#[trigger] m[k]).1 == row.worktree_id && m[k].0
                    == res[i].worktree_id
        }
}

/// Two stores that agree on every lookup of one worktree id produce
/// the same submissions for it.
proof fn lemma_submissions_same(
    f1: Seq<FileRow>,
    f2: Seq<FileRow>,
    db_id: u64,
    ds: Seq<DiscoveredFile>,
)
    requires
        forall|p: Seq<char>| #[trigger] file_lookup(f1, db_id, p) == file_lookup(f2, db_id, p),
    ensures
        submissions_for(f1, db_id, ds) == submissions_for(f2, db_id, ds),
    decreases ds.len(),
{
    if ds.len() > 0 {
        lemma_submissions_same(f1, f2, db_id, ds.drop_last());
        assert(file_lookup(f1, db_id, ds.last().relative_path@) == file_lookup(
            f2,
            db_id,
            ds.last().relative_path@,
        ));
    }
}

/// If no entry before `i` carries the id and entry `i` does, the
/// lookup finds entry `i`.
proof fn lemma_project_lookup_at(s: Seq<(u64, ProjectState)>, i: int, project_id: u64)
    requires
        0 <= i < s.len(),
        forall|j: int| 0 <= j < i ==> (#[trigger] s[j]).0 != project_id,
        s[i].0 == project_id,
    ensures
        project_lookup(s, project_id) == Some(s[i].1),
    decreases i,
{
    if i > 0 {
        assert forall|j: int| 0 <= j < i - 1 implies (#[trigger] s.drop_first()[j]).0
            != project_id by {
            assert(s.drop_first()[j] == s[j + 1]);
        }
        assert(s.drop_first()[i - 1] == s[i]);
        lemma_project_lookup_at(s.drop_first(), i - 1, project_id);
    }
}

/// Is `path` among the discovered files, with an embedding
/// configuration? (Executable form of `path_discovered`.)
fn discovered_with_config(ds: &Vec<DiscoveredFile>, path: &String) -> (r: bool)
    ensures
        r == path_discovered(ds@, path@),
{
    let n: usize = ds.len();
    let mut i: usize = 0;
    while i < n
        invariant
            n == ds@.len(),
            i <= n,
            forall|j: int|
                0 <= j < i ==> !((#[trigger] ds@[j]).relative_path@ == path@ && ds@[j].language_id
                    is Some),
        decreases n - i,
    {
        if ds[i].relative_path == *path && ds[i].language_id.is_some() {
            proof {
                assert(ds@[i as int].relative_path@ == path@ && ds@[i as int].language_id is Some);
            }
            return true;
        }
        i = i + 1;
    }
    false
}

/// A stored row's path always appears in the worktree's mtime list.
proof fn lemma_mtimes_has_path(files: Seq<FileRow>, worktree_id: u64, p: Seq<char>)
    requires
        file_lookup(files, worktree_id, p) is Some,
    ensures
        exists|l: int|
            0 <= l < mtimes_of(files, worktree_id).len() && (#[trigger] mtimes_of(
                files,
                worktree_id,
            )[l]).0@ == p,
    decreases files.len(),
{
    if files.len() > 0 {
        let rest = mtimes_of(files.drop_last(), worktree_id);
        if is_file_key(files.last(), worktree_id, p) {
            assert(mtimes_of(files, worktree_id)[rest.len() as int].0@ == p);
        } else {
            lemma_mtimes_has_path(files.drop_last(), worktree_id, p);
            let l0 = choose|l: int| 0 <= l < rest.len() && (#[trigger] rest[l]).0@ == p;
            if files.last().worktree_id == worktree_id {
                assert(mtimes_of(files, worktree_id) == rest.push(
                    (files.last().relative_path, files.last().mtime),
                ));
                assert(mtimes_of(files, worktree_id)[l0] == rest[l0]);
            } else {
                assert(mtimes_of(files, worktree_id) == rest);
            }
            assert(mtimes_of(files, worktree_id)[l0].0@ == p);
        }
    }
}

/// Inserts a scored document into the running top list: it goes in
/// before the first strictly worse score, and the list is cut back to
/// `limit` entries. A kept entry is one of the old ones or the new
/// one; whatever falls out scores no better than the kept minimum.
fn insert_top(top: &mut Vec<(usize, usize, i128)>, limit: usize, fi: usize, di: usize, s: i128)
    requires
        old(top)@.len() <= limit,
        sorted_desc(old(top)@),
        distinct_pairs(old(top)@),
        forall|idx: int|
            0 <= idx < old(top)@.len() ==> !((#[trigger] old(top)@[idx]).0 == fi
                && old(top)@[idx].1 == di),
    ensures
        sorted_desc(final(top)@),
        distinct_pairs(final(top)@),
        final(top)@.len() == if old(top)@.len() < limit {
            old(top)@.len() + 1
        } else {
            limit as nat
        },
        forall|idx: int|
            0 <= idx < final(top)@.len() ==> old(top)@.contains(#[trigger] final(top)@[idx])
                || final(top)@[idx] == (fi, di, s),
        forall|idx: int|
            0 <= idx < old(top)@.len() ==> final(top)@.contains(#[trigger] old(top)@[idx]) || (
            final(top)@.len() == limit && old(top)@[idx].2 <= final(top)@[final(top)@.len()
                - 1].2),
        final(top)@.contains((fi, di, s)) || (final(top)@.len() == limit && (limit == 0 || s
            <= final(top)@[final(top)@.len() - 1].2)),
        old(top)@.len() == limit && limit > 0 ==> final(top)@[final(top)@.len() - 1].2
            >= old(top)@[old(top)@.len() - 1].2,
{
    let n: usize = top.len();
    let mut p: usize = 0;
    while p < n && top[p].2 >= s
        invariant
            *top == *old(top),
            n == top@.len(),
            p <= n,
            forall|idx: int| 0 <= idx < p ==> (#[trigger] top@[idx]).2 >= s,
        decreases n - p,
    {
        p = p + 1;
    }
    proof {
        assert(p == n || top@[p as int].2 < s);
    }
    if n < limit {
        top.insert(p, (fi, di, s));
        proof {
            lemma_inserted_shape(old(top)@, final(top)@, p as int, fi, di, s);
        }
    } else if p < limit {
        top.insert(p, (fi, di, s));
        let ghost mid = top@;
        top.pop();
        proof {
            assert(final(top)@ =~= mid.drop_last());
            lemma_inserted_shape(old(top)@, mid, p as int, fi, di, s);
            let out = final(top)@;
            assert(out.len() == limit);
            assert forall|idx: int|
                0 <= idx < out.len() implies old(top)@.contains(#[trigger] out[idx]) || out[idx]
                == (fi, di, s) by {
                assert(out[idx] == mid[idx]);
            }
            assert(mid[mid.len() - 1] == old(top)@[old(top)@.len() - 1]);
            assert forall|idx: int|
                0 <= idx < old(top)@.len() implies out.contains(#[trigger] old(top)@[idx]) || (
            out.len() == limit && old(top)@[idx].2 <= out[out.len() - 1].2) by {
                if idx < old(top)@.len() - 1 {
                    // survives: its position in mid is idx or idx + 1, both below limit
                    if idx < p as int {
                        assert(out[idx] == old(top)@[idx]);
                        assert(out.contains(old(top)@[idx]));
                    } else {
                        assert(out[idx + 1] == old(top)@[idx]);
                        assert(out.contains(old(top)@[idx]));
                    }
                } else {
                    // the old minimum is dropped (or equals the new last)
                    assert(old(top)@[idx].2 <= out[out.len() - 1].2) by {
                        assert(sorted_desc(mid));
                        assert(mid[mid.len() - 1].2 <= mid[mid.len() - 2].2);
                        assert(out[out.len() - 1] == mid[mid.len() - 2]);
                    }
                }
            }
            assert(out[p as int] == (fi, di, s));
            assert(out.contains((fi, di, s)));
            assert(out[out.len() - 1].2 >= old(top)@[old(top)@.len() - 1].2) by {
                assert(out[out.len() - 1] == mid[mid.len() - 2]);
                assert(sorted_desc(mid));
            }
        }
    } else {
        // the new score is no better than any kept entry
        proof {
            assert(final(top)@.len() == limit);
            assert forall|idx: int|
                0 <= idx < final(top)@.len() implies old(top)@.contains(
                #[trigger] final(top)@[idx],
            ) || final(top)@[idx] == (fi, di, s) by {
                assert(old(top)@.contains(final(top)@[idx]));
            }
            assert forall|idx: int|
                0 <= idx < old(top)@.len() implies final(top)@.contains(
                #[trigger] old(top)@[idx],
            ) || (final(top)@.len() == limit && old(top)@[idx].2 <= final(top)@[final(top)@.len()
                - 1].2) by {
                assert(final(top)@.contains(old(top)@[idx]));
            }
            if limit > 0 {
                assert(s <= final(top)@[final(top)@.len() - 1].2);
            }
        }
    }
}

/// After an insert at position `p`, the list is still sorted and
/// distinct, old entries keep their relative order around the new one,
/// and every entry is an old one or the new one.
proof fn lemma_inserted_shape(
    pre: Seq<(usize, usize, i128)>,
    post: Seq<(usize, usize, i128)>,
    p: int,
    fi: usize,
    di: usize,
    s: i128,
)
    requires
        sorted_desc(pre),
        distinct_pairs(pre),
        forall|idx: int| 0 <= idx < pre.len() ==> !((#[trigger] pre[idx]).0 == fi && pre[idx].1 == di),
        0 <= p <= pre.len(),
        forall|idx: int| 0 <= idx < p ==> (#[trigger] pre[idx]).2 >= s,
        p < pre.len() ==> pre[p].2 < s,
        post == pre.insert(p, (fi, di, s)),
    ensures
        post.len() == pre.len() + 1,
        sorted_desc(post),
        distinct_pairs(post),
        post[p] == (fi, di, s),
        forall|idx: int| 0 <= idx < p ==> #[trigger] post[idx] == pre[idx],
        forall|idx: int| p < idx < post.len() ==> #[trigger] post[idx] == pre[idx - 1],
        forall|idx: int|
            0 <= idx < post.len() ==> pre.contains(#[trigger] post[idx]) || post[idx] == (
            fi,
            di,
            s,
        ),
        forall|idx: int| 0 <= idx < pre.len() ==> post.contains(#[trigger] pre[idx]),
        post.contains((fi, di, s)),
{
    assert forall|idx: int| 0 <= idx < p implies #[trigger] post[idx] == pre[idx] by {}
    assert forall|idx: int| p < idx < post.len() implies #[trigger] post[idx] == pre[idx - 1] by {}
    assert forall|a: int, b: int| 0 <= a < b < post.len() implies (#[trigger] post[a]).2 >= (
    #[trigger] post[b]).2 by {
        if a < p && b < p {
        } else if b == p {
            assert(post[a] == pre[a]);
        } else if a == p {
            assert(post[b] == pre[b - 1]);
            if b - 1 > p - 1 && p < pre.len() {
                if b - 1 == p {
                    assert(pre[p].2 < s);
                } else {
                    assert(pre[p].2 >= pre[b - 1].2);
                }
            }
        } else if a < p {
            assert(post[a] == pre[a]);
            assert(post[b] == pre[b - 1]);
        } else {
            assert(post[a] == pre[a - 1]);
            assert(post[b] == pre[b - 1]);
        }
    }
    assert forall|a: int, b: int| 0 <= a < b < post.len() implies ((#[trigger] post[a]).0,
    post[a].1) != ((#[trigger] post[b]).0, post[b].1) by {
        if a == p {
            assert(post[b] == pre[b - 1]);
        } else if b == p {
            assert(post[a] == pre[a]);
        } else {
            let a0 = if a < p { a } else { a - 1 };
            let b0 = if b < p { b } else { b - 1 };
            assert(post[a] == pre[a0]);
            assert(post[b] == pre[b0]);
        }
    }
    assert forall|idx: int| 0 <= idx < pre.len() implies post.contains(#[trigger] pre[idx]) by {
        if idx < p {
            assert(post[idx] == pre[idx]);
        } else {
            assert(post[idx + 1] == pre[idx]);
        }
    }
    assert forall|idx: int|
        0 <= idx < post.len() implies pre.contains(#[trigger] post[idx]) || post[idx] == (
    fi,
    di,
    s,
    ) by {
        if idx < p {
            assert(post[idx] == pre[idx]);
            assert(pre.contains(post[idx]));
        } else if idx > p {
            assert(post[idx] == pre[idx - 1]);
            assert(pre.contains(post[idx]));
        }
    }
    assert(post[p] == (fi, di, s));
    assert(post.contains((fi, di, s)));
}

/// Does the vector hold the id?
fn contains_id(v: &Vec<u64>, x: u64) -> (r: bool)
    ensures
        r == v@.contains(x),
{
    let n: usize = v.len();
    let mut i: usize = 0;
    while i < n
        invariant
            n == v@.len(),
            i <= n,
            forall|j: int| 0 <= j < i ==> v@[j] != x,
        decreases n - i,
    {
        if v[i] == x {
            proof {
                assert(v@[i as int] == x);
            }
            return true;
        }
        i = i + 1;
    }
    false
}

/// If no entry carries the id, the lookup misses.
proof fn lemma_project_lookup_none(s: Seq<(u64, ProjectState)>, project_id: u64)
    requires
        forall|j: int| 0 <= j < s.len() ==> (#[trigger] s[j]).0 != project_id,
    ensures
        project_lookup(s, project_id) is None,
    decreases s.len(),
{
    if s.len() > 0 {
        assert forall|j: int| 0 <= j < s.drop_first().len() implies (
        #[trigger] s.drop_first()[j]).0 != project_id by {
            assert(s.drop_first()[j] == s[j + 1]);
        }
        lemma_project_lookup_none(s.drop_first(), project_id);
    }
}

/// The project-side id paired with this database worktree id.
fn external_id_for(m: &Vec<(u64, u64)>, db_id: u64) -> (r: u64)
    requires
        exists|k: int| 0 <= k < m@.len() && (#[trigger] m@[k]).1 == db_id,
    ensures
        exists|k: int|
            0 <= k < m@.len() && (#[trigger] m@[k]).1 == db_id && m@[k].0 == r,
{
    let n: usize = m.len();
    let mut i: usize = 0;
    while i < n
        invariant
            n == m@.len(),
            i <= n,
            exists|k: int| 0 <= k < m@.len() && (#[trigger] m@[k]).1 == db_id,
            forall|j: int| 0 <= j < i ==> (#[trigger] m@[j]).1 != db_id,
        decreases n - i,
    {
        if m[i].1 == db_id {
            proof {
                assert(0 <= i as int && (i as int) < m@.len() && (#[trigger] m@[i as int]).1
                    == db_id && m@[i as int].0 == m@[i as int].0);
            }
            return m[i].0;
        }
        i = i + 1;
    }
    proof {
        let k = choose|k: int| 0 <= k < m@.len() && (#[trigger] m@[k]).1 == db_id;
        assert(false);
    }
    0
}

/// One more file adds its in-scope documents to the scope's size.
proof fn lemma_scope_size_take_succ(files: Seq<FileRow>, dbids: Seq<u64>, i: int)
    requires
        0 <= i < files.len(),
    ensures
        scope_size(files.take(i + 1), dbids) == scope_size(files.take(i), dbids) + if dbids.contains(
            files[i].worktree_id,
        ) {
            files[i].documents@.len()
        } else {
            0
        },
{
    assert(files.take(i + 1).drop_last() =~= files.take(i));
    assert(files.take(i + 1).last() == files[i]);
}

impl VectorStore {
    /// The index of the registered project with this id, if any.
    fn find_project_index(&self, project_id: u64) -> (r: Option<usize>)
        ensures
            match r {
                Some(i) => (i as int) < self.projects@.len() && self.projects@[i as int].0
                    == project_id && project_lookup(self.projects@, project_id) == Some(
                    self.projects@[i as int].1,
                ),
                None => project_lookup(self.projects@, project_id) is None,
            },
    {
        let n: usize = self.projects.len();
        let mut i: usize = 0;
        while i < n
            invariant
                n == self.projects@.len(),
                i <= n,
                forall|j: int| 0 <= j < i ==> (#[trigger] self.projects@[j]).0 != project_id,
            decreases n - i,
        {
            if self.projects[i].0 == project_id {
                proof {
                    lemma_project_lookup_at(self.projects@, i as int, project_id);
                }
                return Some(i);
            }
            i = i + 1;
        }
        proof {
            lemma_project_lookup_none(self.projects@, project_id);
        }
        None
    }

    /// Scores every stored document of the project's worktrees against
    /// the query embedding and returns the `limit` best matches in
    /// descending similarity order, each with its stored metadata and
    /// its project-side worktree id. Fails exactly when the project
    /// was never attached.
    pub fn search(&self, project_id: u64, phrase_embedding: &Vec<i32>, limit: usize) -> (r: Result<
        Vec<SearchResult>,
        SearchError,
    >)
        requires
            self.wf(),
            phrase_embedding@.len() == self.dimension,
        ensures
            r is Err <==> project_lookup(self.projects@, project_id) is None,
            r is Err ==> r->Err_0 is ProjectNotAdded,
            r is Ok ==> exists|picks: Seq<(int, int)>|
                search_valid(
                    self.db.files@,
                    project_lookup(self.projects@, project_id)->0.worktree_db_ids@,
                    phrase_embedding@,
                    limit as int,
                    r->Ok_0@,
                    picks,
                ),
    {
        let pi: usize = match self.find_project_index(project_id) {
            Some(i) => i,
            None => {
                return Err(SearchError::ProjectNotAdded);
            },
        };
        let st: &ProjectState = &self.projects[pi].1;
        let ghost m = st.worktree_db_ids@;
        let mut dbids: Vec<u64> = Vec::new();
        let nm: usize = st.worktree_db_ids.len();
        let mut k: usize = 0;
        while k < nm
            invariant
                m == st.worktree_db_ids@,
                nm == m.len(),
                k <= nm,
                dbids@.len() == k,
                forall|a: int| 0 <= a < k ==> dbids@[a] == (#[trigger] m[a]).1,
            decreases nm - k,
        {
            dbids.push(st.worktree_db_ids[k].1);
            k = k + 1;
        }
        proof {
            assert(dbids@ =~= dbids_of(m));
        }
        let ghost dg = dbids_of(m);
        let ghost files = self.db.files@;
        let ghost q = phrase_embedding@;
        let mut top: Vec<(usize, usize, i128)> = Vec::new();
        let nf: usize = self.db.files.len();
        let mut fi: usize = 0;
        proof {
            assert(files.take(0) =~= Seq::<FileRow>::empty());
        }
        while fi < nf
            invariant
                self.wf(),
                q.len() == self.dimension,
                q == phrase_embedding@,
                files == self.db.files@,
                dbids@ == dg,
                nf == files.len(),
                fi <= nf,
                top@.len() == min_int(limit as int, scope_size(files.take(fi as int), dg) as int),
                sorted_desc(top@),
                distinct_pairs(top@),
                forall|idx: int|
                    0 <= idx < top@.len() ==> {
                        let t = #[trigger] top@[idx];
                        &&& in_scope(files, dg, t.0 as int, t.1 as int)
                        &&& (t.0 as int) < fi
                        &&& t.2 as int == score_of(files, q, t.0 as int, t.1 as int)
                    },
                forall|a: int, b: int|
                    #![trigger in_scope(files, dg, a, b)]
                    in_scope(files, dg, a, b) && a < fi && !picked(top@, a, b) ==> top@.len()
                        == limit && (limit == 0 || score_of(files, q, a, b) <= top@[top@.len()
                        - 1].2 as int),
            decreases nf - fi,
        {
            let row_in_scope: bool = contains_id(&dbids, self.db.files[fi].worktree_id);
            if row_in_scope {
                let nd: usize = self.db.files[fi].documents.len();
                let mut di: usize = 0;
                while di < nd
                    invariant
                        self.wf(),
                        q.len() == self.dimension,
                        q == phrase_embedding@,
                        files == self.db.files@,
                        dbids@ == dg,
                        nf == files.len(),
                        fi < nf,
                        dg.contains(files[fi as int].worktree_id),
                        nd == files[fi as int].documents@.len(),
                        di <= nd,
                        top@.len() == min_int(
                            limit as int,
                            scope_size(files.take(fi as int), dg) as int + di as int,
                        ),
                        sorted_desc(top@),
                        distinct_pairs(top@),
                        forall|idx: int|
                            0 <= idx < top@.len() ==> {
                                let t = #[trigger] top@[idx];
                                &&& in_scope(files, dg, t.0 as int, t.1 as int)
                                &&& ((t.0 as int) < fi || (t.0 as int == fi && (t.1 as int) < di))
                                &&& t.2 as int == score_of(files, q, t.0 as int, t.1 as int)
                            },
                        forall|a: int, b: int|
                            #![trigger in_scope(files, dg, a, b)]
                            in_scope(files, dg, a, b) && (a < fi || (a == fi && b < di)) && !picked(
                                top@,
                                a,
                                b,
                            ) ==> top@.len() == limit && (limit == 0 || score_of(files, q, a, b)
                                <= top@[top@.len() - 1].2 as int),
                    decreases nd - di,
                {
                    proof {
                        assert(files[fi as int].documents@[di as int].embedding@.len()
                            == self.dimension);
                    }
                    let score: i128 = crate::embedding::dot(
                        &self.db.files[fi].documents[di].embedding,
                        phrase_embedding,
                    );
                    let ghost pre_top = top@;
                    proof {
                        assert forall|idx: int| 0 <= idx < pre_top.len() implies !((
                        #[trigger] pre_top[idx]).0 == fi && pre_top[idx].1 == di) by {
                            assert((pre_top[idx].0 as int) < fi || (pre_top[idx].0 as int == fi
                                && (pre_top[idx].1 as int) < di));
                        }
                    }
                    insert_top(&mut top, limit, fi, di, score);
                    proof {
                        let e = (fi, di, score);
                        assert(score as int == score_of(files, q, fi as int, di as int));
                        assert(in_scope(files, dg, fi as int, di as int));
                        assert forall|idx: int| 0 <= idx < top@.len() implies {
                            let t = #[trigger] top@[idx];
                            &&& in_scope(files, dg, t.0 as int, t.1 as int)
                            &&& ((t.0 as int) < fi || (t.0 as int == fi && (t.1 as int) < di + 1))
                            &&& t.2 as int == score_of(files, q, t.0 as int, t.1 as int)
                        } by {
                            if top@[idx] != e {
                                assert(pre_top.contains(top@[idx]));
                                let w = choose|w: int|
                                    0 <= w < pre_top.len() && pre_top[w] == top@[idx];
                            }
                        }
                        assert forall|a: int, b: int|
                            #![trigger in_scope(files, dg, a, b)]
                            in_scope(files, dg, a, b) && (a < fi || (a == fi && b < di + 1))
                                && !picked(top@, a, b) implies top@.len() == limit && (limit == 0
                            || score_of(files, q, a, b) <= top@[top@.len() - 1].2 as int) by {
                            if a == fi && b == di {
                                // the new document itself was dropped
                                assert(!top@.contains(e)) by {
                                    if top@.contains(e) {
                                        let w = choose|w: int|
                                            0 <= w < top@.len() && top@[w] == e;
                                        assert((#[trigger] top@[w]).0 as int == a && top@[
                                        w].1 as int == b);
                                    }
                                }
                            } else {
                                assert(!picked(pre_top, a, b) ==> pre_top.len() == limit && (limit
                                    == 0 || score_of(files, q, a, b) <= pre_top[pre_top.len()
                                    - 1].2 as int));
                                if picked(pre_top, a, b) {
                                    let w = choose|w: int|
                                        0 <= w < pre_top.len() && (#[trigger] pre_top[w]).0 as int
                                            == a && pre_top[w].1 as int == b;
                                    assert(pre_top[w].2 as int == score_of(files, q, a, b));
                                    assert(!top@.contains(pre_top[w])) by {
                                        if top@.contains(pre_top[w]) {
                                            let v = choose|v: int|
                                                0 <= v < top@.len() && top@[v] == pre_top[w];
                                            assert((#[trigger] top@[v]).0 as int == a && top@[
                                            v].1 as int == b);
                                        }
                                    }
                                } else {
                                    if limit > 0 && pre_top.len() == limit {
                                        assert(top@[top@.len() - 1].2 >= pre_top[pre_top.len()
                                            - 1].2);
                                    }
                                }
                            }
                        }
                    }
                    di = di + 1;
                }
                proof {
                    lemma_scope_size_take_succ(files, dg, fi as int);
                }
            } else {
                proof {
                    lemma_scope_size_take_succ(files, dg, fi as int);
                    assert forall|a: int, b: int|
                        #![trigger in_scope(files, dg, a, b)]
                        in_scope(files, dg, a, b) && a < fi + 1 && !picked(top@, a, b) implies top@.len()
                        == limit && (limit == 0 || score_of(files, q, a, b) <= top@[top@.len()
                        - 1].2 as int) by {
                        if a == fi {
                            assert(dg.contains(files[a].worktree_id));
                        }
                    }
                }
            }
            fi = fi + 1;
        }
        proof {
            assert(files.take(nf as int) =~= files);
        }
        let ghost picks = Seq::new(top@.len() as nat, |i: int| (top@[i].0 as int, top@[i].1 as int));
        let mut results: Vec<SearchResult> = Vec::new();
        let nt: usize = top.len();
        let mut ri: usize = 0;
        while ri < nt
            invariant
                self.wf(),
                files == self.db.files@,
                m == st.worktree_db_ids@,
                dg == dbids_of(m),
                nt == top@.len(),
                ri <= nt,
                results@.len() == ri,
                forall|idx: int|
                    0 <= idx < top@.len() ==> {
                        let t = #[trigger] top@[idx];
                        &&& in_scope(files, dg, t.0 as int, t.1 as int)
                        &&& t.2 as int == score_of(files, q, t.0 as int, t.1 as int)
                    },
                forall|i: int|
                    0 <= i < ri ==> {
                        let t = #[trigger] top@[i];
                        let row = files[t.0 as int];
                        let doc = row.documents@[t.1 as int];
                        &&& results@[i].name == doc.name
                        &&& results@[i].offset == doc.offset
                        &&& results@[i].file_path == row.relative_path
                        &&& exists|k: int|
                            0 <= k < m.len() && (#[trigger] m[k]).1 == row.worktree_id && m[k].0
                                == results@[i].worktree_id
                    },
            decreases nt - ri,
        {
            let t_fi: usize = top[ri].0;
            let t_di: usize = top[ri].1;
            proof {
                assert(in_scope(files, dg, t_fi as int, t_di as int));
                assert(dg.contains(files[t_fi as int].worktree_id));
                let a = choose|a: int|
                    0 <= a < dg.len() && dg[a] == files[t_fi as int].worktree_id;
                assert((#[trigger] m[a]).1 == files[t_fi as int].worktree_id);
            }
            let ext: u64 = external_id_for(&st.worktree_db_ids, self.db.files[t_fi].worktree_id);
            results.push(
                SearchResult {
                    worktree_id: ext,
                    name: self.db.files[t_fi].documents[t_di].name.clone(),
                    offset: self.db.files[t_fi].documents[t_di].offset,
                    file_path: self.db.files[t_fi].relative_path.clone(),
                },
            );
            ri = ri + 1;
        }
        proof {
            assert forall|a: int, b: int| 0 <= a < b < picks.len() implies picks[a]
                != picks[b] by {
                assert((top@[a].0, top@[a].1) != (top@[b].0, top@[b].1));
            }
            assert forall|a: int, b: int|
                0 <= a < b < picks.len() implies score_of(
                files,
                q,
                (#[trigger] picks[a]).0,
                picks[a].1,
            ) >= score_of(files, q, (#[trigger] picks[b]).0, picks[b].1) by {
                assert(top@[a].2 >= top@[b].2);
            }
            assert forall|a: int, b: int|
                #![trigger in_scope(files, dbids_of(m), a, b)]
                in_scope(files, dbids_of(m), a, b) && !picks.contains((a, b)) implies picks.len()
                == limit as int && (picks.len() == 0 || score_of(files, q, a, b) <= score_of(
                files,
                q,
                picks[picks.len() - 1].0,
                picks[picks.len() - 1].1,
            )) by {
                assert(in_scope(files, dg, a, b));
                assert(!picked(top@, a, b)) by {
                    if picked(top@, a, b) {
                        let w = choose|w: int|
                            0 <= w < top@.len() && (#[trigger] top@[w]).0 as int == a && top@[
                            w].1 as int == b;
                        assert(picks[w] == (a, b));
                        assert(picks.contains((a, b)));
                    }
                }
                assert(a < nf);
                if limit > 0 {
                    assert(score_of(files, q, a, b) <= top@[top@.len() - 1].2 as int);
                    assert(picks[picks.len() - 1] == (top@[top@.len() - 1].0 as int, top@[
                    top@.len() - 1].1 as int));
                }
            }
            assert(search_valid(files, m, q, limit as int, results@, picks));
            assert(project_lookup(self.projects@, project_id) == Some(
                self.projects@[pi as int].1,
            ));
            assert(m == project_lookup(self.projects@, project_id)->0.worktree_db_ids@);
            assert(search_valid(
                self.db.files@,
                project_lookup(self.projects@, project_id)->0.worktree_db_ids@,
                phrase_embedding@,
                limit as int,
                results@,
                picks,
            ));
        }
        let r: Result<Vec<SearchResult>, SearchError> = Ok(results);
        proof {
            assert(r->Ok_0@ == results@);
            assert(exists|picks2: Seq<(int, int)>|
                search_valid(
                    self.db.files@,
                    project_lookup(self.projects@, project_id)->0.worktree_db_ids@,
                    phrase_embedding@,
                    limit as int,
                    r->Ok_0@,
                    picks2,
                ));
        }
        r
    }
}

/// No discovered file needs reindexing when each one with a
/// configuration is stored at its on-disk mtime.
proof fn lemma_no_submissions(files: Seq<FileRow>, db_id: u64, ds: Seq<DiscoveredFile>)
    requires
        forall|i: int|
            0 <= i < ds.len() && (#[trigger] ds[i]).language_id is Some ==> stored_mtime_of(
                files,
                db_id,
                ds[i].relative_path@,
            ) == Some(ds[i].mtime),
    ensures
        submissions_for(files, db_id, ds) == Seq::<PendingFile>::empty(),
    decreases ds.len(),
{
    if ds.len() > 0 {
        assert forall|i: int|
            0 <= i < ds.drop_last().len() && (#[trigger] ds.drop_last()[i]).language_id
                is Some implies stored_mtime_of(
            files,
            db_id,
            ds.drop_last()[i].relative_path@,
        ) == Some(ds.drop_last()[i].mtime) by {
            assert(ds.drop_last()[i] == ds[i]);
        }
        lemma_no_submissions(files, db_id, ds.drop_last());
        assert(ds[ds.len() - 1] == ds.last());
        assert(!needs_reindex(files, db_id, ds.last()));
    }
}

/// Idempotence of reindex: when every discovered file with a
/// configuration is already stored at its on-disk mtime, and every
/// stored row's path was discovered with a configuration, attaching
/// the worktree again submits nothing for parsing and leaves every
/// stored row exactly as it was.
pub proof fn lemma_reindex_idempotent(files: Seq<FileRow>, db_id: u64, ds: Seq<DiscoveredFile>)
    requires
        forall|i: int|
            0 <= i < ds.len() && (#[trigger] ds[i]).language_id is Some ==> stored_mtime_of(
                files,
                db_id,
                ds[i].relative_path@,
            ) == Some(ds[i].mtime),
        forall|p: Seq<char>|
            #[trigger] file_lookup(files, db_id, p) is Some ==> path_discovered(ds, p),
    ensures
        submissions_for(files, db_id, ds) == Seq::<PendingFile>::empty(),
        forall|p: Seq<char>|
            (if path_discovered(ds, p) {
                file_lookup(files, db_id, p)
            } else {
                None::<FileRow>
            }) == #[trigger] file_lookup(files, db_id, p),
{
    lemma_no_submissions(files, db_id, ds);
    assert forall|p: Seq<char>|
        (if path_discovered(ds, p) {
            file_lookup(files, db_id, p)
        } else {
            None::<FileRow>
        }) == #[trigger] file_lookup(files, db_id, p) by {
        if !path_discovered(ds, p) {
            if file_lookup(files, db_id, p) is Some {
                assert(path_discovered(ds, p));
            }
        }
    }
}

/// Delete completeness: a path that the walk did not discover with a
/// configuration has no file row after the attach — the attach
/// contract makes its lookup miss, and a missing lookup means no row.
pub proof fn lemma_delete_completeness(
    pre: Seq<FileRow>,
    post: Seq<FileRow>,
    ds: Seq<DiscoveredFile>,
    db_id: u64,
    p: Seq<char>,
)
    requires
        !path_discovered(ds, p),
        forall|p2: Seq<char>|
            #[trigger] file_lookup(post, db_id, p2) == (if path_discovered(ds, p2) {
                file_lookup(pre, db_id, p2)
            } else {
                None::<FileRow>
            }),
    ensures
        !has_file(post, db_id, p),
{
    assert(file_lookup(post, db_id, p) is None);
    lemma_lookup_is_match(post, db_id, p);
}

/// Dimension uniformity: in a well-formed store every persisted
/// embedding has the store's dimension, which is positive.
pub proof fn lemma_dimension_uniformity(s: VectorStore)
    requires
        s.wf(),
    ensures
        s.dimension > 0,
        forall|i: int, j: int|
            0 <= i < s.db.files@.len() && 0 <= j < (#[trigger] s.db.files@[i]).documents@.len()
                ==> (#[trigger] s.db.files@[i].documents@[j]).embedding@.len() == s.dimension,
{
}

/// Idempotence of attaching a whole project: when, for every worktree
/// of the mapping, each discovered file with a configuration is stored
/// at its on-disk mtime, a second attach submits nothing at all.
pub proof fn lemma_project_reindex_idempotent(
    files: Seq<FileRow>,
    m: Seq<(u64, u64)>,
    ws: Seq<WorktreeDiscovery>,
)
    requires
        m.len() == ws.len(),
        forall|k: int, i: int|
            0 <= k < ws.len() && 0 <= i < (#[trigger] ws[k]).files@.len() && (
            #[trigger] ws[k].files@[i]).language_id is Some ==> stored_mtime_of(
                files,
                m[k].1,
                ws[k].files@[i].relative_path@,
            ) == Some(ws[k].files@[i].mtime),
    ensures
        submissions_concat(files, m, ws) == Seq::<PendingFile>::empty(),
    decreases ws.len(),
{
    if ws.len() > 0 {
        assert forall|k: int, i: int|
            0 <= k < ws.drop_last().len() && 0 <= i < (#[trigger] ws.drop_last()[k]).files@.len()
                && (#[trigger] ws.drop_last()[k].files@[i]).language_id is Some implies
            stored_mtime_of(
            files,
            m.drop_last()[k].1,
            ws.drop_last()[k].files@[i].relative_path@,
        ) == Some(ws.drop_last()[k].files@[i].mtime) by {
            assert(ws.drop_last()[k] == ws[k]);
            assert(m.drop_last()[k] == m[k]);
        }
        lemma_project_reindex_idempotent(files, m.drop_last(), ws.drop_last());
        let kl = ws.len() - 1;
        assert(ws[kl] == ws.last());
        assert(m[kl] == m.last());
        assert forall|i: int|
            0 <= i < ws.last().files@.len() && (#[trigger] ws.last().files@[i]).language_id
                is Some implies stored_mtime_of(
            files,
            m.last().1,
            ws.last().files@[i].relative_path@,
        ) == Some(ws.last().files@[i].mtime) by {}
        lemma_no_submissions(files, m.last().1, ws.last().files@);
        assert(submissions_concat(files, m, ws) =~= Seq::<PendingFile>::empty());
    }
}

} // verus!
