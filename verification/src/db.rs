//! The vector database: a store of worktrees, files and documents.
//!
//! A worktree row is identified by its absolute path and addressed by
//! its position, which never changes: worktree ids are stable for the
//! lifetime of the store. A file row is keyed by `(worktree id,
//! relative path)` — at most one row per key — and owns its documents:
//! they are replaced with it and destroyed with it.

use vstd::prelude::*;

use crate::indexer::IndexedFile;

verus! {

/// One worktree row: the absolute path of the root directory. The
/// row's position in the store is its id.
pub struct WorktreeRow {
    pub abs_path: String,
}

/// One file row with the documents extracted from it.
pub struct FileRow {
    pub worktree_id: u64,
    pub relative_path: String,
    pub mtime: u64,
    pub documents: Vec<crate::indexer::Document>,
}

/// The in-memory vector store.
pub struct VectorDatabase {
    pub worktrees: Vec<WorktreeRow>,
    pub files: Vec<FileRow>,
}

/// Does file row `f` carry the key `(worktree_id, path)`?
pub open spec fn is_file_key(f: FileRow, worktree_id: u64, path: Seq<char>) -> bool {
    f.worktree_id == worktree_id && f.relative_path@ == path
}

/// Is there a file row with the key `(worktree_id, path)`?
pub open spec fn has_file(files: Seq<FileRow>, worktree_id: u64, path: Seq<char>) -> bool {
    exists|i: int| 0 <= i < files.len() && is_file_key(files[i], worktree_id, path)
}

/// The file rows with every row keyed `(worktree_id, path)` removed,
/// in their original order.
pub open spec fn files_without(
    files: Seq<FileRow>,
    worktree_id: u64,
    path: Seq<char>,
) -> Seq<FileRow>
    decreases files.len(),
{
    if files.len() == 0 {
        files
    } else {
        let rest = files_without(files.drop_last(), worktree_id, path);
        if is_file_key(files.last(), worktree_id, path) {
            rest
        } else {
            rest.push(files.last())
        }
    }
}

/// The `(relative path, mtime)` pairs of one worktree's file rows, in
/// storage order.
pub open spec fn mtimes_of(files: Seq<FileRow>, worktree_id: u64) -> Seq<(String, u64)>
    decreases files.len(),
{
    if files.len() == 0 {
        Seq::empty()
    } else {
        let rest = mtimes_of(files.drop_last(), worktree_id);
        if files.last().worktree_id == worktree_id {
            rest.push((files.last().relative_path, files.last().mtime))
        } else {
            rest
        }
    }
}

/// Is there a worktree row with the given absolute path?
pub open spec fn has_worktree_path(ws: Seq<WorktreeRow>, path: Seq<char>) -> bool {
    exists|i: int| 0 <= i < ws.len() && ws[i].abs_path@ == path
}

/// The file row that persisting `file` under `worktree_id` creates.
pub open spec fn file_row_of(worktree_id: u64, file: IndexedFile) -> FileRow {
    FileRow {
        worktree_id: worktree_id,
        relative_path: file.path,
        mtime: file.mtime,
        documents: file.documents,
    }
}

impl VectorDatabase {
    /// Structural invariant: worktree paths are unique, every file row
    /// points at an existing worktree, and file keys are unique.
    pub open spec fn wf(self) -> bool {
        &&& forall|i: int, j: int|
            0 <= i < j < self.worktrees@.len() ==> (#[trigger] self.worktrees@[i]).abs_path@ != (
            #[trigger] self.worktrees@[j]).abs_path@
        &&& forall|i: int|
            0 <= i < self.files@.len() ==> (#[trigger] self.files@[i]).worktree_id
                < self.worktrees@.len()
        &&& forall|i: int, j: int|
            0 <= i < j < self.files@.len() ==> !((#[trigger] self.files@[i]).worktree_id == (
            #[trigger] self.files@[j]).worktree_id && self.files@[i].relative_path@
                == self.files@[j].relative_path@)
    }

    /// Every persisted document's embedding has dimension `dim`.
    pub open spec fn uniform_dimension(self, dim: nat) -> bool {
        forall|i: int, j: int|
            0 <= i < self.files@.len() && 0 <= j < (#[trigger] self.files@[i]).documents@.len()
                ==> (#[trigger] self.files@[i].documents@[j]).embedding@.len() == dim
    }

    /// An empty store.
    pub fn new() -> (db: VectorDatabase)
        ensures
            db.wf(),
            db.worktrees@.len() == 0,
            db.files@.len() == 0,
    {
        VectorDatabase { worktrees: Vec::new(), files: Vec::new() }
    }

    /// Returns the id of the worktree row with the given absolute
    /// path, creating the row if there is none. Idempotent: a second
    /// call with the same path returns the same id and changes
    /// nothing.
    pub fn find_or_create_worktree(&mut self, abs_path: &String) -> (id: u64)
        requires
            old(self).wf(),
        ensures
            final(self).wf(),
            final(self).files == old(self).files,
            (id as int) < final(self).worktrees@.len(),
            final(self).worktrees@[id as int].abs_path@ == abs_path@,
            has_worktree_path(old(self).worktrees@, abs_path@) ==> final(self).worktrees == old(self).worktrees,
            !has_worktree_path(old(self).worktrees@, abs_path@) ==> {
                &&& id as int == old(self).worktrees@.len()
                &&& final(self).worktrees@.len() == old(self).worktrees@.len() + 1
                &&& final(self).worktrees@.subrange(0, old(self).worktrees@.len() as int) == old(self).worktrees@
            },
    {
        let n: usize = self.worktrees.len();
        let mut i: usize = 0;
        while i < n
            invariant
                old(self).wf(),
                *self == *old(self),
                n == self.worktrees@.len(),
                i <= n,
                forall|j: int| 0 <= j < i ==> self.worktrees@[j].abs_path@ != abs_path@,
            decreases n - i,
        {
            if self.worktrees[i].abs_path == *abs_path {
                proof {
                    assert(has_worktree_path(self.worktrees@, abs_path@)) by {
                        assert(self.worktrees@[i as int].abs_path@ == abs_path@);
                    }
                }
                return i as u64;
            }
            i = i + 1;
        }
        proof {
            assert(!has_worktree_path(self.worktrees@, abs_path@));
        }
        self.worktrees.push(WorktreeRow { abs_path: abs_path.clone() });
        proof {
            assert(self.worktrees@.subrange(0, old(self).worktrees@.len() as int) =~= old(self).worktrees@);
            assert(self.wf()) by {
                assert(forall|j: int|
                    0 <= j < old(self).worktrees@.len() ==> (#[trigger] self.worktrees@[j])
                        == old(self).worktrees@[j]);
            }
        }
        n as u64
    }

    /// Removes the file row keyed `(worktree_id, path)`, and with it
    /// its documents. Removing an absent key changes nothing.
    pub fn delete_file(&mut self, worktree_id: u64, path: &String)
        requires
            old(self).wf(),
        ensures
            final(self).wf(),
            final(self).worktrees == old(self).worktrees,
            final(self).files@ == files_without(old(self).files@, worktree_id, path@),
            forall|dim: nat|
                old(self).uniform_dimension(dim) ==> #[trigger] final(self).uniform_dimension(dim),
    {
        let n: usize = self.files.len();
        let mut i: usize = 0;
        while i < n
            invariant
                old(self).wf(),
                *self == *old(self),
                n == self.files@.len(),
                i <= n,
                forall|j: int| 0 <= j < i ==> !is_file_key(self.files@[j], worktree_id, path@),
            decreases n - i,
        {
            if self.files[i].worktree_id == worktree_id && self.files[i].relative_path == *path {
                proof {
                    assert forall|j: int|
                        0 <= j < self.files@.len() && j != i as int implies !is_file_key(
                        self.files@[j],
                        worktree_id,
                        path@,
                    ) by {
                        if j > i as int {
                            assert(!(self.files@[i as int].worktree_id
                                == self.files@[j].worktree_id && self.files@[
                                i as int].relative_path@ == self.files@[j].relative_path@));
                        }
                    }
                    lemma_remove_match_is_filter(self.files@, worktree_id, path@, i as int);
                }
                let ghost pre = self.files@;
                self.files.remove(i);
                proof {
                    assert forall|j: int| 0 <= j < self.files@.len() implies exists|k: int|
                        0 <= k < pre.len() && pre[k] == #[trigger] self.files@[j] by {
                        if j < i as int {
                            assert(pre[j] == self.files@[j]);
                        } else {
                            assert(pre[j + 1] == self.files@[j]);
                        }
                    }
                    assert(self.wf()) by {
                        assert forall|a: int, b: int| 0 <= a < b < self.files@.len() implies !((
                        #[trigger] self.files@[a]).worktree_id == (
                        #[trigger] self.files@[b]).worktree_id && self.files@[a].relative_path@
                            == self.files@[b].relative_path@) by {
                            let a0 = if a < i as int {
                                a
                            } else {
                                a + 1
                            };
                            let b0 = if b < i as int {
                                b
                            } else {
                                b + 1
                            };
                            assert(pre[a0] == self.files@[a]);
                            assert(pre[b0] == self.files@[b]);
                        }
                    }
                }
                return ;
            }
            i = i + 1;
        }
        proof {
            lemma_no_match_filter_identity(self.files@, worktree_id, path@);
        }
    }

    /// Persists `file` under `worktree_id`: any prior row for the same
    /// path is replaced, together with its documents, by a fresh row
    /// holding the file's mtime and documents.
    pub fn insert_file(&mut self, worktree_id: u64, file: IndexedFile)
        requires
            old(self).wf(),
            worktree_id < old(self).worktrees@.len(),
        ensures
            final(self).wf(),
            final(self).worktrees == old(self).worktrees,
            final(self).files@ == files_without(old(self).files@, worktree_id, file.path@).push(
                file_row_of(worktree_id, file),
            ),
            forall|dim: nat|
                old(self).uniform_dimension(dim) && (forall|j: int|
                    0 <= j < file.documents@.len() ==> (
                    #[trigger] file.documents@[j]).embedding@.len() == dim) ==> #[trigger] final(self).uniform_dimension(dim),
    {
        let IndexedFile { path, mtime, documents } = file;
        self.delete_file(worktree_id, &path);
        proof {
            lemma_filter_has_no_match(old(self).files@, worktree_id, path@);
        }
        let ghost mid = *self;
        self.files.push(FileRow { worktree_id, relative_path: path, mtime, documents });
        proof {
            let ghost pre = mid.files@;
            assert(forall|j: int| 0 <= j < pre.len() ==> (#[trigger] self.files@[j]) == pre[j]);
            assert(self.files@[pre.len() as int] == file_row_of(worktree_id, file));
            assert(self.wf());
            assert forall|dim: nat|
                old(self).uniform_dimension(dim) && (forall|j: int|
                    0 <= j < file.documents@.len() ==> (
                    #[trigger] file.documents@[j]).embedding@.len()
                        == dim) implies #[trigger] self.uniform_dimension(dim) by {
                assert(mid.uniform_dimension(dim));
                assert forall|a: int, b: int|
                    0 <= a < self.files@.len() && 0 <= b < (
                    #[trigger] self.files@[a]).documents@.len() implies (
                #[trigger] self.files@[a].documents@[b]).embedding@.len() == dim by {
                    if a < pre.len() {
                        assert(self.files@[a] == mid.files@[a]);
                        assert(mid.files@[a].documents@[b].embedding@.len() == dim);
                    } else {
                        assert(self.files@[a].documents == file.documents);
                    }
                }
            }
        }
    }

    /// The stored `(relative path, mtime)` pairs of one worktree's
    /// file rows, in storage order.
    pub fn get_file_mtimes(&self, worktree_id: u64) -> (r: Vec<(String, u64)>)
        ensures
            r@ == mtimes_of(self.files@, worktree_id),
    {
        let mut r: Vec<(String, u64)> = Vec::new();
        let n: usize = self.files.len();
        let mut i: usize = 0;
        proof {
            assert(self.files@.take(0) =~= Seq::<FileRow>::empty());
        }
        while i < n
            invariant
                n == self.files@.len(),
                i <= n,
                r@ == mtimes_of(self.files@.take(i as int), worktree_id),
            decreases n - i,
        {
            proof {
                assert(self.files@.take(i + 1).drop_last() =~= self.files@.take(i as int));
                assert(self.files@.take(i + 1).last() == self.files@[i as int]);
            }
            if self.files[i].worktree_id == worktree_id {
                r.push((self.files[i].relative_path.clone(), self.files[i].mtime));
            }
            i = i + 1;
        }
        proof {
            assert(self.files@.take(n as int) =~= self.files@);
        }
        r
    }
}

/// If no row of `s` carries the key, filtering the key out keeps `s`
/// as it is.
proof fn lemma_no_match_filter_identity(s: Seq<FileRow>, worktree_id: u64, path: Seq<char>)
    requires
        forall|j: int| 0 <= j < s.len() ==> !is_file_key(s[j], worktree_id, path),
    ensures
        files_without(s, worktree_id, path) == s,
    decreases s.len(),
{
    if s.len() > 0 {
        assert(!is_file_key(s[s.len() - 1], worktree_id, path));
        assert forall|j: int| 0 <= j < s.drop_last().len() implies !is_file_key(
            s.drop_last()[j],
            worktree_id,
            path,
        ) by {
            assert(s.drop_last()[j] == s[j]);
        }
        lemma_no_match_filter_identity(s.drop_last(), worktree_id, path);
        assert(files_without(s, worktree_id, path) =~= s);
    }
}

/// If row `i` is the only row of `s` carrying the key, filtering the
/// key out is removing row `i`.
proof fn lemma_remove_match_is_filter(s: Seq<FileRow>, worktree_id: u64, path: Seq<char>, i: int)
    requires
        0 <= i < s.len(),
        is_file_key(s[i], worktree_id, path),
        forall|j: int| 0 <= j < s.len() && j != i ==> !is_file_key(s[j], worktree_id, path),
    ensures
        files_without(s, worktree_id, path) == s.remove(i),
    decreases s.len(),
{
    if i == s.len() - 1 {
        assert forall|j: int| 0 <= j < s.drop_last().len() implies !is_file_key(
            s.drop_last()[j],
            worktree_id,
            path,
        ) by {
            assert(s.drop_last()[j] == s[j]);
        }
        lemma_no_match_filter_identity(s.drop_last(), worktree_id, path);
        assert(files_without(s, worktree_id, path) =~= s.remove(i));
    } else {
        assert forall|j: int| 0 <= j < s.drop_last().len() && j != i implies !is_file_key(
            s.drop_last()[j],
            worktree_id,
            path,
        ) by {
            assert(s.drop_last()[j] == s[j]);
        }
        assert(s.drop_last()[i] == s[i]);
        lemma_remove_match_is_filter(s.drop_last(), worktree_id, path, i);
        assert(!is_file_key(s[s.len() - 1], worktree_id, path));
        assert(files_without(s, worktree_id, path) =~= s.remove(i));
    }
}

/// No row survives the filter that carries the key that was filtered
/// out.
proof fn lemma_filter_has_no_match(s: Seq<FileRow>, worktree_id: u64, path: Seq<char>)
    ensures
        forall|j: int|
            0 <= j < files_without(s, worktree_id, path).len() ==> !is_file_key(
                #[trigger] files_without(s, worktree_id, path)[j],
                worktree_id,
                path,
            ),
    decreases s.len(),
{
    if s.len() > 0 {
        lemma_filter_has_no_match(s.drop_last(), worktree_id, path);
        let out = files_without(s, worktree_id, path);
        let rest = files_without(s.drop_last(), worktree_id, path);
        assert forall|j: int| 0 <= j < out.len() implies !is_file_key(
            #[trigger] out[j],
            worktree_id,
            path,
        ) by {
            if j < rest.len() {
                assert(out[j] == rest[j]);
            } else {
                assert(out[j] == s.last());
            }
        }
    }
}

/// The file row keyed `(worktree_id, path)`, if any; with unique keys
/// there is at most one.
pub open spec fn file_lookup(files: Seq<FileRow>, worktree_id: u64, path: Seq<char>) -> Option<
    FileRow,
>
    decreases files.len(),
{
    if files.len() == 0 {
        None
    } else if is_file_key(files.last(), worktree_id, path) {
        Some(files.last())
    } else {
        file_lookup(files.drop_last(), worktree_id, path)
    }
}

/// A found row carries the key and is one of the rows; a miss means no
/// row carries the key.
pub proof fn lemma_lookup_is_match(s: Seq<FileRow>, worktree_id: u64, path: Seq<char>)
    ensures
        match file_lookup(s, worktree_id, path) {
            Some(r) => is_file_key(r, worktree_id, path) && exists|i: int|
                0 <= i < s.len() && s[i] == r,
            None => !has_file(s, worktree_id, path),
        },
    decreases s.len(),
{
    if s.len() > 0 {
        lemma_lookup_is_match(s.drop_last(), worktree_id, path);
        if !is_file_key(s.last(), worktree_id, path) {
            match file_lookup(s.drop_last(), worktree_id, path) {
                Some(r) => {
                    let i = choose|i: int| 0 <= i < s.drop_last().len() && s.drop_last()[i] == r;
                    assert(s[i] == r);
                },
                None => {
                    if has_file(s, worktree_id, path) {
                        let i = choose|i: int|
                            0 <= i < s.len() && is_file_key(s[i], worktree_id, path);
                        assert(s.drop_last()[i] == s[i]);
                    }
                },
            }
        } else {
            assert(s[s.len() - 1] == s.last());
        }
    }
}

/// How deleting one key changes every lookup: the deleted key is gone,
/// every other key is untouched.
pub proof fn lemma_lookup_after_delete(
    s: Seq<FileRow>,
    worktree_id: u64,
    path: Seq<char>,
    wt2: u64,
    p2: Seq<char>,
)
    ensures
        file_lookup(files_without(s, worktree_id, path), wt2, p2) == if wt2 == worktree_id && p2
            == path {
            None::<FileRow>
        } else {
            file_lookup(s, wt2, p2)
        },
    decreases s.len(),
{
    if s.len() > 0 {
        lemma_lookup_after_delete(s.drop_last(), worktree_id, path, wt2, p2);
        let rest = files_without(s.drop_last(), worktree_id, path);
        if !is_file_key(s.last(), worktree_id, path) {
            assert(rest.push(s.last()).drop_last() =~= rest);
            assert(rest.push(s.last()).last() == s.last());
        }
    }
}

/// The stored mtime of the file row keyed `(worktree_id, path)`.
pub open spec fn stored_mtime_of(files: Seq<FileRow>, worktree_id: u64, path: Seq<char>) -> Option<
    u64,
> {
    match file_lookup(files, worktree_id, path) {
        Some(r) => Some(r.mtime),
        None => None,
    }
}

impl VectorDatabase {
    /// The stored mtime for one file key, if a row exists.
    pub fn lookup_mtime(&self, worktree_id: u64, path: &String) -> (r: Option<u64>)
        ensures
            r == stored_mtime_of(self.files@, worktree_id, path@),
    {
        let n: usize = self.files.len();
        let mut i: usize = n;
        proof {
            assert(self.files@.take(n as int) =~= self.files@);
        }
        while i > 0
            invariant
                n == self.files@.len(),
                i <= n,
                file_lookup(self.files@, worktree_id, path@) == file_lookup(
                    self.files@.take(i as int),
                    worktree_id,
                    path@,
                ),
            decreases i,
        {
            proof {
                assert(self.files@.take(i as int).drop_last() =~= self.files@.take(i - 1));
                assert(self.files@.take(i as int).last() == self.files@[i - 1]);
            }
            if self.files[i - 1].worktree_id == worktree_id && self.files[i - 1].relative_path
                == *path {
                return Some(self.files[i - 1].mtime);
            }
            i = i - 1;
        }
        proof {
            assert(self.files@.take(0) =~= Seq::<FileRow>::empty());
        }
        None
    }
}

} // verus!
