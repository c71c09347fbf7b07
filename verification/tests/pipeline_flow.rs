//! End-to-end scenarios: discover, parse, batch, embed, persist,
//! search.

use vector_store::indexer::{index_file, Capture, EmbeddingConfig, StructuralMatch};
use vector_store::pipeline::{distribute_embeddings, flatten_spans, BatchAccumulator, BatchEntry};
use vector_store::store::{DbWrite, DiscoveredFile, SearchError, WorktreeDiscovery};
use vector_store::VectorStore;

const CONTENT: &str = "fn alpha() {} fn beta() {}";

fn dummy_embed(text: &str) -> Vec<i32> {
    let open = text.chars().filter(|c| *c == '(').count() as i32;
    let close = text.chars().filter(|c| *c == ')').count() as i32;
    vec![text.len() as i32, open, close, 0]
}

fn lib_src_discovery(mtime: u64) -> WorktreeDiscovery {
    WorktreeDiscovery {
        worktree_id: 7,
        abs_path: "/w".to_string(),
        files: vec![DiscoveredFile {
            relative_path: "lib.src".to_string(),
            absolute_path: "/w/lib.src".to_string(),
            mtime,
            language_id: Some(1),
        }],
    }
}

fn scenario_config() -> EmbeddingConfig {
    EmbeddingConfig { item_capture_ix: 0, name_capture_ix: 1, context_capture_ix: None }
}

fn scenario_matches() -> Vec<StructuralMatch> {
    vec![
        StructuralMatch {
            captures: vec![
                Capture { index: 0, start: 0, end: 13 },
                Capture { index: 1, start: 3, end: 8 },
            ],
        },
        StructuralMatch {
            captures: vec![
                Capture { index: 0, start: 14, end: 26 },
                Capture { index: 1, start: 17, end: 21 },
            ],
        },
    ]
}

/// Runs one full indexing pass for the single-file worktree.
fn run_scenario_pass(store: &mut VectorStore, mtime: u64) -> usize {
    let pending = store.add_project(1, &vec![lib_src_discovery(mtime)]);
    let submitted = pending.len();
    let cfg = scenario_config();
    let matches = scenario_matches();
    let mut acc = BatchAccumulator::new(150);
    let mut batches: Vec<Vec<BatchEntry>> = Vec::new();
    for p in pending {
        let (indexed, spans) =
            index_file(&cfg, p.relative_path.clone(), p.mtime, &CONTENT.to_string(), &matches);
        if let Some(batch) = acc.submit(BatchEntry {
            worktree_id: p.worktree_db_id,
            file: indexed,
            spans,
        }) {
            batches.push(batch);
        }
    }
    if let Some(batch) = acc.flush() {
        batches.push(batch);
    }
    for batch in batches {
        let flat = flatten_spans(&batch);
        let embeddings: Vec<Vec<i32>> = flat.iter().map(|t| dummy_embed(t)).collect();
        let filled = distribute_embeddings(&batch, &embeddings).expect("vector count matches");
        for (worktree_id, indexed_file) in filled {
            store.apply_db_write(DbWrite::InsertFile { worktree_id, indexed_file });
        }
    }
    submitted
}

#[test]
fn single_file_bootstrap() {
    let mut store = VectorStore::new(4);
    let submitted = run_scenario_pass(&mut store, 100);
    assert_eq!(submitted, 1);
    assert_eq!(store.db.worktrees.len(), 1);
    assert_eq!(store.db.files.len(), 1);
    let row = &store.db.files[0];
    assert_eq!(row.relative_path, "lib.src");
    assert_eq!(row.mtime, 100);
    assert_eq!(row.documents.len(), 2);
    assert!(row.documents[0].name.contains("alpha"));
    assert!(row.documents[1].name.contains("beta"));
    assert_eq!(row.documents[0].offset, 0);
    assert_eq!(row.documents[1].offset, 14);
    assert_eq!(row.documents[0].embedding, dummy_embed("fn alpha() {}"));
    assert_eq!(row.documents[1].embedding, dummy_embed("fn beta() {}"));
}

#[test]
fn incremental_noop() {
    let mut store = VectorStore::new(4);
    let first = run_scenario_pass(&mut store, 100);
    assert_eq!(first, 1);
    let second = run_scenario_pass(&mut store, 100);
    // no on-disk change: nothing is submitted, nothing is written
    assert_eq!(second, 0);
    assert_eq!(store.db.worktrees.len(), 1);
    assert_eq!(store.db.files.len(), 1);
    assert_eq!(store.db.files[0].documents.len(), 2);
}

#[test]
fn changed_mtime_resubmits() {
    let mut store = VectorStore::new(4);
    assert_eq!(run_scenario_pass(&mut store, 100), 1);
    // the stored mtime differs from the on-disk one: reindex
    assert_eq!(run_scenario_pass(&mut store, 200), 1);
    assert_eq!(store.db.files.len(), 1);
    assert_eq!(store.db.files[0].mtime, 200);
    assert_eq!(store.db.files[0].documents.len(), 2);
}

#[test]
fn deletion() {
    let mut store = VectorStore::new(4);
    run_scenario_pass(&mut store, 100);
    assert_eq!(store.db.files.len(), 1);
    // the file is gone from the worktree on the next attach
    let empty = WorktreeDiscovery {
        worktree_id: 7,
        abs_path: "/w".to_string(),
        files: Vec::new(),
    };
    let pending = store.add_project(1, &vec![empty]);
    assert_eq!(pending.len(), 0);
    assert_eq!(store.db.files.len(), 0);
    assert_eq!(store.db.worktrees.len(), 1);
}

#[test]
fn search_correctness() {
    let mut store = VectorStore::new(4);
    run_scenario_pass(&mut store, 100);
    let query = dummy_embed("alpha(");
    let results = store.search(1, &query, 1).expect("project is attached");
    assert_eq!(results.len(), 1);
    assert!(results[0].name.contains("alpha"));
    assert_eq!(results[0].file_path, "lib.src");
    assert_eq!(results[0].worktree_id, 7);
    assert_eq!(results[0].offset, 0);
}

#[test]
fn search_unattached_project() {
    let store = VectorStore::new(4);
    let query = vec![1, 0, 0, 0];
    match store.search(99, &query, 3) {
        Err(SearchError::ProjectNotAdded) => {}
        Ok(_) => panic!("search on an unattached project must fail"),
    }
}

#[test]
fn top_k_boundary() {
    let mut store = VectorStore::new(4);
    // ten single-document files with embeddings [i, 0, 0, 0]
    let mut worktrees = Vec::new();
    let mut files = Vec::new();
    for i in 1..=10 {
        files.push(DiscoveredFile {
            relative_path: format!("f{}.src", i),
            absolute_path: format!("/w/f{}.src", i),
            mtime: 1,
            language_id: Some(1),
        });
    }
    worktrees.push(WorktreeDiscovery {
        worktree_id: 7,
        abs_path: "/w".to_string(),
        files,
    });
    let pending = store.add_project(1, &worktrees);
    assert_eq!(pending.len(), 10);
    for (i, p) in pending.into_iter().enumerate() {
        let doc = vector_store::Document {
            offset: 0,
            name: format!("d{}", i + 1),
            embedding: vec![(i + 1) as i32, 0, 0, 0],
        };
        let indexed = vector_store::IndexedFile {
            path: p.relative_path.clone(),
            mtime: p.mtime,
            documents: vec![doc],
        };
        store.apply_db_write(DbWrite::InsertFile {
            worktree_id: p.worktree_db_id,
            indexed_file: indexed,
        });
    }
    assert_eq!(store.db.files.len(), 10);
    let query = vec![1, 0, 0, 0];
    let results = store.search(1, &query, 3).expect("project is attached");
    assert_eq!(results.len(), 3);
    assert_eq!(results[0].name, "d10");
    assert_eq!(results[1].name, "d9");
    assert_eq!(results[2].name, "d8");
}

#[test]
fn insert_with_wrong_dimension_is_skipped() {
    let mut store = VectorStore::new(4);
    let pending = store.add_project(1, &vec![lib_src_discovery(100)]);
    assert_eq!(pending.len(), 1);
    let bad = vector_store::IndexedFile {
        path: "lib.src".to_string(),
        mtime: 100,
        documents: vec![vector_store::Document {
            offset: 0,
            name: "broken".to_string(),
            embedding: vec![1, 2, 3],
        }],
    };
    store.apply_db_write(DbWrite::InsertFile {
        worktree_id: pending[0].worktree_db_id,
        indexed_file: bad,
    });
    // the write is dropped: no row with a wrong-dimension embedding
    assert_eq!(store.db.files.len(), 0);
}

#[test]
fn insert_with_unknown_worktree_is_skipped() {
    let mut store = VectorStore::new(4);
    let good = vector_store::IndexedFile {
        path: "lib.src".to_string(),
        mtime: 100,
        documents: Vec::new(),
    };
    store.apply_db_write(DbWrite::InsertFile { worktree_id: 42, indexed_file: good });
    assert_eq!(store.db.files.len(), 0);
}

#[test]
fn find_or_create_worktree_is_idempotent() {
    let mut store = VectorStore::new(4);
    let a = store.find_or_create_worktree(&"/w1".to_string());
    let b = store.find_or_create_worktree(&"/w2".to_string());
    let a2 = store.find_or_create_worktree(&"/w1".to_string());
    assert_eq!(a, a2);
    assert_ne!(a, b);
    assert_eq!(store.db.worktrees.len(), 2);
}

#[test]
fn search_limit_above_document_count() {
    let mut store = VectorStore::new(4);
    run_scenario_pass(&mut store, 100);
    let query = dummy_embed("alpha(");
    let results = store.search(1, &query, 50).expect("project is attached");
    // both documents come back, best match first
    assert_eq!(results.len(), 2);
    assert!(results[0].name.contains("alpha"));
    assert!(results[1].name.contains("beta"));
}

#[test]
fn search_with_zero_limit() {
    let mut store = VectorStore::new(4);
    run_scenario_pass(&mut store, 100);
    let query = dummy_embed("alpha(");
    let results = store.search(1, &query, 0).expect("project is attached");
    assert_eq!(results.len(), 0);
}
