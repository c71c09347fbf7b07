//! Unit tests: similarity, batching, distribution, extraction and the
//! database.

use vector_store::db::VectorDatabase;
use vector_store::embedding::{decode_embedding, dot, encode_embedding};
use vector_store::indexer::{index_file, Capture, EmbeddingConfig, StructuralMatch};
use vector_store::pipeline::{distribute_embeddings, flatten_spans, BatchAccumulator, BatchEntry};
use vector_store::{Document, IndexedFile};

#[test]
fn dot_exact_value() {
    assert_eq!(dot(&vec![1, 2, 3], &vec![4, 5, 6]), 32);
    assert_eq!(dot(&vec![], &vec![]), 0);
}

#[test]
fn dot_symmetry() {
    let a = vec![3, -7, 11, 0];
    let b = vec![-2, 5, 9, 1];
    assert_eq!(dot(&a, &b), dot(&b, &a));
}

#[test]
fn dot_self_nonnegative() {
    let a = vec![-5, 2, -1, 8];
    assert!(dot(&a, &a) >= 0);
    assert_eq!(dot(&a, &a), 25 + 4 + 1 + 64);
}

#[test]
fn dot_extreme_values_do_not_overflow() {
    let a = vec![i32::MIN; 8];
    let b = vec![i32::MIN; 8];
    assert_eq!(dot(&a, &b), 8 * (i32::MIN as i128) * (i32::MIN as i128));
}

#[test]
fn batch_accumulator_emits_at_threshold() {
    let mut acc = BatchAccumulator::new(2);
    let entry = |name: &str| BatchEntry {
        worktree_id: 0,
        file: IndexedFile { path: name.to_string(), mtime: 1, documents: Vec::new() },
        spans: vec!["x".to_string()],
    };
    assert!(acc.submit(entry("a")).is_none());
    let batch = acc.submit(entry("b")).expect("threshold reached");
    assert_eq!(batch.len(), 2);
    assert_eq!(batch[0].file.path, "a");
    assert_eq!(batch[1].file.path, "b");
    assert!(acc.flush().is_none());
}

#[test]
fn batch_accumulator_flushes_partial_batch() {
    let mut acc = BatchAccumulator::new(150);
    acc.submit(BatchEntry {
        worktree_id: 3,
        file: IndexedFile { path: "p".to_string(), mtime: 1, documents: Vec::new() },
        spans: vec!["s".to_string()],
    });
    let batch = acc.flush().expect("partial batch is flushed");
    assert_eq!(batch.len(), 1);
    assert_eq!(batch[0].worktree_id, 3);
}

#[test]
fn flatten_spans_preserves_order() {
    let batch = vec![
        BatchEntry {
            worktree_id: 0,
            file: IndexedFile { path: "a".to_string(), mtime: 1, documents: Vec::new() },
            spans: vec!["one".to_string(), "two".to_string()],
        },
        BatchEntry {
            worktree_id: 0,
            file: IndexedFile { path: "b".to_string(), mtime: 1, documents: Vec::new() },
            spans: vec!["three".to_string()],
        },
    ];
    assert_eq!(flatten_spans(&batch), vec!["one", "two", "three"]);
}

#[test]
fn distribute_fills_documents_in_order() {
    let doc = |name: &str| Document { offset: 0, name: name.to_string(), embedding: Vec::new() };
    let batch = vec![
        BatchEntry {
            worktree_id: 1,
            file: IndexedFile {
                path: "a".to_string(),
                mtime: 1,
                documents: vec![doc("x"), doc("y")],
            },
            spans: vec!["sx".to_string(), "sy".to_string()],
        },
        BatchEntry {
            worktree_id: 2,
            file: IndexedFile { path: "b".to_string(), mtime: 1, documents: vec![doc("z")] },
            spans: vec!["sz".to_string()],
        },
    ];
    let embeddings = vec![vec![1, 0], vec![2, 0], vec![3, 0]];
    let out = distribute_embeddings(&batch, &embeddings).expect("counts match");
    assert_eq!(out.len(), 2);
    assert_eq!(out[0].0, 1);
    assert_eq!(out[0].1.documents[0].embedding, vec![1, 0]);
    assert_eq!(out[0].1.documents[1].embedding, vec![2, 0]);
    assert_eq!(out[1].0, 2);
    assert_eq!(out[1].1.documents[0].embedding, vec![3, 0]);
}

#[test]
fn distribute_rejects_wrong_vector_count() {
    let batch = vec![BatchEntry {
        worktree_id: 1,
        file: IndexedFile {
            path: "a".to_string(),
            mtime: 1,
            documents: vec![Document {
                offset: 0,
                name: "x".to_string(),
                embedding: Vec::new(),
            }],
        },
        spans: vec!["sx".to_string()],
    }];
    assert!(distribute_embeddings(&batch, &vec![]).is_none());
    assert!(distribute_embeddings(&batch, &vec![vec![1], vec![2]]).is_none());
}

#[test]
fn index_file_with_context_capture() {
    let cfg = EmbeddingConfig { item_capture_ix: 0, name_capture_ix: 1, context_capture_ix: Some(2) };
    let content = "impl Thing fn go() {}".to_string();
    let matches = vec![StructuralMatch {
        captures: vec![
            Capture { index: 2, start: 5, end: 10 },
            Capture { index: 0, start: 11, end: 21 },
            Capture { index: 1, start: 14, end: 16 },
        ],
    }];
    let (indexed, spans) = index_file(&cfg, "t.src".to_string(), 5, &content, &matches);
    assert_eq!(indexed.documents.len(), 1);
    assert_eq!(indexed.documents[0].name, "Thing go");
    assert_eq!(indexed.documents[0].offset, 11);
    assert_eq!(spans, vec!["fn go() {}"]);
    assert_eq!(indexed.mtime, 5);
}

#[test]
fn index_file_skips_incomplete_matches() {
    let cfg = EmbeddingConfig { item_capture_ix: 0, name_capture_ix: 1, context_capture_ix: None };
    let content = "fn a() {}".to_string();
    let matches = vec![
        // no name capture
        StructuralMatch { captures: vec![Capture { index: 0, start: 0, end: 9 }] },
        // name range beyond the content
        StructuralMatch {
            captures: vec![
                Capture { index: 0, start: 0, end: 9 },
                Capture { index: 1, start: 3, end: 99 },
            ],
        },
    ];
    let (indexed, spans) = index_file(&cfg, "t.src".to_string(), 1, &content, &matches);
    assert_eq!(indexed.documents.len(), 0);
    assert_eq!(spans.len(), 0);
}

#[test]
fn database_replaces_file_rows_by_key() {
    let mut db = VectorDatabase::new();
    let wt = db.find_or_create_worktree(&"/w".to_string());
    db.insert_file(
        wt,
        IndexedFile { path: "a.src".to_string(), mtime: 1, documents: Vec::new() },
    );
    db.insert_file(
        wt,
        IndexedFile { path: "a.src".to_string(), mtime: 2, documents: Vec::new() },
    );
    assert_eq!(db.files.len(), 1);
    assert_eq!(db.files[0].mtime, 2);
    let mtimes = db.get_file_mtimes(wt);
    assert_eq!(mtimes, vec![("a.src".to_string(), 2)]);
    assert_eq!(db.lookup_mtime(wt, &"a.src".to_string()), Some(2));
    assert_eq!(db.lookup_mtime(wt, &"b.src".to_string()), None);
    db.delete_file(wt, &"a.src".to_string());
    assert_eq!(db.files.len(), 0);
    assert_eq!(db.worktrees.len(), 1);
}

#[test]
fn embedding_codec_round_trip() {
    let v = vec![1, -1, 0, i32::MAX, i32::MIN, 123456789];
    let blob = encode_embedding(&v);
    assert_eq!(blob.len(), 4 * v.len());
    assert_eq!(decode_embedding(&blob), Some(v));
}

#[test]
fn embedding_codec_exact_bytes() {
    assert_eq!(encode_embedding(&vec![1, -1]), vec![1, 0, 0, 0, 255, 255, 255, 255]);
    assert_eq!(encode_embedding(&vec![0x0403_0201]), vec![1, 2, 3, 4]);
}

#[test]
fn embedding_codec_rejects_ragged_blob() {
    assert_eq!(decode_embedding(&vec![1, 2, 3]), None);
    assert_eq!(decode_embedding(&vec![]), Some(vec![]));
}
