use semtools::filter::build_in_filter;
use semtools::reconcile::{documents_to_embed, DocumentState, FileStat};
use semtools::search::{create_document_from_content, resolve_context, Document};
use semtools::store::{DocMeta, LineEmbedding, RankedLine, Store, StoreError, EMBEDDING_VERSION};

fn create_test_docs() -> Vec<DocMeta> {
    vec![
        DocMeta { path: "/test/doc1.txt".to_string(), size_bytes: 100, mtime: 1234567890, version: EMBEDDING_VERSION },
        DocMeta { path: "/test/doc2.txt".to_string(), size_bytes: 200, mtime: 1234567891, version: EMBEDDING_VERSION },
        DocMeta { path: "/test/doc3.txt".to_string(), size_bytes: 150, mtime: 1234567892, version: EMBEDDING_VERSION },
    ]
}

fn line(path: &str, n: i32, e: Vec<u32>) -> LineEmbedding {
    LineEmbedding { path: path.to_string(), line_number: n, embedding: e }
}

fn doc_with(path: &str, content: &str) -> Document {
    let prepared = create_document_from_content(path.to_string(), content, false).unwrap();
    let embeddings: Vec<Vec<u32>> =
        prepared.lines.iter().map(|l| vec![l.len() as u32, 1]).collect();
    prepared.into_document(embeddings)
}

fn meta(path: &str, size: u64, mtime: i64) -> DocMeta {
    DocMeta { path: path.to_string(), size_bytes: size, mtime, version: EMBEDDING_VERSION }
}

#[test]
fn test_store_creation_and_stats_empty() {
    let store = Store::new();
    let stats = store.get_stats();
    assert_eq!(stats.total_documents, 0);
    assert!(!stats.has_index);
    assert_eq!(stats.index_type, None);
}

#[test]
fn test_upsert_documents_and_stats() {
    let mut store = Store::new();
    let docs = create_test_docs();
    store.upsert_document_metadata(&docs);
    let stats = store.get_stats();
    assert_eq!(stats.total_documents, 3);
    if stats.has_index {
        assert_eq!(stats.index_type, Some("IVF_PQ".to_string()));
    }
}

#[test]
fn test_get_all_document_paths() {
    let mut store = Store::new();
    let docs = create_test_docs();
    let paths = store.get_all_document_paths();
    assert!(paths.is_empty());
    store.upsert_document_metadata(&docs);
    let paths = store.get_all_document_paths();
    assert_eq!(paths.len(), 3);
    assert!(paths.contains(&"/test/doc1.txt".to_string()));
    assert!(paths.contains(&"/test/doc2.txt".to_string()));
    assert!(paths.contains(&"/test/doc3.txt".to_string()));
}

#[test]
fn test_get_existing_docs() {
    let mut store = Store::new();
    store.upsert_document_metadata(&create_test_docs());
    let query_paths = vec![
        "/test/doc1.txt".to_string(),
        "/test/doc2.txt".to_string(),
        "/test/nonexistent.txt".to_string(),
    ];
    let existing = store.get_existing_docs(&query_paths);
    assert_eq!(existing.len(), 2);
    let find = |p: &str| existing.iter().find(|m| m.path == p);
    assert!(find("/test/doc1.txt").is_some());
    assert!(find("/test/doc2.txt").is_some());
    assert!(find("/test/nonexistent.txt").is_none());
    let doc1_meta = find("/test/doc1.txt").unwrap();
    assert_eq!(doc1_meta.size_bytes, 100);
    assert_eq!(doc1_meta.mtime, 1234567890);
}

#[test]
fn test_delete_documents() {
    let mut store = Store::new();
    store.upsert_document_metadata(&create_test_docs());
    assert_eq!(store.get_all_document_paths().len(), 3);
    let to_delete = vec!["/test/doc1.txt".to_string(), "/test/doc3.txt".to_string()];
    store.delete_documents(&to_delete);
    let remaining_paths = store.get_all_document_paths();
    assert_eq!(remaining_paths.len(), 1);
    assert!(remaining_paths.contains(&"/test/doc2.txt".to_string()));
}

#[test]
fn test_upsert_replaces_existing() {
    let mut store = Store::new();
    store.upsert_document_metadata(&vec![meta("/test/doc.txt", 100, 1000)]);
    assert_eq!(store.get_all_document_paths().len(), 1);
    store.upsert_document_metadata(&vec![meta("/test/doc.txt", 200, 2000)]);
    assert_eq!(store.get_all_document_paths().len(), 1);
    let existing = store.get_existing_docs(&vec!["/test/doc.txt".to_string()]);
    let doc_meta = existing.iter().find(|m| m.path == "/test/doc.txt").unwrap();
    assert_eq!(doc_meta.size_bytes, 200);
    assert_eq!(doc_meta.mtime, 2000);
}

#[test]
fn test_build_in_filter() {
    let paths = vec![
        "file1.txt".to_string(),
        "file2.txt".to_string(),
        "file with spaces.txt".to_string(),
        "file'with'quotes.txt".to_string(),
    ];
    let filter = build_in_filter(&paths);
    assert!(filter.starts_with("path IN ("));
    assert!(filter.ends_with(")"));
    assert!(filter.contains("'file1.txt'"));
    assert!(filter.contains("'file2.txt'"));
    assert!(filter.contains("'file with spaces.txt'"));
    assert!(filter.contains("'file''with''quotes.txt'"));
}

#[test]
fn build_in_filter_exact_text() {
    let paths = vec!["a".to_string(), "b'c".to_string()];
    assert_eq!(build_in_filter(&paths), "path IN ('a','b''c')");
    assert_eq!(build_in_filter(&vec![]), "path IN ()");
}

#[test]
fn test_doc_meta_id_generation() {
    let doc1 = DocMeta { path: "test1.txt".to_string(), size_bytes: 100, mtime: 1000, version: EMBEDDING_VERSION };
    let doc2 = DocMeta { path: "test2.txt".to_string(), size_bytes: 100, mtime: 1000, version: EMBEDDING_VERSION };
    let id1 = doc1.id();
    let id2 = doc2.id();
    assert_ne!(id1, id2);
    assert!(id1 >= 0);
    assert!(id2 >= 0);
}

#[test]
fn ids_are_fnv1a_of_path_and_line() {
    // FNV-1a 64 of "a" is 0xaf63dc4c8601ec8c; its low 31 bits are 0x0601ec8c.
    let m = meta("a", 1, 1);
    assert_eq!(m.id(), 0x0601_ec8c);
    let same = meta("a", 9, 9);
    assert_eq!(m.id(), same.id());
    let l0 = line("a", 0, vec![]);
    let l1 = line("a", 1, vec![]);
    assert_ne!(l0.id(), l1.id());
    assert_eq!(l0.id(), line("a", 0, vec![7]).id());
    assert!(l0.id() >= 1);
}

#[test]
fn upsert_lines_twice_is_upsert_once() {
    let mut once = Store::new();
    let xs = vec![line("p", 0, vec![1]), line("p", 1, vec![2]), line("q", 0, vec![3])];
    assert!(once.upsert_line_embeddings(&vec![line("p", 5, vec![9])]).is_ok());
    let mut twice = Store::new();
    assert!(twice.upsert_line_embeddings(&vec![line("p", 5, vec![9])]).is_ok());
    assert!(once.upsert_line_embeddings(&xs).is_ok());
    assert!(twice.upsert_line_embeddings(&xs).is_ok());
    assert!(twice.upsert_line_embeddings(&xs).is_ok());
    let a: Vec<(String, i32, Vec<u32>)> =
        once.line_entries().iter().map(|l| (l.path.clone(), l.line_number, l.embedding.clone())).collect();
    let b: Vec<(String, i32, Vec<u32>)> =
        twice.line_entries().iter().map(|l| (l.path.clone(), l.line_number, l.embedding.clone())).collect();
    assert_eq!(a, b);
    assert_eq!(a.len(), 3);
}

#[test]
fn restore_then_existing_docs_and_search() {
    let mut store = Store::new();
    let xs = vec![line("/d/a.txt", 0, vec![1]), line("/d/a.txt", 1, vec![2]), line("/d/b.txt", 0, vec![3])];
    let ms = vec![meta("/d/a.txt", 10, 1), DocMeta { version: 1, ..meta("/d/b.txt", 5, 2) }];
    assert!(store.upsert_line_embeddings(&xs).is_ok());
    store.upsert_document_metadata(&ms);
    let saved_docs: Vec<DocMeta> = store.documents().iter().map(|m| m.duplicate()).collect();
    let saved_lines: Vec<LineEmbedding> = store.line_entries().iter().map(|l| l.duplicate()).collect();
    let reopened = Store::restore(saved_docs, saved_lines).ok().unwrap();
    let paths = vec!["/d/a.txt".to_string(), "/d/b.txt".to_string()];
    let existing = reopened.get_existing_docs(&paths);
    assert_eq!(existing.len(), 1);
    assert_eq!(existing[0].path, "/d/a.txt");
    let dists = vec![Some(30u64), Some(10), Some(20)];
    let found = reopened.search_line_embeddings(&dists, &paths, 10, None);
    let got: Vec<(String, i32, u64)> = found.iter().map(|r| (r.path.clone(), r.line_number, r.distance)).collect();
    assert_eq!(
        got,
        vec![
            ("/d/a.txt".to_string(), 1, 10),
            ("/d/b.txt".to_string(), 0, 20),
            ("/d/a.txt".to_string(), 0, 30)
        ]
    );
}

#[test]
fn search_respects_filter_threshold_and_top_k() {
    let mut store = Store::new();
    assert!(store.upsert_line_embeddings(&vec![
        line("x", 0, vec![1]),
        line("y", 0, vec![1]),
        line("x", 1, vec![1]),
        line("z", 0, vec![1]),
    ]).is_ok());
    let dists = vec![Some(5u64), Some(1), None, Some(2)];
    let only_x_y = vec!["x".to_string(), "y".to_string()];
    let r = store.search_line_embeddings(&dists, &only_x_y, 1, None);
    assert_eq!(r.len(), 1);
    assert_eq!((r[0].path.as_str(), r[0].distance), ("y", 1));
    let r = store.search_line_embeddings(&dists, &only_x_y, 10, Some(4));
    assert_eq!(r.len(), 1);
    assert_eq!(r[0].path, "y");
    let r = store.search_line_embeddings(&dists, &only_x_y, 10, Some(5));
    assert_eq!(r.len(), 2);
    assert_eq!((r[1].path.as_str(), r[1].line_number, r[1].distance), ("x", 0, 5));
}

#[test]
fn delete_then_search_returns_nothing_of_the_path() {
    let mut store = Store::new();
    assert!(store.update_with_documents(
        &vec![doc_with("a.txt", "one\ntwo"), doc_with("b.txt", "three")],
        &vec![meta("a.txt", 7, 1), meta("b.txt", 5, 1)],
    ).is_ok());
    assert_eq!(store.line_entries().len(), 3);
    store.delete_documents(&vec!["a.txt".to_string()]);
    let n = store.line_entries().len();
    assert_eq!(n, 1);
    let dists = vec![Some(0u64); n];
    let all = vec!["a.txt".to_string(), "b.txt".to_string()];
    let r = store.search_line_embeddings(&dists, &all, 10, None);
    assert!(r.iter().all(|x| x.path != "a.txt"));
    assert_eq!(store.get_all_document_paths(), vec!["b.txt".to_string()]);
}

#[test]
fn classification_new_unchanged_changed_missing() {
    let mut store = Store::new();
    store.upsert_document_metadata(&vec![
        meta("same.txt", 10, 100),
        meta("size.txt", 10, 100),
        meta("time.txt", 10, 100),
        DocMeta { version: 1, ..meta("old.txt", 10, 100) },
    ]);
    let paths: Vec<String> = ["same.txt", "size.txt", "time.txt", "old.txt", "new.txt", "gone.txt"]
        .iter()
        .map(|s| s.to_string())
        .collect();
    let stats = vec![
        Some(FileStat { size_bytes: 10, mtime: 100 }),
        Some(FileStat { size_bytes: 11, mtime: 100 }),
        Some(FileStat { size_bytes: 10, mtime: 101 }),
        Some(FileStat { size_bytes: 10, mtime: 100 }),
        Some(FileStat { size_bytes: 3, mtime: 4 }),
        None,
    ];
    let states = store.analyze_document_states(&paths, &stats);
    assert_eq!(states.len(), 5);
    assert!(matches!(&states[0], DocumentState::Unchanged(p) if p == "same.txt"));
    assert!(matches!(&states[1], DocumentState::Changed(m) if m.path == "size.txt" && m.size_bytes == 11));
    assert!(matches!(&states[2], DocumentState::Changed(m) if m.path == "time.txt" && m.mtime == 101));
    assert!(matches!(&states[3], DocumentState::Changed(m) if m.path == "old.txt" && m.version == EMBEDDING_VERSION));
    assert!(matches!(&states[4], DocumentState::New(m) if m.path == "new.txt" && m.size_bytes == 3));
}

#[test]
fn reconciliation_new_then_unchanged_then_changed() {
    let mut store = Store::new();
    let paths = vec!["f1.txt".to_string(), "f2.txt".to_string()];
    let stats = vec![Some(FileStat { size_bytes: 7, mtime: 1 }), Some(FileStat { size_bytes: 5, mtime: 1 })];
    let states = store.analyze_document_states(&paths, &stats);
    assert!(states.iter().all(|s| matches!(s, DocumentState::New(_))));
    assert!(store.update_with_documents(
        &vec![doc_with("f1.txt", "one\ntwo"), doc_with("f2.txt", "three")],
        &vec![meta("f1.txt", 7, 1), meta("f2.txt", 5, 1)],
    ).is_ok());
    let count = store.line_entries().len();
    assert_eq!(count, 3);
    let again = store.analyze_document_states(&paths, &stats);
    assert!(again.iter().all(|s| matches!(s, DocumentState::Unchanged(_))));
    let grown = vec![Some(FileStat { size_bytes: 13, mtime: 2 }), Some(FileStat { size_bytes: 5, mtime: 1 })];
    let third = store.analyze_document_states(&paths, &grown);
    assert!(matches!(&third[0], DocumentState::Changed(_)));
    assert!(matches!(&third[1], DocumentState::Unchanged(_)));
    assert!(store.update_with_documents(&vec![doc_with("f1.txt", "one\ntwo\nthree more")], &vec![meta("f1.txt", 13, 2)]).is_ok());
    assert_eq!(store.line_entries().len(), 4);
    let f1: Vec<i32> = store.line_entries().iter().filter(|l| l.path == "f1.txt").map(|l| l.line_number).collect();
    assert_eq!(f1, vec![0, 1, 2]);
    let n = store.line_entries().len();
    let dists: Vec<Option<u64>> = store
        .line_entries()
        .iter()
        .map(|l| Some(if l.line_number == 2 { 1 } else { 9 }))
        .collect();
    assert_eq!(dists.len(), n);
    let hits = store.search_line_embeddings(&dists, &vec!["f1.txt".to_string()], 1, None);
    assert_eq!((hits[0].path.as_str(), hits[0].line_number), ("f1.txt", 2));
}

#[test]
fn prune_removes_missing_files() {
    let mut store = Store::new();
    assert!(store.update_with_documents(
        &vec![doc_with("keep.txt", "a"), doc_with("gone.txt", "b\nc")],
        &vec![meta("keep.txt", 1, 1), meta("gone.txt", 3, 1)],
    ).is_ok());
    let exists = vec![true, false];
    let out = store.prune(&exists);
    assert_eq!(out.files_removed, 1);
    assert_eq!(out.files_remaining, 1);
    assert_eq!(store.get_all_document_paths(), vec!["keep.txt".to_string()]);
    assert!(store.line_entries().iter().all(|l| l.path != "gone.txt"));
    let again = store.prune(&vec![true]);
    assert_eq!(again.files_removed, 0);
}

#[test]
fn upsert_keeps_last_entry_of_a_key() {
    let mut store = Store::new();
    assert!(store.upsert_line_embeddings(&vec![line("p", 0, vec![1]), line("p", 0, vec![2])]).is_ok());
    assert_eq!(store.line_entries().len(), 1);
    assert_eq!(store.line_entries()[0].embedding, vec![2]);
}

#[test]
fn upsert_refuses_bad_dimensions() {
    let mut store = Store::new();
    assert!(matches!(store.upsert_line_embeddings(&vec![line("p", 0, vec![])]), Err(StoreError::DimensionMismatch)));
    assert!(store
        .upsert_line_embeddings(&vec![line("p", 0, vec![1, 2]), line("p", 1, vec![1])])
        .is_err());
    assert_eq!(store.line_entries().len(), 0);
    assert!(store.upsert_line_embeddings(&vec![line("p", 0, vec![1, 2])]).is_ok());
    assert!(store.upsert_line_embeddings(&vec![line("q", 0, vec![1, 2, 3])]).is_err());
    assert_eq!(store.line_entries().len(), 1);
    assert!(store.upsert_line_embeddings(&vec![]).is_ok());
    assert_eq!(store.line_entries().len(), 1);
    assert!(Store::restore(vec![], vec![line("a", 0, vec![1]), line("b", 0, vec![1, 2])]).is_err());
}

#[test]
fn context_of_a_stored_line() {
    let hit = RankedLine { path: "f.txt".to_string(), line_number: 1, distance: 7 };
    let r = resolve_context(&hit, "a\nb\nc\nd", 1).unwrap();
    assert_eq!((r.start, r.end, r.match_line, r.distance), (0, 3, 1, 7));
    assert_eq!(r.lines, vec!["a".to_string(), "b".to_string(), "c".to_string()]);
    assert_eq!(r.filename, "f.txt");
    let gone = RankedLine { path: "f.txt".to_string(), line_number: 4, distance: 7 };
    assert!(resolve_context(&gone, "a\nb\nc\nd", 1).is_none());
    let negative = RankedLine { path: "f.txt".to_string(), line_number: -1, distance: 7 };
    assert!(resolve_context(&negative, "a", 1).is_none());
}

#[test]
fn only_changed_and_new_files_are_embedded() {
    let mut store = Store::new();
    store.upsert_document_metadata(&vec![meta("same.txt", 1, 1), meta("old.txt", 1, 1)]);
    let paths = vec!["same.txt".to_string(), "old.txt".to_string(), "new.txt".to_string()];
    let stats = vec![
        Some(FileStat { size_bytes: 1, mtime: 1 }),
        Some(FileStat { size_bytes: 2, mtime: 1 }),
        Some(FileStat { size_bytes: 3, mtime: 1 }),
    ];
    let todo = documents_to_embed(&store.analyze_document_states(&paths, &stats));
    let names: Vec<(String, u64)> = todo.iter().map(|m| (m.path.clone(), m.size_bytes)).collect();
    assert_eq!(names, vec![("old.txt".to_string(), 2), ("new.txt".to_string(), 3)]);
}
