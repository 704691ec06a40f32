use semtools::search::{
    context_window, create_document_from_content, search_documents, Document, SearchConfig,
    SearchResult,
};

const DIM: usize = 64;

/// A deterministic stand-in for the embedding model: character counts,
/// folded into a fixed number of dimensions.
fn fake_embed(text: &str) -> Vec<f32> {
    let mut v = vec![0.0f32; DIM];
    for c in text.chars() {
        v[(c as usize) % DIM] += 1.0;
    }
    v
}

fn cosine_key(a: &[f32], b: &[f32]) -> Option<u64> {
    let mut dot = 0.0f64;
    let mut na = 0.0f64;
    let mut nb = 0.0f64;
    for i in 0..a.len() {
        dot += a[i] as f64 * b[i] as f64;
        na += a[i] as f64 * a[i] as f64;
        nb += b[i] as f64 * b[i] as f64;
    }
    if na == 0.0 || nb == 0.0 {
        return None;
    }
    let d = (1.0 - dot / (na.sqrt() * nb.sqrt())).max(0.0);
    Some(d.to_bits())
}

fn distance_value(key: u64) -> f64 {
    f64::from_bits(key)
}

fn threshold(d: f64) -> u64 {
    d.to_bits()
}

fn make_document(filename: &str, lines: Vec<&str>, ignore_case: bool) -> Document {
    let content = lines.join("\n");
    let prepared = create_document_from_content(filename.to_string(), &content, ignore_case)
        .expect("Failed to create test document");
    let embeddings: Vec<Vec<u32>> = prepared
        .embedding_inputs
        .iter()
        .map(|t| fake_embed(t).iter().map(|x| x.to_bits()).collect())
        .collect();
    prepared.into_document(embeddings)
}

fn distances_for(documents: &[Document], query: &str) -> Vec<Vec<Option<u64>>> {
    let q = fake_embed(query);
    documents
        .iter()
        .map(|d| {
            d.embeddings
                .iter()
                .map(|e| {
                    let v: Vec<f32> = e.iter().map(|b| f32::from_bits(*b)).collect();
                    cosine_key(&q, &v)
                })
                .collect()
        })
        .collect()
}

fn create_test_config() -> SearchConfig {
    SearchConfig { n_lines: 3, top_k: 3, max_distance: None, ignore_case: false }
}

fn run(documents: &Vec<Document>, query: &str, config: &SearchConfig) -> Vec<SearchResult> {
    let distances = distances_for(documents, query);
    search_documents(documents, &distances, config)
}

#[test]
fn test_search_documents_basic() {
    let doc1 = make_document("file1.txt", vec!["hello world", "goodbye world", "test line"], false);
    let doc2 = make_document("file2.txt", vec!["another test", "more content"], false);
    let documents = vec![doc1, doc2];
    let config = create_test_config();
    let results = run(&documents, "test query", &config);
    assert!(!results.is_empty());
    for i in 1..results.len() {
        assert!(results[i - 1].distance <= results[i].distance);
    }
}

#[test]
fn test_search_documents_with_max_distance() {
    let doc = make_document("test.txt", vec!["line 1", "line 2", "line 3"], false);
    let documents = vec![doc];
    let mut config = create_test_config();
    config.max_distance = Some(threshold(0.5));
    let results = run(&documents, "test", &config);
    for result in &results {
        assert!(distance_value(result.distance) < 0.5);
    }
}

#[test]
fn test_search_documents_top_k_limit() {
    let doc = make_document("test.txt", vec!["line 1", "line 2", "line 3", "line 4", "line 5"], false);
    let documents = vec![doc];
    let mut config = create_test_config();
    config.top_k = 2;
    config.max_distance = None;
    let results = run(&documents, "test", &config);
    assert!(results.len() <= 2);
}

#[test]
fn test_search_result_context_calculation() {
    let doc = make_document(
        "test.txt",
        vec!["line 0", "line 1", "line 2", "line 3", "line 4", "line 5"],
        false,
    );
    let documents = vec![doc];
    let mut config = create_test_config();
    config.n_lines = 1;
    let results = run(&documents, "test", &config);
    if !results.is_empty() {
        let result = &results[0];
        assert_eq!(result.lines.len(), 3);
    }
}

#[test]
fn test_context_at_file_boundaries() {
    let doc = make_document("small.txt", vec!["first", "second"], false);
    let documents = vec![doc];
    let mut config = create_test_config();
    config.n_lines = 5;
    let results = run(&documents, "first", &config);
    if !results.is_empty() {
        let result = &results[0];
        assert_eq!(result.start, 0);
        assert_eq!(result.end, 2);
        assert!(result.lines.len() <= 2);
    }
}

#[test]
fn context_clamped_at_file_start() {
    let doc = make_document("small.txt", vec!["first", "second"], false);
    let documents = vec![doc];
    let mut config = create_test_config();
    config.n_lines = 5;
    config.top_k = 1;
    let results = run(&documents, "first", &config);
    assert_eq!(results.len(), 1);
    let result = &results[0];
    assert_eq!(result.start, 0);
    assert_eq!(result.end, 2);
    assert_eq!(result.match_line, 0);
    assert_eq!(result.lines, vec!["first".to_string(), "second".to_string()]);
}

#[test]
fn test_multiple_documents_search() {
    let doc1 = make_document("file1.txt", vec!["apple", "banana"], false);
    let doc2 = make_document("file2.txt", vec!["orange", "grape"], false);
    let documents = vec![doc1, doc2];
    let config = create_test_config();
    let results = run(&documents, "fruit", &config);
    let filenames: Vec<&String> = results.iter().map(|r| &r.filename).collect();
    assert!(!results.is_empty());
    assert!(filenames.contains(&&"file1.txt".to_string()));
    assert!(filenames.contains(&&"file2.txt".to_string()));
}

#[test]
fn ordering_across_files() {
    let doc1 = make_document("a.txt", vec!["apple", "banana"], false);
    let doc2 = make_document("b.txt", vec!["orange", "grape"], false);
    let documents = vec![doc1, doc2];
    let mut config = create_test_config();
    config.top_k = 4;
    let results = run(&documents, "fruit", &config);
    let filenames: Vec<&String> = results.iter().map(|r| &r.filename).collect();
    assert!(results.len() <= 4);
    assert!(filenames.contains(&&"a.txt".to_string()));
    assert!(filenames.contains(&&"b.txt".to_string()));
    for i in 1..results.len() {
        assert!(results[i - 1].distance <= results[i].distance);
    }
}

#[test]
fn test_empty_documents_handling() {
    let documents: Vec<Document> = vec![];
    let config = create_test_config();
    let results = run(&documents, "test", &config);
    assert!(results.is_empty());
}

#[test]
fn test_case_insensitive_search() {
    let doc = make_document("mixed_case.txt", vec!["Hello World", "GOODBYE WORLD", "Test Line"], true);
    let documents = vec![doc];
    let mut config = create_test_config();
    config.ignore_case = true;
    let query_lower = "hello world".to_lowercase();
    let results = run(&documents, &query_lower, &config);
    assert!(!results.is_empty());
    assert_eq!(results[0].lines[0], "Hello World");
}

#[test]
fn test_create_document_from_content() {
    let content = "Line 1\nLine 2\nLine 3";
    let doc = create_document_from_content("test.txt".to_string(), content, false)
        .expect("Failed to create document");
    assert_eq!(doc.filename, "test.txt");
    assert_eq!(doc.lines.len(), 3);
    assert_eq!(doc.embedding_inputs.len(), 3);
    assert_eq!(doc.lines[0], "Line 1");
    assert_eq!(doc.lines[1], "Line 2");
    assert_eq!(doc.lines[2], "Line 3");
}

#[test]
fn test_create_document_from_empty_content() {
    let doc = create_document_from_content("empty.txt".to_string(), "", false);
    assert!(doc.is_none());
}

#[test]
fn test_create_document_with_case_insensitive() {
    let content = "Hello World\nGOODBYE world";
    let doc = create_document_from_content("test.txt".to_string(), content, true)
        .expect("Failed to create document");
    assert_eq!(doc.filename, "test.txt");
    assert_eq!(doc.lines.len(), 2);
    assert_eq!(doc.lines[0], "Hello World");
    assert_eq!(doc.lines[1], "GOODBYE world");
    assert_eq!(doc.embedding_inputs.len(), 2);
    assert_eq!(doc.embedding_inputs[0], "hello world");
    assert_eq!(doc.embedding_inputs[1], "goodbye world");
}

#[test]
fn newline_only_content_makes_no_document() {
    assert!(create_document_from_content("n.txt".to_string(), "\n\n", false).is_none());
    assert!(create_document_from_content("n.txt".to_string(), "", false).is_none());
    let cr = create_document_from_content("n.txt".to_string(), "\r\n", false).unwrap();
    assert_eq!(cr.lines, vec!["".to_string()]);
    let doc = create_document_from_content("n.txt".to_string(), "a\r\n\nb\n", false).unwrap();
    assert_eq!(doc.lines, vec!["a".to_string(), "".to_string(), "b".to_string()]);
}

#[test]
fn document_embeddings_match_lines() {
    let doc = make_document("d.txt", vec!["x", "y", "z"], false);
    assert_eq!(doc.lines.len(), 3);
    assert_eq!(doc.embeddings.len(), 3);
}

#[test]
fn context_window_formula() {
    assert_eq!(context_window(0, 5, 2), (0, 2));
    assert_eq!(context_window(4, 1, 6), (3, 6));
    assert_eq!(context_window(2, 1, 6), (1, 4));
    assert_eq!(context_window(3, usize::MAX, 10), (0, 10));
}

#[test]
fn max_distance_overrides_top_k() {
    let doc = make_document("five.txt", vec!["alpha", "alpha", "alpha", "beta", "zebra"], false);
    let documents = vec![doc];
    let mut config = create_test_config();
    config.top_k = 2;
    config.max_distance = Some(threshold(0.5));
    let results = run(&documents, "alpha", &config);
    assert_eq!(results.len(), 3);
    for r in &results {
        assert!(distance_value(r.distance) < 0.5);
    }
}

#[test]
fn equal_distances_keep_document_then_line_order() {
    let doc1 = make_document("a.txt", vec!["same", "same"], false);
    let doc2 = make_document("b.txt", vec!["same"], false);
    let documents = vec![doc1, doc2];
    let mut config = create_test_config();
    config.top_k = 10;
    let results = run(&documents, "same", &config);
    let order: Vec<(String, usize)> = results.iter().map(|r| (r.filename.clone(), r.match_line)).collect();
    assert_eq!(
        order,
        vec![("a.txt".to_string(), 0), ("a.txt".to_string(), 1), ("b.txt".to_string(), 0)]
    );
}

#[test]
fn case_folding_matches_prelowercased_input() {
    let folded = make_document("m.txt", vec!["Hello World", "GOODBYE"], true);
    let lowered = make_document("m.txt", vec!["hello world", "goodbye"], false);
    let config = create_test_config();
    let a = run(&vec![folded], "X".to_lowercase().as_str(), &config);
    let b = run(&vec![lowered], "x", &config);
    let ka: Vec<(usize, u64)> = a.iter().map(|r| (r.match_line, r.distance)).collect();
    let kb: Vec<(usize, u64)> = b.iter().map(|r| (r.match_line, r.distance)).collect();
    assert_eq!(ka, kb);
    assert_eq!(a.iter().map(|r| r.lines.clone()).collect::<Vec<_>>()[0][0], "Hello World");
}

fn create_test_document(filename: &str, lines: Vec<&str>) -> Document {
    let owned_lines: Vec<String> = lines.iter().map(|s| s.to_string()).collect();
    let embeddings: Vec<Vec<u32>> =
        owned_lines.iter().map(|l| fake_embed(l).iter().map(|x| x.to_bits()).collect()).collect();
    Document { filename: filename.to_string(), lines: owned_lines, embeddings }
}

#[test]
fn test_document_creation() {
    let doc = create_test_document("test.txt", vec!["line 1", "line 2", "line 3"]);
    assert_eq!(doc.filename, "test.txt");
    assert_eq!(doc.lines.len(), 3);
    assert_eq!(doc.embeddings.len(), 3);
    assert_eq!(doc.lines[0], "line 1");
}

#[test]
fn test_search_result_context_boundaries() {
    let doc = create_test_document("test.txt", vec!["line 0", "line 1", "line 2", "line 3", "line 4"]);
    let (bottom_range, top_range) = context_window(2, 2, doc.lines.len());
    assert_eq!(bottom_range, 0);
    assert_eq!(top_range, 5);
    let context_lines = &doc.lines[bottom_range..top_range];
    assert_eq!(context_lines.len(), 5);
    assert_eq!(context_lines[0], "line 0");
    assert_eq!(context_lines[4], "line 4");
}

#[test]
fn test_search_result_context_at_boundaries() {
    let doc = create_test_document("test.txt", vec!["line 0", "line 1", "line 2"]);
    let (bottom_range, top_range) = context_window(0, 2, doc.lines.len());
    assert_eq!(bottom_range, 0);
    assert_eq!(top_range, 3);
    let (bottom_range, top_range) = context_window(2, 2, doc.lines.len());
    assert_eq!(bottom_range, 0);
    assert_eq!(top_range, 3);
}

#[test]
fn test_empty_document_handling() {
    let doc = create_test_document("empty.txt", vec![]);
    assert_eq!(doc.lines.len(), 0);
    assert_eq!(doc.embeddings.len(), 0);
}

#[test]
fn test_search_result_struct() {
    let doc = create_test_document("test.txt", vec!["test line 1", "test line 2", "test line 3"]);
    let search_result = SearchResult {
        filename: doc.filename.clone(),
        lines: doc.lines[1..3].to_vec(),
        start: 1,
        end: 3,
        match_line: 2,
        distance: threshold(0.5),
    };
    assert_eq!(search_result.filename, "test.txt");
    assert_eq!(search_result.lines.len(), 2);
    assert_eq!(search_result.lines[0], "test line 2");
    assert_eq!(search_result.start, 1);
    assert_eq!(search_result.end, 3);
    assert_eq!(search_result.match_line, 2);
    assert_eq!(distance_value(search_result.distance), 0.5);
}
