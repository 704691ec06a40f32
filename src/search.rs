//! Line-level ranking of in-memory documents against a query.
//!
//! Distances are order-preserving keys: for a non-negative distance the key is
//! the bit pattern of its IEEE-754 double, so comparing keys compares the
//! distances. The caller computes them from the embeddings.
use vstd::prelude::*;
use crate::ranking::{sort_candidates, sort_by_distance, take_prefix, lemma_sort_by_distance_facts};
use crate::text::{lines_of, lower_of, split_lines, lowercase};
use crate::store::RankedLine;

verus! {

/// One file's lines with one embedding per line. An embedding holds the bit
/// patterns of its `f32` components.
pub struct Document {
    pub filename: String,
    pub lines: Vec<String>,
    pub embeddings: Vec<Vec<u32>>,
}

impl Document {
    pub open spec fn wf(&self) -> bool {
        self.lines@.len() == self.embeddings@.len()
    }
}

/// A file's lines, split and ready to be embedded: `embedding_inputs[i]` is
/// the text that the embedder sees for `lines[i]`.
pub struct PreparedDocument {
    pub filename: String,
    pub lines: Vec<String>,
    pub embedding_inputs: Vec<String>,
}

pub struct SearchConfig {
    /// Context lines before and after each match.
    pub n_lines: usize,
    /// Largest number of results when `max_distance` is unset.
    pub top_k: usize,
    /// Keep only results whose distance key is below this one; `top_k` is then ignored.
    pub max_distance: Option<u64>,
    /// Lowercase the text fed to the embedder.
    pub ignore_case: bool,
}

pub struct SearchResult {
    pub filename: String,
    pub lines: Vec<String>,
    pub start: usize,
    pub end: usize,
    pub match_line: usize,
    pub distance: u64,
}

/// An empty or newline-only text.
pub open spec fn only_newlines(s: Seq<char>) -> bool {
    forall|i: int| 0 <= i < s.len() ==> #[trigger] s[i] == '\n'
}

/// What the embedder is given for a line.
pub open spec fn embedding_input(line: Seq<char>, ignore_case: bool) -> Seq<char> {
    if ignore_case {
        lower_of(line)
    } else {
        line
    }
}

/// The text fed to the embedder for a line or a query.
pub fn embedding_text(s: &str, ignore_case: bool) -> (r: String)
    ensures
        r@ == embedding_input(s@, ignore_case),
{
    if ignore_case {
        lowercase(s)
    } else {
        s.to_owned()
    }
}

/// Splits `content` into lines and pairs each with the text to embed.
/// Returns `None` for an empty or newline-only text.
pub fn create_document_from_content(filename: String, content: &str, ignore_case: bool) -> (r:
    Option<PreparedDocument>)
    ensures
        r is None <==> only_newlines(content@),
        r matches Some(d) ==> {
            &&& d.filename@ == filename@
            &&& d.lines@.len() == lines_of(content@).len()
            &&& d.embedding_inputs@.len() == d.lines@.len()
            &&& forall|i: int|
                0 <= i < d.lines@.len() ==> {
                    &&& #[trigger] d.lines@[i]@ == lines_of(content@)[i]
                    &&& d.embedding_inputs@[i]@ == embedding_input(lines_of(content@)[i], ignore_case)
                }
        },
{
    let n = content.unicode_len();
    let mut k: usize = 0;
    while k < n && content.get_char(k) == '\n'
        invariant
            n == content@.len(),
            k <= n,
            forall|j: int| 0 <= j < k ==> #[trigger] content@[j] == '\n',
        decreases n - k,
    {
        k = k + 1;
    }
    if k == n {
        return None;
    }
    let lines = split_lines(content);
    let mut inputs: Vec<String> = Vec::new();
    let mut i: usize = 0;
    while i < lines.len()
        invariant
            i <= lines@.len(),
            lines@.len() == lines_of(content@).len(),
            forall|j: int| 0 <= j < lines@.len() ==> #[trigger] lines@[j]@ == lines_of(content@)[j],
            inputs@.len() == i,
            forall|j: int|
                0 <= j < i ==> #[trigger] inputs@[j]@ == embedding_input(lines@[j]@, ignore_case),
        decreases lines@.len() - i,
    {
        let t = embedding_text(lines[i].as_str(), ignore_case);
        inputs.push(t);
        i = i + 1;
    }
    Some(PreparedDocument { filename, lines, embedding_inputs: inputs })
}

impl PreparedDocument {
    /// Attaches the embeddings of the lines, one per line in order.
    pub fn into_document(self, embeddings: Vec<Vec<u32>>) -> (r: Document)
        requires
            embeddings@.len() == self.lines@.len(),
        ensures
            r.wf(),
            r.filename == self.filename,
            r.lines == self.lines,
            r.embeddings == embeddings,
    {
        Document { filename: self.filename, lines: self.lines, embeddings }
    }
}

/// First line of the context window around line `i`.
pub open spec fn window_start(i: int, n: int) -> int {
    if i - n > 0 {
        i - n
    } else {
        0
    }
}

/// End (exclusive) of the context window around line `i` in a text of `len` lines.
pub open spec fn window_end(i: int, n: int, len: int) -> int {
    if i + n + 1 < len {
        i + n + 1
    } else {
        len
    }
}

/// The half-open window `[max(0, i - n), min(len, i + n + 1))`.
pub fn context_window(i: usize, n: usize, len: usize) -> (r: (usize, usize))
    requires
        i < len,
    ensures
        r.0 == window_start(i as int, n as int),
        r.1 == window_end(i as int, n as int, len as int),
        r.0 <= i < r.1 <= len,
{
    let start: usize = if i > n {
        i - n
    } else {
        0
    };
    let end: usize = if n < len - i - 1 {
        i + n + 1
    } else {
        len
    };
    (start, end)
}

/// Whether a distance survives the threshold.
pub open spec fn kept(d: Option<u64>, max_distance: Option<u64>) -> bool {
    &&& d is Some
    &&& (max_distance matches Some(m) ==> d->0 < m)
}

/// The kept lines of document `doc`, in line order: `(doc, line, distance)`.
pub open spec fn line_candidates(doc: int, row: Seq<Option<u64>>, max_distance: Option<u64>) -> Seq<
    (int, int, u64),
>
    decreases row.len(),
{
    if row.len() == 0 {
        Seq::empty()
    } else {
        let rest = line_candidates(doc, row.drop_last(), max_distance);
        if kept(row.last(), max_distance) {
            rest.push((doc, row.len() - 1, row.last()->0))
        } else {
            rest
        }
    }
}

/// All kept lines: documents in order, lines in ascending order.
pub open spec fn all_candidates(rows: Seq<Seq<Option<u64>>>, max_distance: Option<u64>) -> Seq<
    (int, int, u64),
>
    decreases rows.len(),
{
    if rows.len() == 0 {
        Seq::empty()
    } else {
        all_candidates(rows.drop_last(), max_distance) + line_candidates(
            rows.len() - 1,
            rows.last(),
            max_distance,
        )
    }
}

/// Candidates as `(distance, position among candidates)`.
pub open spec fn keyed(cs: Seq<(int, int, u64)>) -> Seq<(u64, usize)> {
    Seq::new(cs.len(), |i: int| (cs[i].2, i as usize))
}

pub open spec fn distance_rows(distances: Seq<Vec<Option<u64>>>) -> Seq<Seq<Option<u64>>> {
    distances.map_values(|v: Vec<Option<u64>>| v@)
}

/// The ranked order: sorted by distance, stable, cut to `top_k` when no
/// threshold is set.
pub open spec fn ranked_order(
    rows: Seq<Seq<Option<u64>>>,
    top_k: usize,
    max_distance: Option<u64>,
) -> Seq<(u64, usize)> {
    let sorted = sort_by_distance(keyed(all_candidates(rows, max_distance)));
    if max_distance is None {
        take_prefix(sorted, top_k as nat)
    } else {
        sorted
    }
}

/// `r` is the result for line `line` of `doc` at distance `dist`.
pub open spec fn result_for(r: SearchResult, doc: Document, line: int, dist: u64, n: usize) -> bool {
    &&& r.filename@ == doc.filename@
    &&& r.match_line == line
    &&& r.start == window_start(line, n as int)
    &&& r.end == window_end(line, n as int, doc.lines@.len() as int)
    &&& r.lines@ == doc.lines@.subrange(r.start as int, r.end as int)
    &&& r.distance == dist
}

/// The candidate behind the `i`-th ranked result.
pub open spec fn candidate_at(
    rows: Seq<Seq<Option<u64>>>,
    top_k: usize,
    max_distance: Option<u64>,
    i: int,
) -> (int, int, u64) {
    all_candidates(rows, max_distance)[ranked_order(rows, top_k, max_distance)[i].1 as int]
}

/// `r` is the result for candidate `c` of `documents`.
pub open spec fn result_matches(r: SearchResult, documents: Seq<Document>, c: (int, int, u64), n: usize) -> bool {
    &&& 0 <= c.0 < documents.len()
    &&& 0 <= c.1 < documents[c.0].lines@.len()
    &&& result_for(r, documents[c.0], c.1, c.2, n)
}

pub open spec fn distances_fit(documents: Seq<Document>, distances: Seq<Vec<Option<u64>>>) -> bool {
    &&& distances.len() == documents.len()
    &&& forall|d: int|
        0 <= d < documents.len() ==> #[trigger] distances[d]@.len() == documents[d].lines@.len()
}

/// `r` is the ranking of the lines of `documents`: one result per ranked
/// candidate, in ranked order.
pub open spec fn is_ranking(
    documents: Seq<Document>,
    distances: Seq<Vec<Option<u64>>>,
    n_lines: usize,
    top_k: usize,
    max_distance: Option<u64>,
    r: Seq<SearchResult>,
) -> bool {
    &&& r.len() == ranked_order(distance_rows(distances), top_k, max_distance).len()
    &&& forall|i: int|
        0 <= i < r.len() ==> (#[trigger] r[i]).distance == ranked_order(
            distance_rows(distances),
            top_k,
            max_distance,
        )[i].0
    &&& forall|i: int|
        0 <= i < r.len() ==> #[trigger] result_matches(
            r[i],
            documents,
            candidate_at(distance_rows(distances), top_k, max_distance, i),
            n_lines,
        )
}

fn copy_lines(lines: &Vec<String>, start: usize, end: usize) -> (r: Vec<String>)
    requires
        start <= end <= lines@.len(),
    ensures
        r@ == lines@.subrange(start as int, end as int),
{
    let mut out: Vec<String> = Vec::new();
    let mut k: usize = start;
    while k < end
        invariant
            start <= k <= end <= lines@.len(),
            out@ == lines@.subrange(start as int, k as int),
        decreases end - k,
    {
        out.push(lines[k].clone());
        proof {
            assert(out@ =~= lines@.subrange(start as int, k as int + 1));
        }
        k = k + 1;
    }
    out
}

/// Ranks every line of `documents` by its distance to the query.
/// `distances[d][i]` is the distance key of line `i` of document `d`, or
/// `None` where the distance is undefined (a zero-norm vector).
pub fn search_documents(
    documents: &Vec<Document>,
    distances: &Vec<Vec<Option<u64>>>,
    config: &SearchConfig,
) -> (r: Vec<SearchResult>)
    requires
        distances_fit(documents@, distances@),
    ensures
        is_ranking(documents@, distances@, config.n_lines, config.top_k, config.max_distance, r@),
{
    let ghost rows = distance_rows(distances@);
    let ghost max = config.max_distance;
    let mut found: Vec<(usize, usize)> = Vec::new();
    let mut keys: Vec<(u64, usize)> = Vec::new();
    let mut d: usize = 0;
    while d < documents.len()
        invariant
            d <= documents@.len(),
            distances_fit(documents@, distances@),
            rows == distance_rows(distances@),
            max == config.max_distance,
            found@.len() == keys@.len(),
            keys@ == keyed(all_candidates(rows.subrange(0, d as int), max)),
            forall|k: int|
                0 <= k < found@.len() ==> {
                    &&& (#[trigger] found@[k]).0 as int == all_candidates(rows.subrange(0, d as int), max)[k].0
                    &&& found@[k].1 as int == all_candidates(rows.subrange(0, d as int), max)[k].1
                    &&& found@[k].0 < documents@.len()
                    &&& found@[k].1 < documents@[found@[k].0 as int].lines@.len()
                },
        decreases documents@.len() - d,
    {
        let row = &distances[d];
        let ghost before = all_candidates(rows.subrange(0, d as int), max);
        proof {
            assert(rows.subrange(0, d as int + 1).drop_last() =~= rows.subrange(0, d as int));
            assert(rows.subrange(0, d as int + 1).last() == row@);
        }
        let mut l: usize = 0;
        while l < row.len()
            invariant
                d < documents@.len(),
                l <= row@.len(),
                distances_fit(documents@, distances@),
                row@ == distances@[d as int]@,
                rows == distance_rows(distances@),
                max == config.max_distance,
                found@.len() == keys@.len(),
                keys@ == keyed(before + line_candidates(d as int, row@.subrange(0, l as int), max)),
                forall|k: int|
                    0 <= k < found@.len() ==> {
                        &&& (#[trigger] found@[k]).0 as int == (before + line_candidates(d as int, row@.subrange(0, l as int), max))[k].0
                        &&& found@[k].1 as int == (before + line_candidates(d as int, row@.subrange(0, l as int), max))[k].1
                        &&& found@[k].0 < documents@.len()
                        &&& found@[k].1 < documents@[found@[k].0 as int].lines@.len()
                    },
            decreases row@.len() - l,
        {
            let ghost prev = before + line_candidates(d as int, row@.subrange(0, l as int), max);
            proof {
                assert(row@.subrange(0, l as int + 1).drop_last() =~= row@.subrange(0, l as int));
            }
            let keep = match row[l] {
                Some(x) => match config.max_distance {
                    Some(m) => x < m,
                    None => true,
                },
                None => false,
            };
            if keep {
                let x = row[l].unwrap();
                let pos = found.len();
                found.push((d, l));
                keys.push((x, pos));
                proof {
                    let next = before + line_candidates(d as int, row@.subrange(0, l as int + 1), max);
                    assert(next =~= prev.push((d as int, l as int, x)));
                    assert(keys@ =~= keyed(next));
                }
            } else {
                proof {
                    let next = before + line_candidates(d as int, row@.subrange(0, l as int + 1), max);
                    assert(next =~= prev);
                }
            }
            l = l + 1;
        }
        proof {
            assert(row@.subrange(0, l as int) =~= row@);
            assert(all_candidates(rows.subrange(0, d as int + 1), max) == before + line_candidates(d as int, row@, max));
        }
        d = d + 1;
    }
    proof {
        assert(rows.subrange(0, d as int) =~= rows);
    }
    let ghost cands = all_candidates(rows, max);
    let sorted = sort_candidates(keys);
    proof {
        lemma_sort_by_distance_facts(keyed(cands));
    }
    let limit: usize = match config.max_distance {
        Some(_) => sorted.len(),
        None => if config.top_k < sorted.len() {
            config.top_k
        } else {
            sorted.len()
        },
    };
    let ghost order = ranked_order(rows, config.top_k, config.max_distance);
    proof {
        assert(order =~= sorted@.subrange(0, limit as int));
    }
    let mut out: Vec<SearchResult> = Vec::new();
    let mut i: usize = 0;
    while i < limit
        invariant
            limit <= sorted@.len(),
            sorted@ == sort_by_distance(keyed(cands)),
            sorted@.len() == cands.len(),
            found@.len() == cands.len(),
            cands == all_candidates(distance_rows(distances@), config.max_distance),
            order == sorted@.subrange(0, limit as int),
            forall|k: int|
                0 <= k < cands.len() ==> exists|j: int|
                    0 <= j < cands.len() && #[trigger] sort_by_distance(keyed(cands))[k] == keyed(cands)[j],
            forall|k: int|
                0 <= k < found@.len() ==> {
                    &&& (#[trigger] found@[k]).0 as int == cands[k].0
                    &&& found@[k].1 as int == cands[k].1
                    &&& found@[k].0 < documents@.len()
                    &&& found@[k].1 < documents@[found@[k].0 as int].lines@.len()
                },
            i <= limit,
            out@.len() == i,
            order == ranked_order(distance_rows(distances@), config.top_k, config.max_distance),
            forall|j: int| 0 <= j < i ==> (#[trigger] out@[j]).distance == order[j].0,
            forall|j: int|
                0 <= j < i ==> #[trigger] result_matches(
                    out@[j],
                    documents@,
                    candidate_at(distance_rows(distances@), config.top_k, config.max_distance, j),
                    config.n_lines,
                ),
        decreases limit - i,
    {
        let (dist, ci) = sorted[i];
        let n_found = found.len();
        proof {
            let j = choose|j: int| 0 <= j < cands.len() && #[trigger] sort_by_distance(keyed(cands))[i as int] == keyed(cands)[j];
            assert(j < n_found);
            assert(keyed(cands)[j] == (cands[j].2, j as usize));
            assert(sorted@[i as int] == (dist, ci));
            assert(ci as int == j);
        }
        let (doc_idx, line_idx) = found[ci];
        let doc = &documents[doc_idx];
        let (start, end) = context_window(line_idx, config.n_lines, doc.lines.len());
        let lines = copy_lines(&doc.lines, start, end);
        out.push(SearchResult {
            filename: doc.filename.clone(),
            lines,
            start,
            end,
            match_line: line_idx,
            distance: dist,
        });
        i = i + 1;
    }
    out
}


/// The result for a ranked stored line, with its context window taken from
/// the file's current `content`; `None` where the file no longer has that line.
pub fn resolve_context(line: &RankedLine, content: &str, n_lines: usize) -> (r: Option<SearchResult>)
    ensures
        r is Some <==> (0 <= line.line_number && (line.line_number as int) < lines_of(content@).len()),
        r matches Some(s) ==> {
            &&& s.filename@ == line.path@
            &&& s.match_line == line.line_number as int
            &&& s.distance == line.distance
            &&& s.start == window_start(line.line_number as int, n_lines as int)
            &&& s.end == window_end(line.line_number as int, n_lines as int, lines_of(content@).len() as int)
            &&& s.lines@.len() == s.end - s.start
            &&& forall|k: int| 0 <= k < s.lines@.len() ==> #[trigger] s.lines@[k]@ == lines_of(content@)[s.start + k]
        },
{
    let lines = split_lines(content);
    if line.line_number < 0 || line.line_number as usize >= lines.len() {
        return None;
    }
    let i = line.line_number as usize;
    let (start, end) = context_window(i, n_lines, lines.len());
    let window = copy_lines(&lines, start, end);
    Some(SearchResult {
        filename: line.path.clone(),
        lines: window,
        start,
        end,
        match_line: i,
        distance: line.distance,
    })
}

} // verus!
