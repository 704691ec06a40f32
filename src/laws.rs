//! Properties that relate the operations of the library to one another.
use vstd::prelude::*;
use crate::ranking::{sort_by_distance, sorted_by_distance, lemma_sort_by_distance_facts};
use crate::search::{
    SearchResult, Document, is_ranking, ranked_order, all_candidates, line_candidates, keyed,
    distance_rows, embedding_input,
};
use crate::store::{
    LineView, MetaView, RankedLine, EMBEDDING_VERSION, is_search_result, search_order, line_matches,
    keyed_matches, lines_without, metas_without, upsert_lines, upsert_metas, line_paths, meta_paths,
    existing_metas, unique_paths, reports_at, searched_line, lemma_lines_without_facts, same_key,
    lines_without_key, put_lines, lemma_put_lines_facts, lemma_lines_without_key_facts,
};
use crate::reconcile::{classify, classify_all, find_meta, fresh_meta, StateView, FileStat, metas_to_embed, all_document_lines};
use crate::text::lower_of;

verus! {

/// A distance that passes the threshold, if there is one.
pub open spec fn under(d: u64, max_distance: Option<u64>) -> bool {
    match max_distance {
        Some(m) => d < m,
        None => true,
    }
}

/// A distance no greater than the threshold, if there is one.
pub open spec fn at_most(d: u64, max_distance: Option<u64>) -> bool {
    match max_distance {
        Some(m) => d <= m,
        None => true,
    }
}

proof fn lemma_line_candidates_under(doc: int, row: Seq<Option<u64>>, max_distance: Option<u64>)
    ensures
        forall|k: int|
            0 <= k < line_candidates(doc, row, max_distance).len() ==> under(
                #[trigger] line_candidates(doc, row, max_distance)[k].2,
                max_distance,
            ),
    decreases row.len(),
{
    if row.len() > 0 {
        lemma_line_candidates_under(doc, row.drop_last(), max_distance);
        let rest = line_candidates(doc, row.drop_last(), max_distance);
        let lc = line_candidates(doc, row, max_distance);
        assert forall|k: int| 0 <= k < lc.len() implies under(#[trigger] lc[k].2, max_distance) by {
            if k < rest.len() {
                assert(lc[k] == rest[k]);
                assert(under(rest[k].2, max_distance));
            }
        }
    }
}

proof fn lemma_all_candidates_under(rows: Seq<Seq<Option<u64>>>, max_distance: Option<u64>)
    ensures
        forall|k: int|
            0 <= k < all_candidates(rows, max_distance).len() ==> under(
                #[trigger] all_candidates(rows, max_distance)[k].2,
                max_distance,
            ),
    decreases rows.len(),
{
    if rows.len() > 0 {
        lemma_all_candidates_under(rows.drop_last(), max_distance);
        let a = all_candidates(rows.drop_last(), max_distance);
        let b = line_candidates(rows.len() - 1, rows.last(), max_distance);
        lemma_line_candidates_under(rows.len() - 1, rows.last(), max_distance);
        let c = all_candidates(rows, max_distance);
        assert forall|k: int| 0 <= k < c.len() implies under(#[trigger] c[k].2, max_distance) by {
            if k < a.len() {
                assert(c[k] == a[k]);
                assert(under(a[k].2, max_distance));
            } else {
                assert(c[k] == b[k - a.len()]);
                assert(under(b[k - a.len()].2, max_distance));
            }
        }
    }
}

/// Search results come in non-decreasing distance order.
pub proof fn lemma_ranking_is_sorted(
    documents: Seq<Document>,
    distances: Seq<Vec<Option<u64>>>,
    n_lines: usize,
    top_k: usize,
    max_distance: Option<u64>,
    r: Seq<SearchResult>,
)
    requires
        is_ranking(documents, distances, n_lines, top_k, max_distance, r),
    ensures
        forall|i: int, j: int| 0 <= i <= j < r.len() ==> r[i].distance <= r[j].distance,
{
    let rows = distance_rows(distances);
    let s = keyed(all_candidates(rows, max_distance));
    lemma_sort_by_distance_facts(s);
    let order = ranked_order(rows, top_k, max_distance);
    assert(sorted_by_distance(order));
    assert forall|i: int, j: int| 0 <= i <= j < r.len() implies r[i].distance <= r[j].distance by {
        assert(r[i].distance == order[i].0);
        assert(r[j].distance == order[j].0);
    }
}

/// Without a threshold at most `top_k` results come back; with one, every
/// result lies below it.
pub proof fn lemma_ranking_bounds(
    documents: Seq<Document>,
    distances: Seq<Vec<Option<u64>>>,
    n_lines: usize,
    top_k: usize,
    max_distance: Option<u64>,
    r: Seq<SearchResult>,
)
    requires
        is_ranking(documents, distances, n_lines, top_k, max_distance, r),
    ensures
        max_distance is None ==> r.len() <= top_k,
        forall|i: int| 0 <= i < r.len() ==> under(#[trigger] r[i].distance, max_distance),
{
    let rows = distance_rows(distances);
    let cands = all_candidates(rows, max_distance);
    let s = keyed(cands);
    lemma_sort_by_distance_facts(s);
    lemma_all_candidates_under(rows, max_distance);
    let sorted = sort_by_distance(s);
    let order = ranked_order(rows, top_k, max_distance);
    assert forall|i: int| 0 <= i < r.len() implies under(#[trigger] r[i].distance, max_distance) by {
        assert(order[i] == sorted[i]);
        let j = choose|j: int| 0 <= j < s.len() && #[trigger] sorted[i] == s[j];
        assert(s[j].0 == cands[j].2);
        assert(under(cands[j].2, max_distance));
    }
}

proof fn lemma_line_matches_under(
    ls: Seq<LineView>,
    dists: Seq<Option<u64>>,
    ps: Seq<Seq<char>>,
    max_distance: Option<u64>,
)
    ensures
        forall|k: int|
            0 <= k < line_matches(ls, dists, ps, max_distance).len() ==> {
                &&& at_most(#[trigger] line_matches(ls, dists, ps, max_distance)[k].1, max_distance)
                &&& 0 <= line_matches(ls, dists, ps, max_distance)[k].0 < ls.len()
                &&& ps.contains(ls[line_matches(ls, dists, ps, max_distance)[k].0].path)
            },
    decreases ls.len(),
{
    if ls.len() > 0 && dists.len() == ls.len() {
        lemma_line_matches_under(ls.drop_last(), dists.drop_last(), ps, max_distance);
        let rest = line_matches(ls.drop_last(), dists.drop_last(), ps, max_distance);
        let m = line_matches(ls, dists, ps, max_distance);
        assert forall|k: int| 0 <= k < m.len() implies {
            &&& at_most(#[trigger] m[k].1, max_distance)
            &&& 0 <= m[k].0 < ls.len()
            &&& ps.contains(ls[m[k].0].path)
        } by {
            if k < rest.len() {
                assert(m[k] == rest[k]);
                assert(at_most(rest[k].1, max_distance));
                assert(ls.drop_last()[rest[k].0] == ls[rest[k].0]);
            }
        }
    }
}

/// A store search returns at most `top_k` lines, each within the threshold
/// and of one of the requested paths, nearest first.
pub proof fn lemma_store_search_bounds(
    ls: Seq<LineView>,
    dists: Seq<Option<u64>>,
    ps: Seq<Seq<char>>,
    top_k: usize,
    max_distance: Option<u64>,
    r: Seq<RankedLine>,
)
    requires
        is_search_result(ls, dists, ps, top_k, max_distance, r),
    ensures
        r.len() <= top_k,
        forall|i: int| 0 <= i < r.len() ==> at_most(#[trigger] r[i].distance, max_distance),
        forall|i: int| 0 <= i < r.len() ==> ps.contains(#[trigger] r[i].path@),
        forall|i: int, j: int| 0 <= i <= j < r.len() ==> r[i].distance <= r[j].distance,
{
    let ms = line_matches(ls, dists, ps, max_distance);
    let s = keyed_matches(ms);
    lemma_sort_by_distance_facts(s);
    lemma_line_matches_under(ls, dists, ps, max_distance);
    let sorted = sort_by_distance(s);
    let order = search_order(ls, dists, ps, top_k, max_distance);
    assert forall|i: int| 0 <= i < r.len() implies at_most(#[trigger] r[i].distance, max_distance) by {
        assert(order[i] == sorted[i]);
        let j = choose|j: int| 0 <= j < s.len() && #[trigger] sorted[i] == s[j];
        assert(s[j].0 == ms[j].1);
        assert(at_most(ms[j].1, max_distance));
    }
    assert forall|i: int| 0 <= i < r.len() implies ps.contains(#[trigger] r[i].path@) by {
        assert(reports_at(r[i], ls, dists, ps, top_k, max_distance, i));
        let sl = searched_line(ls, dists, ps, top_k, max_distance, i);
        let q = order[i].1 as int;
        assert(order[i] == sorted[i]);
        let j = choose|j: int| 0 <= j < s.len() && #[trigger] sorted[i] == s[j];
        assert(sl == ms[q]);
        if 0 <= q < ms.len() {
            assert(ps.contains(ls[ms[q].0].path));
        } else {
            assert(false) by {
                assert(s[j] == (ms[j].1, j as usize));
            }
        }
    }
    assert(sorted_by_distance(order));
    assert forall|i: int, j: int| 0 <= i <= j < r.len() implies r[i].distance <= r[j].distance by {
        assert(r[i].distance == order[i].0);
        assert(r[j].distance == order[j].0);
    }
}


/// After a deletion no search returns a line of a deleted path, whatever
/// the store held before.
pub proof fn lemma_deleted_paths_not_returned(
    ls: Seq<LineView>,
    deleted: Seq<Seq<char>>,
    dists: Seq<Option<u64>>,
    ps: Seq<Seq<char>>,
    top_k: usize,
    max_distance: Option<u64>,
    r: Seq<RankedLine>,
)
    requires
        is_search_result(lines_without(ls, deleted), dists, ps, top_k, max_distance, r),
    ensures
        forall|i: int| 0 <= i < r.len() ==> !deleted.contains(#[trigger] r[i].path@),
{
    let kept_lines = lines_without(ls, deleted);
    lemma_lines_without_facts(ls, deleted);
    assert forall|i: int| 0 <= i < r.len() implies !deleted.contains(#[trigger] r[i].path@) by {
        assert(reports_at(r[i], kept_lines, dists, ps, top_k, max_distance, i));
        let k = searched_line(kept_lines, dists, ps, top_k, max_distance, i).0;
        assert(!deleted.contains(kept_lines[k].path));
    }
}

proof fn lemma_lines_without_concat(a: Seq<LineView>, b: Seq<LineView>, ps: Seq<Seq<char>>)
    ensures
        lines_without(a + b, ps) == lines_without(a, ps) + lines_without(b, ps),
    decreases b.len(),
{
    if b.len() == 0 {
        assert(a + b =~= a);
        assert(lines_without(a, ps) + lines_without(b, ps) =~= lines_without(a, ps));
    } else {
        assert((a + b).drop_last() =~= a + b.drop_last());
        lemma_lines_without_concat(a, b.drop_last(), ps);
        if ps.contains(b.last().path) {
        } else {
            assert(lines_without(a, ps) + lines_without(b.drop_last(), ps).push(b.last()) =~= (
            lines_without(a, ps) + lines_without(b.drop_last(), ps)).push(b.last()));
        }
    }
}

proof fn lemma_lines_without_twice(a: Seq<LineView>, ps: Seq<Seq<char>>)
    ensures
        lines_without(lines_without(a, ps), ps) == lines_without(a, ps),
    decreases a.len(),
{
    if a.len() > 0 {
        lemma_lines_without_twice(a.drop_last(), ps);
        if !ps.contains(a.last().path) {
            let w = lines_without(a.drop_last(), ps);
            assert(w.push(a.last()).drop_last() =~= w);
        }
    }
}

proof fn lemma_lines_without_all(b: Seq<LineView>, ps: Seq<Seq<char>>)
    requires
        forall|k: int| 0 <= k < b.len() ==> ps.contains(#[trigger] b[k].path),
    ensures
        lines_without(b, ps) == Seq::<LineView>::empty(),
    decreases b.len(),
{
    if b.len() > 0 {
        assert(ps.contains(b[b.len() - 1].path));
        lemma_lines_without_all(b.drop_last(), ps);
    }
}

proof fn lemma_without_key_then_paths(b: Seq<LineView>, x: LineView, ps: Seq<Seq<char>>)
    requires
        ps.contains(x.path),
    ensures
        lines_without(lines_without_key(b, x), ps) == lines_without(b, ps),
    decreases b.len(),
{
    if b.len() > 0 {
        lemma_without_key_then_paths(b.drop_last(), x, ps);
        let w = lines_without_key(b.drop_last(), x);
        if !same_key(b.last(), x) {
            assert(w.push(b.last()).drop_last() =~= w);
        }
    }
}

proof fn lemma_put_then_paths(w: Seq<LineView>, xs: Seq<LineView>, ps: Seq<Seq<char>>)
    requires
        forall|k: int| 0 <= k < xs.len() ==> ps.contains(#[trigger] xs[k].path),
    ensures
        lines_without(put_lines(w, xs), ps) == lines_without(w, ps),
    decreases xs.len(),
{
    if xs.len() > 0 {
        let d = xs.drop_last();
        assert forall|k: int| 0 <= k < d.len() implies ps.contains(#[trigger] d[k].path) by {
            assert(d[k] == xs[k]);
        }
        lemma_put_then_paths(w, d, ps);
        assert(ps.contains(xs[xs.len() - 1].path));
        let a = lines_without_key(put_lines(w, d), xs.last());
        lemma_without_key_then_paths(put_lines(w, d), xs.last(), ps);
        assert(a.push(xs.last()).drop_last() =~= a);
    }
}

/// Upserting the same lines twice leaves the store as upserting them once.
pub proof fn lemma_upsert_lines_idempotent(cur: Seq<LineView>, xs: Seq<LineView>)
    ensures
        upsert_lines(upsert_lines(cur, xs), xs) == upsert_lines(cur, xs),
{
    let ps = line_paths(xs);
    let w = lines_without(cur, ps);
    assert forall|k: int| 0 <= k < xs.len() implies ps.contains(#[trigger] xs[k].path) by {
        assert(ps[k] == xs[k].path);
    }
    lemma_put_then_paths(w, xs, ps);
    lemma_lines_without_twice(cur, ps);
}

proof fn lemma_metas_without_keeps(ms: Seq<MetaView>, ps: Seq<Seq<char>>)
    ensures
        forall|x: MetaView| ms.contains(x) && !ps.contains(x.path) ==> #[trigger] metas_without(ms, ps).contains(x),
        forall|k: int|
            0 <= k < metas_without(ms, ps).len() ==> {
                &&& !ps.contains(#[trigger] metas_without(ms, ps)[k].path)
                &&& ms.contains(metas_without(ms, ps)[k])
            },
        (forall|k: int| 0 <= k < ms.len() ==> !ps.contains(#[trigger] ms[k].path)) ==> metas_without(ms, ps) == ms,
    decreases ms.len(),
{
    if ms.len() > 0 {
        let d = ms.drop_last();
        lemma_metas_without_keeps(d, ps);
        let r = metas_without(ms, ps);
        let rd = metas_without(d, ps);
        assert forall|k: int| 0 <= k < r.len() implies {
            &&& !ps.contains(#[trigger] r[k].path)
            &&& ms.contains(r[k])
        } by {
            if k < rd.len() {
                assert(r[k] == rd[k]);
                assert(!ps.contains(rd[k].path));
                let j = choose|j: int| 0 <= j < d.len() && d[j] == rd[k];
                assert(ms[j] == d[j]);
            } else {
                assert(r[k] == ms[ms.len() - 1]);
            }
        }
        assert forall|x: MetaView| ms.contains(x) && !ps.contains(x.path) implies #[trigger] r.contains(x) by {
            let j = choose|j: int| 0 <= j < ms.len() && ms[j] == x;
            if j == ms.len() - 1 {
                assert(r[r.len() - 1] == x);
            } else {
                assert(d[j] == x);
                assert(rd.contains(x));
                let q = choose|q: int| 0 <= q < rd.len() && rd[q] == x;
                if !ps.contains(ms.last().path) {
                    assert(r[q] == x);
                }
            }
        }
        if forall|k: int| 0 <= k < ms.len() ==> !ps.contains(#[trigger] ms[k].path) {
            assert forall|k: int| 0 <= k < d.len() implies !ps.contains(#[trigger] d[k].path) by {
                assert(d[k] == ms[k]);
            }
            assert(!ps.contains(ms[ms.len() - 1].path));
            assert(d.push(ms.last()) =~= ms);
        }
    }
}

proof fn lemma_upsert_metas_members(cur: Seq<MetaView>, ms: Seq<MetaView>)
    requires
        unique_paths(ms),
    ensures
        forall|x: MetaView| ms.contains(x) ==> #[trigger] upsert_metas(cur, ms).contains(x),
        forall|k: int|
            0 <= k < upsert_metas(cur, ms).len() && meta_paths(ms).contains(upsert_metas(cur, ms)[k].path)
                ==> ms.contains(#[trigger] upsert_metas(cur, ms)[k]),
    decreases ms.len(),
{
    if ms.len() > 0 {
        let d = ms.drop_last();
        assert(unique_paths(d));
        lemma_upsert_metas_members(cur, d);
        let prev = upsert_metas(cur, d);
        let one = seq![ms.last().path];
        lemma_metas_without_keeps(prev, one);
        let w = metas_without(prev, one);
        let r = upsert_metas(cur, ms);
        assert(r == w.push(ms.last()));
        assert forall|x: MetaView| ms.contains(x) implies #[trigger] r.contains(x) by {
            let j = choose|j: int| 0 <= j < ms.len() && ms[j] == x;
            if j == ms.len() - 1 {
                assert(r[r.len() - 1] == x);
            } else {
                assert(d[j] == x);
                assert(prev.contains(x));
                assert(x.path != ms.last().path);
                assert(!one.contains(x.path));
                assert(w.contains(x));
                let q = choose|q: int| 0 <= q < w.len() && w[q] == x;
                assert(r[q] == x);
            }
        }
        assert forall|k: int|
            0 <= k < r.len() && meta_paths(ms).contains(r[k].path) implies ms.contains(#[trigger] r[k]) by {
            if k == r.len() - 1 {
                assert(ms[ms.len() - 1] == r[k]);
            } else {
                assert(r[k] == w[k]);
                assert(!one.contains(w[k].path));
                if w[k].path == ms.last().path {
                    assert(one[0] == w[k].path);
                    assert(one.contains(w[k].path));
                }
                let j = choose|j: int| 0 <= j < meta_paths(ms).len() && meta_paths(ms)[j] == r[k].path;
                assert(j != ms.len() - 1);
                assert(meta_paths(d)[j] == r[k].path);
                assert(prev.contains(w[k]));
                let q = choose|q: int| 0 <= q < prev.len() && prev[q] == w[k];
                assert(d.contains(prev[q]));
                let t = choose|t: int| 0 <= t < d.len() && d[t] == prev[q];
                assert(ms[t] == d[t]);
            }
        }
    }
}

proof fn lemma_existing_metas_members(ms: Seq<MetaView>, ps: Seq<Seq<char>>)
    ensures
        forall|x: MetaView|
            #[trigger] existing_metas(ms, ps).contains(x) <==> (ms.contains(x) && ps.contains(x.path)
                && x.version == EMBEDDING_VERSION),
    decreases ms.len(),
{
    if ms.len() > 0 {
        let d = ms.drop_last();
        lemma_existing_metas_members(d, ps);
        let r = existing_metas(ms, ps);
        let rd = existing_metas(d, ps);
        assert forall|x: MetaView| #[trigger] r.contains(x) <==> (ms.contains(x) && ps.contains(x.path)
            && x.version == EMBEDDING_VERSION) by {
            if r.contains(x) {
                let q = choose|q: int| 0 <= q < r.len() && r[q] == x;
                if q < rd.len() {
                    assert(rd[q] == x);
                    assert(rd.contains(x));
                    let j = choose|j: int| 0 <= j < d.len() && d[j] == x;
                    assert(ms[j] == x);
                } else {
                    assert(ms[ms.len() - 1] == x);
                }
            }
            if ms.contains(x) && ps.contains(x.path) && x.version == EMBEDDING_VERSION {
                let j = choose|j: int| 0 <= j < ms.len() && ms[j] == x;
                if j == ms.len() - 1 {
                    assert(r[r.len() - 1] == x);
                } else {
                    assert(d[j] == x);
                    assert(rd.contains(x));
                    let q = choose|q: int| 0 <= q < rd.len() && rd[q] == x;
                    assert(r[q] == x);
                }
            }
        }
    }
}

/// Saved metadata with one entry per path comes back unchanged when the
/// store is rebuilt from it.
pub proof fn lemma_restore_keeps_metas(ms: Seq<MetaView>)
    requires
        unique_paths(ms),
    ensures
        upsert_metas(Seq::empty(), ms) == ms,
    decreases ms.len(),
{
    if ms.len() > 0 {
        let d = ms.drop_last();
        assert(unique_paths(d));
        lemma_restore_keeps_metas(d);
        let one = seq![ms.last().path];
        lemma_metas_without_keeps(d, one);
        assert forall|k: int| 0 <= k < d.len() implies !one.contains(#[trigger] d[k].path) by {
            assert(d[k].path != ms[ms.len() - 1].path);
            if one.contains(d[k].path) {
                assert(one[0] == d[k].path);
            }
        }
        assert(d.push(ms.last()) =~= ms);
    }
}

/// Starting from an empty store, after upserting lines `xs` and then the
/// metadata `ms`, and rebuilding the store from what it holds: the
/// current-version entries among the paths of `ms` are exactly the
/// current-version entries of `ms`, and a search restricted to those paths
/// returns only lines of `xs`.
pub proof fn lemma_upserts_then_reopen(
    xs: Seq<LineView>,
    ms: Seq<MetaView>,
    dists: Seq<Option<u64>>,
    top_k: usize,
    max_distance: Option<u64>,
    r: Seq<RankedLine>,
)
    requires
        unique_paths(ms),
        is_search_result(upsert_lines(Seq::empty(), xs), dists, meta_paths(ms), top_k, max_distance, r),
    ensures
        upsert_metas(Seq::empty(), upsert_metas(Seq::empty(), ms)) == upsert_metas(Seq::empty(), ms),
        forall|x: MetaView|
            #[trigger] existing_metas(upsert_metas(Seq::empty(), ms), meta_paths(ms)).contains(x) <==> (
            ms.contains(x) && x.version == EMBEDDING_VERSION),
        forall|i: int|
            0 <= i < r.len() ==> exists|k: int|
                0 <= k < xs.len() && xs[k].path == (#[trigger] r[i]).path@ && xs[k].line_number
                    == r[i].line_number,
{
    let empty = Seq::<MetaView>::empty();
    let stored = upsert_metas(empty, ms);
    crate::store::lemma_upsert_metas_unique(empty, ms);
    lemma_restore_keeps_metas(stored);
    lemma_upsert_metas_members(empty, ms);
    lemma_existing_metas_members(stored, meta_paths(ms));
    assert forall|x: MetaView|
        #[trigger] existing_metas(stored, meta_paths(ms)).contains(x) <==> (ms.contains(x) && x.version
            == EMBEDDING_VERSION) by {
        if ms.contains(x) {
            let j = choose|j: int| 0 <= j < ms.len() && ms[j] == x;
            assert(meta_paths(ms)[j] == x.path);
        }
        if stored.contains(x) && meta_paths(ms).contains(x.path) {
            let q = choose|q: int| 0 <= q < stored.len() && stored[q] == x;
            assert(ms.contains(stored[q]));
        }
    }
    let none = Seq::<LineView>::empty();
    let ls2 = upsert_lines(none, xs);
    let w = lines_without(none, line_paths(xs));
    assert(w.len() == 0);
    lemma_put_lines_facts(w, xs);
    assert forall|i: int| 0 <= i < r.len() implies exists|k: int|
        0 <= k < xs.len() && xs[k].path == (#[trigger] r[i]).path@ && xs[k].line_number == r[i].line_number by {
        assert(reports_at(r[i], ls2, dists, meta_paths(ms), top_k, max_distance, i));
        let q = searched_line(ls2, dists, meta_paths(ms), top_k, max_distance, i).0;
        assert(w.contains(ls2[q]) || xs.contains(ls2[q]));
        let k = choose|k: int| 0 <= k < xs.len() && xs[k] == ls2[q];
        assert(xs[k].path == r[i].path@);
    }
}

/// How a file that exists compares with the store: new without an entry,
/// unchanged with an entry of equal size, time and version, changed
/// otherwise; a missing file yields no state.
pub proof fn lemma_classification(ms: Seq<MetaView>, p: Seq<char>, st: FileStat)
    ensures
        find_meta(ms, p) is None ==> classify(ms, p, st) == StateView::New(fresh_meta(p, st)),
        find_meta(ms, p) matches Some(m) ==> (m.size_bytes == st.size_bytes && m.mtime == st.mtime
            && m.version == EMBEDDING_VERSION ==> classify(ms, p, st) == StateView::Unchanged(p)),
        find_meta(ms, p) matches Some(m) ==> (!(m.size_bytes == st.size_bytes && m.mtime == st.mtime
            && m.version == EMBEDDING_VERSION) ==> classify(ms, p, st) == StateView::Changed(
            fresh_meta(p, st),
        )),
        classify_all(ms, seq![p], seq![Some(st)]) == seq![classify(ms, p, st)],
        classify_all(ms, seq![p], seq![None::<FileStat>]) == Seq::<StateView>::empty(),
{
    assert(seq![p].drop_last() =~= Seq::<Seq<char>>::empty());
    assert(classify_all(ms, Seq::<Seq<char>>::empty(), Seq::<Option<FileStat>>::empty()) == Seq::<StateView>::empty());
    assert(seq![Some(st)].drop_last() =~= Seq::<Option<FileStat>>::empty());
    assert(seq![None::<FileStat>].drop_last() =~= Seq::<Option<FileStat>>::empty());
    assert(Seq::<StateView>::empty().push(classify(ms, p, st)) =~= seq![classify(ms, p, st)]);
}

/// With case folding, the embedder sees for each line what it would see
/// without case folding on the lowercased line; the lines themselves are
/// the same either way.
pub proof fn lemma_case_folding(ls: Seq<Seq<char>>)
    ensures
        Seq::new(ls.len(), |i: int| embedding_input(ls[i], true)) == Seq::new(
            ls.len(),
            |i: int| embedding_input(lower_of(ls[i]), false),
        ),
{
    assert(Seq::new(ls.len(), |i: int| embedding_input(ls[i], true)) =~= Seq::new(
        ls.len(),
        |i: int| embedding_input(lower_of(ls[i]), false),
    ));
}


proof fn lemma_classify_all_unchanged(ms: Seq<MetaView>, ps: Seq<Seq<char>>, sts: Seq<Option<FileStat>>)
    requires
        ps.len() == sts.len(),
        forall|i: int|
            0 <= i < sts.len() && sts[i] is Some ==> find_meta(ms, #[trigger] ps[i]) == Some(
                fresh_meta(ps[i], sts[i]->0),
            ),
    ensures
        metas_to_embed(classify_all(ms, ps, sts)) == Seq::<MetaView>::empty(),
    decreases sts.len(),
{
    if sts.len() > 0 {
        let pd = ps.drop_last();
        let sd = sts.drop_last();
        assert forall|i: int|
            0 <= i < sd.len() && sd[i] is Some implies find_meta(ms, #[trigger] pd[i]) == Some(
                fresh_meta(pd[i], sd[i]->0),
            ) by {
            assert(pd[i] == ps[i] && sd[i] == sts[i]);
        }
        lemma_classify_all_unchanged(ms, pd, sd);
        let rest = classify_all(ms, pd, sd);
        if let Some(st) = sts.last() {
            assert(find_meta(ms, ps[ps.len() - 1]) == Some(fresh_meta(ps.last(), st)));
            assert(classify(ms, ps.last(), st) == StateView::Unchanged(ps.last()));
            assert(rest.push(classify(ms, ps.last(), st)).drop_last() =~= rest);
        }
    }
}

proof fn lemma_lines_without_nothing(ls: Seq<LineView>)
    ensures
        lines_without(ls, Seq::empty()) == ls,
    decreases ls.len(),
{
    if ls.len() > 0 {
        lemma_lines_without_nothing(ls.drop_last());
        assert(ls.drop_last().push(ls.last()) =~= ls);
    }
}

/// A second run over files that have not changed since they were stored
/// finds nothing to embed, and writing nothing leaves both tables as they were.
pub proof fn lemma_unchanged_files_write_nothing(
    ms: Seq<MetaView>,
    ls: Seq<LineView>,
    ps: Seq<Seq<char>>,
    sts: Seq<Option<FileStat>>,
)
    requires
        ps.len() == sts.len(),
        forall|i: int|
            0 <= i < sts.len() && sts[i] is Some ==> find_meta(ms, #[trigger] ps[i]) == Some(
                fresh_meta(ps[i], sts[i]->0),
            ),
    ensures
        metas_to_embed(classify_all(ms, ps, sts)) == Seq::<MetaView>::empty(),
        upsert_lines(ls, all_document_lines(Seq::empty())) == ls,
        upsert_metas(ms, Seq::empty()) == ms,
{
    lemma_classify_all_unchanged(ms, ps, sts);
    assert(all_document_lines(Seq::<Document>::empty()) == Seq::<LineView>::empty());
    assert(line_paths(Seq::<LineView>::empty()) =~= Seq::<Seq<char>>::empty());
    lemma_lines_without_nothing(ls);
}

/// Upserting the lines of changed documents keeps every line of other
/// paths, takes the lines of their paths from the batch alone, and holds an
/// entry for every path and line number of the batch.
pub proof fn lemma_upsert_lines_scope(cur: Seq<LineView>, xs: Seq<LineView>)
    ensures
        forall|y: LineView|
            cur.contains(y) && !line_paths(xs).contains(y.path) ==> #[trigger] upsert_lines(cur, xs).contains(y),
        forall|k: int|
            0 <= k < upsert_lines(cur, xs).len() && line_paths(xs).contains(upsert_lines(cur, xs)[k].path)
                ==> xs.contains(#[trigger] upsert_lines(cur, xs)[k]),
        forall|k: int|
            0 <= k < xs.len() ==> exists|j: int|
                0 <= j < upsert_lines(cur, xs).len() && same_key(upsert_lines(cur, xs)[j], #[trigger] xs[k]),
{
    let ps = line_paths(xs);
    let w = lines_without(cur, ps);
    lemma_lines_without_facts(cur, ps);
    lemma_put_lines_facts(w, xs);
    lemma_put_keeps(w, xs);
    let r = upsert_lines(cur, xs);
    assert forall|k: int|
        0 <= k < r.len() && ps.contains(r[k].path) implies xs.contains(#[trigger] r[k]) by {
        if w.contains(r[k]) {
            let q = choose|q: int| 0 <= q < w.len() && w[q] == r[k];
            assert(!ps.contains(w[q].path));
        }
    }
}

proof fn lemma_put_keeps(w: Seq<LineView>, xs: Seq<LineView>)
    ensures
        forall|y: LineView|
            w.contains(y) && !line_paths(xs).contains(y.path) ==> #[trigger] put_lines(w, xs).contains(y),
        forall|k: int|
            0 <= k < xs.len() ==> exists|j: int|
                0 <= j < put_lines(w, xs).len() && same_key(put_lines(w, xs)[j], #[trigger] xs[k]),
    decreases xs.len(),
{
    if xs.len() > 0 {
        let d = xs.drop_last();
        lemma_put_keeps(w, d);
        let prev = put_lines(w, d);
        lemma_lines_without_key_facts(prev, xs.last());
        let v = lines_without_key(prev, xs.last());
        let r = put_lines(w, xs);
        assert(r == v.push(xs.last()));
        assert forall|y: LineView| w.contains(y) && !line_paths(xs).contains(y.path) implies #[trigger] r.contains(y) by {
            if line_paths(d).contains(y.path) {
                let j = choose|j: int| 0 <= j < line_paths(d).len() && line_paths(d)[j] == y.path;
                assert(line_paths(xs)[j] == y.path);
            }
            assert(prev.contains(y));
            if same_key(y, xs.last()) {
                assert(line_paths(xs)[xs.len() - 1] == y.path);
            }
            assert(v.contains(y));
            let q = choose|q: int| 0 <= q < v.len() && v[q] == y;
            assert(r[q] == y);
        }
        assert forall|k: int| 0 <= k < xs.len() implies exists|j: int|
            0 <= j < r.len() && same_key(r[j], #[trigger] xs[k]) by {
            if same_key(xs[k], xs.last()) {
                assert(same_key(r[r.len() - 1], xs[k]));
            } else {
                assert(d[k] == xs[k]);
                let j = choose|j: int| 0 <= j < prev.len() && same_key(prev[j], #[trigger] d[k]);
                assert(prev.contains(prev[j]));
                assert(!same_key(prev[j], xs.last()));
                assert(v.contains(prev[j]));
                let q = choose|q: int| 0 <= q < v.len() && v[q] == prev[j];
                assert(r[q] == v[q]);
                assert(same_key(r[q], xs[k]));
            }
        }
    }
}

} // verus!
