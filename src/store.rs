//! The workspace store: document metadata and line embeddings keyed by path.
//!
//! Two tables are kept in step: one entry of metadata per indexed path, and
//! one entry per line of every indexed document. Upserts replace by path,
//! deletions remove from both tables, and searches are restricted to a set of
//! paths.
use vstd::prelude::*;
use crate::ident::{fnv1a, fnv1a_extend, positive_id, positive_id_of, le_bytes, le_bytes_of, FNV_OFFSET, lemma_fnv1a_from_offset};
use crate::ranking::{sort_candidates, sort_by_distance, take_prefix, lemma_sort_by_distance_facts};

verus! {

/// Version of the embedding pipeline; entries of another version are stale.
pub const EMBEDDING_VERSION: u32 = 2;

pub struct DocMeta {
    pub path: String,
    pub size_bytes: u64,
    pub mtime: i64,
    pub version: u32,
}

pub struct LineEmbedding {
    pub path: String,
    pub line_number: i32,
    /// Bit patterns of the `f32` components.
    pub embedding: Vec<u32>,
}

pub struct RankedLine {
    pub path: String,
    pub line_number: i32,
    pub distance: u64,
}

pub struct WorkspaceStats {
    pub total_documents: usize,
    pub has_index: bool,
    pub index_type: Option<String>,
}

pub struct MetaView {
    pub path: Seq<char>,
    pub size_bytes: u64,
    pub mtime: i64,
    pub version: u32,
}

pub struct LineView {
    pub path: Seq<char>,
    pub line_number: i32,
    pub embedding: Seq<u32>,
}

impl View for DocMeta {
    type V = MetaView;

    open spec fn view(&self) -> MetaView {
        MetaView {
            path: self.path@,
            size_bytes: self.size_bytes,
            mtime: self.mtime,
            version: self.version,
        }
    }
}

impl View for LineEmbedding {
    type V = LineView;

    open spec fn view(&self) -> LineView {
        LineView { path: self.path@, line_number: self.line_number, embedding: self.embedding@ }
    }
}

pub open spec fn line_id_bytes(path: Seq<char>, line_number: i32) -> Seq<u8> {
    vstd::utf8::encode_utf8(path) + le_bytes(line_number as u32)
}

impl DocMeta {
    /// Deterministic identifier: a positive `i32` from the FNV-1a hash of the path.
    pub fn id(&self) -> (r: i32)
        ensures
            r == positive_id(fnv1a(vstd::utf8::encode_utf8(self.path@))),
            r >= 1,
    {
        let h = fnv1a_extend(FNV_OFFSET, self.path.as_str().as_bytes());
        proof {
            lemma_fnv1a_from_offset(vstd::utf8::encode_utf8(self.path@));
        }
        positive_id_of(h)
    }

    pub fn duplicate(&self) -> (r: DocMeta)
        ensures
            r@ == self@,
    {
        DocMeta {
            path: self.path.clone(),
            size_bytes: self.size_bytes,
            mtime: self.mtime,
            version: self.version,
        }
    }
}

pub(crate) fn copy_u32s(v: &Vec<u32>) -> (r: Vec<u32>)
    ensures
        r@ == v@,
{
    let mut out: Vec<u32> = Vec::new();
    let mut i: usize = 0;
    while i < v.len()
        invariant
            i <= v@.len(),
            out@ == v@.subrange(0, i as int),
        decreases v@.len() - i,
    {
        out.push(v[i]);
        proof {
            assert(out@ =~= v@.subrange(0, i as int + 1));
        }
        i = i + 1;
    }
    proof {
        assert(out@ =~= v@);
    }
    out
}

impl LineEmbedding {
    /// Deterministic identifier: a positive `i32` from the FNV-1a hash of the
    /// path followed by the line number's four little-endian bytes.
    pub fn id(&self) -> (r: i32)
        ensures
            r == positive_id(fnv1a(line_id_bytes(self.path@, self.line_number))),
            r >= 1,
    {
        let path_bytes = self.path.as_str().as_bytes();
        let h1 = fnv1a_extend(FNV_OFFSET, path_bytes);
        let tail = le_bytes_of(self.line_number as u32);
        let h2 = fnv1a_extend(h1, tail.as_slice());
        proof {
            crate::ident::lemma_fnv1a_from_concat(FNV_OFFSET, path_bytes@, tail@);
            lemma_fnv1a_from_offset(line_id_bytes(self.path@, self.line_number));
        }
        positive_id_of(h2)
    }

    pub fn duplicate(&self) -> (r: LineEmbedding)
        ensures
            r@ == self@,
    {
        LineEmbedding {
            path: self.path.clone(),
            line_number: self.line_number,
            embedding: copy_u32s(&self.embedding),
        }
    }
}

/// The views of a list of paths.
pub open spec fn path_views(ps: Seq<String>) -> Seq<Seq<char>> {
    ps.map_values(|p: String| p@)
}

/// Metadata entries whose path is not among `ps`, in order.
pub open spec fn metas_without(ms: Seq<MetaView>, ps: Seq<Seq<char>>) -> Seq<MetaView>
    decreases ms.len(),
{
    if ms.len() == 0 {
        ms
    } else if ps.contains(ms.last().path) {
        metas_without(ms.drop_last(), ps)
    } else {
        metas_without(ms.drop_last(), ps).push(ms.last())
    }
}

/// Line entries whose path is not among `ps`, in order.
pub open spec fn lines_without(ls: Seq<LineView>, ps: Seq<Seq<char>>) -> Seq<LineView>
    decreases ls.len(),
{
    if ls.len() == 0 {
        ls
    } else if ps.contains(ls.last().path) {
        lines_without(ls.drop_last(), ps)
    } else {
        lines_without(ls.drop_last(), ps).push(ls.last())
    }
}

/// Metadata after upserting `ms` one by one: each replaces the entry of its path.
pub open spec fn upsert_metas(cur: Seq<MetaView>, ms: Seq<MetaView>) -> Seq<MetaView>
    decreases ms.len(),
{
    if ms.len() == 0 {
        cur
    } else {
        metas_without(upsert_metas(cur, ms.drop_last()), seq![ms.last().path]).push(ms.last())
    }
}

pub open spec fn line_paths(xs: Seq<LineView>) -> Seq<Seq<char>> {
    xs.map_values(|x: LineView| x.path)
}

pub open spec fn meta_paths(ms: Seq<MetaView>) -> Seq<Seq<char>> {
    ms.map_values(|m: MetaView| m.path)
}

/// Whether two line entries share their key: path and line number.
pub open spec fn same_key(a: LineView, b: LineView) -> bool {
    a.path == b.path && a.line_number == b.line_number
}

/// Line entries without the one keyed like `x`, in order.
pub open spec fn lines_without_key(ls: Seq<LineView>, x: LineView) -> Seq<LineView>
    decreases ls.len(),
{
    if ls.len() == 0 {
        ls
    } else if same_key(ls.last(), x) {
        lines_without_key(ls.drop_last(), x)
    } else {
        lines_without_key(ls.drop_last(), x).push(ls.last())
    }
}

/// Lines after putting `xs` one by one: each replaces the entry of its key.
pub open spec fn put_lines(s: Seq<LineView>, xs: Seq<LineView>) -> Seq<LineView>
    decreases xs.len(),
{
    if xs.len() == 0 {
        s
    } else {
        lines_without_key(put_lines(s, xs.drop_last()), xs.last()).push(xs.last())
    }
}

/// Lines after upserting `xs`: every earlier line of their paths goes, then
/// each of `xs` is put in order, so that the last entry of a key wins.
pub open spec fn upsert_lines(cur: Seq<LineView>, xs: Seq<LineView>) -> Seq<LineView> {
    put_lines(lines_without(cur, line_paths(xs)), xs)
}

/// No two line entries share a key.
pub open spec fn unique_keys(ls: Seq<LineView>) -> bool {
    forall|i: int, j: int| 0 <= i < j < ls.len() ==> !same_key(ls[i], ls[j])
}

/// Every embedding has `d > 0` components.
pub open spec fn all_of_dimension(ls: Seq<LineView>, d: nat) -> bool {
    &&& d > 0
    &&& forall|i: int| 0 <= i < ls.len() ==> #[trigger] ls[i].embedding.len() == d
}

/// The dimension of the stored embeddings; meaningful when there is one.
pub open spec fn dimension_of(ls: Seq<LineView>) -> nat {
    if ls.len() == 0 {
        0
    } else {
        ls[0].embedding.len()
    }
}

/// A batch of lines that a store with lines `cur` accepts: all of one
/// non-zero dimension, which is also the store's where it holds lines.
pub open spec fn batch_fits(cur: Seq<LineView>, xs: Seq<LineView>) -> bool {
    xs.len() == 0 || {
        &&& all_of_dimension(xs, xs[0].embedding.len())
        &&& (cur.len() > 0 ==> cur[0].embedding.len() == xs[0].embedding.len())
    }
}

/// Current-version metadata entries whose path is among `ps`, in stored order.
pub open spec fn existing_metas(ms: Seq<MetaView>, ps: Seq<Seq<char>>) -> Seq<MetaView>
    decreases ms.len(),
{
    if ms.len() == 0 {
        ms
    } else if ps.contains(ms.last().path) && ms.last().version == EMBEDDING_VERSION {
        existing_metas(ms.drop_last(), ps).push(ms.last())
    } else {
        existing_metas(ms.drop_last(), ps)
    }
}

/// No two entries share a path.
pub open spec fn unique_paths(ms: Seq<MetaView>) -> bool {
    forall|i: int, j: int| 0 <= i < j < ms.len() ==> ms[i].path != ms[j].path
}

/// A defined distance no greater than the threshold, if there is one.
pub open spec fn within(d: Option<u64>, max_distance: Option<u64>) -> bool {
    &&& d is Some
    &&& (max_distance matches Some(m) ==> d->0 <= m)
}

/// Lines that a search may return, in stored order: `(position, distance)`.
pub open spec fn line_matches(
    ls: Seq<LineView>,
    dists: Seq<Option<u64>>,
    ps: Seq<Seq<char>>,
    max_distance: Option<u64>,
) -> Seq<(int, u64)>
    decreases ls.len(),
{
    if ls.len() == 0 || dists.len() != ls.len() {
        Seq::empty()
    } else {
        let rest = line_matches(ls.drop_last(), dists.drop_last(), ps, max_distance);
        if ps.contains(ls.last().path) && within(dists.last(), max_distance) {
            rest.push((ls.len() - 1, dists.last()->0))
        } else {
            rest
        }
    }
}

pub open spec fn keyed_matches(ms: Seq<(int, u64)>) -> Seq<(u64, usize)> {
    Seq::new(ms.len(), |i: int| (ms[i].1, i as usize))
}

/// The order of a store search: sorted by distance, stable, cut to `top_k`.
pub open spec fn search_order(
    ls: Seq<LineView>,
    dists: Seq<Option<u64>>,
    ps: Seq<Seq<char>>,
    top_k: usize,
    max_distance: Option<u64>,
) -> Seq<(u64, usize)> {
    take_prefix(sort_by_distance(keyed_matches(line_matches(ls, dists, ps, max_distance))), top_k as nat)
}

/// `r` reports line entry `l` at distance `d`.
pub open spec fn reports(r: RankedLine, l: LineView, d: u64) -> bool {
    &&& r.path@ == l.path
    &&& r.line_number == l.line_number
    &&& r.distance == d
}

/// Why a batch of lines was refused.
pub enum StoreError {
    /// The embeddings are empty, or not all of one dimension, or not of the store's dimension.
    DimensionMismatch,
}

pub struct Store {
    docs: Vec<DocMeta>,
    lines: Vec<LineEmbedding>,
}

/// Whether `p` is one of `ps`.
pub fn contains_path(ps: &Vec<String>, p: &String) -> (r: bool)
    ensures
        r == path_views(ps@).contains(p@),
{
    let mut i: usize = 0;
    while i < ps.len()
        invariant
            i <= ps@.len(),
            forall|j: int| 0 <= j < i ==> ps@[j]@ != p@,
        decreases ps@.len() - i,
    {
        if ps[i] == *p {
            proof {
                assert(path_views(ps@)[i as int] == p@);
            }
            return true;
        }
        i = i + 1;
    }
    proof {
        if path_views(ps@).contains(p@) {
            let j = choose|j: int| 0 <= j < path_views(ps@).len() && path_views(ps@)[j] == p@;
            assert(ps@[j]@ == p@);
        }
    }
    false
}

impl Store {
    pub closed spec fn metas(&self) -> Seq<MetaView> {
        self.docs@.map_values(|m: DocMeta| m@)
    }

    pub closed spec fn entries(&self) -> Seq<LineView> {
        self.lines@.map_values(|l: LineEmbedding| l@)
    }

    pub open spec fn wf(&self) -> bool {
        &&& unique_paths(self.metas())
        &&& unique_keys(self.entries())
        &&& (self.entries().len() > 0 ==> all_of_dimension(self.entries(), dimension_of(self.entries())))
    }

    /// An empty store.
    pub fn new() -> (r: Store)
        ensures
            r.wf(),
            r.metas() == Seq::<MetaView>::empty(),
            r.entries() == Seq::<LineView>::empty(),
    {
        let r = Store { docs: Vec::new(), lines: Vec::new() };
        proof {
            assert(r.metas() =~= Seq::<MetaView>::empty());
            assert(r.entries() =~= Seq::<LineView>::empty());
        }
        r
    }

    fn remove_metas(&mut self, ps: &Vec<String>)
        ensures
            final(self).metas() == metas_without(old(self).metas(), path_views(ps@)),
            final(self).entries() == old(self).entries(),
    {
        let mut kept_docs: Vec<DocMeta> = Vec::new();
        let mut i: usize = 0;
        while i < self.docs.len()
            invariant
                i <= self.docs@.len(),
                kept_docs@.map_values(|m: DocMeta| m@) == metas_without(
                    self.docs@.subrange(0, i as int).map_values(|m: DocMeta| m@),
                    path_views(ps@),
                ),
            decreases self.docs@.len() - i,
        {
            let ghost pre = self.docs@.subrange(0, i as int).map_values(|m: DocMeta| m@);
            proof {
                assert(self.docs@.subrange(0, i as int + 1).map_values(|m: DocMeta| m@).drop_last() =~= pre);
            }
            if !contains_path(ps, &self.docs[i].path) {
                let m = self.docs[i].duplicate();
                kept_docs.push(m);
                proof {
                    assert(kept_docs@.map_values(|m: DocMeta| m@) =~= metas_without(pre, path_views(ps@)).push(self.docs@[i as int]@));
                }
            }
            i = i + 1;
        }
        proof {
            assert(self.docs@.subrange(0, i as int) =~= self.docs@);
        }
        self.docs = kept_docs;
    }

    fn remove_lines(&mut self, ps: &Vec<String>)
        ensures
            final(self).entries() == lines_without(old(self).entries(), path_views(ps@)),
            final(self).metas() == old(self).metas(),
    {
        let mut kept_lines: Vec<LineEmbedding> = Vec::new();
        let mut i: usize = 0;
        while i < self.lines.len()
            invariant
                i <= self.lines@.len(),
                kept_lines@.map_values(|l: LineEmbedding| l@) == lines_without(
                    self.lines@.subrange(0, i as int).map_values(|l: LineEmbedding| l@),
                    path_views(ps@),
                ),
            decreases self.lines@.len() - i,
        {
            let ghost pre = self.lines@.subrange(0, i as int).map_values(|l: LineEmbedding| l@);
            proof {
                assert(self.lines@.subrange(0, i as int + 1).map_values(|l: LineEmbedding| l@).drop_last() =~= pre);
            }
            if !contains_path(ps, &self.lines[i].path) {
                let l = self.lines[i].duplicate();
                kept_lines.push(l);
                proof {
                    assert(kept_lines@.map_values(|l: LineEmbedding| l@) =~= lines_without(pre, path_views(ps@)).push(self.lines@[i as int]@));
                }
            }
            i = i + 1;
        }
        proof {
            assert(self.lines@.subrange(0, i as int) =~= self.lines@);
        }
        self.lines = kept_lines;
    }
}


pub proof fn lemma_metas_without(ms: Seq<MetaView>, ps: Seq<Seq<char>>)
    ensures
        forall|k: int|
            0 <= k < metas_without(ms, ps).len() ==> {
                &&& !ps.contains(#[trigger] metas_without(ms, ps)[k].path)
                &&& exists|j: int| 0 <= j < ms.len() && metas_without(ms, ps)[k] == ms[j]
            },
        unique_paths(ms) ==> unique_paths(metas_without(ms, ps)),
    decreases ms.len(),
{
    if ms.len() > 0 {
        let d = ms.drop_last();
        lemma_metas_without(d, ps);
        let r = metas_without(ms, ps);
        let rd = metas_without(d, ps);
        assert forall|k: int| 0 <= k < r.len() implies {
            &&& !ps.contains(#[trigger] r[k].path)
            &&& exists|j: int| 0 <= j < ms.len() && r[k] == ms[j]
        } by {
            if k < rd.len() {
                assert(r[k] == rd[k]);
                assert(!ps.contains(rd[k].path));
                let j = choose|j: int| 0 <= j < d.len() && rd[k] == d[j];
                assert(r[k] == ms[j]);
            } else {
                assert(r[k] == ms[ms.len() - 1]);
            }
        }
        if unique_paths(ms) {
            assert(unique_paths(d));
            if !ps.contains(ms.last().path) {
                assert forall|i: int, j: int| 0 <= i < j < r.len() implies r[i].path != r[j].path by {
                    if j == r.len() - 1 {
                        assert(r[i] == rd[i]);
                        assert(!ps.contains(rd[i].path));
                        let jj = choose|jj: int| 0 <= jj < d.len() && rd[i] == d[jj];
                        assert(ms[jj] == d[jj]);
                    } else {
                        assert(r[i] == rd[i]);
                        assert(r[j] == rd[j]);
                    }
                }
            }
        }
    }
}

pub proof fn lemma_upsert_metas_unique(cur: Seq<MetaView>, ms: Seq<MetaView>)
    requires
        unique_paths(cur),
    ensures
        unique_paths(upsert_metas(cur, ms)),
    decreases ms.len(),
{
    if ms.len() > 0 {
        lemma_upsert_metas_unique(cur, ms.drop_last());
        let prev = upsert_metas(cur, ms.drop_last());
        let ps = seq![ms.last().path];
        lemma_metas_without(prev, ps);
        let w = metas_without(prev, ps);
        assert forall|i: int, j: int| 0 <= i < j < w.push(ms.last()).len() implies w.push(ms.last())[i].path != w.push(ms.last())[j].path by {
            if j == w.len() {
                assert(!ps.contains(w[i].path));
                assert(ps[0] == ms.last().path);
            } else {
                assert(w.push(ms.last())[i] == w[i]);
                assert(w.push(ms.last())[j] == w[j]);
            }
        }
    }
}

impl Store {
    /// Replaces the metadata of each entry's path, in order.
    pub fn upsert_document_metadata(&mut self, metas: &Vec<DocMeta>)
        requires
            old(self).wf(),
        ensures
            final(self).wf(),
            final(self).metas() == upsert_metas(old(self).metas(), metas@.map_values(|m: DocMeta| m@)),
            final(self).entries() == old(self).entries(),
    {
        let ghost ms = metas@.map_values(|m: DocMeta| m@);
        let ghost start = self.metas();
        let mut i: usize = 0;
        while i < metas.len()
            invariant
                i <= metas@.len(),
                ms == metas@.map_values(|m: DocMeta| m@),
                self.metas() == upsert_metas(start, ms.subrange(0, i as int)),
                self.entries() == old(self).entries(),
            decreases metas@.len() - i,
        {
            let mut one: Vec<String> = Vec::new();
            one.push(metas[i].path.clone());
            proof {
                assert(path_views(one@) =~= seq![ms.subrange(0, i as int + 1).last().path]);
                assert(ms.subrange(0, i as int + 1).drop_last() =~= ms.subrange(0, i as int));
            }
            self.remove_metas(&one);
            let m = metas[i].duplicate();
            let ghost before = self.docs@;
            self.docs.push(m);
            proof {
                assert(self.metas() =~= before.map_values(|m: DocMeta| m@).push(ms[i as int]));
            }
            i = i + 1;
        }
        proof {
            assert(ms.subrange(0, i as int) =~= ms);
            lemma_upsert_metas_unique(start, ms);
        }
    }

    fn remove_key(&mut self, x: &LineEmbedding)
        ensures
            final(self).entries() == lines_without_key(old(self).entries(), x@),
            final(self).metas() == old(self).metas(),
    {
        let mut kept_lines: Vec<LineEmbedding> = Vec::new();
        let mut i: usize = 0;
        while i < self.lines.len()
            invariant
                i <= self.lines@.len(),
                kept_lines@.map_values(|l: LineEmbedding| l@) == lines_without_key(
                    self.lines@.subrange(0, i as int).map_values(|l: LineEmbedding| l@),
                    x@,
                ),
            decreases self.lines@.len() - i,
        {
            let ghost pre = self.lines@.subrange(0, i as int).map_values(|l: LineEmbedding| l@);
            proof {
                assert(self.lines@.subrange(0, i as int + 1).map_values(|l: LineEmbedding| l@).drop_last() =~= pre);
            }
            if !(self.lines[i].line_number == x.line_number && self.lines[i].path == x.path) {
                let l = self.lines[i].duplicate();
                kept_lines.push(l);
                proof {
                    assert(kept_lines@.map_values(|l: LineEmbedding| l@) =~= lines_without_key(pre, x@).push(self.lines@[i as int]@));
                }
            }
            i = i + 1;
        }
        proof {
            assert(self.lines@.subrange(0, i as int) =~= self.lines@);
        }
        self.lines = kept_lines;
    }

    fn batch_fits_exec(&self, xs: &Vec<LineEmbedding>) -> (r: bool)
        ensures
            r == batch_fits(self.entries(), xs@.map_values(|x: LineEmbedding| x@)),
    {
        let ghost xv = xs@.map_values(|x: LineEmbedding| x@);
        if xs.len() == 0 {
            return true;
        }
        let d = xs[0].embedding.len();
        proof {
            assert(xv[0].embedding == xs@[0].embedding@);
        }
        if d == 0 {
            return false;
        }
        let mut i: usize = 0;
        while i < xs.len()
            invariant
                i <= xs@.len(),
                xv == xs@.map_values(|x: LineEmbedding| x@),
                d == xv[0].embedding.len(),
                forall|j: int| 0 <= j < i ==> #[trigger] xv[j].embedding.len() == d,
            decreases xs@.len() - i,
        {
            proof {
                assert(xv[i as int].embedding == xs@[i as int].embedding@);
            }
            if xs[i].embedding.len() != d {
                return false;
            }
            i = i + 1;
        }
        proof {
            if self.lines@.len() > 0 {
                assert(self.entries()[0].embedding == self.lines@[0].embedding@);
            }
        }
        if self.lines.len() > 0 && self.lines[0].embedding.len() != d {
            return false;
        }
        true
    }

    /// Replaces every stored line of the paths that `xs` names by `xs`; of
    /// two entries of `xs` with one path and line number the last is kept.
    /// A batch whose embeddings are empty, of mixed dimension, or of another
    /// dimension than the stored ones is refused and nothing changes.
    pub fn upsert_line_embeddings(&mut self, xs: &Vec<LineEmbedding>) -> (r: Result<(), StoreError>)
        requires
            old(self).wf(),
        ensures
            final(self).wf(),
            r is Err <==> !batch_fits(old(self).entries(), xs@.map_values(|x: LineEmbedding| x@)),
            r is Err ==> final(self).entries() == old(self).entries(),
            r is Ok ==> final(self).entries() == upsert_lines(old(self).entries(), xs@.map_values(|x: LineEmbedding| x@)),
            final(self).metas() == old(self).metas(),
    {
        let ghost xv = xs@.map_values(|x: LineEmbedding| x@);
        if !self.batch_fits_exec(xs) {
            return Err(StoreError::DimensionMismatch);
        }
        proof {
            lemma_upsert_lines_wf(self.entries(), xv);
        }
        let mut ps: Vec<String> = Vec::new();
        let mut i: usize = 0;
        while i < xs.len()
            invariant
                i <= xs@.len(),
                xv == xs@.map_values(|x: LineEmbedding| x@),
                ps@.len() == i,
                path_views(ps@) == line_paths(xv.subrange(0, i as int)),
            decreases xs@.len() - i,
        {
            let ghost before = ps@;
            ps.push(xs[i].path.clone());
            proof {
                assert(ps@ == before.push(ps@[i as int]));
                assert(ps@[i as int]@ == xv[i as int].path);
                assert(path_views(ps@) =~= path_views(before).push(xv[i as int].path));
                assert(line_paths(xv.subrange(0, i as int + 1)) =~= line_paths(xv.subrange(0, i as int)).push(xv[i as int].path));
            }
            i = i + 1;
        }
        proof {
            assert(xv.subrange(0, i as int) =~= xv);
        }
        self.remove_lines(&ps);
        let ghost base = self.entries();
        let mut k: usize = 0;
        while k < xs.len()
            invariant
                k <= xs@.len(),
                xv == xs@.map_values(|x: LineEmbedding| x@),
                self.entries() == put_lines(base, xv.subrange(0, k as int)),
                self.metas() == old(self).metas(),
            decreases xs@.len() - k,
        {
            proof {
                assert(xv.subrange(0, k as int + 1).drop_last() =~= xv.subrange(0, k as int));
                assert(xv.subrange(0, k as int + 1).last() == xs@[k as int]@);
            }
            self.remove_key(&xs[k]);
            let l = xs[k].duplicate();
            let ghost before = self.lines@;
            self.lines.push(l);
            proof {
                assert(self.entries() =~= before.map_values(|l: LineEmbedding| l@).push(xv[k as int]));
            }
            k = k + 1;
        }
        proof {
            assert(xv.subrange(0, k as int) =~= xv);
        }
        Ok(())
    }

    /// Removes the metadata and every line of the given paths.
    pub fn delete_documents(&mut self, paths: &Vec<String>)
        requires
            old(self).wf(),
        ensures
            final(self).wf(),
            final(self).metas() == metas_without(old(self).metas(), path_views(paths@)),
            final(self).entries() == lines_without(old(self).entries(), path_views(paths@)),
    {
        self.remove_metas(paths);
        self.remove_lines(paths);
        proof {
            lemma_metas_without(old(self).metas(), path_views(paths@));
            lemma_lines_without_wf(old(self).entries(), path_views(paths@));
        }
    }

    /// The current-version metadata of the given paths.
    pub fn get_existing_docs(&self, paths: &Vec<String>) -> (r: Vec<DocMeta>)
        ensures
            r@.map_values(|m: DocMeta| m@) == existing_metas(self.metas(), path_views(paths@)),
    {
        let mut out: Vec<DocMeta> = Vec::new();
        let mut i: usize = 0;
        while i < self.docs.len()
            invariant
                i <= self.docs@.len(),
                out@.map_values(|m: DocMeta| m@) == existing_metas(
                    self.docs@.subrange(0, i as int).map_values(|m: DocMeta| m@),
                    path_views(paths@),
                ),
            decreases self.docs@.len() - i,
        {
            let ghost pre = self.docs@.subrange(0, i as int).map_values(|m: DocMeta| m@);
            proof {
                assert(self.docs@.subrange(0, i as int + 1).map_values(|m: DocMeta| m@).drop_last() =~= pre);
            }
            if self.docs[i].version == EMBEDDING_VERSION && contains_path(paths, &self.docs[i].path) {
                let m = self.docs[i].duplicate();
                out.push(m);
                proof {
                    assert(out@.map_values(|m: DocMeta| m@) =~= existing_metas(pre, path_views(paths@)).push(self.docs@[i as int]@));
                }
            }
            i = i + 1;
        }
        proof {
            assert(self.docs@.subrange(0, i as int) =~= self.docs@);
        }
        out
    }

    /// Every stored path, in stored order.
    pub fn get_all_document_paths(&self) -> (r: Vec<String>)
        ensures
            path_views(r@) == meta_paths(self.metas()),
    {
        let mut out: Vec<String> = Vec::new();
        let mut i: usize = 0;
        while i < self.docs.len()
            invariant
                i <= self.docs@.len(),
                out@.len() == i,
                path_views(out@) == meta_paths(self.metas()).subrange(0, i as int),
            decreases self.docs@.len() - i,
        {
            let ghost before = out@;
            out.push(self.docs[i].path.clone());
            proof {
                assert(out@ == before.push(out@[i as int]));
                assert(out@[i as int]@ == self.metas()[i as int].path);
                assert(path_views(out@) =~= path_views(before).push(self.metas()[i as int].path));
                assert(path_views(out@) =~= meta_paths(self.metas()).subrange(0, i as int + 1));
            }
            i = i + 1;
        }
        proof {
            assert(meta_paths(self.metas()).subrange(0, i as int) =~= meta_paths(self.metas()));
        }
        out
    }

    pub fn count_documents(&self) -> (r: usize)
        ensures
            r == self.metas().len(),
    {
        self.docs.len()
    }

    /// The number of documents. The store searches its lines by an exact
    /// scan and builds no vector index.
    pub fn get_stats(&self) -> (r: WorkspaceStats)
        ensures
            r.total_documents == self.metas().len(),
            !r.has_index,
            r.index_type is None,
    {
        WorkspaceStats { total_documents: self.docs.len(), has_index: false, index_type: None }
    }

    /// The stored metadata entries.
    pub fn documents(&self) -> (r: &Vec<DocMeta>)
        ensures
            r@.map_values(|m: DocMeta| m@) == self.metas(),
    {
        &self.docs
    }

    /// The stored line entries.
    pub fn line_entries(&self) -> (r: &Vec<LineEmbedding>)
        ensures
            r@.map_values(|l: LineEmbedding| l@) == self.entries(),
    {
        &self.lines
    }
}


/// The line entry behind the `i`-th result of a store search.
pub open spec fn searched_line(
    ls: Seq<LineView>,
    dists: Seq<Option<u64>>,
    ps: Seq<Seq<char>>,
    top_k: usize,
    max_distance: Option<u64>,
    i: int,
) -> (int, u64) {
    line_matches(ls, dists, ps, max_distance)[search_order(ls, dists, ps, top_k, max_distance)[i].1 as int]
}

/// `r` is the `i`-th result of a store search.
pub open spec fn reports_at(
    r: RankedLine,
    ls: Seq<LineView>,
    dists: Seq<Option<u64>>,
    ps: Seq<Seq<char>>,
    top_k: usize,
    max_distance: Option<u64>,
    i: int,
) -> bool {
    &&& 0 <= searched_line(ls, dists, ps, top_k, max_distance, i).0 < ls.len()
    &&& reports(
        r,
        ls[searched_line(ls, dists, ps, top_k, max_distance, i).0],
        searched_line(ls, dists, ps, top_k, max_distance, i).1,
    )
}

/// `r` is the result of a store search: one line per ranked match, in order.
pub open spec fn is_search_result(
    ls: Seq<LineView>,
    dists: Seq<Option<u64>>,
    ps: Seq<Seq<char>>,
    top_k: usize,
    max_distance: Option<u64>,
    r: Seq<RankedLine>,
) -> bool {
    &&& r.len() == search_order(ls, dists, ps, top_k, max_distance).len()
    &&& forall|i: int|
        0 <= i < r.len() ==> (#[trigger] r[i]).distance == search_order(ls, dists, ps, top_k, max_distance)[i].0
    &&& forall|i: int| 0 <= i < r.len() ==> #[trigger] reports_at(r[i], ls, dists, ps, top_k, max_distance, i)
}

impl Store {
    /// Nearest lines among `subset_paths`. `distances[i]` is the distance key
    /// of stored line `i` to the query, or `None` where it is undefined.
    /// Lines are ranked by distance (ties keep stored order), lines beyond
    /// `max_distance` are left out, and at most `top_k` are returned.
    pub fn search_line_embeddings(
        &self,
        distances: &Vec<Option<u64>>,
        subset_paths: &Vec<String>,
        top_k: usize,
        max_distance: Option<u64>,
    ) -> (r: Vec<RankedLine>)
        requires
            distances@.len() == self.entries().len(),
        ensures
            is_search_result(self.entries(), distances@, path_views(subset_paths@), top_k, max_distance, r@),
    {
        let ghost ls = self.entries();
        let ghost ps = path_views(subset_paths@);
        let mut found: Vec<usize> = Vec::new();
        let mut keys: Vec<(u64, usize)> = Vec::new();
        let mut i: usize = 0;
        while i < self.lines.len()
            invariant
                i <= self.lines@.len(),
                ls == self.entries(),
                ps == path_views(subset_paths@),
                distances@.len() == ls.len(),
                found@.len() == keys@.len(),
                keys@ == keyed_matches(line_matches(ls.subrange(0, i as int), distances@.subrange(0, i as int), ps, max_distance)),
                forall|k: int|
                    0 <= k < found@.len() ==> {
                        &&& (#[trigger] found@[k]) as int == line_matches(ls.subrange(0, i as int), distances@.subrange(0, i as int), ps, max_distance)[k].0
                        &&& found@[k] < ls.len()
                    },
            decreases self.lines@.len() - i,
        {
            let ghost prev = line_matches(ls.subrange(0, i as int), distances@.subrange(0, i as int), ps, max_distance);
            proof {
                assert(ls.subrange(0, i as int + 1).drop_last() =~= ls.subrange(0, i as int));
                assert(distances@.subrange(0, i as int + 1).drop_last() =~= distances@.subrange(0, i as int));
                assert(ls.subrange(0, i as int + 1).last() == self.lines@[i as int]@);
            }
            let keep = match distances[i] {
                Some(x) => match max_distance {
                    Some(m) => x <= m,
                    None => true,
                },
                None => false,
            };
            if keep && contains_path(subset_paths, &self.lines[i].path) {
                let x = distances[i].unwrap();
                let pos = found.len();
                found.push(i);
                keys.push((x, pos));
                proof {
                    let next = line_matches(ls.subrange(0, i as int + 1), distances@.subrange(0, i as int + 1), ps, max_distance);
                    assert(next =~= prev.push((i as int, x)));
                    assert(keys@ =~= keyed_matches(next));
                }
            }
            i = i + 1;
        }
        proof {
            assert(ls.subrange(0, i as int) =~= ls);
            assert(distances@.subrange(0, i as int) =~= distances@);
        }
        let ghost ms = line_matches(ls, distances@, ps, max_distance);
        let sorted = sort_candidates(keys);
        proof {
            lemma_sort_by_distance_facts(keyed_matches(ms));
        }
        let limit: usize = if top_k < sorted.len() {
            top_k
        } else {
            sorted.len()
        };
        let ghost order = search_order(ls, distances@, ps, top_k, max_distance);
        proof {
            assert(order =~= sorted@.subrange(0, limit as int));
        }
        let mut out: Vec<RankedLine> = Vec::new();
        let mut k: usize = 0;
        while k < limit
            invariant
                limit <= sorted@.len(),
                ls == self.entries(),
                ps == path_views(subset_paths@),
                sorted@ == sort_by_distance(keyed_matches(ms)),
                sorted@.len() == ms.len(),
                found@.len() == ms.len(),
                ms == line_matches(ls, distances@, ps, max_distance),
                order == sorted@.subrange(0, limit as int),
                order == search_order(ls, distances@, ps, top_k, max_distance),
                forall|q: int|
                    0 <= q < ms.len() ==> exists|j: int|
                        0 <= j < ms.len() && #[trigger] sort_by_distance(keyed_matches(ms))[q] == keyed_matches(ms)[j],
                forall|q: int|
                    0 <= q < found@.len() ==> {
                        &&& (#[trigger] found@[q]) as int == ms[q].0
                        &&& found@[q] < ls.len()
                    },
                k <= limit,
                out@.len() == k,
                forall|j: int| 0 <= j < k ==> (#[trigger] out@[j]).distance == order[j].0,
                forall|j: int|
                    0 <= j < k ==> #[trigger] reports_at(out@[j], ls, distances@, ps, top_k, max_distance, j),
            decreases limit - k,
        {
            let (dist, ci) = sorted[k];
            let n_found = found.len();
            proof {
                let j = choose|j: int| 0 <= j < ms.len() && #[trigger] sort_by_distance(keyed_matches(ms))[k as int] == keyed_matches(ms)[j];
                assert(j < n_found);
                assert(keyed_matches(ms)[j] == (ms[j].1, j as usize));
                assert(sorted@[k as int] == (dist, ci));
                assert(ci as int == j);
            }
            let li = found[ci];
            let entry = &self.lines[li];
            proof {
                assert(ls[li as int] == entry@);
            }
            let ghost old_out = out@;
            out.push(RankedLine { path: entry.path.clone(), line_number: entry.line_number, distance: dist });
            proof {
                assert(order[k as int] == (dist, ci));
                assert(searched_line(ls, distances@, ps, top_k, max_distance, k as int) == ms[ci as int]);
                assert(ms[ci as int].0 == li as int);
                assert(keyed_matches(ms)[ci as int] == (ms[ci as int].1, ci));
                assert(reports(out@[k as int], ls[li as int], dist));
                assert forall|j: int| 0 <= j < k + 1 implies #[trigger] reports_at(out@[j], ls, distances@, ps, top_k, max_distance, j) by {
                    if j < k {
                        assert(out@[j] == old_out[j]);
                        assert(reports_at(old_out[j], ls, distances@, ps, top_k, max_distance, j));
                    }
                }
            }
            k = k + 1;
        }
        out
    }
}


pub proof fn lemma_lines_without_facts(ls: Seq<LineView>, ps: Seq<Seq<char>>)
    ensures
        forall|k: int|
            0 <= k < lines_without(ls, ps).len() ==> {
                &&& !ps.contains(#[trigger] lines_without(ls, ps)[k].path)
                &&& ls.contains(lines_without(ls, ps)[k])
            },
        forall|x: LineView| ls.contains(x) && !ps.contains(x.path) ==> #[trigger] lines_without(ls, ps).contains(x),
    decreases ls.len(),
{
    if ls.len() > 0 {
        let d = ls.drop_last();
        lemma_lines_without_facts(d, ps);
        let r = lines_without(ls, ps);
        let rd = lines_without(d, ps);
        assert forall|k: int| 0 <= k < r.len() implies {
            &&& !ps.contains(#[trigger] r[k].path)
            &&& ls.contains(r[k])
        } by {
            if k < rd.len() {
                assert(r[k] == rd[k]);
                assert(!ps.contains(rd[k].path));
                assert(d.contains(rd[k]));
                let j = choose|j: int| 0 <= j < d.len() && d[j] == rd[k];
                assert(ls[j] == d[j]);
            } else {
                assert(r[k] == ls[ls.len() - 1]);
            }
        }
        assert forall|x: LineView| ls.contains(x) && !ps.contains(x.path) implies #[trigger] r.contains(x) by {
            let j = choose|j: int| 0 <= j < ls.len() && ls[j] == x;
            if j == ls.len() - 1 {
                assert(r[r.len() - 1] == x);
            } else {
                assert(d[j] == x);
                assert(rd.contains(x));
                let q = choose|q: int| 0 <= q < rd.len() && rd[q] == x;
                if !ps.contains(ls.last().path) {
                    assert(r[q] == x);
                }
            }
        }
    }
}


pub proof fn lemma_lines_without_unique(ls: Seq<LineView>, ps: Seq<Seq<char>>)
    requires
        unique_keys(ls),
    ensures
        unique_keys(lines_without(ls, ps)),
    decreases ls.len(),
{
    if ls.len() > 0 {
        let d = ls.drop_last();
        assert(unique_keys(d));
        lemma_lines_without_unique(d, ps);
        lemma_lines_without_facts(d, ps);
        let r = lines_without(ls, ps);
        let rd = lines_without(d, ps);
        if !ps.contains(ls.last().path) {
            assert forall|i: int, j: int| 0 <= i < j < r.len() implies !same_key(r[i], r[j]) by {
                assert(r[i] == rd[i]);
                assert(!ps.contains(rd[i].path));
                if j == r.len() - 1 {
                    let q = choose|q: int| 0 <= q < d.len() && d[q] == rd[i];
                    assert(ls[q] == d[q]);
                } else {
                    assert(r[j] == rd[j]);
                }
            }
        }
    }
}

pub proof fn lemma_lines_without_key_facts(ls: Seq<LineView>, x: LineView)
    ensures
        forall|k: int|
            0 <= k < lines_without_key(ls, x).len() ==> {
                &&& !same_key(#[trigger] lines_without_key(ls, x)[k], x)
                &&& ls.contains(lines_without_key(ls, x)[k])
            },
        forall|y: LineView| ls.contains(y) && !same_key(y, x) ==> #[trigger] lines_without_key(ls, x).contains(y),
        unique_keys(ls) ==> unique_keys(lines_without_key(ls, x)),
    decreases ls.len(),
{
    if ls.len() > 0 {
        let d = ls.drop_last();
        lemma_lines_without_key_facts(d, x);
        let r = lines_without_key(ls, x);
        let rd = lines_without_key(d, x);
        assert forall|k: int| 0 <= k < r.len() implies {
            &&& !same_key(#[trigger] r[k], x)
            &&& ls.contains(r[k])
        } by {
            if k < rd.len() {
                assert(r[k] == rd[k]);
                assert(!same_key(rd[k], x));
                let j = choose|j: int| 0 <= j < d.len() && d[j] == rd[k];
                assert(ls[j] == d[j]);
            } else {
                assert(r[k] == ls[ls.len() - 1]);
            }
        }
        assert forall|y: LineView| ls.contains(y) && !same_key(y, x) implies #[trigger] r.contains(y) by {
            let j = choose|j: int| 0 <= j < ls.len() && ls[j] == y;
            if j == ls.len() - 1 {
                assert(r[r.len() - 1] == y);
            } else {
                assert(d[j] == y);
                assert(rd.contains(y));
                let q = choose|q: int| 0 <= q < rd.len() && rd[q] == y;
                if !same_key(ls.last(), x) {
                    assert(r[q] == y);
                }
            }
        }
        if unique_keys(ls) {
            assert(unique_keys(d));
            if !same_key(ls.last(), x) {
                assert forall|i: int, j: int| 0 <= i < j < r.len() implies !same_key(r[i], r[j]) by {
                    assert(r[i] == rd[i]);
                    assert(!same_key(rd[i], x));
                    if j == r.len() - 1 {
                        let q = choose|q: int| 0 <= q < d.len() && d[q] == rd[i];
                        assert(ls[q] == d[q]);
                    } else {
                        assert(r[j] == rd[j]);
                    }
                }
            }
        }
    }
}

pub proof fn lemma_put_lines_facts(s: Seq<LineView>, xs: Seq<LineView>)
    ensures
        forall|k: int|
            0 <= k < put_lines(s, xs).len() ==> s.contains(#[trigger] put_lines(s, xs)[k]) || xs.contains(
                put_lines(s, xs)[k],
            ),
        unique_keys(s) ==> unique_keys(put_lines(s, xs)),
    decreases xs.len(),
{
    if xs.len() > 0 {
        let d = xs.drop_last();
        lemma_put_lines_facts(s, d);
        let prev = put_lines(s, d);
        lemma_lines_without_key_facts(prev, xs.last());
        let w = lines_without_key(prev, xs.last());
        let r = put_lines(s, xs);
        assert(r == w.push(xs.last()));
        assert forall|k: int| 0 <= k < r.len() implies s.contains(#[trigger] r[k]) || xs.contains(r[k]) by {
            if k == r.len() - 1 {
                assert(xs[xs.len() - 1] == r[k]);
            } else {
                assert(r[k] == w[k]);
                assert(!same_key(w[k], xs.last()));
                let q = choose|q: int| 0 <= q < prev.len() && prev[q] == w[k];
                assert(s.contains(prev[q]) || d.contains(prev[q]));
                if d.contains(prev[q]) {
                    let t = choose|t: int| 0 <= t < d.len() && d[t] == prev[q];
                    assert(xs[t] == d[t]);
                }
            }
        }
        if unique_keys(s) {
            assert forall|i: int, j: int| 0 <= i < j < r.len() implies !same_key(r[i], r[j]) by {
                assert(r[i] == w[i]);
                if j == r.len() - 1 {
                    assert(!same_key(w[i], xs.last()));
                } else {
                    assert(r[j] == w[j]);
                }
            }
        }
    }
}

/// Upserting a batch that fits keeps keys unique and embeddings of one dimension.
pub proof fn lemma_upsert_lines_wf(cur: Seq<LineView>, xs: Seq<LineView>)
    requires
        unique_keys(cur),
        cur.len() > 0 ==> all_of_dimension(cur, dimension_of(cur)),
        batch_fits(cur, xs),
    ensures
        unique_keys(upsert_lines(cur, xs)),
        upsert_lines(cur, xs).len() > 0 ==> all_of_dimension(
            upsert_lines(cur, xs),
            dimension_of(upsert_lines(cur, xs)),
        ),
{
    let ps = line_paths(xs);
    let w = lines_without(cur, ps);
    lemma_lines_without_unique(cur, ps);
    lemma_lines_without_facts(cur, ps);
    lemma_put_lines_facts(w, xs);
    let r = upsert_lines(cur, xs);
    let d: nat = if xs.len() > 0 {
        xs[0].embedding.len()
    } else {
        dimension_of(cur)
    };
    assert forall|k: int| 0 <= k < r.len() implies #[trigger] r[k].embedding.len() == d && d > 0 by {
        if w.contains(r[k]) {
            let q = choose|q: int| 0 <= q < w.len() && w[q] == r[k];
            assert(!ps.contains(w[q].path));
            assert(cur.contains(w[q]));
            let t = choose|t: int| 0 <= t < cur.len() && cur[t] == w[q];
            assert(cur[t].embedding.len() == dimension_of(cur));
        } else {
            assert(xs.contains(r[k]));
            let t = choose|t: int| 0 <= t < xs.len() && xs[t] == r[k];
            assert(xs[t].embedding.len() == xs[0].embedding.len());
        }
    }
}

/// Removing paths keeps keys unique and embeddings of one dimension.
pub proof fn lemma_lines_without_wf(cur: Seq<LineView>, ps: Seq<Seq<char>>)
    requires
        unique_keys(cur),
        cur.len() > 0 ==> all_of_dimension(cur, dimension_of(cur)),
    ensures
        unique_keys(lines_without(cur, ps)),
        lines_without(cur, ps).len() > 0 ==> all_of_dimension(
            lines_without(cur, ps),
            dimension_of(lines_without(cur, ps)),
        ),
{
    lemma_lines_without_unique(cur, ps);
    lemma_lines_without_facts(cur, ps);
    let r = lines_without(cur, ps);
    assert forall|k: int| 0 <= k < r.len() implies #[trigger] r[k].embedding.len() == dimension_of(cur) by {
        assert(!ps.contains(r[k].path));
        assert(cur.contains(r[k]));
        let t = choose|t: int| 0 <= t < cur.len() && cur[t] == r[k];
        assert(cur[t].embedding.len() == dimension_of(cur));
    }
    if r.len() > 0 {
        assert(r[0].embedding.len() == dimension_of(cur));
    }
}

} // verus!
