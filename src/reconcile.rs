//! Reconciliation of the caller's files against the store, and the write of
//! freshly embedded documents.
use vstd::prelude::*;
use crate::search::Document;
use crate::outputs::PruneOutput;
use crate::store::{
    DocMeta, LineEmbedding, LineView, MetaView, Store, EMBEDDING_VERSION, upsert_lines, upsert_metas,
    metas_without, lines_without, path_views, meta_paths, StoreError, batch_fits,
};

verus! {

/// What the file system reports of a file.
pub struct FileStat {
    pub size_bytes: u64,
    pub mtime: i64,
}

/// A file read for (re-)embedding, with the metadata to record for it.
pub struct DocumentInfo {
    pub filename: String,
    pub content: String,
    pub meta: DocMeta,
}

pub enum DocumentState {
    /// Stored with the same size, modification time and version.
    Unchanged(String),
    /// Stored, but the size, modification time or version differs; carries the new metadata.
    Changed(DocMeta),
    /// Not stored; carries the metadata to record.
    New(DocMeta),
}

pub enum StateView {
    Unchanged(Seq<char>),
    Changed(MetaView),
    New(MetaView),
}

impl View for DocumentState {
    type V = StateView;

    open spec fn view(&self) -> StateView {
        match self {
            DocumentState::Unchanged(p) => StateView::Unchanged(p@),
            DocumentState::Changed(m) => StateView::Changed(m@),
            DocumentState::New(m) => StateView::New(m@),
        }
    }
}

/// The stored entry of path `p`: the last one, should there be several.
pub open spec fn find_meta(ms: Seq<MetaView>, p: Seq<char>) -> Option<MetaView>
    decreases ms.len(),
{
    if ms.len() == 0 {
        None
    } else if ms.last().path == p {
        Some(ms.last())
    } else {
        find_meta(ms.drop_last(), p)
    }
}

/// The metadata recorded for a file as it is now.
pub open spec fn fresh_meta(p: Seq<char>, st: FileStat) -> MetaView {
    MetaView { path: p, size_bytes: st.size_bytes, mtime: st.mtime, version: EMBEDDING_VERSION }
}

/// How a file that exists compares with what the store holds of it.
pub open spec fn classify(ms: Seq<MetaView>, p: Seq<char>, st: FileStat) -> StateView {
    match find_meta(ms, p) {
        None => StateView::New(fresh_meta(p, st)),
        Some(m) => if m.size_bytes == st.size_bytes && m.mtime == st.mtime && m.version
            == EMBEDDING_VERSION {
            StateView::Unchanged(p)
        } else {
            StateView::Changed(fresh_meta(p, st))
        },
    }
}

/// The states of the files that exist, in the caller's order; a missing file
/// (`None`) is left out.
pub open spec fn classify_all(ms: Seq<MetaView>, ps: Seq<Seq<char>>, sts: Seq<Option<FileStat>>) -> Seq<
    StateView,
>
    decreases sts.len(),
{
    if sts.len() == 0 || ps.len() != sts.len() {
        Seq::empty()
    } else {
        let rest = classify_all(ms, ps.drop_last(), sts.drop_last());
        match sts.last() {
            None => rest,
            Some(st) => rest.push(classify(ms, ps.last(), st)),
        }
    }
}

/// The metadata of the files that need (re-)embedding: the changed and the new ones, in order.
pub open spec fn metas_to_embed(states: Seq<StateView>) -> Seq<MetaView>
    decreases states.len(),
{
    if states.len() == 0 {
        Seq::empty()
    } else {
        let rest = metas_to_embed(states.drop_last());
        match states.last() {
            StateView::Unchanged(_) => rest,
            StateView::Changed(m) => rest.push(m),
            StateView::New(m) => rest.push(m),
        }
    }
}

/// The metadata of the files whose lines must be embedded and written.
pub fn documents_to_embed(states: &Vec<DocumentState>) -> (r: Vec<DocMeta>)
    ensures
        r@.map_values(|m: DocMeta| m@) == metas_to_embed(states@.map_values(|s: DocumentState| s@)),
{
    let ghost sv = states@.map_values(|s: DocumentState| s@);
    let mut out: Vec<DocMeta> = Vec::new();
    let mut i: usize = 0;
    while i < states.len()
        invariant
            i <= states@.len(),
            sv == states@.map_values(|s: DocumentState| s@),
            out@.map_values(|m: DocMeta| m@) == metas_to_embed(sv.subrange(0, i as int)),
        decreases states@.len() - i,
    {
        proof {
            assert(sv.subrange(0, i as int + 1).drop_last() =~= sv.subrange(0, i as int));
            assert(sv.subrange(0, i as int + 1).last() == states@[i as int]@);
        }
        match &states[i] {
            DocumentState::Unchanged(_) => {},
            DocumentState::Changed(m) | DocumentState::New(m) => {
                let ghost before = out@;
                out.push(m.duplicate());
                proof {
                    assert(out@.map_values(|m: DocMeta| m@) =~= before.map_values(|m: DocMeta| m@).push(m@));
                }
            },
        }
        i = i + 1;
    }
    proof {
        assert(sv.subrange(0, i as int) =~= sv);
    }
    out
}

/// The line entries of one document: line `i` under its path, with embedding `i`.
pub open spec fn document_lines(d: Document) -> Seq<LineView> {
    Seq::new(
        d.embeddings@.len(),
        |i: int| LineView { path: d.filename@, line_number: i as i32, embedding: d.embeddings@[i]@ },
    )
}

pub open spec fn all_document_lines(ds: Seq<Document>) -> Seq<LineView>
    decreases ds.len(),
{
    if ds.len() == 0 {
        Seq::empty()
    } else {
        all_document_lines(ds.drop_last()) + document_lines(ds.last())
    }
}

impl Store {
    fn find_meta_exec(&self, p: &String) -> (r: Option<&DocMeta>)
        ensures
            match r {
                None => find_meta(self.metas(), p@) is None,
                Some(m) => find_meta(self.metas(), p@) == Some(m@),
            },
    {
        let docs = self.documents();
        let mut found: Option<&DocMeta> = None;
        let mut i: usize = 0;
        while i < docs.len()
            invariant
                i <= docs@.len(),
                docs@.map_values(|m: DocMeta| m@) == self.metas(),
                match found {
                    None => find_meta(self.metas().subrange(0, i as int), p@) is None,
                    Some(m) => find_meta(self.metas().subrange(0, i as int), p@) == Some(m@),
                },
            decreases docs@.len() - i,
        {
            proof {
                assert(self.metas().subrange(0, i as int + 1).drop_last() =~= self.metas().subrange(0, i as int));
                assert(self.metas().subrange(0, i as int + 1).last() == docs@[i as int]@);
            }
            if docs[i].path == *p {
                found = Some(&docs[i]);
            }
            i = i + 1;
        }
        proof {
            assert(self.metas().subrange(0, i as int) =~= self.metas());
        }
        found
    }

    /// Classifies each path whose file exists (`stats[i]` is `Some`) as
    /// unchanged, changed or new against the stored metadata.
    pub fn analyze_document_states(&self, paths: &Vec<String>, stats: &Vec<Option<FileStat>>) -> (r:
        Vec<DocumentState>)
        requires
            paths@.len() == stats@.len(),
        ensures
            r@.map_values(|s: DocumentState| s@) == classify_all(
                self.metas(),
                paths@.map_values(|p: String| p@),
                stats@,
            ),
    {
        let ghost ps = paths@.map_values(|p: String| p@);
        let mut out: Vec<DocumentState> = Vec::new();
        let mut i: usize = 0;
        while i < paths.len()
            invariant
                i <= paths@.len(),
                paths@.len() == stats@.len(),
                ps == paths@.map_values(|p: String| p@),
                out@.map_values(|s: DocumentState| s@) == classify_all(
                    self.metas(),
                    ps.subrange(0, i as int),
                    stats@.subrange(0, i as int),
                ),
            decreases paths@.len() - i,
        {
            let ghost prev = classify_all(self.metas(), ps.subrange(0, i as int), stats@.subrange(0, i as int));
            proof {
                assert(ps.subrange(0, i as int + 1).drop_last() =~= ps.subrange(0, i as int));
                assert(stats@.subrange(0, i as int + 1).drop_last() =~= stats@.subrange(0, i as int));
                assert(ps.subrange(0, i as int + 1).last() == paths@[i as int]@);
            }
            match &stats[i] {
                None => {},
                Some(st) => {
                    let path = &paths[i];
                    let fresh = DocMeta {
                        path: path.clone(),
                        size_bytes: st.size_bytes,
                        mtime: st.mtime,
                        version: EMBEDDING_VERSION,
                    };
                    let state = match self.find_meta_exec(path) {
                        None => DocumentState::New(fresh),
                        Some(m) => if m.size_bytes == st.size_bytes && m.mtime == st.mtime
                            && m.version == EMBEDDING_VERSION {
                            DocumentState::Unchanged(path.clone())
                        } else {
                            DocumentState::Changed(fresh)
                        },
                    };
                    proof {
                        assert(fresh@ == fresh_meta(path@, *st));
                    }
                    out.push(state);
                    proof {
                        assert(out@.map_values(|s: DocumentState| s@) =~= prev.push(classify(self.metas(), path@, *st)));
                    }
                },
            }
            proof {
                assert(out@.map_values(|s: DocumentState| s@) == classify_all(
                    self.metas(),
                    ps.subrange(0, i as int + 1),
                    stats@.subrange(0, i as int + 1),
                ));
            }
            i = i + 1;
        }
        proof {
            assert(ps.subrange(0, i as int) =~= ps);
            assert(stats@.subrange(0, i as int) =~= stats@);
        }
        out
    }
}

/// Every line of every document as a line entry, documents in order.
pub fn collect_line_embeddings(documents: &Vec<Document>) -> (r: Vec<LineEmbedding>)
    requires
        forall|d: int| 0 <= d < documents@.len() ==> #[trigger] documents@[d].embeddings@.len() <= i32::MAX,
    ensures
        r@.map_values(|x: LineEmbedding| x@) == all_document_lines(documents@),
{
    let mut out: Vec<LineEmbedding> = Vec::new();
    let mut d: usize = 0;
    while d < documents.len()
        invariant
            d <= documents@.len(),
            forall|e: int| 0 <= e < documents@.len() ==> #[trigger] documents@[e].embeddings@.len() <= i32::MAX,
            out@.map_values(|x: LineEmbedding| x@) == all_document_lines(documents@.subrange(0, d as int)),
        decreases documents@.len() - d,
    {
        let doc = &documents[d];
        let ghost base = out@.map_values(|x: LineEmbedding| x@);
        proof {
            assert(documents@.subrange(0, d as int + 1).drop_last() =~= documents@.subrange(0, d as int));
            assert(documents@.subrange(0, d as int + 1).last() == *doc);
        }
        let mut i: usize = 0;
        while i < doc.embeddings.len()
            invariant
                i <= doc.embeddings@.len() <= i32::MAX,
                out@.map_values(|x: LineEmbedding| x@) == base + document_lines(*doc).subrange(0, i as int),
            decreases doc.embeddings@.len() - i,
        {
            let entry = LineEmbedding {
                path: doc.filename.clone(),
                line_number: i as i32,
                embedding: crate::store::copy_u32s(&doc.embeddings[i]),
            };
            let ghost before = out@;
            out.push(entry);
            proof {
                assert(out@.map_values(|x: LineEmbedding| x@) =~= before.map_values(|x: LineEmbedding| x@).push(document_lines(*doc)[i as int]));
                assert(base + document_lines(*doc).subrange(0, i as int + 1) =~= (base + document_lines(*doc).subrange(0, i as int)).push(document_lines(*doc)[i as int]));
            }
            i = i + 1;
        }
        proof {
            assert(document_lines(*doc).subrange(0, i as int) =~= document_lines(*doc));
        }
        d = d + 1;
    }
    proof {
        assert(documents@.subrange(0, d as int) =~= documents@);
    }
    out
}

impl Store {
    /// Records freshly embedded documents: their lines first, then their
    /// metadata, so that an interrupted write leaves lines without metadata,
    /// which the next reconciliation treats as new.
    pub fn update_with_documents(&mut self, documents: &Vec<Document>, metas: &Vec<DocMeta>) -> (r: Result<
        (),
        StoreError,
    >)
        requires
            old(self).wf(),
            forall|d: int| 0 <= d < documents@.len() ==> #[trigger] documents@[d].embeddings@.len() <= i32::MAX,
        ensures
            final(self).wf(),
            r is Err <==> !batch_fits(old(self).entries(), all_document_lines(documents@)),
            r is Err ==> final(self).entries() == old(self).entries() && final(self).metas() == old(self).metas(),
            r is Ok ==> final(self).entries() == upsert_lines(old(self).entries(), all_document_lines(documents@)),
            r is Ok ==> final(self).metas() == upsert_metas(old(self).metas(), metas@.map_values(|m: DocMeta| m@)),
    {
        let xs = collect_line_embeddings(documents);
        match self.upsert_line_embeddings(&xs) {
            Ok(()) => {},
            Err(e) => {
                return Err(e);
            },
        }
        self.upsert_document_metadata(metas);
        Ok(())
    }

    /// Rebuilds a store from saved entries: a path saved twice keeps its last
    /// metadata, a path and line number saved twice its last line. Lines
    /// whose embeddings are empty or not all of one dimension are refused.
    pub fn restore(metas: Vec<DocMeta>, lines: Vec<LineEmbedding>) -> (r: Result<Store, StoreError>)
        ensures
            r is Err <==> !batch_fits(Seq::empty(), lines@.map_values(|l: LineEmbedding| l@)),
            r matches Ok(s) ==> {
                &&& s.wf()
                &&& s.metas() == upsert_metas(Seq::empty(), metas@.map_values(|m: DocMeta| m@))
                &&& s.entries() == upsert_lines(Seq::empty(), lines@.map_values(|l: LineEmbedding| l@))
            },
    {
        let mut s = Store::new();
        s.upsert_document_metadata(&metas);
        match s.upsert_line_embeddings(&lines) {
            Ok(()) => Ok(s),
            Err(e) => Err(e),
        }
    }
}

/// The stored paths whose files are gone (`exists[i]` is false for entry `i`).
pub open spec fn missing_paths(ms: Seq<MetaView>, exists: Seq<bool>) -> Seq<Seq<char>>
    decreases ms.len(),
{
    if ms.len() == 0 || exists.len() != ms.len() {
        Seq::empty()
    } else if exists.last() {
        missing_paths(ms.drop_last(), exists.drop_last())
    } else {
        missing_paths(ms.drop_last(), exists.drop_last()).push(ms.last().path)
    }
}

impl Store {
    /// Removes every stored document whose file no longer exists.
    /// `exists[i]` tells whether the file of stored entry `i` exists.
    pub fn prune(&mut self, exists: &Vec<bool>) -> (r: PruneOutput)
        requires
            old(self).wf(),
            exists@.len() == old(self).metas().len(),
        ensures
            final(self).wf(),
            final(self).metas() == metas_without(old(self).metas(), missing_paths(old(self).metas(), exists@)),
            final(self).entries() == lines_without(old(self).entries(), missing_paths(old(self).metas(), exists@)),
            r.files_removed == missing_paths(old(self).metas(), exists@).len(),
            r.files_remaining == final(self).metas().len(),
    {
        let ghost ms = self.metas();
        let paths = self.get_all_document_paths();
        proof {
            assert(path_views(paths@).len() == paths@.len());
            assert(meta_paths(ms).len() == ms.len());
        }
        let mut gone: Vec<String> = Vec::new();
        let mut i: usize = 0;
        while i < paths.len()
            invariant
                i <= paths@.len(),
                path_views(paths@) == meta_paths(ms),
                paths@.len() == ms.len(),
                ms.len() == exists@.len(),
                path_views(gone@) == missing_paths(ms.subrange(0, i as int), exists@.subrange(0, i as int)),
            decreases paths@.len() - i,
        {
            proof {
                assert(ms.subrange(0, i as int + 1).drop_last() =~= ms.subrange(0, i as int));
                assert(exists@.subrange(0, i as int + 1).drop_last() =~= exists@.subrange(0, i as int));
                assert(paths@[i as int]@ == path_views(paths@)[i as int]);
            }
            if !exists[i] {
                let ghost before = gone@;
                gone.push(paths[i].clone());
                proof {
                    assert(path_views(gone@) =~= path_views(before).push(ms[i as int].path));
                }
            }
            i = i + 1;
        }
        proof {
            assert(ms.subrange(0, i as int) =~= ms);
            assert(exists@.subrange(0, i as int) =~= exists@);
        }
        let removed = gone.len();
        self.delete_documents(&gone);
        PruneOutput { files_removed: removed, files_remaining: self.count_documents() }
    }
}

} // verus!
