//! Fusing dense and sparse results by reciprocal rank, and reranking them.
//!
//! A result of rank `n` in a channel is worth `1 / (60 + n)` there, and what it is
//! worth in both channels adds up. Worths are compared as fractions, so the order is
//! exact.
use crate::error::{Error, Fault};
use crate::hashing::{digest_text, hex_hash};
use crate::index::{is_source_excluded, source_path_is_excluded};
use crate::lines::{is_blank, trim};
use crate::refresh::RefreshReport;
use crate::reindex::section_line;
use crate::sorting::{
    in_order, is_order, lemma_insert_at, lemma_sort_in_order, lemma_sort_permutes, sort_by,
};
use crate::text::{copy, copy_opt, opt_text, same, texts};
use vstd::prelude::*;
use vstd::utf8::encode_utf8;

verus! {

/// What is added to a rank before it is inverted.
pub const RRF_K: usize = 60;

/// The most results of one channel that can be fused.
pub const MAX_HITS: usize = 1_073_741_824;

/// The smallest pool that is reranked, as far as there are results.
pub const MIN_RERANK_POOL: usize = 12;

/// A result of dense search. Its rank is its place in the list.
#[derive(Debug)]
pub struct DenseHit {
    pub path: String,
    pub title: String,
    pub heading: Option<String>,
    pub text: String,
    pub chunk_id: String,
}

/// A result of sparse search. Its rank is its place in the list.
#[derive(Debug)]
pub struct SparseHit {
    pub path: String,
    pub title: String,
    pub preview: String,
    pub snippet: String,
}

/// A note that either channel found.
#[derive(Debug)]
pub struct HybridAccumulator {
    pub path: String,
    pub title: String,
    pub heading: Option<String>,
    pub text: String,
    pub preview: String,
    pub snippet: String,
    pub dense_rank: Option<usize>,
    pub sparse_rank: Option<usize>,
    /// The rank of the sparse result that title, preview and snippet come from.
    pub sparse_shown: Option<usize>,
    pub rerank_rank: Option<usize>,
    pub chunk_id: Option<String>,
}

/// The model of a note that either channel found.
pub struct Hit {
    pub path: Seq<char>,
    pub title: Seq<char>,
    pub heading: Option<Seq<char>>,
    pub text: Seq<char>,
    pub preview: Seq<char>,
    pub snippet: Seq<char>,
    pub dense_rank: Option<nat>,
    pub sparse_rank: Option<nat>,
    pub sparse_shown: Option<nat>,
    pub rerank_rank: Option<nat>,
    pub chunk_id: Option<Seq<char>>,
}

/// An optional rank as a number.
pub open spec fn opt_rank(o: Option<usize>) -> Option<nat> {
    match o {
        Some(n) => Some(n as nat),
        None => None,
    }
}

impl View for HybridAccumulator {
    type V = Hit;

    open spec fn view(&self) -> Hit {
        Hit {
            path: self.path@,
            title: self.title@,
            heading: opt_text(self.heading),
            text: self.text@,
            preview: self.preview@,
            snippet: self.snippet@,
            dense_rank: opt_rank(self.dense_rank),
            sparse_rank: opt_rank(self.sparse_rank),
            sparse_shown: opt_rank(self.sparse_shown),
            rerank_rank: opt_rank(self.rerank_rank),
            chunk_id: opt_text(self.chunk_id),
        }
    }
}

/// The model of a vector of notes.
pub open spec fn hits(v: Seq<HybridAccumulator>) -> Seq<Hit> {
    v.map_values(|h: HybridAccumulator| h@)
}

impl HybridAccumulator {
    /// A note of which no channel has said anything yet.
    pub fn new(
        path: &str,
        title: &str,
        heading: &Option<String>,
        text: &str,
        chunk_id: Option<String>,
    ) -> (r: HybridAccumulator)
        ensures
            r@ == fresh_hit(path@, title@, opt_text(*heading), text@, opt_text(chunk_id)),
    {
        HybridAccumulator {
            path: copy(path),
            title: copy(title),
            heading: copy_opt(heading),
            text: copy(text),
            preview: copy(text),
            snippet: String::new(),
            dense_rank: None,
            sparse_rank: None,
            sparse_shown: None,
            rerank_rank: None,
            chunk_id,
        }
    }

    /// A copy.
    fn copied(&self) -> (r: HybridAccumulator)
        ensures
            r@ == self@,
    {
        HybridAccumulator {
            path: self.path.clone(),
            title: self.title.clone(),
            heading: copy_opt(&self.heading),
            text: self.text.clone(),
            preview: self.preview.clone(),
            snippet: self.snippet.clone(),
            dense_rank: self.dense_rank,
            sparse_rank: self.sparse_rank,
            sparse_shown: self.sparse_shown,
            rerank_rank: self.rerank_rank,
            chunk_id: copy_opt(&self.chunk_id),
        }
    }

    /// The digest of the text, for a note that a passage of the index stands for. It
    /// is what the passage is asked for by.
    pub fn chunk_hash(&self) -> (r: Option<String>)
        ensures
            opt_text(r) == if self.chunk_id is Some {
                Some(digest_text(encode_utf8(self.text@)))
            } else {
                None
            },
    {
        if self.chunk_id.is_some() {
            Some(hex_hash(self.text.as_str().as_bytes()))
        } else {
            None
        }
    }
}

/// A note of which no channel has said anything yet.
pub open spec fn fresh_hit(
    path: Seq<char>,
    title: Seq<char>,
    heading: Option<Seq<char>>,
    text: Seq<char>,
    chunk_id: Option<Seq<char>>,
) -> Hit {
    Hit {
        path,
        title,
        heading,
        text,
        preview: text,
        snippet: Seq::empty(),
        dense_rank: None,
        sparse_rank: None,
        sparse_shown: None,
        rerank_rank: None,
        chunk_id,
    }
}

// ---------------------------------------------------------------------------
// Fusing
// ---------------------------------------------------------------------------

/// How many candidates each channel is asked for: five times the limit, within
/// bounds.
pub fn candidate_limit(limit: usize) -> (r: usize)
    ensures
        r == if limit * 5 < 20 {
            20int
        } else if limit * 5 > 100 {
            100
        } else {
            limit * 5
        },
        20 <= r <= 100,
        limit <= 100 ==> limit <= r,
{
    if limit < 4 {
        20
    } else if limit > 20 {
        100
    } else {
        limit * 5
    }
}

/// The place of the note with this path, if there is one.
pub open spec fn place_of(all: Seq<Hit>, path: Seq<char>) -> Option<int>
    decreases all.len(),
{
    if all.len() == 0 {
        None
    } else {
        match place_of(all.drop_last(), path) {
            Some(at) => Some(at),
            None => if all.last().path == path {
                Some(all.len() - 1)
            } else {
                None
            },
        }
    }
}

/// The notes after one more dense result. Only the first result of a note counts:
/// more chunks of one note do not raise it.
pub open spec fn add_dense(all: Seq<Hit>, hit: DenseHit, rank: nat) -> Seq<Hit> {
    match place_of(all, hit.path@) {
        Some(_) => all,
        None => all.push(
            Hit {
                dense_rank: Some(rank),
                ..fresh_hit(
                    hit.path@,
                    hit.title@,
                    opt_text(hit.heading),
                    hit.text@,
                    Some(hit.chunk_id@),
                )
            },
        ),
    }
}

/// A note with what a sparse result says of it. The first result of a note gives its
/// rank, the last one what is shown.
pub open spec fn with_sparse(before: Hit, hit: SparseHit, rank: nat) -> Hit {
    Hit {
        title: hit.title@,
        preview: hit.preview@,
        snippet: hit.snippet@,
        sparse_shown: Some(rank),
        sparse_rank: match before.sparse_rank {
            Some(first) => Some(first),
            None => Some(rank),
        },
        ..before
    }
}

/// The notes after one more sparse result.
pub open spec fn add_sparse(all: Seq<Hit>, hit: SparseHit, rank: nat) -> Seq<Hit> {
    match place_of(all, hit.path@) {
        Some(at) => all.update(at, with_sparse(all[at], hit, rank)),
        None => all.push(
            with_sparse(
                fresh_hit(hit.path@, hit.title@, None, hit.preview@, None),
                hit,
                rank,
            ),
        ),
    }
}

/// The notes of the dense results.
pub open spec fn fuse_dense(dense: Seq<DenseHit>) -> Seq<Hit>
    decreases dense.len(),
{
    if dense.len() == 0 {
        Seq::empty()
    } else {
        add_dense(fuse_dense(dense.drop_last()), dense.last(), dense.len())
    }
}

/// The notes of both channels, in the order in which they were first found.
pub open spec fn fuse(dense: Seq<DenseHit>, sparse: Seq<SparseHit>) -> Seq<Hit>
    decreases sparse.len(),
{
    if sparse.len() == 0 {
        fuse_dense(dense)
    } else {
        add_sparse(fuse(dense, sparse.drop_last()), sparse.last(), sparse.len())
    }
}

/// What a rank is counted as in the denominator of its worth.
pub open spec fn divisor(rank: nat) -> int {
    RRF_K + rank
}

/// The worth of a note, as numerator and denominator.
pub open spec fn worth(dense_rank: Option<nat>, sparse_rank: Option<nat>) -> (int, int) {
    match (dense_rank, sparse_rank) {
        (Some(d), Some(s)) => (divisor(d) + divisor(s), divisor(d) * divisor(s)),
        (Some(d), None) => (1, divisor(d)),
        (None, Some(s)) => (1, divisor(s)),
        (None, None) => (0, 1),
    }
}

/// Whether one fraction is larger than another.
pub open spec fn is_larger(a: (int, int), b: (int, int)) -> bool {
    a.0 * b.1 > b.0 * a.1
}

/// The worth of a note.
pub open spec fn hit_worth(hit: Hit) -> (int, int) {
    worth(hit.dense_rank, hit.sparse_rank)
}

/// The order of the notes: the one worth more comes first.
pub open spec fn worth_order() -> spec_fn(Hit, Hit) -> bool {
    |a: Hit, b: Hit| is_larger(hit_worth(a), hit_worth(b))
}

/// The notes of both channels, those worth more first. Notes that are worth the same
/// stay in the order in which they were found.
pub open spec fn ranked(dense: Seq<DenseHit>, sparse: Seq<SparseHit>) -> Seq<Hit> {
    sort_by(fuse(dense, sparse), worth_order())
}

/// Whether the ranks are small enough to be compared.
pub open spec fn ranks_fit(all: Seq<Hit>) -> bool {
    forall|i: int|
        0 <= i < all.len() ==> ((#[trigger] all[i]).dense_rank matches Some(d) ==> d <= MAX_HITS)
            && (all[i].sparse_rank matches Some(s) ==> s <= MAX_HITS)
}

/// The place of the note with this path.
fn find_place(all: &Vec<HybridAccumulator>, path: &str) -> (r: Option<usize>)
    ensures
        match r {
            Some(at) => at < all.len() && place_of(hits(all@), path@) == Some(at as int),
            None => place_of(hits(all@), path@) is None,
        },
{
    let ghost model = hits(all@);
    let mut found: Option<usize> = None;
    let mut i: usize = 0;
    while i < all.len()
        invariant
            i <= all.len(),
            model == hits(all@),
            match found {
                Some(at) => at < i && place_of(model.take(i as int), path@) == Some(at as int),
                None => place_of(model.take(i as int), path@) is None,
            },
        decreases all.len() - i,
    {
        assert(model.take(i + 1).drop_last() =~= model.take(i as int));
        assert(model[i as int] == all@[i as int]@);
        if found.is_none() && same(all[i].path.as_str(), path) {
            found = Some(i);
        }
        i = i + 1;
    }
    assert(model.take(i as int) =~= model);
    found
}

/// The notes of both channels, in the order in which they were first found.
fn fuse_channels(dense: &Vec<DenseHit>, sparse: &Vec<SparseHit>) -> (out: Vec<HybridAccumulator>)
    requires
        dense.len() <= MAX_HITS,
        sparse.len() <= MAX_HITS,
    ensures
        hits(out@) == fuse(dense@, sparse@),
        ranks_fit(hits(out@)),
{
    let mut out: Vec<HybridAccumulator> = Vec::new();
    let mut i: usize = 0;
    assert(hits(out@) =~= fuse_dense(dense@.take(0)));
    while i < dense.len()
        invariant
            i <= dense.len() <= MAX_HITS,
            hits(out@) == fuse_dense(dense@.take(i as int)),
            ranks_fit(hits(out@)),
        decreases dense.len() - i,
    {
        assert(dense@.take(i + 1).drop_last() =~= dense@.take(i as int));
        if find_place(&out, dense[i].path.as_str()).is_none() {
            let ghost before = hits(out@);
            let mut item = HybridAccumulator::new(
                dense[i].path.as_str(),
                dense[i].title.as_str(),
                &dense[i].heading,
                dense[i].text.as_str(),
                Some(dense[i].chunk_id.clone()),
            );
            item.dense_rank = Some(i + 1);
            out.push(item);
            assert(hits(out@) =~= before.push(item@));
            assert forall|k: int| 0 <= k < hits(out@).len() implies ((#[trigger] hits(
                out@,
            )[k]).dense_rank matches Some(d) ==> d <= MAX_HITS) && (hits(
                out@,
            )[k].sparse_rank matches Some(s) ==> s <= MAX_HITS) by {
                if k < before.len() {
                    assert(hits(out@)[k] == before[k]);
                }
            }
        }
        i = i + 1;
    }
    assert(dense@.take(i as int) =~= dense@);
    let mut j: usize = 0;
    assert(hits(out@) =~= fuse(dense@, sparse@.take(0)));
    while j < sparse.len()
        invariant
            j <= sparse.len() <= MAX_HITS,
            hits(out@) == fuse(dense@, sparse@.take(j as int)),
            ranks_fit(hits(out@)),
        decreases sparse.len() - j,
    {
        assert(sparse@.take(j + 1).drop_last() =~= sparse@.take(j as int));
        let ghost before = hits(out@);
        let hit = &sparse[j];
        let rank: usize = j + 1;
        match find_place(&out, hit.path.as_str()) {
            Some(at) => {
                let mut item = out[at].copied();
                assert(before[at as int] == out@[at as int]@);
                item.title = hit.title.clone();
                item.preview = hit.preview.clone();
                item.snippet = hit.snippet.clone();
                item.sparse_shown = Some(rank);
                if item.sparse_rank.is_none() {
                    item.sparse_rank = Some(rank);
                }
                assert(item@ == with_sparse(before[at as int], *hit, rank as nat));
                out[at] = item;
                assert(hits(out@) =~= before.update(at as int, item@));
            },
            None => {
                let mut item = HybridAccumulator::new(
                    hit.path.as_str(),
                    hit.title.as_str(),
                    &None,
                    hit.preview.as_str(),
                    None,
                );
                item.snippet = hit.snippet.clone();
                item.sparse_shown = Some(rank);
                item.sparse_rank = Some(rank);
                out.push(item);
                assert(hits(out@) =~= before.push(item@));
            },
        }
        assert forall|k: int| 0 <= k < hits(out@).len() implies ((#[trigger] hits(
            out@,
        )[k]).dense_rank matches Some(d) ==> d <= MAX_HITS) && (hits(
            out@,
        )[k].sparse_rank matches Some(s) ==> s <= MAX_HITS) by {
            if k < before.len() {
                let old_hit = before[k];
                assert(old_hit.dense_rank matches Some(d) ==> d <= MAX_HITS);
            }
        }
        j = j + 1;
    }
    assert(sparse@.take(j as int) =~= sparse@);
    out
}

/// The worth of a note, as numerator and denominator.
fn worth_of(dense_rank: Option<usize>, sparse_rank: Option<usize>) -> (r: (u128, u128))
    requires
        dense_rank matches Some(d) ==> d <= MAX_HITS,
        sparse_rank matches Some(s) ==> s <= MAX_HITS,
    ensures
        (r.0 as int, r.1 as int) == worth(opt_rank(dense_rank), opt_rank(sparse_rank)),
        r.0 <= 0x1_0000_0000,
        r.1 <= 0x2000_0000_0000_0000,
{
    match (dense_rank, sparse_rank) {
        (Some(d), Some(s)) => {
            let a: u128 = RRF_K as u128 + d as u128;
            let b: u128 = RRF_K as u128 + s as u128;
            assert(a * b <= 0x4000_003c * 0x4000_003c) by (nonlinear_arith)
                requires
                    a <= 0x4000_003c,
                    b <= 0x4000_003c,
            ;
            (a + b, a * b)
        },
        (Some(d), None) => (1, RRF_K as u128 + d as u128),
        (None, Some(s)) => (1, RRF_K as u128 + s as u128),
        (None, None) => (0, 1),
    }
}

/// Whether one note is worth more than another.
fn worth_more(a: &HybridAccumulator, b: &HybridAccumulator) -> (r: bool)
    requires
        a.dense_rank matches Some(d) ==> d <= MAX_HITS,
        a.sparse_rank matches Some(s) ==> s <= MAX_HITS,
        b.dense_rank matches Some(d) ==> d <= MAX_HITS,
        b.sparse_rank matches Some(s) ==> s <= MAX_HITS,
    ensures
        r == worth_order()(a@, b@),
{
    let x: (u128, u128) = worth_of(a.dense_rank, a.sparse_rank);
    let y: (u128, u128) = worth_of(b.dense_rank, b.sparse_rank);
    let (xn, xd): (u128, u128) = x;
    let (yn, yd): (u128, u128) = y;
    assert(xn * yd <= 0x1_0000_0000 * 0x2000_0000_0000_0000) by (nonlinear_arith)
        requires
            xn <= 0x1_0000_0000,
            yd <= 0x2000_0000_0000_0000,
    ;
    assert(yn * xd <= 0x1_0000_0000 * 0x2000_0000_0000_0000) by (nonlinear_arith)
        requires
            yn <= 0x1_0000_0000,
            xd <= 0x2000_0000_0000_0000,
    ;
    xn * yd > yn * xd
}

/// The notes of both channels, those worth more first.
pub fn rank_fused(dense: &Vec<DenseHit>, sparse: &Vec<SparseHit>) -> (out: Vec<HybridAccumulator>)
    requires
        dense.len() <= MAX_HITS,
        sparse.len() <= MAX_HITS,
    ensures
        hits(out@) == ranked(dense@, sparse@),
{
    let mut fused = fuse_channels(dense, sparse);
    let ghost all = hits(fused@);
    let mut out: Vec<HybridAccumulator> = Vec::new();
    let mut i: usize = 0;
    assert(hits(out@) =~= sort_by(all.take(0), worth_order()));
    while i < fused.len()
        invariant
            i <= fused.len(),
            all == hits(fused@),
            ranks_fit(all),
            hits(out@) == sort_by(all.take(i as int), worth_order()),
            ranks_fit(hits(out@)),
        decreases fused.len() - i,
    {
        assert(all.take(i + 1).drop_last() =~= all.take(i as int));
        assert(all[i as int] == fused@[i as int]@);
        let item = fused[i].copied();
        let ghost before = hits(out@);
        let mut k: usize = out.len();
        let mut moving: bool = true;
        while moving
            invariant
                k <= out.len(),
                before == hits(out@),
                ranks_fit(before),
                item@.dense_rank matches Some(d) ==> d <= MAX_HITS,
                item@.sparse_rank matches Some(s) ==> s <= MAX_HITS,
                forall|j: int| k <= j < before.len() ==> worth_order()(item@, #[trigger] before[j]),
                !moving ==> k == 0 || !worth_order()(item@, before[k - 1]),
            decreases k, (if moving { 1int } else { 0int }),
        {
            if k == 0 {
                moving = false;
            } else {
                assert(before[k - 1] == out@[k - 1]@);
                if worth_more(&item, &out[k - 1]) {
                    k = k - 1;
                } else {
                    moving = false;
                }
            }
        }
        proof {
            lemma_insert_at(before, item@, worth_order(), k as int);
        }
        out.insert(k, item);
        assert(hits(out@) =~= before.insert(k as int, item@));
        assert forall|m: int| 0 <= m < hits(out@).len() implies ((#[trigger] hits(
            out@,
        )[m]).dense_rank matches Some(d) ==> d <= MAX_HITS) && (hits(
            out@,
        )[m].sparse_rank matches Some(s) ==> s <= MAX_HITS) by {
            if m < k {
                assert(hits(out@)[m] == before[m]);
            } else if m > k {
                assert(hits(out@)[m] == before[m - 1]);
            }
        }
        i = i + 1;
    }
    assert(all.take(i as int) =~= all);
    out
}

// ---------------------------------------------------------------------------
// Reranking
// ---------------------------------------------------------------------------

/// Whether the results are reranked: where that is switched on, an endpoint is named
/// and there is anything to rerank.
pub fn should_rerank(enabled: bool, endpoint: &str, results: usize) -> (r: bool)
    ensures
        r == (enabled && trim(endpoint@).len() > 0 && results > 0),
{
    enabled && !is_blank(endpoint) && results > 0
}

/// How many results are reranked: as many as are asked for, at least the smallest
/// pool, and not more than there are.
pub open spec fn pool_of(limit: nat, results: nat) -> nat {
    let wanted = if limit > MIN_RERANK_POOL {
        limit
    } else {
        MIN_RERANK_POOL as nat
    };
    if wanted < results {
        wanted
    } else {
        results
    }
}

/// How many results are reranked.
pub fn pool_size(limit: usize, results: usize) -> (r: usize)
    ensures
        r == pool_of(limit as nat, results as nat),
{
    let wanted: usize = if limit > MIN_RERANK_POOL {
        limit
    } else {
        MIN_RERANK_POOL
    };
    if wanted < results {
        wanted
    } else {
        results
    }
}

/// What is sent to be reranked of a note.
pub open spec fn rerank_text(hit: Hit) -> Seq<char> {
    "Title: "@ + hit.title + "\n"@ + section_line(hit.heading) + "Content:\n"@ + hit.text
}

/// What is sent to be reranked of a note.
pub fn rerank_document(hit: &HybridAccumulator) -> (out: String)
    ensures
        out@ == rerank_text(hit@),
{
    let mut out: String = String::new();
    out.append("Title: ");
    out.append(hit.title.as_str());
    out.append("\n");
    let ghost front = out@;
    match &hit.heading {
        Some(heading) => {
            out.append("Section: ");
            out.append(heading.as_str());
            out.append("\n");
        },
        None => {},
    }
    assert(out@ =~= front + section_line(opt_text(hit.heading)));
    out.append("Content:\n");
    out.append(hit.text.as_str());
    assert(out@ =~= rerank_text(hit@));
    out
}

/// The last item of a response that is about a document.
pub open spec fn last_about(indices: Seq<usize>, document: int) -> Option<int>
    decreases indices.len(),
{
    if indices.len() == 0 {
        None
    } else if indices.last() == document {
        Some(indices.len() - 1)
    } else {
        last_about(indices.drop_last(), document)
    }
}

/// The last item of a response that is about a document.
fn find_last_about(indices: &Vec<usize>, document: usize) -> (r: Option<usize>)
    ensures
        match r {
            Some(at) => at < indices.len() && last_about(indices@, document as int) == Some(
                at as int,
            ),
            None => last_about(indices@, document as int) is None,
        },
{
    let mut i: usize = indices.len();
    assert(indices@.take(i as int) =~= indices@);
    while i > 0
        invariant
            i <= indices.len(),
            last_about(indices@, document as int) == last_about(
                indices@.take(i as int),
                document as int,
            ),
        decreases i,
    {
        assert(indices@.take(i as int).drop_last() =~= indices@.take(i - 1));
        if indices[i - 1] == document {
            return Some(i - 1);
        }
        i = i - 1;
    }
    None
}

/// For each document of a batch the item of the response that scores it, the last
/// one where there are several. A response that leaves a document out is refused;
/// items about documents that were not sent are passed over.
pub fn assign_scores(indices: &Vec<usize>, documents: usize) -> (r: Result<Vec<usize>, Error>)
    ensures
        match r {
            Ok(items) => items.len() == documents && forall|k: int|
                0 <= k < documents ==> last_about(indices@, k) == Some(
                    #[trigger] items@[k] as int,
                ),
            Err(error) => (exists|k: int| 0 <= k < documents && #[trigger] last_about(
                indices@,
                k,
            ) is None) && error@ == Fault::Other(
                "reranker response omitted one or more documents"@,
            ),
        },
{
    let mut items: Vec<usize> = Vec::new();
    let mut k: usize = 0;
    while k < documents
        invariant
            k <= documents,
            items.len() == k,
            forall|m: int| 0 <= m < k ==> last_about(indices@, m) == Some(#[trigger] items@[m] as int),
        decreases documents - k,
    {
        match find_last_about(indices, k) {
            Some(at) => {
                items.push(at);
            },
            None => {
                assert(last_about(indices@, k as int) is None);
                return Err(Error::Other(copy("reranker response omitted one or more documents")));
            },
        }
        k = k + 1;
    }
    Ok(items)
}

/// The reranked notes: those that the order names, in that order, each with its place
/// in it.
pub open spec fn reranked(pool: Seq<Hit>, order: Seq<usize>) -> Seq<Hit>
    decreases order.len(),
{
    if order.len() == 0 {
        Seq::empty()
    } else {
        let before = reranked(pool, order.drop_last());
        if order.last() < pool.len() {
            before.push(Hit { rerank_rank: Some(order.len()), ..pool[order.last() as int] })
        } else {
            before
        }
    }
}

/// The results after reranking: the pool in its new order and then the others. An
/// empty order changes nothing.
pub open spec fn after_rerank(results: Seq<Hit>, pool: nat, order: Seq<usize>) -> Seq<Hit> {
    if order.len() == 0 {
        results
    } else {
        reranked(results.take(pool as int), order) + results.skip(pool as int)
    }
}

/// The results after reranking.
pub fn apply_rerank(
    results: &Vec<HybridAccumulator>,
    pool: usize,
    order: &Vec<usize>,
) -> (out: Vec<HybridAccumulator>)
    requires
        pool <= results.len(),
    ensures
        hits(out@) == after_rerank(hits(results@), pool as nat, order@),
{
    let ghost all = hits(results@);
    let ghost front = all.take(pool as int);
    let mut out: Vec<HybridAccumulator> = Vec::new();
    let mut i: usize = 0;
    assert(hits(out@) =~= reranked(front, order@.take(0)));
    while i < order.len()
        invariant
            i <= order.len(),
            pool <= results.len(),
            all == hits(results@),
            front == all.take(pool as int),
            hits(out@) == reranked(front, order@.take(i as int)),
        decreases order.len() - i,
    {
        assert(order@.take(i + 1).drop_last() =~= order@.take(i as int));
        let at: usize = order[i];
        if at < pool {
            let ghost before = hits(out@);
            assert(front[at as int] == results@[at as int]@);
            let mut item = results[at].copied();
            item.rerank_rank = Some(i + 1);
            out.push(item);
            assert(hits(out@) =~= before.push(item@));
        }
        i = i + 1;
    }
    assert(order@.take(i as int) =~= order@);
    let start: usize = if order.len() == 0 {
        0
    } else {
        pool
    };
    let ghost head = hits(out@);
    let mut j: usize = start;
    assert(hits(out@) =~= head + all.subrange(start as int, start as int));
    while j < results.len()
        invariant
            start <= j <= results.len(),
            all == hits(results@),
            hits(out@) == head + all.subrange(start as int, j as int),
        decreases results.len() - j,
    {
        let ghost before = hits(out@);
        assert(all[j as int] == results@[j as int]@);
        out.push(results[j].copied());
        assert(hits(out@) =~= before.push(all[j as int]));
        assert(hits(out@) =~= head + all.subrange(start as int, j + 1));
        j = j + 1;
    }
    assert(hits(out@) =~= after_rerank(all, pool as nat, order@));
    out
}

/// The first results, as many as were asked for.
pub fn first_results(mut results: Vec<HybridAccumulator>, limit: usize) -> (out: Vec<
    HybridAccumulator,
>)
    ensures
        hits(out@) == if limit < results.len() {
            hits(results@).take(limit as int)
        } else {
            hits(results@)
        },
{
    let ghost all = hits(results@);
    if limit < results.len() {
        results.truncate(limit);
        assert(hits(results@) =~= all.take(limit as int));
    }
    results
}

// ---------------------------------------------------------------------------
// Diagnostics
// ---------------------------------------------------------------------------

/// Which channels contributed to a result, and why any did not.
#[derive(Debug)]
pub struct HybridDiagnostics {
    pub dense_unavailable: Option<String>,
    pub sparse_unavailable: Option<String>,
    pub rerank_unavailable: Option<String>,
    /// Whether the vault had changed since the index was built.
    pub index_stale: bool,
    /// Whether the index was refreshed before the search.
    pub index_refreshed: bool,
    /// Why a refresh that was due failed.
    pub refresh_failed: Option<String>,
}

impl Default for HybridDiagnostics {
    fn default() -> (r: Self)
        ensures
            r.dense_unavailable is None,
            r.sparse_unavailable is None,
            r.rerank_unavailable is None,
            !r.index_stale,
            !r.index_refreshed,
            r.refresh_failed is None,
    {
        HybridDiagnostics {
            dense_unavailable: None,
            sparse_unavailable: None,
            rerank_unavailable: None,
            index_stale: false,
            index_refreshed: false,
            refresh_failed: None,
        }
    }
}

impl HybridDiagnostics {
    /// Whether every channel contributed. That the index is outdated is no reason
    /// against it: an outdated index is served.
    pub fn is_complete(&self) -> (r: bool)
        ensures
            r == (self.dense_unavailable is None && self.sparse_unavailable is None
                && self.rerank_unavailable is None && self.refresh_failed is None),
    {
        self.dense_unavailable.is_none() && self.sparse_unavailable.is_none()
            && self.rerank_unavailable.is_none() && self.refresh_failed.is_none()
    }
}

/// An optional error as a fault.
pub open spec fn opt_fault(error: Option<Error>) -> Option<Fault> {
    match error {
        Some(error) => Some(error@),
        None => None,
    }
}

/// The failure that a search reports: where both channels are empty and one of them
/// failed, that of the dense channel first. As long as one channel contributes, no
/// failure of the other is one of the search.
pub fn search_failure(
    dense_results: usize,
    sparse_results: usize,
    dense_error: Option<Error>,
    sparse_error: Option<Error>,
) -> (r: Option<Error>)
    ensures
        opt_fault(r) == if dense_results > 0 || sparse_results > 0 {
            None
        } else if dense_error is Some {
            opt_fault(dense_error)
        } else {
            opt_fault(sparse_error)
        },
{
    if dense_results > 0 || sparse_results > 0 {
        None
    } else if dense_error.is_some() {
        dense_error
    } else {
        sparse_error
    }
}

// ---------------------------------------------------------------------------
// A whole search
// ---------------------------------------------------------------------------

/// The sparse results whose source is not excluded, in order.
pub open spec fn visible(sparse: Seq<SparseHit>, subtrees: Seq<Seq<char>>) -> Seq<SparseHit>
    decreases sparse.len(),
{
    if sparse.len() == 0 {
        Seq::empty()
    } else if is_source_excluded(sparse.last().path@, subtrees) {
        visible(sparse.drop_last(), subtrees)
    } else {
        visible(sparse.drop_last(), subtrees).push(sparse.last())
    }
}

/// The sparse results whose source is not excluded, in order.
pub fn visible_hits(sparse: Vec<SparseHit>, subtrees: &Vec<String>) -> (out: Vec<SparseHit>)
    ensures
        out@ == visible(sparse@, texts(subtrees@)),
        out.len() <= sparse.len(),
{
    let ghost all = sparse@;
    let mut rest = sparse;
    let mut out: Vec<SparseHit> = Vec::new();
    let ghost mut done: int = 0;
    assert(all.skip(0) =~= all);
    while rest.len() > 0
        invariant
            0 <= done <= all.len(),
            rest@ == all.skip(done),
            out@ == visible(all.take(done), texts(subtrees@)),
            out.len() <= done,
        decreases rest.len(),
    {
        let hit = rest.remove(0);
        assert(all.take(done + 1).drop_last() =~= all.take(done));
        assert(all.take(done + 1).last() == hit);
        if !source_path_is_excluded(hit.path.as_str(), subtrees) {
            out.push(hit);
        }
        proof {
            done = done + 1;
        }
        assert(rest@ =~= all.skip(done));
    }
    assert(all.take(done) =~= all);
    out
}

/// The notes that both channels came to, and why one of them did not contribute.
#[derive(Debug)]
pub struct FusedSearch {
    pub results: Vec<HybridAccumulator>,
    pub dense_unavailable: Option<String>,
    pub sparse_unavailable: Option<String>,
}

/// The failure of a channel: the error, and how it is told.
#[derive(Debug)]
pub struct ChannelFailure {
    pub error: Error,
    pub reason: String,
}

/// What a channel found: nothing where it failed.
pub open spec fn found_in<T>(channel: Result<Vec<T>, ChannelFailure>) -> Seq<T> {
    match channel {
        Ok(found) => found@,
        Err(_) => Seq::empty(),
    }
}

/// The error with which a channel failed, if it did.
pub open spec fn failure_of<T>(channel: Result<Vec<T>, ChannelFailure>) -> Option<Fault> {
    match channel {
        Ok(_) => None,
        Err(failure) => Some(failure.error@),
    }
}

/// How the failure of a channel is told, if it failed.
pub open spec fn reason_of<T>(channel: Result<Vec<T>, ChannelFailure>) -> Option<Seq<char>> {
    match channel {
        Ok(_) => None,
        Err(failure) => Some(failure.reason@),
    }
}

/// The failure of a whole search: the channels come to nothing, and one of them failed. That
/// of the dense channel is reported first.
pub open spec fn total_failure(
    dense: Result<Vec<DenseHit>, ChannelFailure>,
    sparse: Result<Vec<SparseHit>, ChannelFailure>,
    subtrees: Seq<Seq<char>>,
) -> Option<Fault> {
    if found_in(dense).len() > 0 || visible(found_in(sparse), subtrees).len() > 0 {
        None
    } else if failure_of(dense) is Some {
        failure_of(dense)
    } else {
        failure_of(sparse)
    }
}

/// Fuses what the channels found. They degrade one by one: as long as one of them contributes
/// anything, the failure of the other is only noted. The error of a search that failed is the
/// channel's own.
pub fn fuse_search(
    dense: Result<Vec<DenseHit>, ChannelFailure>,
    sparse: Result<Vec<SparseHit>, ChannelFailure>,
    subtrees: &Vec<String>,
) -> (r: Result<FusedSearch, Error>)
    requires
        found_in(dense).len() <= MAX_HITS,
        found_in(sparse).len() <= MAX_HITS,
    ensures
        match r {
            Ok(fused) => {
                &&& total_failure(dense, sparse, texts(subtrees@)) is None
                &&& hits(fused.results@) == ranked(
                    found_in(dense),
                    visible(found_in(sparse), texts(subtrees@)),
                )
                &&& opt_text(fused.dense_unavailable) == reason_of(dense)
                &&& opt_text(fused.sparse_unavailable) == reason_of(sparse)
            },
            Err(error) => total_failure(dense, sparse, texts(subtrees@)) == Some(error@),
        },
{
    let (dense_hits, dense_error, dense_unavailable) = match dense {
        Ok(found) => (found, None, None),
        Err(failure) => (Vec::new(), Some(failure.error), Some(failure.reason)),
    };
    let (sparse_hits, sparse_error, sparse_unavailable) = match sparse {
        Ok(found) => (visible_hits(found, subtrees), None, None),
        Err(failure) => (Vec::new(), Some(failure.error), Some(failure.reason)),
    };
    assert(dense_hits@ =~= found_in(dense));
    assert(sparse_hits@ =~= visible(found_in(sparse), texts(subtrees@)));
    match search_failure(dense_hits.len(), sparse_hits.len(), dense_error, sparse_error) {
        Some(error) => Err(error),
        None => Ok(
            FusedSearch {
                results: rank_fused(&dense_hits, &sparse_hits),
                dense_unavailable,
                sparse_unavailable,
            },
        ),
    }
}

/// What is sent to be reranked: the texts of the pool in order.
pub open spec fn pool_texts(results: Seq<Hit>, pool: nat) -> Seq<Seq<char>> {
    results.take(pool as int).map_values(|hit: Hit| rerank_text(hit))
}

/// What is sent to be reranked of the results, where they are reranked at all.
pub fn rerank_documents(
    results: &Vec<HybridAccumulator>,
    limit: usize,
    enabled: bool,
    endpoint: &str,
) -> (r: Option<Vec<String>>)
    ensures
        match r {
            Some(documents) => enabled && trim(endpoint@).len() > 0 && results.len() > 0 && texts(
                documents@,
            ) == pool_texts(hits(results@), pool_of(limit as nat, results.len() as nat)),
            None => !enabled || trim(endpoint@).len() == 0 || results.len() == 0,
        },
{
    if !should_rerank(enabled, endpoint, results.len()) {
        return None;
    }
    let pool: usize = pool_size(limit, results.len());
    let ghost all = hits(results@);
    let mut documents: Vec<String> = Vec::new();
    let mut i: usize = 0;
    while i < pool
        invariant
            i <= pool <= results.len(),
            all == hits(results@),
            texts(documents@) == pool_texts(all, i as nat),
        decreases pool - i,
    {
        let ghost before = texts(documents@);
        let document = rerank_document(&results[i]);
        assert(all[i as int] == results@[i as int]@);
        documents.push(document);
        assert(texts(documents@) =~= before.push(document@));
        i = i + 1;
        assert(texts(documents@) =~= pool_texts(all, i as nat));
    }
    Some(documents)
}

/// What a search comes to.
#[derive(Debug)]
pub struct HybridSearchOutcome {
    pub results: Vec<HybridAccumulator>,
    pub diagnostics: HybridDiagnostics,
}

/// The order that a reranker gave: none where it was not asked or failed.
pub open spec fn order_given(rerank: Option<Result<Vec<usize>, String>>) -> Seq<usize> {
    match rerank {
        Some(Ok(order)) => order@,
        _ => Seq::empty(),
    }
}

/// Why a reranker failed, if it did.
pub open spec fn rerank_failure(rerank: Option<Result<Vec<usize>, String>>) -> Option<Seq<char>> {
    match rerank {
        Some(Err(message)) => Some(message@),
        _ => None,
    }
}

/// The first results, at most so many.
pub open spec fn at_most(all: Seq<Hit>, limit: nat) -> Seq<Hit> {
    if limit < all.len() {
        all.take(limit as int)
    } else {
        all
    }
}

/// Finishes a search, given what the reranker answered, if it was asked: the pool in its new
/// order, or the fused order where the reranker failed, and as many results as were asked
/// for. Every failure on the way is told.
pub fn finish_search(
    fused: FusedSearch,
    rerank: Option<Result<Vec<usize>, String>>,
    limit: usize,
    index_stale: bool,
    refresh: RefreshReport,
) -> (r: HybridSearchOutcome)
    ensures
        hits(r.results@) == at_most(
            after_rerank(
                hits(fused.results@),
                pool_of(limit as nat, fused.results.len() as nat),
                order_given(rerank),
            ),
            limit as nat,
        ),
        opt_text(r.diagnostics.dense_unavailable) == opt_text(fused.dense_unavailable),
        opt_text(r.diagnostics.sparse_unavailable) == opt_text(fused.sparse_unavailable),
        opt_text(r.diagnostics.rerank_unavailable) == rerank_failure(rerank),
        r.diagnostics.index_stale == index_stale,
        r.diagnostics.index_refreshed == refresh.refreshed,
        opt_text(r.diagnostics.refresh_failed) == opt_text(refresh.failure),
{
    let pool: usize = pool_size(limit, fused.results.len());
    let (order, rerank_unavailable) = match rerank {
        Some(Ok(order)) => (order, None),
        Some(Err(message)) => (Vec::new(), Some(message)),
        None => (Vec::new(), None),
    };
    assert(order@ =~= order_given(rerank));
    let results = apply_rerank(&fused.results, pool, &order);
    assert(hits(results@).len() == results.len());
    HybridSearchOutcome {
        results: first_results(results, limit),
        diagnostics: HybridDiagnostics {
            dense_unavailable: fused.dense_unavailable,
            sparse_unavailable: fused.sparse_unavailable,
            rerank_unavailable,
            index_stale,
            index_refreshed: refresh.refreshed,
            refresh_failed: refresh.failure,
        },
    }
}

// ---------------------------------------------------------------------------
// Laws
// ---------------------------------------------------------------------------

proof fn lemma_worth_transitive(a: (int, int), b: (int, int), c: (int, int))
    requires
        a.1 > 0,
        b.1 > 0,
        c.1 > 0,
        !is_larger(b, a),
        !is_larger(c, b),
    ensures
        !is_larger(c, a),
{
    let (an, ad) = a;
    let (bn, bd) = b;
    let (cn, cd) = c;
    assert(cn * ad <= an * cd) by (nonlinear_arith)
        requires
            ad > 0,
            bd > 0,
            cd > 0,
            bn * ad <= an * bd,
            cn * bd <= bn * cd,
    {
        assert(cn * bd * ad <= bn * cd * ad);
        assert(bn * ad * cd <= an * bd * cd);
        assert((cn * ad) * bd <= (an * cd) * bd);
    }
}

proof fn lemma_worth_positive(dense_rank: Option<nat>, sparse_rank: Option<nat>)
    ensures
        worth(dense_rank, sparse_rank).1 > 0,
{
    match (dense_rank, sparse_rank) {
        (Some(d), Some(s)) => {
            assert(divisor(d) * divisor(s) > 0) by (nonlinear_arith)
                requires
                    divisor(d) > 0,
                    divisor(s) > 0,
            ;
        },
        _ => {},
    }
}

/// The fused results come in the order of their worth.
pub proof fn lemma_ranked_in_order(dense: Seq<DenseHit>, sparse: Seq<SparseHit>)
    ensures
        in_order(ranked(dense, sparse), worth_order()),
        ranked(dense, sparse).len() == fuse(dense, sparse).len(),
{
    let lt = worth_order();
    assert forall|a: Hit, b: Hit, c: Hit|
        !#[trigger] lt(b, a) && !#[trigger] lt(c, b) implies !lt(c, a) by {
        lemma_worth_positive(a.dense_rank, a.sparse_rank);
        lemma_worth_positive(b.dense_rank, b.sparse_rank);
        lemma_worth_positive(c.dense_rank, c.sparse_rank);
        lemma_worth_transitive(hit_worth(a), hit_worth(b), hit_worth(c));
    }
    assert(is_order(lt));
    lemma_sort_in_order(fuse(dense, sparse), lt);
    lemma_sort_permutes(fuse(dense, sparse), lt);
}

proof fn lemma_sum_of_fractions(a: int, b: int, c: int)
    by (nonlinear_arith)
    requires
        0 < a < b,
        c > 0,
    ensures
        (a + c) * (b * c) > (b + c) * (a * c),
        (c + a) * (c * b) > (c + b) * (c * a),
{
    assert((a + c) * (b * c) - (b + c) * (a * c) == c * c * (b - a));
    assert((c + a) * (c * b) - (c + b) * (c * a) == c * c * (b - a));
    assert(c * c > 0);
    assert(c * c * (b - a) > 0);
}

/// A better rank in a channel is worth more, the other channel being equal.
pub proof fn lemma_better_rank_is_worth_more(better: nat, worse: nat, other: Option<nat>)
    requires
        better < worse,
    ensures
        is_larger(worth(Some(better), other), worth(Some(worse), other)),
        is_larger(worth(other, Some(better)), worth(other, Some(worse))),
{
    let a = divisor(better);
    let b = divisor(worse);
    match other {
        Some(o) => {
            let c = divisor(o);
            let left = worth(Some(better), other);
            let right = worth(Some(worse), other);
            lemma_sum_of_fractions(a, b, c);
            assert(left == (a + c, a * c));
            assert(right == (b + c, b * c));
            assert(left.0 * right.1 > right.0 * left.1);
            let up = worth(other, Some(better));
            let down = worth(other, Some(worse));
            assert(up == (c + a, c * a));
            assert(down == (c + b, c * b));
            assert(up.0 * down.1 > down.0 * up.1);
        },
        None => {
            let left = worth(Some(better), other);
            let right = worth(Some(worse), other);
            assert(left.0 * right.1 > right.0 * left.1) by (nonlinear_arith)
                requires
                    left.0 == 1,
                    right.0 == 1,
                    left.1 < right.1,
            ;
        },
    }
}

/// A note that both channels found is worth more than it would be with one of them
/// alone.
pub proof fn lemma_both_channels_are_worth_more(dense_rank: nat, sparse_rank: nat)
    ensures
        is_larger(worth(Some(dense_rank), Some(sparse_rank)), worth(Some(dense_rank), None)),
        is_larger(worth(Some(dense_rank), Some(sparse_rank)), worth(None, Some(sparse_rank))),
{
    let a = divisor(dense_rank);
    let b = divisor(sparse_rank);
    assert((a + b) * a > 1 * (a * b)) by (nonlinear_arith)
        requires
            a > 0,
            b > 0,
    {
        assert((a + b) * a == a * a + b * a);
        assert(a * a > 0);
    }
    assert((a + b) * b > 1 * (a * b)) by (nonlinear_arith)
        requires
            a > 0,
            b > 0,
    {
        assert((a + b) * b == a * b + b * b);
        assert(b * b > 0);
    }
}

/// More chunks of a note that was found already change nothing: a note is not raised
/// by being long.
pub proof fn lemma_more_chunks_do_not_inflate(all: Seq<Hit>, hit: DenseHit, rank: nat)
    requires
        place_of(all, hit.path@) is Some,
    ensures
        add_dense(all, hit, rank) == all,
{
}

/// Whether one of the channels found a note at this path.
pub open spec fn was_found(dense: Seq<DenseHit>, sparse: Seq<SparseHit>, path: Seq<char>) -> bool {
    ||| exists|i: int| 0 <= i < dense.len() && (#[trigger] dense[i]).path@ == path
    ||| exists|i: int| 0 <= i < sparse.len() && (#[trigger] sparse[i]).path@ == path
}

proof fn lemma_dense_paths(dense: Seq<DenseHit>, i: int)
    requires
        0 <= i < fuse_dense(dense).len(),
    ensures
        exists|k: int|
            0 <= k < dense.len() && (#[trigger] dense[k]).path@ == fuse_dense(dense)[i].path,
    decreases dense.len(),
{
    let front = dense.drop_last();
    if i < fuse_dense(front).len() {
        lemma_dense_paths(front, i);
        let k = choose|k: int|
            0 <= k < front.len() && (#[trigger] front[k]).path@ == fuse_dense(front)[i].path;
        assert(dense[k] == front[k]);
    } else {
        assert(dense[dense.len() - 1] == dense.last());
    }
}

proof fn lemma_fused_paths(dense: Seq<DenseHit>, sparse: Seq<SparseHit>, i: int)
    requires
        0 <= i < fuse(dense, sparse).len(),
    ensures
        was_found(dense, sparse, fuse(dense, sparse)[i].path),
    decreases sparse.len(),
{
    if sparse.len() == 0 {
        lemma_dense_paths(dense, i);
    } else {
        let front = sparse.drop_last();
        let before = fuse(dense, front);
        lemma_place_in_range(before, sparse.last().path@);
        if i < before.len() {
            lemma_fused_paths(dense, front, i);
            assert(fuse(dense, sparse)[i].path == before[i].path);
            if !(exists|k: int| 0 <= k < dense.len() && (#[trigger] dense[k]).path@
                == before[i].path) {
                let k = choose|k: int|
                    0 <= k < front.len() && (#[trigger] front[k]).path@ == before[i].path;
                assert(sparse[k] == front[k]);
            }
        } else {
            let hit = sparse[sparse.len() - 1];
            assert(place_of(before, hit.path@) is None);
            assert(fuse(dense, sparse)[i].path == hit.path@);
        }
    }
}

proof fn lemma_place_in_range(all: Seq<Hit>, path: Seq<char>)
    ensures
        place_of(all, path) matches Some(at) ==> 0 <= at < all.len(),
    decreases all.len(),
{
    if all.len() > 0 {
        lemma_place_in_range(all.drop_last(), path);
    }
}

/// Every result was found by one of the channels.
pub proof fn lemma_results_were_found(dense: Seq<DenseHit>, sparse: Seq<SparseHit>, i: int)
    requires
        0 <= i < ranked(dense, sparse).len(),
    ensures
        was_found(dense, sparse, ranked(dense, sparse)[i].path),
{
    let all = fuse(dense, sparse);
    let hit = ranked(dense, sparse)[i];
    lemma_sort_permutes(all, worth_order());
    assert(ranked(dense, sparse).to_multiset().contains(hit)) by {
        ranked(dense, sparse).to_multiset_ensures();
        assert(ranked(dense, sparse).contains(hit));
    }
    all.to_multiset_ensures();
    assert(all.contains(hit));
    let k = choose|k: int| 0 <= k < all.len() && all[k] == hit;
    lemma_fused_paths(dense, sparse, k);
}

/// A source that is excluded is not among the sparse results that are fused.
pub proof fn lemma_excluded_sources_are_not_visible(
    sparse: Seq<SparseHit>,
    subtrees: Seq<Seq<char>>,
    i: int,
)
    requires
        0 <= i < visible(sparse, subtrees).len(),
    ensures
        !is_source_excluded(visible(sparse, subtrees)[i].path@, subtrees),
    decreases sparse.len(),
{
    if i < visible(sparse.drop_last(), subtrees).len() {
        lemma_excluded_sources_are_not_visible(sparse.drop_last(), subtrees, i);
    }
}

} // verus!
