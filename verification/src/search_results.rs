//! Search requests, and the results that answer them.
use crate::lines::{join, joined, words, words_of};
use crate::search::{extract_keywords, extract_snippet, keywords, preview, preview_of, snippet};
use crate::text::{
    char_count, contains, copy, copy_texts, ends_with, has, has_suffix, has_text, opt_texts, same,
    texts,
};
use vstd::prelude::*;

verus! {

// ---------------------------------------------------------------------------
// Requests
// ---------------------------------------------------------------------------

/// What the results of a search have to meet.
pub struct SearchFilter {
    /// Only notes with one of these tags.
    pub tags: Option<Vec<String>>,
    /// Only notes whose front matter has each of these keys, with a value that holds the
    /// given text.
    pub frontmatter_filters: Option<Vec<(String, String)>>,
    /// Only notes that one of these notes links to.
    pub backlinks_from: Option<Vec<String>>,
    /// No note whose path ends with one of these.
    pub exclude_paths: Option<Vec<String>>,
}

/// What the results of a search have to meet, as texts.
#[verifier::ext_equal]
pub struct Filter {
    pub tags: Option<Seq<Seq<char>>>,
    pub frontmatter: Option<Seq<(Seq<char>, Seq<char>)>>,
    pub backlinks_from: Option<Seq<Seq<char>>>,
    pub excluded: Option<Seq<Seq<char>>>,
}

/// Pairs of strings as pairs of texts.
pub open spec fn pairs(v: Seq<(String, String)>) -> Seq<(Seq<char>, Seq<char>)> {
    v.map_values(|p: (String, String)| (p.0@, p.1@))
}

/// Optional pairs of strings as pairs of texts.
pub open spec fn opt_pairs(o: Option<Vec<(String, String)>>) -> Option<
    Seq<(Seq<char>, Seq<char>)>,
> {
    match o {
        Some(v) => Some(pairs(v@)),
        None => None,
    }
}

impl View for SearchFilter {
    type V = Filter;

    open spec fn view(&self) -> Filter {
        Filter {
            tags: opt_texts(self.tags),
            frontmatter: opt_pairs(self.frontmatter_filters),
            backlinks_from: opt_texts(self.backlinks_from),
            excluded: opt_texts(self.exclude_paths),
        }
    }
}

/// A filter that every note passes.
pub open spec fn no_filter() -> Filter {
    Filter { tags: None, frontmatter: None, backlinks_from: None, excluded: None }
}

impl Default for SearchFilter {
    fn default() -> (r: Self)
        ensures
            r@ == no_filter(),
    {
        SearchFilter {
            tags: None,
            frontmatter_filters: None,
            backlinks_from: None,
            exclude_paths: None,
        }
    }
}

/// A search request under construction.
pub struct SearchQuery {
    query: String,
    filter: SearchFilter,
    limit: usize,
}

/// A search request.
#[verifier::ext_equal]
pub struct Request {
    pub query: Seq<char>,
    pub filter: Filter,
    pub limit: usize,
}

impl View for SearchQuery {
    type V = Request;

    closed spec fn view(&self) -> Request {
        Request { query: self.query@, filter: self.filter@, limit: self.limit }
    }
}

/// A request for the ten best notes, with no condition.
pub open spec fn plain_request(query: Seq<char>) -> Request {
    Request { query, filter: no_filter(), limit: 10 }
}

/// The request with one more pair of key and value to meet.
pub open spec fn with_pair(request: Request, key: Seq<char>, value: Seq<char>) -> Request {
    let before = match request.filter.frontmatter {
        Some(held) => held,
        None => Seq::empty(),
    };
    Request {
        filter: Filter { frontmatter: Some(before.push((key, value))), ..request.filter },
        ..request
    }
}

impl SearchQuery {
    /// A request for the ten best notes.
    pub fn new(query: &str) -> (r: Self)
        ensures
            r@ == plain_request(query@),
    {
        SearchQuery { query: copy(query), filter: SearchFilter::default(), limit: 10 }
    }

    /// Only notes with one of these tags.
    pub fn with_tags(self, tags: Vec<String>) -> (r: Self)
        ensures
            r@ == (Request { filter: Filter { tags: Some(texts(tags@)), ..self@.filter }, ..self@ }),
    {
        let mut r = self;
        r.filter.tags = Some(tags);
        r
    }

    /// Only notes whose front matter has this key, with a value that holds this text.
    pub fn with_frontmatter(self, key: String, value: String) -> (r: Self)
        ensures
            r@ == with_pair(self@, key@, value@),
    {
        let mut r = self;
        let mut held: Vec<(String, String)> = match r.filter.frontmatter_filters {
            Some(held) => held,
            None => Vec::new(),
        };
        let ghost before = pairs(held@);
        held.push((key, value));
        assert(pairs(held@) =~= before.push((key@, value@)));
        r.filter.frontmatter_filters = Some(held);
        assert(r@ =~= with_pair(self@, key@, value@));
        r
    }

    /// Only notes that one of these notes links to.
    pub fn with_backlinks_from(self, paths: Vec<String>) -> (r: Self)
        ensures
            r@ == (Request {
                filter: Filter { backlinks_from: Some(texts(paths@)), ..self@.filter },
                ..self@
            }),
    {
        let mut r = self;
        r.filter.backlinks_from = Some(paths);
        r
    }

    /// No note whose path ends with one of these.
    pub fn exclude(self, paths: Vec<String>) -> (r: Self)
        ensures
            r@ == (Request {
                filter: Filter { excluded: Some(texts(paths@)), ..self@.filter },
                ..self@
            }),
    {
        let mut r = self;
        r.filter.exclude_paths = Some(paths);
        r
    }

    /// At most so many notes.
    pub fn limit(self, limit: usize) -> (r: Self)
        ensures
            r@ == (Request { limit, ..self@ }),
    {
        let mut r = self;
        r.limit = limit;
        r
    }

    /// The parts of the request.
    pub fn build(self) -> (r: (String, SearchFilter, usize))
        ensures
            r.0@ == self@.query,
            r.1@ == self@.filter,
            r.2 == self@.limit,
    {
        (self.query, self.filter, self.limit)
    }

    /// The request behind a plain keyword search.
    pub fn for_keywords(query: &str) -> (r: Self)
        ensures
            r@ == plain_request(query@),
    {
        SearchQuery::new(query).limit(10)
    }

    /// The request behind a search by tags: up to a hundred notes, whatever they say.
    pub fn for_tags(tags: Vec<String>) -> (r: Self)
        ensures
            r@ == (Request {
                query: "*"@,
                filter: Filter { tags: Some(texts(tags@)), ..no_filter() },
                limit: 100,
            }),
    {
        SearchQuery::new("*").with_tags(tags).limit(100)
    }

    /// The request behind a search by a property: up to a hundred notes, whatever they
    /// say.
    pub fn for_frontmatter(key: &str, value: &str) -> (r: Self)
        ensures
            r@ == (Request {
                query: "*"@,
                filter: Filter { frontmatter: Some(seq![(key@, value@)]), ..no_filter() },
                limit: 100,
            }),
    {
        let r = SearchQuery::new("*").with_frontmatter(copy(key), copy(value)).limit(100);
        assert(Seq::<(Seq<char>, Seq<char>)>::empty().push((key@, value@)) =~= seq![
            (key@, value@),
        ]);
        r
    }

    /// The request behind a search for notes that are related to one: its keywords, with
    /// the note itself left out.
    pub fn for_related(path: &str, plain: &str, limit: usize) -> (r: Self)
        ensures
            r@ == (Request {
                query: join(keywords(words(plain@)), " "@),
                filter: Filter { excluded: Some(seq![path@]), ..no_filter() },
                limit,
            }),
    {
        let query = joined(&extract_keywords(plain), " ");
        let mut left_out: Vec<String> = Vec::new();
        left_out.push(copy(path));
        assert(texts(left_out@) =~= seq![path@]);
        SearchQuery::new(query.as_str()).exclude(left_out).limit(limit)
    }
}

/// How many documents are fetched for so many results: twice as many, since the filters
/// leave some out.
pub fn fetch_limit(limit: usize) -> (n: usize)
    requires
        2 * limit <= usize::MAX,
    ensures
        n == 2 * limit,
{
    limit * 2
}

// ---------------------------------------------------------------------------
// Candidates
// ---------------------------------------------------------------------------

/// What is read of a note that the index found.
pub struct FoundNote {
    /// The keys of its front matter with their values written out, if it has any.
    pub frontmatter: Option<Vec<(String, String)>>,
    /// Its readable text.
    pub plain: String,
    /// What it links to.
    pub links: Vec<String>,
    /// The notes that link to it.
    pub backlinks: Vec<String>,
}

/// A document that the index found: what it stores, and the note if it can be read.
pub struct Candidate {
    pub path: String,
    pub title: String,
    /// The tags, with spaces between them.
    pub tags: String,
    pub note: Option<FoundNote>,
}

/// What is read of a note, as texts.
pub struct NoteModel {
    pub frontmatter: Option<Seq<(Seq<char>, Seq<char>)>>,
    pub plain: Seq<char>,
    pub links: Seq<Seq<char>>,
    pub backlinks: Seq<Seq<char>>,
}

/// A document that the index found, as texts.
pub struct CandidateModel {
    pub path: Seq<char>,
    pub title: Seq<char>,
    pub tags: Seq<char>,
    pub note: Option<NoteModel>,
}

impl View for FoundNote {
    type V = NoteModel;

    open spec fn view(&self) -> NoteModel {
        NoteModel {
            frontmatter: opt_pairs(self.frontmatter),
            plain: self.plain@,
            links: texts(self.links@),
            backlinks: texts(self.backlinks@),
        }
    }
}

impl View for Candidate {
    type V = CandidateModel;

    open spec fn view(&self) -> CandidateModel {
        CandidateModel {
            path: self.path@,
            title: self.title@,
            tags: self.tags@,
            note: match self.note {
                Some(note) => Some(note@),
                None => None,
            },
        }
    }
}

/// Candidates as models.
pub open spec fn candidates(v: Seq<Candidate>) -> Seq<CandidateModel> {
    v.map_values(|c: Candidate| c@)
}

/// The value of the first pair with that key.
pub open spec fn value_of(held: Seq<(Seq<char>, Seq<char>)>, key: Seq<char>) -> Option<Seq<char>>
    decreases held.len(),
{
    if held.len() == 0 {
        None
    } else if held[0].0 == key {
        Some(held[0].1)
    } else {
        value_of(held.drop_first(), key)
    }
}

/// Whether the pairs hold that key, with a value that holds that text.
pub open spec fn meets(
    held: Seq<(Seq<char>, Seq<char>)>,
    wanted: (Seq<char>, Seq<char>),
) -> bool {
    match value_of(held, wanted.0) {
        Some(value) => contains(value, wanted.1),
        None => false,
    }
}

/// Whether two sequences of texts have one in common.
pub open spec fn overlap(a: Seq<Seq<char>>, b: Seq<Seq<char>>) -> bool {
    exists|i: int| 0 <= i < a.len() && b.contains(#[trigger] a[i])
}

/// Whether the path ends with one of the given ones.
pub open spec fn ends_with_any(path: Seq<char>, suffixes: Seq<Seq<char>>) -> bool {
    exists|i: int| 0 <= i < suffixes.len() && ends_with(path, #[trigger] suffixes[i])
}

/// Whether a document meets the conditions on what the index stores.
pub open spec fn passes_stored(filter: Filter, c: CandidateModel) -> bool {
    &&& filter.tags is Some ==> overlap(words(c.tags), filter.tags->0)
    &&& filter.excluded is Some ==> !ends_with_any(c.path, filter.excluded->0)
}

/// Whether a note meets the conditions on what is read of it.
pub open spec fn passes_read(filter: Filter, note: NoteModel) -> bool {
    &&& filter.frontmatter is Some ==> note.frontmatter is Some && forall|i: int|
        0 <= i < filter.frontmatter->0.len() ==> meets(
            note.frontmatter->0,
            #[trigger] filter.frontmatter->0[i],
        )
    &&& filter.backlinks_from is Some ==> overlap(note.backlinks, filter.backlinks_from->0)
}

/// Whether a document is a result: it meets every condition, and its note can be read.
pub open spec fn passes(filter: Filter, c: CandidateModel) -> bool {
    passes_stored(filter, c) && c.note is Some && passes_read(filter, c.note->0)
}

// ---------------------------------------------------------------------------
// Results
// ---------------------------------------------------------------------------

/// A note that was found. Its score is that of the document at its rank.
pub struct SearchResultInfo {
    pub path: String,
    pub title: String,
    /// The first characters of the readable text.
    pub preview: String,
    /// The part of the readable text that matches.
    pub snippet: String,
    pub tags: Vec<String>,
    pub outgoing_links: Vec<String>,
    pub backlink_count: usize,
    pub word_count: usize,
    pub char_count: usize,
    /// The place of the document among those that were fetched.
    pub rank: usize,
}

/// A note that was found, as texts and numbers.
#[verifier::ext_equal]
pub struct Found {
    pub path: Seq<char>,
    pub title: Seq<char>,
    pub preview: Seq<char>,
    pub snippet: Seq<char>,
    pub tags: Seq<Seq<char>>,
    pub outgoing_links: Seq<Seq<char>>,
    pub backlink_count: nat,
    pub word_count: nat,
    pub char_count: nat,
    pub rank: nat,
}

impl View for SearchResultInfo {
    type V = Found;

    open spec fn view(&self) -> Found {
        Found {
            path: self.path@,
            title: self.title@,
            preview: self.preview@,
            snippet: self.snippet@,
            tags: texts(self.tags@),
            outgoing_links: texts(self.outgoing_links@),
            backlink_count: self.backlink_count as nat,
            word_count: self.word_count as nat,
            char_count: self.char_count as nat,
            rank: self.rank as nat,
        }
    }
}

/// Results as models.
pub open spec fn found_models(v: Seq<SearchResultInfo>) -> Seq<Found> {
    v.map_values(|r: SearchResultInfo| r@)
}

/// The result that a readable document comes to.
pub open spec fn result_of(c: CandidateModel, rank: nat, query: Seq<char>) -> Found {
    let note = c.note->0;
    Found {
        path: c.path,
        title: c.title,
        preview: preview(note.plain),
        snippet: snippet(note.plain, query),
        tags: words(c.tags),
        outgoing_links: note.links,
        backlink_count: note.backlinks.len(),
        word_count: words(note.plain).len(),
        char_count: note.plain.len(),
        rank,
    }
}

/// All documents that pass, as results in the order of the documents.
pub open spec fn passing(all: Seq<CandidateModel>, filter: Filter, query: Seq<char>) -> Seq<Found>
    decreases all.len(),
{
    if all.len() == 0 {
        Seq::empty()
    } else {
        let before = passing(all.drop_last(), filter, query);
        if passes(filter, all.last()) {
            before.push(result_of(all.last(), (all.len() - 1) as nat, query))
        } else {
            before
        }
    }
}

/// At most so many of the results.
pub open spec fn at_most(all: Seq<Found>, limit: nat) -> Seq<Found> {
    if all.len() <= limit {
        all
    } else {
        all.take(limit as int)
    }
}

/// Whether two vectors of strings have a text in common.
fn shares_text(a: &Vec<String>, b: &Vec<String>) -> (r: bool)
    ensures
        r == overlap(texts(a@), texts(b@)),
{
    let mut i: usize = 0;
    while i < a.len()
        invariant
            i <= a.len(),
            forall|k: int| 0 <= k < i ==> !texts(b@).contains(#[trigger] texts(a@)[k]),
        decreases a.len() - i,
    {
        assert(texts(a@)[i as int] == a@[i as int]@);
        if has_text(b, a[i].as_str()) {
            return true;
        }
        i = i + 1;
    }
    assert(texts(a@).len() == a.len());
    false
}

fn has_any_suffix(path: &str, suffixes: &Vec<String>) -> (r: bool)
    ensures
        r == ends_with_any(path@, texts(suffixes@)),
{
    let mut i: usize = 0;
    while i < suffixes.len()
        invariant
            i <= suffixes.len(),
            forall|k: int| 0 <= k < i ==> !ends_with(path@, #[trigger] texts(suffixes@)[k]),
        decreases suffixes.len() - i,
    {
        assert(texts(suffixes@)[i as int] == suffixes@[i as int]@);
        if has_suffix(path, suffixes[i].as_str()) {
            return true;
        }
        i = i + 1;
    }
    assert(texts(suffixes@).len() == suffixes.len());
    false
}

fn meets_pair(held: &Vec<(String, String)>, wanted: &(String, String)) -> (r: bool)
    ensures
        r == meets(pairs(held@), (wanted.0@, wanted.1@)),
{
    let ghost all = pairs(held@);
    let mut i: usize = 0;
    assert(all.skip(0) =~= all);
    while i < held.len()
        invariant
            i <= held.len(),
            all == pairs(held@),
            value_of(all, wanted.0@) == value_of(all.skip(i as int), wanted.0@),
        decreases held.len() - i,
    {
        assert(all.skip(i as int).drop_first() =~= all.skip(i + 1));
        assert(all.skip(i as int)[0] == (held@[i as int].0@, held@[i as int].1@));
        if same(held[i].0.as_str(), wanted.0.as_str()) {
            return has(held[i].1.as_str(), wanted.1.as_str());
        }
        i = i + 1;
    }
    false
}

fn meets_all(held: &Vec<(String, String)>, wanted: &Vec<(String, String)>) -> (r: bool)
    ensures
        r == (forall|i: int|
            0 <= i < pairs(wanted@).len() ==> meets(pairs(held@), #[trigger] pairs(wanted@)[i])),
{
    let mut i: usize = 0;
    while i < wanted.len()
        invariant
            i <= wanted.len(),
            forall|k: int| 0 <= k < i ==> meets(pairs(held@), #[trigger] pairs(wanted@)[k]),
        decreases wanted.len() - i,
    {
        assert(pairs(wanted@)[i as int] == (wanted@[i as int].0@, wanted@[i as int].1@));
        if !meets_pair(held, &wanted[i]) {
            return false;
        }
        i = i + 1;
    }
    true
}

/// Whether a note meets the conditions on what is read of it.
fn note_passes(filter: &SearchFilter, note: &FoundNote) -> (r: bool)
    ensures
        r == passes_read(filter@, note@),
{
    if let Some(wanted) = &filter.frontmatter_filters {
        let met = match &note.frontmatter {
            Some(held) => meets_all(held, wanted),
            None => false,
        };
        if !met {
            return false;
        }
    }
    match &filter.backlinks_from {
        Some(paths) => shares_text(&note.backlinks, paths),
        None => true,
    }
}

/// Whether a document meets the conditions on what the index stores.
fn document_passes(filter: &SearchFilter, c: &Candidate, tags: &Vec<String>) -> (r: bool)
    requires
        texts(tags@) == words(c@.tags),
    ensures
        r == passes_stored(filter@, c@),
{
    if let Some(wanted) = &filter.tags {
        if !shares_text(tags, wanted) {
            return false;
        }
    }
    match &filter.exclude_paths {
        Some(paths) => !has_any_suffix(c.path.as_str(), paths),
        None => true,
    }
}

/// The results that come first do not depend on the documents behind them.
proof fn lemma_passing_prefix(
    all: Seq<CandidateModel>,
    n: int,
    filter: Filter,
    query: Seq<char>,
)
    requires
        0 <= n <= all.len(),
    ensures
        passing(all.take(n), filter, query).len() <= passing(all, filter, query).len(),
        passing(all, filter, query).take(passing(all.take(n), filter, query).len() as int)
            == passing(all.take(n), filter, query),
    decreases all.len(),
{
    let k = passing(all.take(n), filter, query).len() as int;
    if n < all.len() {
        lemma_passing_prefix(all.drop_last(), n, filter, query);
        assert(all.drop_last().take(n) =~= all.take(n));
        assert(passing(all, filter, query).take(k) =~= passing(
            all.drop_last(),
            filter,
            query,
        ).take(k));
    } else {
        assert(all.take(n) =~= all);
        assert(passing(all, filter, query).take(k) =~= passing(all, filter, query));
    }
}

/// The results of a search, given the documents that the index found, the best first: the
/// first `limit` of those that pass.
pub fn build_results(
    found: &Vec<Candidate>,
    filter: &SearchFilter,
    query: &str,
    limit: usize,
) -> (out: Vec<SearchResultInfo>)
    ensures
        found_models(out@) == at_most(
            passing(candidates(found@), filter@, query@),
            limit as nat,
        ),
{
    let mut out: Vec<SearchResultInfo> = Vec::new();
    let mut i: usize = 0;
    let ghost all = candidates(found@);
    while i < found.len() && out.len() < limit
        invariant
            i <= found.len(),
            out.len() <= limit,
            all == candidates(found@),
            found_models(out@) == passing(all.take(i as int), filter@, query@),
        decreases found.len() - i,
    {
        let c = &found[i];
        assert(all.take(i + 1).drop_last() =~= all.take(i as int));
        assert(all.take(i + 1).last() == c@);
        let tags = words_of(c.tags.as_str());
        if document_passes(filter, c, &tags) {
            if let Some(note) = &c.note {
                if note_passes(filter, note) {
                    let ghost before = found_models(out@);
                    let text = note.plain.as_str();
                    let spoken = words_of(text);
                    let result = SearchResultInfo {
                        path: c.path.clone(),
                        title: c.title.clone(),
                        preview: preview_of(text),
                        snippet: extract_snippet(text, query),
                        tags,
                        outgoing_links: copy_texts(&note.links),
                        backlink_count: note.backlinks.len(),
                        word_count: spoken.len(),
                        char_count: char_count(text),
                        rank: i,
                    };
                    assert(texts(spoken@).len() == spoken.len());
                    assert(texts(note.backlinks@).len() == note.backlinks.len());
                    assert(result@ =~= result_of(c@, i as nat, query@));
                    out.push(result);
                    assert(found_models(out@) =~= before.push(result@));
                }
            }
        }
        i = i + 1;
    }
    proof {
        lemma_passing_prefix(all, i as int, filter@, query@);
        assert(all.take(all.len() as int) =~= all);
        assert(found_models(out@).len() == out.len());
        if i == found.len() {
            assert(all.take(i as int) =~= all);
        } else {
            assert(passing(all, filter@, query@).take(limit as int) =~= found_models(out@));
            if passing(all, filter@, query@).len() == limit {
                assert(passing(all, filter@, query@).take(limit as int) =~= passing(
                    all,
                    filter@,
                    query@,
                ));
            }
        }
    }
    out
}

// ---------------------------------------------------------------------------
// What the results promise
// ---------------------------------------------------------------------------

/// Each result is one of the documents: it stands at its rank, and meets every condition
/// of the request.
pub proof fn lemma_results_pass_the_filter(
    all: Seq<CandidateModel>,
    filter: Filter,
    query: Seq<char>,
    limit: nat,
    i: int,
)
    requires
        0 <= i < at_most(passing(all, filter, query), limit).len(),
    ensures
        ({
            let result = at_most(passing(all, filter, query), limit)[i];
            &&& result.rank < all.len()
            &&& passes(filter, all[result.rank as int])
            &&& result == result_of(all[result.rank as int], result.rank, query)
        }),
    decreases all.len(),
{
    assert(at_most(passing(all, filter, query), limit)[i] == passing(all, filter, query)[i]);
    let before = all.drop_last();
    if i < passing(before, filter, query).len() {
        let k = passing(before, filter, query).len();
        lemma_results_pass_the_filter(before, filter, query, k, i);
    }
}

/// There are at most as many results as were asked for, and they keep the order of the
/// documents.
pub proof fn lemma_results_keep_their_order(
    all: Seq<CandidateModel>,
    filter: Filter,
    query: Seq<char>,
    limit: nat,
)
    ensures
        at_most(passing(all, filter, query), limit).len() <= limit,
        forall|i: int, j: int|
            0 <= i < j < at_most(passing(all, filter, query), limit).len() ==> (#[trigger] at_most(
                passing(all, filter, query),
                limit,
            )[i]).rank < (#[trigger] at_most(passing(all, filter, query), limit)[j]).rank,
{
    lemma_ranks_grow(all, filter, query);
    let shown = at_most(passing(all, filter, query), limit);
    assert forall|i: int, j: int| 0 <= i < j < shown.len() implies (#[trigger] shown[i]).rank < (
    #[trigger] shown[j]).rank by {
        assert(shown[i] == passing(all, filter, query)[i]);
        assert(shown[j] == passing(all, filter, query)[j]);
    }
}

proof fn lemma_ranks_grow(all: Seq<CandidateModel>, filter: Filter, query: Seq<char>)
    ensures
        forall|i: int|
            0 <= i < passing(all, filter, query).len() ==> (#[trigger] passing(
                all,
                filter,
                query,
            )[i]).rank < all.len(),
        forall|i: int, j: int|
            0 <= i < j < passing(all, filter, query).len() ==> (#[trigger] passing(
                all,
                filter,
                query,
            )[i]).rank < (#[trigger] passing(all, filter, query)[j]).rank,
    decreases all.len(),
{
    if all.len() > 0 {
        let before = passing(all.drop_last(), filter, query);
        lemma_ranks_grow(all.drop_last(), filter, query);
        let now = passing(all, filter, query);
        assert forall|i: int| 0 <= i < now.len() implies (#[trigger] now[i]).rank < all.len() by {
            if i < before.len() {
                assert(now[i] == before[i]);
            }
        }
        assert forall|i: int, j: int| 0 <= i < j < now.len() implies (#[trigger] now[i]).rank < (
        #[trigger] now[j]).rank by {
            assert(now[i] == before[i]);
            if j < before.len() {
                assert(now[j] == before[j]);
            }
        }
    }
}

/// A note is not related to itself: a search that leaves out a path never finds the note at
/// that path.
pub proof fn lemma_excluded_note_is_not_found(
    all: Seq<CandidateModel>,
    filter: Filter,
    query: Seq<char>,
    limit: nat,
    path: Seq<char>,
    i: int,
)
    requires
        filter.excluded is Some,
        filter.excluded->0.contains(path),
        0 <= i < at_most(passing(all, filter, query), limit).len(),
    ensures
        at_most(passing(all, filter, query), limit)[i].path != path,
{
    lemma_results_pass_the_filter(all, filter, query, limit, i);
    let at = choose|k: int| 0 <= k < filter.excluded->0.len() && filter.excluded->0[k] == path;
    assert(path.subrange(0, path.len() as int) =~= path);
    assert(ends_with(path, filter.excluded->0[at]));
}

} // verus!
