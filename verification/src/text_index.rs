//! The full-text index: its documents follow the notes, and queries find them.
use crate::error::{wrap, Error, Fault};
use crate::search::{parse_query_resilient, query_error, resolved_query, sanitized};
use crate::search_index::{
    after_op, after_ops, all_ops, built, change_models, doc_models, doc_of, mirrors, op_models,
    ops_for, plan_build, plan_changes, shown_title, Change, ChangedNote, Doc, IndexDocument,
    IndexOp, Op, Source,
};
use crate::search_results::fetch_limit;
use tantivy::collector::TopDocs;
use tantivy::schema::{Field, Schema, Value, STORED, STRING, TEXT};
use tantivy::{DocAddress, Index, IndexWriter, ReloadPolicy, Searcher, TantivyDocument, Term};
use vstd::multiset::Multiset;
use vstd::prelude::*;
use vstd::utf8::encode_utf8;

verus! {

// ---------------------------------------------------------------------------
// What tantivy does
// ---------------------------------------------------------------------------

/// An index in memory of documents with four texts, each in a field of its own. At most one
/// writer changes it at a time.
#[verifier::external_body]
pub struct TextIndex {
    index: Index,
    writer: Option<IndexWriter>,
    path: Field,
    title: Field,
    content: Field,
    tags: Field,
}

/// One of the four texts of a document.
#[derive(Debug, Clone, Copy, PartialEq, Eq, Structural)]
pub enum Part {
    Path,
    Title,
    Content,
    Tags,
}

/// What the index does with a text.
#[derive(Debug, Clone, Copy, PartialEq, Eq, Structural)]
pub enum FieldKind {
    /// It is found as a whole, and given back.
    Whole,
    /// It is found by its words, and given back.
    Words,
    /// It is found by its words.
    Hidden,
}

/// The names and kinds of the fields of an index, in the order of the parts.
pub type Layout = Seq<(Seq<char>, FieldKind)>;

/// The fields of an index.
pub uninterp spec fn layout(index: TextIndex) -> Layout;

/// The documents of an index that searches find.
pub uninterp spec fn documents(index: TextIndex) -> Multiset<Doc>;

/// The changes under way, if there are any: the documents that the next commit leaves, and
/// whether every document was taken so far.
pub uninterp spec fn changing(index: TextIndex) -> Option<(Multiset<Doc>, bool)>;

/// Whether fields may have these names: none is empty, begins with a hyphen or is there
/// twice.
pub open spec fn are_field_names(names: Seq<Seq<char>>) -> bool {
    &&& forall|i: int| 0 <= i < names.len() ==> (#[trigger] names[i]).len() > 0 && names[i][0] != '-'
    &&& names.no_duplicates()
}

/// How many bytes a term of the index may have.
pub const MAX_TERM_BYTES: usize = 65_530;

/// Whether a path is short enough to be found again by the index.
pub open spec fn is_term(path: Seq<char>) -> bool {
    encode_utf8(path).len() <= MAX_TERM_BYTES
}

/// `tantivy::Index::create_in_ram` with a schema of four text fields, in this order: an index
/// without documents.
#[verifier::external_body]
fn create_index(
    path: (&str, FieldKind),
    title: (&str, FieldKind),
    content: (&str, FieldKind),
    tags: (&str, FieldKind),
) -> (r: TextIndex)
    requires
        are_field_names(seq![path.0@, title.0@, content.0@, tags.0@]),
    ensures
        layout(r) == seq![
            (path.0@, path.1),
            (title.0@, title.1),
            (content.0@, content.1),
            (tags.0@, tags.1),
        ],
        documents(r) == Multiset::<Doc>::empty(),
        changing(r) is None,
{
    let mut schema = Schema::builder();
    let mut make = |field: (&str, FieldKind)| match field.1 {
        FieldKind::Whole => schema.add_text_field(field.0, STRING | STORED),
        FieldKind::Words => schema.add_text_field(field.0, TEXT | STORED),
        FieldKind::Hidden => schema.add_text_field(field.0, TEXT),
    };
    let (path, title, content, tags) = (make(path), make(title), make(content), make(tags));
    TextIndex { index: Index::create_in_ram(schema.build()), writer: None, path, title, content, tags }
}

/// `tantivy::Index::writer`: begins changes with that much memory. It fails with a message,
/// and changes nothing, among others where changes are under way.
#[verifier::external_body]
fn begin(index: &mut TextIndex, memory: usize) -> (failure: Option<String>)
    ensures
        layout(*final(index)) == layout(*old(index)),
        documents(*final(index)) == documents(*old(index)),
        match failure {
            None => changing(*final(index)) == Some((documents(*old(index)), true)),
            Some(_) => changing(*final(index)) == changing(*old(index)),
        },
{
    match index.index.writer(memory) {
        Ok(writer) => {
            index.writer = Some(writer);
            None
        },
        Err(error) => Some(error.to_string()),
    }
}

/// `tantivy::IndexWriter::add_document`: hands a document to the writer, which takes it
/// unless one of its threads has failed. Searches find it after the commit.
#[verifier::external_body]
fn insert(index: &mut TextIndex, document: &IndexDocument) -> (taken: bool)
    requires
        changing(*old(index)) is Some,
    ensures
        layout(*final(index)) == layout(*old(index)),
        documents(*final(index)) == documents(*old(index)),
        changing(*final(index)) == match changing(*old(index)) {
            Some((next, all)) => if taken {
                Some((next.insert(document@), all))
            } else {
                Some((next, false))
            },
            None => None,
        },
{
    let mut row = TantivyDocument::default();
    row.add_text(index.path, &document.path);
    row.add_text(index.title, &document.title);
    row.add_text(index.content, &document.content);
    row.add_text(index.tags, &document.tags);
    index.writer.as_ref().unwrap().add_document(row).is_ok()
}

/// `tantivy::IndexWriter::delete_term` on the path: the documents with that path, of this
/// change and of earlier ones, leave with the commit. Nothing is claimed for a path that is
/// too long for a term.
#[verifier::external_body]
fn delete(index: &mut TextIndex, path: &str)
    requires
        layout(*old(index)).len() == 4,
        layout(*old(index))[0].1 is Whole,
        changing(*old(index)) is Some,
    ensures
        layout(*final(index)) == layout(*old(index)),
        documents(*final(index)) == documents(*old(index)),
        match (changing(*old(index)), changing(*final(index))) {
            (Some((before, all)), Some((after, still))) => still == all && (is_term(path@) ==> after
                == after_op(before, Op::Delete(path@))),
            _ => false,
        },
{
    let term = Term::from_field_text(index.path, path);
    index.writer.as_ref().unwrap().delete_term(term);
}

/// `tantivy::IndexWriter::commit`, after which the writer is dropped: searches find what
/// the changes left. It fails, with a message, where a thread of the writer has failed;
/// then nothing is claimed of the documents.
#[verifier::external_body]
fn commit(index: &mut TextIndex) -> (failure: Option<String>)
    requires
        changing(*old(index)) is Some,
    ensures
        layout(*final(index)) == layout(*old(index)),
        changing(*final(index)) is None,
        failure is None ==> changing(*old(index)) == Some((documents(*final(index)), true)),
{
    let mut writer = index.writer.take().unwrap();
    writer.commit().err().map(|error| error.to_string())
}

/// `tantivy::Searcher`: the documents of an index at one time.
#[verifier::external_type_specification]
#[verifier::external_body]
pub struct ExSearcher(tantivy::Searcher);

/// The documents that a searcher sees, by segment and number.
pub uninterp spec fn seen(searcher: tantivy::Searcher) -> Map<(u32, u32), Doc>;

/// Whether these are the places of all documents that are seen, each once.
pub open spec fn lists(order: Seq<(u32, u32)>, seen: Map<(u32, u32), Doc>) -> bool {
    &&& order.no_duplicates()
    &&& forall|at: (u32, u32)| #[trigger] seen.dom().contains(at) <==> order.contains(at)
}

/// The documents at these places.
pub open spec fn documents_at(order: Seq<(u32, u32)>, seen: Map<(u32, u32), Doc>) -> Seq<Doc> {
    order.map_values(|at: (u32, u32)| seen[at])
}

/// Whether the documents that are seen are those of the index, all of them and each as often
/// as it is there.
pub open spec fn shows(seen: Map<(u32, u32), Doc>, index: Multiset<Doc>) -> bool {
    exists|order: Seq<(u32, u32)>| #[trigger]
        lists(order, seen) && documents_at(order, seen).to_multiset() == index
}

/// The fields of the index that a searcher was opened on.
pub uninterp spec fn seen_layout(searcher: tantivy::Searcher) -> Layout;

/// `tantivy::IndexReaderBuilder::try_into` and `tantivy::IndexReader::searcher`: a searcher
/// over the documents of the last commit, or a message. Whether it can be opened is left to
/// tantivy.
#[verifier::external_body]
fn open_searcher(index: &TextIndex) -> (r: Result<Searcher, String>)
    ensures
        r matches Ok(searcher) ==> seen_layout(searcher) == layout(*index) && shows(
            seen(searcher),
            documents(*index),
        ),
{
    let builder = index.index.reader_builder().reload_policy(ReloadPolicy::Manual);
    builder.try_into().map(|reader| reader.searcher()).map_err(|error| error.to_string())
}

/// How a query parser reads words.
#[verifier::ext_equal]
pub struct ParserSetup {
    /// The fields of the index that the parser was made for.
    pub layout: Layout,
    /// The parts in which words are looked for that name none.
    pub parts: Seq<Part>,
    /// For each part, how words match that are not quite those of a document: whether the
    /// beginning of a word is enough, how many edits apart they may be, and whether a swap
    /// of two letters is one edit. Parts that are not there want the words themselves.
    pub tolerance: Map<Part, (bool, u8, bool)>,
}

/// How a query parser was set up.
pub uninterp spec fn setup(parser: tantivy::query::QueryParser) -> ParserSetup;

/// `tantivy::query::QueryParser::for_index` over these parts.
#[verifier::external_body]
fn query_parser(index: &TextIndex, parts: &Vec<Part>) -> (parser: tantivy::query::QueryParser)
    ensures
        setup(parser) == (ParserSetup {
            layout: layout(*index),
            parts: parts@,
            tolerance: Map::empty(),
        }),
{
    let field = |part: &Part| match part {
        Part::Path => index.path,
        Part::Title => index.title,
        Part::Content => index.content,
        Part::Tags => index.tags,
    };
    tantivy::query::QueryParser::for_index(&index.index, parts.iter().map(field).collect())
}

/// `tantivy::query::QueryParser::set_field_fuzzy` for one of the parts.
#[verifier::external_body]
fn tolerate(
    parser: &mut tantivy::query::QueryParser,
    index: &TextIndex,
    part: Part,
    prefix: bool,
    distance: u8,
    swaps: bool,
)
    requires
        distance <= 2,
    ensures
        setup(*final(parser)) == (ParserSetup {
            tolerance: setup(*old(parser)).tolerance.insert(part, (prefix, distance, swaps)),
            ..setup(*old(parser))
        }),
{
    let field = match part {
        Part::Path => index.path,
        Part::Title => index.title,
        Part::Content => index.content,
        Part::Tags => index.tags,
    };
    parser.set_field_fuzzy(field, prefix, distance, swaps);
}

/// A document that a query found.
#[derive(Debug, Clone, Copy)]
pub struct Hit {
    pub segment: u32,
    pub number: u32,
    /// The bits of the score, a floating-point number.
    pub score: u32,
}

/// The places of the documents that a query found.
pub open spec fn places(hits: Seq<Hit>) -> Seq<(u32, u32)> {
    hits.map_values(|h: Hit| (h.segment, h.number))
}

/// Whether so many documents can be asked for: there has to be at least one, and their list
/// has to fit into what can be addressed.
pub open spec fn can_fetch(limit: nat) -> bool {
    0 < limit && 64 * limit <= isize::MAX
}

/// What a searcher finds best, at most so many documents, for the query that a parser reads
/// in a text, or the message of the error that stopped the search.
pub uninterp spec fn best_hits(
    searcher: tantivy::Searcher,
    parser: tantivy::query::QueryParser,
    text: Seq<char>,
    limit: nat,
) -> Result<Seq<Hit>, Seq<char>>;

/// `tantivy::Searcher::search` with `tantivy::collector::TopDocs`, for the query that the
/// parser reads in the text: so many of the documents that match it, each once, the best
/// first, or a message. Which documents match, and how well, is left to tantivy: the segments
/// that the searcher holds, the parser, the text and the number decide it.
#[verifier::external_body]
fn best(
    searcher: &Searcher,
    parser: &tantivy::query::QueryParser,
    text: &str,
    limit: usize,
) -> (r: Result<Vec<Hit>, String>)
    requires
        seen_layout(*searcher).len() == 4,
        setup(*parser).layout == seen_layout(*searcher),
        can_fetch(limit as nat),
    ensures
        match r {
            Ok(hits) => {
                &&& best_hits(*searcher, *parser, text@, limit as nat) == Ok::<
                    Seq<Hit>,
                    Seq<char>,
                >(hits@)
                &&& hits.len() <= limit
                &&& places(hits@).no_duplicates()
                &&& forall|i: int|
                    0 <= i < hits.len() ==> seen(*searcher).dom().contains(
                        #[trigger] places(hits@)[i],
                    )
            },
            Err(message) => best_hits(*searcher, *parser, text@, limit as nat) == Err::<
                Seq<Hit>,
                Seq<char>,
            >(message@),
        },
{
    let query = parser.parse_query(text).map_err(|error| error.to_string())?;
    let top = TopDocs::with_limit(limit).order_by_score();
    let found = searcher.search(&query, &top).map_err(|error| error.to_string())?;
    Ok(found.into_iter().map(|(score, at)| Hit {
        segment: at.segment_ord, number: at.doc_id, score: score.to_bits(),
    }).collect())
}

/// What is given back of a document: its path, title and tags.
#[derive(Debug)]
pub struct StoredDocument {
    pub path: String,
    pub title: String,
    pub tags: String,
}

/// Whether this is what is given back of a document.
pub open spec fn is_stored(stored: StoredDocument, doc: Doc) -> bool {
    stored.path@ == doc.path && stored.title@ == doc.title && stored.tags@ == doc.tags
}

/// The message of the error with which a searcher does not give a document back, if so.
pub uninterp spec fn stored_error(
    searcher: tantivy::Searcher,
    segment: u32,
    number: u32,
) -> Option<Seq<char>>;

/// Whether fields of this kind are given back.
pub open spec fn is_given_back(kind: FieldKind) -> bool {
    kind is Whole || kind is Words
}

/// `tantivy::Searcher::doc`: what is given back of a document, or a message. Whether it can
/// be given back depends on what the searcher holds and the place alone.
#[verifier::external_body]
fn stored_document(index: &TextIndex, searcher: &Searcher, segment: u32, number: u32) -> (r: Result<
    StoredDocument,
    String,
>)
    requires
        seen_layout(*searcher).len() == 4,
        is_given_back(seen_layout(*searcher)[0].1),
        is_given_back(seen_layout(*searcher)[1].1),
        is_given_back(seen_layout(*searcher)[3].1),
        seen(*searcher).dom().contains((segment, number)),
    ensures
        match r {
            Ok(stored) => stored_error(*searcher, segment, number) is None && is_stored(
                stored,
                seen(*searcher)[(segment, number)],
            ),
            Err(message) => stored_error(*searcher, segment, number) == Some(message@),
        },
{
    let at = DocAddress::new(segment, number);
    let doc: TantivyDocument = searcher.doc(at).map_err(|error| error.to_string())?;
    let text = |field| doc.get_first(field).and_then(|v| v.as_str()).unwrap_or("").to_string();
    Ok(StoredDocument {
        path: text(index.path), title: text(index.title), tags: text(index.tags),
    })
}

// ---------------------------------------------------------------------------
// The engine
// ---------------------------------------------------------------------------

/// How much memory a writer uses, in bytes.
pub const WRITER_MEMORY: usize = 50_000_000;

/// The fields of the full-text index: a path is found as a whole, the rest by its words; the
/// content is not given back.
pub open spec fn engine_layout() -> Layout {
    seq![
        ("path"@, FieldKind::Whole),
        ("title"@, FieldKind::Words),
        ("content"@, FieldKind::Hidden),
        ("tags"@, FieldKind::Words),
    ]
}

/// How queries are read: words are looked for in the title, the content and the tags. A word
/// matches with one typo, a swap of two letters among them, but not with its beginning alone.
pub open spec fn engine_setup() -> ParserSetup {
    ParserSetup {
        layout: engine_layout(),
        parts: seq![Part::Title, Part::Content, Part::Tags],
        tolerance: map![
            Part::Title => (false, 1u8, true),
            Part::Content => (false, 1u8, true),
            Part::Tags => (false, 1u8, true),
        ],
    }
}

/// The full-text index of a vault.
pub struct SearchEngine {
    index: TextIndex,
}

impl View for SearchEngine {
    type V = Multiset<Doc>;

    closed spec fn view(&self) -> Multiset<Doc> {
        documents(self.index)
    }
}

/// A document that a query found, with the bits of its score.
#[derive(Debug)]
pub struct FoundDocument {
    pub path: String,
    pub title: String,
    pub tags: String,
    pub score: u32,
}

/// Whether documents that were found are different ones of the index, as they stand in it.
pub open spec fn are_found(found: Seq<FoundDocument>, index: Multiset<Doc>) -> bool {
    exists|docs: Seq<Doc>| #[trigger]
        docs.to_multiset().subset_of(index) && docs.len() == found.len() && forall|i: int|
            0 <= i < found.len() ==> (#[trigger] found[i]).path@ == docs[i].path
                && found[i].title@ == docs[i].title && found[i].tags@ == docs[i].tags
}

/// Whether these are the documents at the places of the hits, in the same order and with the
/// same scores.
pub open spec fn are_hits(
    found: Seq<FoundDocument>,
    hits: Seq<Hit>,
    seen: Map<(u32, u32), Doc>,
) -> bool {
    &&& found.len() == hits.len()
    &&& forall|i: int| #![trigger found[i]]
        0 <= i < found.len() ==> {
            let doc = seen[(hits[i].segment, hits[i].number)];
            &&& found[i].path@ == doc.path
            &&& found[i].title@ == doc.title
            &&& found[i].tags@ == doc.tags
            &&& found[i].score == hits[i].score
        }
}

/// The first message with which one of the documents is not given back, if there is one.
pub open spec fn first_stored_error(searcher: tantivy::Searcher, hits: Seq<Hit>) -> Option<
    Seq<char>,
>
    decreases hits.len(),
{
    if hits.len() == 0 {
        None
    } else if first_stored_error(searcher, hits.drop_last()) is Some {
        first_stored_error(searcher, hits.drop_last())
    } else {
        stored_error(searcher, hits.last().segment, hits.last().number)
    }
}

/// Whether this is the answer to a query, given the opened searcher or the message with
/// which it could not be opened, and the parser.
pub open spec fn is_answer(
    r: Result<Seq<FoundDocument>, Fault>,
    opened: Result<tantivy::Searcher, Seq<char>>,
    parser: tantivy::query::QueryParser,
    query: Seq<char>,
    limit: nat,
) -> bool {
    match opened {
        Err(message) => r == Err::<Seq<FoundDocument>, Fault>(
            Fault::Config("Failed to create reader: "@ + message),
        ),
        Ok(searcher) => match reading(parser, query) {
            Err(fault) => r == Err::<Seq<FoundDocument>, Fault>(fault),
            Ok(None) => r == Ok::<Seq<FoundDocument>, Fault>(Seq::empty()),
            Ok(Some(text)) => match best_hits(searcher, parser, text, limit) {
                Err(message) => r == Err::<Seq<FoundDocument>, Fault>(
                    Fault::Config("Search failed: "@ + message),
                ),
                Ok(hits) => match first_stored_error(searcher, hits) {
                    Some(message) => r == Err::<Seq<FoundDocument>, Fault>(
                        Fault::Config("Failed to retrieve doc: "@ + message),
                    ),
                    None => r matches Ok(found) && are_hits(found, hits, seen(searcher)),
                },
            },
        },
    }
}

/// A result with an error as one with a fault.
pub open spec fn found_result(r: Result<Vec<FoundDocument>, Error>) -> Result<
    Seq<FoundDocument>,
    Fault,
> {
    match r {
        Ok(found) => Ok(found@),
        Err(error) => Err(error@),
    }
}

/// A result with a string as one with a text.
pub open spec fn opened_result(r: Result<tantivy::Searcher, String>) -> Result<
    tantivy::Searcher,
    Seq<char>,
> {
    match r {
        Ok(searcher) => Ok(searcher),
        Err(message) => Err(message@),
    }
}

/// Whether a fault is a setting's, and says this with some message behind it.
pub open spec fn says(fault: Fault, words: Seq<char>) -> bool {
    exists|message: Seq<char>| fault == Fault::Config(#[trigger] (words + message))
}

/// What a parser makes of a query: the text that is searched for, `None` where there is
/// none, or a fault.
pub open spec fn reading(parser: tantivy::query::QueryParser, query: Seq<char>) -> Result<
    Option<Seq<char>>,
    Fault,
> {
    resolved_query(
        query,
        query_error(parser, query),
        match sanitized(query) {
            Some(text) => query_error(parser, text),
            None => None,
        },
    )
}

fn fault(words: &str, message: &str) -> (r: Error)
    ensures
        r@ == Fault::Config(words@ + message@),
{
    let text = wrap(words, message, "");
    proof {
        reveal_strlit("");
        assert(text@ =~= words@ + message@);
    }
    Error::Config(text)
}

impl SearchEngine {
    /// Whether the index has the fields that it was made with.
    pub closed spec fn wf(&self) -> bool {
        layout(self.index) == engine_layout()
    }

    /// Indexes the notes among the files of a vault.
    pub fn new(files: &Vec<ChangedNote>) -> (r: Result<SearchEngine, Error>)
        ensures
            match r {
                Ok(engine) => engine.wf() && engine@ == built(
                    change_models(files@),
                ).to_multiset(),
                Err(error) => says(error@, "Failed to create index writer: "@) || says(
                    error@,
                    "Failed to commit index: "@,
                ),
            },
    {
        proof {
            lemma_field_names();
        }
        let mut index = create_index(
            ("path", FieldKind::Whole),
            ("title", FieldKind::Words),
            ("content", FieldKind::Hidden),
            ("tags", FieldKind::Words),
        );
        if let Some(message) = begin(&mut index, WRITER_MEMORY) {
            return Err(fault("Failed to create index writer: ", message.as_str()));
        }
        let wanted = plan_build(files);
        let ghost all = doc_models(wanted@);
        let mut i: usize = 0;
        proof {
            all.take(0).to_multiset_ensures();
            assert(all.take(0).to_multiset() =~= Multiset::<Doc>::empty());
        }
        while i < wanted.len()
            invariant
                i <= wanted.len(),
                all == doc_models(wanted@),
                layout(index) == engine_layout(),
                matches_so_far(changing(index), all.take(i as int).to_multiset()),
            decreases wanted.len() - i,
        {
            let taken: bool = insert(&mut index, &wanted[i]);
            proof {
                assert(all.take(i + 1) =~= all.take(i as int).push(all[i as int]));
                all.take(i as int).to_multiset_ensures();
            }
            i = i + 1;
        }
        assert(all.take(i as int) =~= all);
        if let Some(message) = commit(&mut index) {
            return Err(fault("Failed to commit index: ", message.as_str()));
        }
        Ok(SearchEngine { index })
    }

    /// Follows changes of the vault, all in one step.
    pub fn apply_changes(&mut self, changes: &Vec<ChangedNote>) -> (r: Result<(), Error>)
        requires
            old(self).wf(),
        ensures
            final(self).wf(),
            changes.len() == 0 ==> r is Ok && final(self)@ == old(self)@,
            match r {
                Ok(_) => are_terms(change_models(changes@)) ==> final(self)@ == after_ops(
                    old(self)@,
                    all_ops(change_models(changes@)),
                ),
                Err(error) => says(error@, "apply_changes: writer create: "@) && final(self)@
                    == old(self)@ || says(error@, "apply_changes: writer commit: "@),
            },
    {
        if changes.len() == 0 {
            assert(change_models(changes@) =~= Seq::empty());
            return Ok(());
        }
        if let Some(message) = begin(&mut self.index, WRITER_MEMORY) {
            return Err(fault("apply_changes: writer create: ", message.as_str()));
        }
        let ghost start = documents(self.index);
        let wanted = plan_changes(changes);
        let ghost all = op_models(wanted@);
        let mut i: usize = 0;
        assert(all.take(0) =~= Seq::<Op>::empty());
        while i < wanted.len()
            invariant
                i <= wanted.len(),
                all == op_models(wanted@),
                layout(self.index) == engine_layout(),
                changing(self.index) is Some,
                ops_are_terms(all) ==> matches_so_far(
                    changing(self.index),
                    after_ops(start, all.take(i as int)),
                ),
            decreases wanted.len() - i,
        {
            assert(all.take(i + 1).drop_last() =~= all.take(i as int));
            assert(all[i as int] == wanted@[i as int]@);
            match &wanted[i] {
                IndexOp::Delete(path) => {
                    delete(&mut self.index, path.as_str());
                },
                IndexOp::Insert(document) => {
                    let taken: bool = insert(&mut self.index, document);
                },
            }
            i = i + 1;
        }
        assert(all.take(i as int) =~= all);
        proof {
            lemma_terms(change_models(changes@));
        }
        if let Some(message) = commit(&mut self.index) {
            return Err(fault("apply_changes: writer commit: ", message.as_str()));
        }
        Ok(())
    }

    /// The parser for the queries of this index.
    fn parser(&self) -> (parser: tantivy::query::QueryParser)
        requires
            self.wf(),
        ensures
            setup(parser) == engine_setup(),
    {
        let parts: Vec<Part> = vec![Part::Title, Part::Content, Part::Tags];
        let mut parser = query_parser(&self.index, &parts);
        tolerate(&mut parser, &self.index, Part::Title, false, 1, true);
        tolerate(&mut parser, &self.index, Part::Content, false, 1, true);
        tolerate(&mut parser, &self.index, Part::Tags, false, 1, true);
        assert(setup(parser) =~= engine_setup());
        parser
    }

    /// The documents that a query finds, the best first. More are fetched than are wanted,
    /// since conditions are checked afterwards. A word matches with one typo, but not with
    /// its beginning alone.
    pub fn find(&self, query: &str, limit: usize) -> (r: Result<Vec<FoundDocument>, Error>)
        requires
            self.wf(),
            can_fetch(2 * limit as nat),
        ensures
            exists|opened: Result<tantivy::Searcher, Seq<char>>, parser: tantivy::query::QueryParser|
                (opened matches Ok(searcher) ==> shows(seen(searcher), self@)) && setup(parser)
                    == engine_setup() && #[trigger] is_answer(
                    found_result(r),
                    opened,
                    parser,
                    query@,
                    2 * limit as nat,
                ),
            r matches Ok(found) ==> found.len() <= 2 * limit && are_found(found@, self@),
    {
        let opened = open_searcher(&self.index);
        self.find_in(opened, query, limit)
    }

    /// The documents that a query finds, given the opened searcher of the index or the
    /// message with which it could not be opened.
    pub fn find_in(
        &self,
        opened: Result<tantivy::Searcher, String>,
        query: &str,
        limit: usize,
    ) -> (r: Result<Vec<FoundDocument>, Error>)
        requires
            self.wf(),
            opened matches Ok(searcher) ==> seen_layout(searcher) == engine_layout() && shows(
                seen(searcher),
                self@,
            ),
            can_fetch(2 * limit as nat),
        ensures
            exists|parser: tantivy::query::QueryParser|
                setup(parser) == engine_setup() && #[trigger] is_answer(
                    found_result(r),
                    opened_result(opened),
                    parser,
                    query@,
                    2 * limit as nat,
                ),
            r matches Ok(found) ==> found.len() <= 2 * limit && are_found(found@, self@),
    {
        let parser = self.parser();
        let searcher = match opened {
            Ok(searcher) => searcher,
            Err(message) => {
                let r = Err(fault("Failed to create reader: ", message.as_str()));
                assert(is_answer(
                    found_result(r),
                    opened_result(opened),
                    parser,
                    query@,
                    2 * limit as nat,
                ));
                return r;
            },
        };
        let text = match parse_query_resilient(&parser, query) {
            Ok(Some(text)) => text,
            Ok(None) => {
                let none: Vec<FoundDocument> = Vec::new();
                proof {
                    lemma_nothing_found(none@, self@);
                    assert(none@ =~= Seq::empty());
                    assert(is_answer(
                        Ok(none@),
                        Ok(searcher),
                        parser,
                        query@,
                        2 * limit as nat,
                    ));
                }
                return Ok(none);
            },
            Err(error) => {
                assert(is_answer(Err(error@), Ok(searcher), parser, query@, 2 * limit as nat));
                return Err(error);
            },
        };
        let hits = match best(&searcher, &parser, text.as_str(), fetch_limit(limit)) {
            Ok(hits) => hits,
            Err(message) => {
                let error = fault("Search failed: ", message.as_str());
                assert(is_answer(Err(error@), Ok(searcher), parser, query@, 2 * limit as nat));
                return Err(error);
            },
        };
        let r = self.retrieve(&searcher, &hits);
        assert(is_answer(found_result(r), Ok(searcher), parser, query@, 2 * limit as nat));
        proof {
            if let Ok(found) = &r {
                lemma_hits_are_found(found@, hits@, seen(searcher), self@);
            }
        }
        r
    }

    /// What the index gives back of the documents at the places of the hits.
    fn retrieve(&self, searcher: &Searcher, hits: &Vec<Hit>) -> (r: Result<
        Vec<FoundDocument>,
        Error,
    >)
        requires
            seen_layout(*searcher) == engine_layout(),
            forall|i: int|
                0 <= i < hits.len() ==> seen(*searcher).dom().contains(
                    #[trigger] places(hits@)[i],
                ),
        ensures
            match first_stored_error(*searcher, hits@) {
                Some(message) => r matches Err(error) && error@ == Fault::Config(
                    "Failed to retrieve doc: "@ + message,
                ),
                None => r matches Ok(found) && are_hits(found@, hits@, seen(*searcher)),
            },
    {
        let mut found: Vec<FoundDocument> = Vec::new();
        let mut i: usize = 0;
        while i < hits.len()
            invariant
                i <= hits.len(),
                seen_layout(*searcher) == engine_layout(),
                forall|k: int|
                    0 <= k < hits.len() ==> seen(*searcher).dom().contains(
                        #[trigger] places(hits@)[k],
                    ),
                first_stored_error(*searcher, hits@.take(i as int)) is None,
                are_hits(found@, hits@.take(i as int), seen(*searcher)),
            decreases hits.len() - i,
        {
            let hit: Hit = hits[i];
            assert(places(hits@)[i as int] == (hit.segment, hit.number));
            assert(hits@.take(i + 1).drop_last() =~= hits@.take(i as int));
            match stored_document(&self.index, searcher, hit.segment, hit.number) {
                Ok(stored) => {
                    found.push(
                        FoundDocument {
                            path: stored.path,
                            title: stored.title,
                            tags: stored.tags,
                            score: hit.score,
                        },
                    );
                },
                Err(message) => {
                    proof {
                        lemma_first_error_stays(*searcher, hits@, i + 1);
                    }
                    return Err(fault("Failed to retrieve doc: ", message.as_str()));
                },
            }
            i = i + 1;
        }
        assert(hits@.take(i as int) =~= hits@);
        Ok(found)
    }
}

proof fn lemma_first_error_stays(searcher: tantivy::Searcher, hits: Seq<Hit>, n: int)
    requires
        0 <= n <= hits.len(),
        first_stored_error(searcher, hits.take(n)) is Some,
    ensures
        first_stored_error(searcher, hits) == first_stored_error(searcher, hits.take(n)),
    decreases hits.len(),
{
    if n == hits.len() {
        assert(hits.take(n) =~= hits);
    } else {
        assert(hits.drop_last().take(n) =~= hits.take(n));
        lemma_first_error_stays(searcher, hits.drop_last(), n);
    }
}

/// Documents at different places are different documents of the index.
proof fn lemma_places_are_documents(
    some: Seq<(u32, u32)>,
    order: Seq<(u32, u32)>,
    seen: Map<(u32, u32), Doc>,
)
    requires
        some.no_duplicates(),
        order.no_duplicates(),
        forall|i: int| 0 <= i < some.len() ==> order.contains(#[trigger] some[i]),
    ensures
        documents_at(some, seen).to_multiset().subset_of(documents_at(order, seen).to_multiset()),
    decreases some.len(),
{
    documents_at(some, seen).to_multiset_ensures();
    documents_at(order, seen).to_multiset_ensures();
    if some.len() > 0 {
        let last = some.last();
        let front = some.drop_last();
        assert(order.contains(some[some.len() - 1]));
        let k = choose|k: int| 0 <= k < order.len() && order[k] == last;
        let rest = order.remove(k);
        assert forall|i: int, j: int| 0 <= i < rest.len() && 0 <= j < rest.len() && i
            != j implies rest[i] != rest[j] by {
            let a = if i < k { i } else { i + 1 };
            let b = if j < k { j } else { j + 1 };
            assert(order[a] != order[b]);
        }
        assert forall|i: int| 0 <= i < front.len() implies rest.contains(#[trigger] front[i]) by {
            assert(front[i] == some[i] && some[i] != last);
            let j = choose|j: int| 0 <= j < order.len() && order[j] == some[i];
            if j < k {
                assert(rest[j] == some[i]);
            } else {
                assert(rest[j - 1] == some[i]);
            }
        }
        lemma_places_are_documents(front, rest, seen);
        let docs = documents_at(order, seen);
        assert(documents_at(some, seen) =~= documents_at(front, seen).push(seen[last]));
        assert(documents_at(rest, seen) =~= docs.remove(k));
        documents_at(front, seen).to_multiset_ensures();
        docs.remove(k).to_multiset_ensures();
    }
}

proof fn lemma_hits_are_found(
    found: Seq<FoundDocument>,
    hits: Seq<Hit>,
    seen: Map<(u32, u32), Doc>,
    index: Multiset<Doc>,
)
    requires
        shows(seen, index),
        are_hits(found, hits, seen),
        places(hits).no_duplicates(),
        forall|i: int| 0 <= i < hits.len() ==> seen.dom().contains(#[trigger] places(hits)[i]),
    ensures
        are_found(found, index),
{
    let order = choose|order: Seq<(u32, u32)>| #[trigger]
        lists(order, seen) && documents_at(order, seen).to_multiset() == index;
    let docs = documents_at(places(hits), seen);
    lemma_places_are_documents(places(hits), order, seen);
    assert forall|i: int| 0 <= i < found.len() implies (#[trigger] found[i]).path@ == docs[i].path
        && found[i].title@ == docs[i].title && found[i].tags@ == docs[i].tags by {
        assert(docs[i] == seen[(hits[i].segment, hits[i].number)]);
    }
    assert(docs.to_multiset().subset_of(index));
}

/// Whether a writer that has taken everything leaves these documents.
spec fn matches_so_far(state: Option<(Multiset<Doc>, bool)>, wanted: Multiset<Doc>) -> bool {
    match state {
        Some((next, all)) => all ==> next == wanted,
        None => false,
    }
}

/// Whether all paths are short enough to be found again by the index.
pub open spec fn are_terms(changes: Seq<Change>) -> bool {
    forall|i: int| 0 <= i < changes.len() ==> is_term((#[trigger] changes[i]).path)
}

spec fn ops_are_terms(ops: Seq<Op>) -> bool {
    forall|i: int|
        0 <= i < ops.len() ==> ((#[trigger] ops[i]) matches Op::Delete(path) ==> is_term(path))
}

proof fn lemma_terms(changes: Seq<Change>)
    ensures
        are_terms(changes) ==> ops_are_terms(all_ops(changes)),
    decreases changes.len(),
{
    if changes.len() > 0 {
        let front = changes.drop_last();
        lemma_terms(front);
        if are_terms(changes) {
            assert forall|i: int| 0 <= i < front.len() implies is_term((
            #[trigger] front[i]).path) by {
                assert(changes[i] == front[i]);
            }
            let before = all_ops(front);
            let ops = all_ops(changes);
            let last = ops_for(changes.last());
            assert(is_term(changes[changes.len() - 1].path));
            assert forall|i: int| 0 <= i < ops.len() implies ((
            #[trigger] ops[i]) matches Op::Delete(path) ==> is_term(path)) by {
                if i < before.len() {
                    assert(ops[i] == before[i]);
                } else {
                    assert(ops[i] == last[i - before.len()]);
                }
            }
        }
    }
}

proof fn lemma_field_names()
    ensures
        are_field_names(seq!["path"@, "title"@, "content"@, "tags"@]),
{
    reveal_strlit("path");
    reveal_strlit("title");
    reveal_strlit("content");
    reveal_strlit("tags");
    let names = seq!["path"@, "title"@, "content"@, "tags"@];
    assert("path"@[0] == 'p' && "title"@[1] == 'i' && "tags"@[1] == 'a' && "content"@[0] == 'c');
    assert("title"@.len() == 5 && "tags"@.len() == 4 && "path"@.len() == 4);
}

proof fn lemma_nothing_found(found: Seq<FoundDocument>, index: Multiset<Doc>)
    requires
        found.len() == 0,
    ensures
        are_found(found, index),
{
    let none = Seq::<Doc>::empty();
    none.to_multiset_ensures();
    assert(none.to_multiset().subset_of(index));
}

// ---------------------------------------------------------------------------
// What the engine promises
// ---------------------------------------------------------------------------

/// In an index that mirrors the notes of a vault, as one that was built from them and then
/// followed every change does, a query finds each note at most once, and only notes that
/// are there, under their present titles.
pub proof fn lemma_each_note_is_found_once(
    found: Seq<FoundDocument>,
    index: Multiset<Doc>,
    vault: Map<Seq<char>, Source>,
)
    requires
        mirrors(index, vault),
        are_found(found, index),
    ensures
        forall|i: int, j: int|
            0 <= i < j < found.len() ==> (#[trigger] found[i]).path@ != (#[trigger] found[j]).path@,
        forall|i: int|
            0 <= i < found.len() ==> vault.dom().contains((#[trigger] found[i]).path@)
                && found[i].title@ == shown_title(vault[found[i].path@], found[i].path@),
{
    broadcast use vstd::multiset::group_multiset_axioms;

    let docs = choose|docs: Seq<Doc>| #[trigger]
        docs.to_multiset().subset_of(index) && docs.len() == found.len() && forall|i: int|
            0 <= i < found.len() ==> (#[trigger] found[i]).path@ == docs[i].path
                && found[i].title@ == docs[i].title && found[i].tags@ == docs[i].tags;
    docs.to_multiset_ensures();
    let held = docs.to_multiset();
    assert forall|doc: Doc| held.contains(doc) implies held.count(doc) == 1 by {
        assert(index.count(doc) <= 1);
        assert(held.count(doc) <= index.count(doc));
    }
    docs.lemma_multiset_has_no_duplicates_conv();
    assert forall|i: int| 0 <= i < docs.len() implies vault.dom().contains(
        (#[trigger] docs[i]).path,
    ) && docs[i] == doc_of(docs[i].path, vault[docs[i].path]) by {
        assert(held.contains(docs[i]));
        assert(held.count(docs[i]) <= index.count(docs[i]));
    }
    assert forall|i: int, j: int| 0 <= i < j < found.len() implies (#[trigger] found[i]).path@ != (
    #[trigger] found[j]).path@ by {
        assert(docs[i] != docs[j]);
    }
    assert forall|i: int| 0 <= i < found.len() implies vault.dom().contains(
        (#[trigger] found[i]).path@,
    ) && found[i].title@ == shown_title(vault[found[i].path@], found[i].path@) by {
        assert(found[i].path@ == docs[i].path);
    }
}

} // verus!
