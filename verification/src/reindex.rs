//! Building the index: which sources are embedded anew, with which input, and
//! what makes the result an index.
use crate::chunker::{chunk_markdown, chunk_model};
use crate::embedding_config::EmbeddingConfig;
use crate::error::{Error, Fault};
use crate::index::{
    entries, is_excluded, is_path_excluded, mismatch, stamps, DocumentStamp, EmbeddingChunk, Entry,
    StoredIndex, CHUNKER_VERSION, INDEX_SCHEMA_VERSION,
};
use crate::lines::{is_blank, trim};
use crate::numbers::{decimal, to_decimal};
use crate::packing::{chunks_of, Chunk, ChunkText};
use crate::paths::{ends_in, file_stem, has_extension, stem_of};
use crate::sorting::{
    comes_before, in_order, is_order, lemma_insert_at, lemma_sort_in_order, lemma_sort_permutes,
    lemma_text_order_asymmetric, lemma_text_order_transitive, sort_by, text_before,
};
use crate::text::{contains, copy, copy_opt, occurs_at, opt_text, same, texts};
use vstd::prelude::*;

verus! {

// ---------------------------------------------------------------------------
// What is embedded
// ---------------------------------------------------------------------------

/// A chunk that waits for its vector.
#[derive(Debug)]
pub struct PendingChunk {
    pub id: String,
    pub path: String,
    pub title: String,
    pub heading: Option<String>,
    pub text: String,
    /// What is sent to be embedded.
    pub input: String,
    pub content_hash: String,
}

/// The model of a chunk that waits for its vector.
pub struct Pending {
    pub id: Seq<char>,
    pub path: Seq<char>,
    pub title: Seq<char>,
    pub heading: Option<Seq<char>>,
    pub text: Seq<char>,
    pub input: Seq<char>,
    pub content_hash: Seq<char>,
}

impl View for PendingChunk {
    type V = Pending;

    open spec fn view(&self) -> Pending {
        Pending {
            id: self.id@,
            path: self.path@,
            title: self.title@,
            heading: opt_text(self.heading),
            text: self.text@,
            input: self.input@,
            content_hash: self.content_hash@,
        }
    }
}

/// The model of a vector of waiting chunks.
pub open spec fn waiting(v: Seq<PendingChunk>) -> Seq<Pending> {
    v.map_values(|c: PendingChunk| c@)
}

/// The line that names the section of a chunk.
pub open spec fn section_line(heading: Option<Seq<char>>) -> Seq<char> {
    match heading {
        Some(value) => "Section: "@ + value + "\n"@,
        None => Seq::empty(),
    }
}

/// What is sent to be embedded: the title of the note, the kind of source, the
/// breadcrumb, the path and the text.
pub open spec fn embedding_input(
    title: Seq<char>,
    source_type: Seq<char>,
    heading: Option<Seq<char>>,
    path: Seq<char>,
    text: Seq<char>,
) -> Seq<char> {
    "Title: "@ + title + "\nType: "@ + source_type + "\n"@ + section_line(heading) + "Path: "@ + path
        + "\nContent:\n"@ + text
}

/// The identifier of the chunk of a note with this number.
pub open spec fn chunk_id(path: Seq<char>, number: nat) -> Seq<char> {
    path + "#"@ + decimal(number)
}

/// What waits of the chunks of a source: those that are not blank as plain text,
/// each numbered by its place among all of them.
pub open spec fn pending_of(
    path: Seq<char>,
    title: Seq<char>,
    source_type: Seq<char>,
    chunks: Seq<Chunk>,
    plain: Seq<Seq<char>>,
    content_hash: Seq<char>,
) -> Seq<Pending>
    decreases chunks.len(),
{
    if chunks.len() == 0 {
        Seq::empty()
    } else {
        let n = (chunks.len() - 1) as nat;
        let before = pending_of(
            path,
            title,
            source_type,
            chunks.drop_last(),
            plain,
            content_hash,
        );
        if trim(plain[n as int]).len() == 0 {
            before
        } else {
            before.push(
                Pending {
                    id: chunk_id(path, n),
                    path,
                    title,
                    heading: chunks.last().heading,
                    text: plain[n as int],
                    input: embedding_input(
                        title,
                        source_type,
                        chunks.last().heading,
                        path,
                        plain[n as int],
                    ),
                    content_hash,
                },
            )
        }
    }
}

/// What is sent to be embedded.
fn write_input(
    title: &str,
    source_type: &str,
    heading: &Option<String>,
    path: &str,
    text: &str,
) -> (out: String)
    ensures
        out@ == embedding_input(title@, source_type@, opt_text(*heading), path@, text@),
{
    let mut out: String = String::new();
    out.append("Title: ");
    out.append(title);
    out.append("\nType: ");
    out.append(source_type);
    out.append("\n");
    let ghost front = out@;
    match heading {
        Some(value) => {
            out.append("Section: ");
            out.append(value.as_str());
            out.append("\n");
        },
        None => {},
    }
    assert(out@ =~= front + section_line(opt_text(*heading)));
    out.append("Path: ");
    out.append(path);
    out.append("\nContent:\n");
    out.append(text);
    assert(out@ =~= embedding_input(title@, source_type@, opt_text(*heading), path@, text@));
    out
}

/// Queues the chunks of a source, given the plain text of each of them. Chunks
/// that are blank as plain text are left out.
pub fn queue_text_chunks(
    pending: &mut Vec<PendingChunk>,
    path: &str,
    title: &str,
    source_type: &str,
    chunks: &Vec<ChunkText>,
    plain: &Vec<String>,
    content_hash: &str,
)
    requires
        chunks.len() == plain.len(),
    ensures
        waiting(final(pending)@) == waiting(old(pending)@) + pending_of(
            path@,
            title@,
            source_type@,
            chunks_of(chunks@),
            texts(plain@),
            content_hash@,
        ),
{
    let ghost start = waiting(pending@);
    let ghost all = chunks_of(chunks@);
    let ghost flat = texts(plain@);
    let mut i: usize = 0;
    assert(waiting(pending@) =~= start + pending_of(
        path@,
        title@,
        source_type@,
        all.take(0),
        flat,
        content_hash@,
    ));
    while i < chunks.len()
        invariant
            i <= chunks.len() == plain.len(),
            all == chunks_of(chunks@),
            flat == texts(plain@),
            waiting(pending@) == start + pending_of(
                path@,
                title@,
                source_type@,
                all.take(i as int),
                flat,
                content_hash@,
            ),
        decreases chunks.len() - i,
    {
        assert(all.take(i + 1).drop_last() =~= all.take(i as int));
        assert(all[i as int] == chunks@[i as int]@);
        assert(flat[i as int] == plain@[i as int]@);
        if !is_blank(plain[i].as_str()) {
            let ghost before = waiting(pending@);
            let mut id = copy(path);
            id.append("#");
            id.append(to_decimal(i as u64).as_str());
            let item = PendingChunk {
                id,
                path: copy(path),
                title: copy(title),
                heading: copy_opt(&chunks[i].heading),
                text: plain[i].clone(),
                input: write_input(
                    title,
                    source_type,
                    &chunks[i].heading,
                    path,
                    plain[i].as_str(),
                ),
                content_hash: copy(content_hash),
            };
            pending.push(item);
            assert(waiting(pending@) =~= before.push(item@));
            assert(waiting(pending@) =~= start + pending_of(
                path@,
                title@,
                source_type@,
                all.take(i + 1),
                flat,
                content_hash@,
            ));
        }
        i = i + 1;
    }
    assert(all.take(i as int) =~= all);
}

proof fn lemma_contains_middle(a: Seq<char>, m: Seq<char>, b: Seq<char>)
    ensures
        contains(a + m + b, m),
{
    assert((a + m + b).subrange(a.len() as int, a.len() as int + m.len()) =~= m);
    assert(occurs_at(a + m + b, m, a.len() as int));
}

/// Whatever is embedded names the note, its path and the section.
pub proof fn lemma_input_names_its_source(
    title: Seq<char>,
    source_type: Seq<char>,
    heading: Option<Seq<char>>,
    path: Seq<char>,
    text: Seq<char>,
)
    ensures
        contains(embedding_input(title, source_type, heading, path, text), title),
        contains(embedding_input(title, source_type, heading, path, text), path),
        heading matches Some(value) ==> contains(
            embedding_input(title, source_type, heading, path, text),
            value,
        ),
{
    let input = embedding_input(title, source_type, heading, path, text);
    let line = section_line(heading);
    let head = "\nType: "@ + source_type + "\n"@;
    let tail = "Path: "@ + path + "\nContent:\n"@ + text;
    lemma_contains_middle("Title: "@, title, head + line + tail);
    assert(input =~= "Title: "@ + title + (head + line + tail));
    lemma_contains_middle(
        "Title: "@ + title + head + line + "Path: "@,
        path,
        "\nContent:\n"@ + text,
    );
    assert(input =~= ("Title: "@ + title + head + line + "Path: "@) + path + ("\nContent:\n"@
        + text));
    match heading {
        Some(value) => {
            lemma_contains_middle(
                "Title: "@ + title + head + "Section: "@,
                value,
                "\n"@ + tail,
            );
            assert(input =~= ("Title: "@ + title + head + "Section: "@) + value + ("\n"@ + tail));
        },
        None => {},
    }
}

// ---------------------------------------------------------------------------
// Which sources are embedded
// ---------------------------------------------------------------------------

/// Whether the vectors of an index may be carried over: same layout, same rules
/// of cutting, same model.
pub open spec fn is_reusable(index: StoredIndex, model: Seq<char>) -> bool {
    index.schema_version == INDEX_SCHEMA_VERSION && index.chunker_version@ == CHUNKER_VERSION@
        && index.model@ == model
}

/// The model of a vector of positions.
pub open spec fn positions_model(v: Seq<usize>) -> Seq<int> {
    v.map_values(|p: usize| p as int)
}

/// The positions of the chunks of a source in the index.
pub open spec fn source_positions(all: Seq<Entry>, path: Seq<char>) -> Seq<int>
    decreases all.len(),
{
    if all.len() == 0 {
        Seq::empty()
    } else if all.last().path == path {
        source_positions(all.drop_last(), path).push(all.len() - 1)
    } else {
        source_positions(all.drop_last(), path)
    }
}

/// What becomes of a source.
#[derive(Debug)]
pub enum SourcePlan {
    /// It is left out.
    Skip,
    /// Its chunks at these positions of the index are carried over.
    Reuse(Vec<usize>),
    /// It is cut and embedded.
    Embed,
}

/// The model of what becomes of a source.
pub enum Fate {
    Skip,
    Reuse(Seq<int>),
    Embed,
}

impl View for SourcePlan {
    type V = Fate;

    open spec fn view(&self) -> Fate {
        match self {
            SourcePlan::Skip => Fate::Skip,
            SourcePlan::Reuse(v) => Fate::Reuse(positions_model(v@)),
            SourcePlan::Embed => Fate::Embed,
        }
    }
}

/// What becomes of a source with this content: an excluded one is left out, one
/// whose content the index already holds is carried over, any other is embedded.
pub open spec fn source_fate(
    index: Option<StoredIndex>,
    model: Seq<char>,
    path: Seq<char>,
    content_hash: Seq<char>,
) -> Fate {
    if is_excluded(path) {
        Fate::Skip
    } else {
        match index {
            Some(stored) => {
                let all = entries(stored.chunks@);
                let held = source_positions(all, path);
                if is_reusable(stored, model) && held.len() > 0 && all[held[0]].content_hash
                    == content_hash {
                    Fate::Reuse(held)
                } else {
                    Fate::Embed
                }
            },
            None => Fate::Embed,
        }
    }
}

/// The positions of the chunks of a source in the index.
fn positions_of(chunks: &Vec<EmbeddingChunk>, path: &str) -> (out: Vec<usize>)
    ensures
        positions_model(out@) == source_positions(entries(chunks@), path@),
        forall|k: int| 0 <= k < out.len() ==> #[trigger] out@[k] < chunks.len(),
{
    let ghost all = entries(chunks@);
    let mut out: Vec<usize> = Vec::new();
    let mut i: usize = 0;
    assert(positions_model(out@) =~= source_positions(all.take(0), path@));
    while i < chunks.len()
        invariant
            i <= chunks.len(),
            all == entries(chunks@),
            positions_model(out@) == source_positions(all.take(i as int), path@),
            forall|k: int| 0 <= k < out.len() ==> #[trigger] out@[k] < chunks.len(),
        decreases chunks.len() - i,
    {
        assert(all.take(i + 1).drop_last() =~= all.take(i as int));
        assert(all[i as int] == chunks@[i as int]@);
        if same(chunks[i].path.as_str(), path) {
            let ghost before = positions_model(out@);
            out.push(i);
            assert(positions_model(out@) =~= before.push(i as int));
        }
        i = i + 1;
    }
    assert(all.take(i as int) =~= all);
    out
}

/// What becomes of a source with this content.
pub fn plan_source(
    index: &Option<StoredIndex>,
    model: &str,
    path: &str,
    content_hash: &str,
) -> (r: SourcePlan)
    ensures
        r@ == source_fate(*index, model@, path@, content_hash@),
{
    if is_path_excluded(path) {
        return SourcePlan::Skip;
    }
    match index {
        Some(stored) => {
            if stored.schema_version != INDEX_SCHEMA_VERSION || !same(
                stored.chunker_version.as_str(),
                CHUNKER_VERSION,
            ) || !same(stored.model.as_str(), model) {
                return SourcePlan::Embed;
            }
            let held = positions_of(&stored.chunks, path);
            assert(positions_model(held@).len() == held.len());
            if held.len() > 0 {
                assert(positions_model(held@)[0] == held@[0]);
                assert(entries(stored.chunks@)[held@[0] as int] == stored.chunks@[held@[0] as int]@);
                if same(stored.chunks[held[0]].content_hash.as_str(), content_hash) {
                    return SourcePlan::Reuse(held);
                }
            }
            SourcePlan::Embed
        },
        None => SourcePlan::Embed,
    }
}

/// The title of a note: the one in its front matter, else its first heading, else
/// the name of its file.
pub open spec fn title_of(
    declared: Option<Seq<char>>,
    first_heading: Option<Seq<char>>,
    path: Seq<char>,
) -> Seq<char> {
    match declared {
        Some(title) => title,
        None => match first_heading {
            Some(heading) => heading,
            None => match file_stem(path) {
                Some(stem) => stem,
                None => "Untitled"@,
            },
        },
    }
}

/// The title of a note.
pub fn note_title(declared: &Option<String>, first_heading: &Option<String>, path: &str) -> (r:
    String)
    ensures
        r@ == title_of(opt_text(*declared), opt_text(*first_heading), path@),
{
    match declared {
        Some(title) => title.clone(),
        None => match first_heading {
            Some(heading) => heading.clone(),
            None => match stem_of(path) {
                Some(stem) => stem,
                None => copy("Untitled"),
            },
        },
    }
}

/// The title of an attachment: the name of its file.
pub fn document_title(path: &str) -> (r: String)
    ensures
        r@ == match file_stem(path@) {
            Some(stem) => stem,
            None => "Untitled document"@,
        },
{
    match stem_of(path) {
        Some(stem) => stem,
        None => copy("Untitled document"),
    }
}

/// What an attachment is called as a source.
pub fn document_source_type(path: &str) -> (r: &'static str)
    ensures
        r@ == if has_extension(path@, "pdf"@) {
            "PDF attachment"@
        } else {
            "DOCX attachment"@
        },
{
    if ends_in(path, "pdf") {
        "PDF attachment"
    } else {
        "DOCX attachment"
    }
}

/// A source whose content did not change keeps its vectors; so a second run over
/// the same sources embeds nothing that the first one has embedded.
pub proof fn lemma_unchanged_source_is_reused(
    stored: StoredIndex,
    model: Seq<char>,
    path: Seq<char>,
    content_hash: Seq<char>,
    at: int,
)
    requires
        is_reusable(stored, model),
        !is_excluded(path),
        0 <= at < stored.chunks@.len(),
        stored.chunks@[at].path@ == path,
        forall|i: int|
            0 <= i < stored.chunks@.len() && #[trigger] stored.chunks@[i].path@ == path
                ==> stored.chunks@[i].content_hash@ == content_hash,
    ensures
        source_fate(Some(stored), model, path, content_hash) == Fate::Reuse(
            source_positions(entries(stored.chunks@), path),
        ),
        source_positions(entries(stored.chunks@), path).contains(at),
{
    let all = entries(stored.chunks@);
    lemma_source_positions(all, path);
    assert(all[at].path == path);
    assert(source_positions(all, path).contains(at));
    let held = source_positions(all, path);
    let k = held.index_of(at);
    assert(all[held[0]].path == path);
    assert(stored.chunks@[held[0]].path@ == path);
}

proof fn lemma_source_positions(all: Seq<Entry>, path: Seq<char>)
    ensures
        forall|k: int|
            0 <= k < source_positions(all, path).len() ==> 0 <= #[trigger] source_positions(
                all,
                path,
            )[k] < all.len() && all[source_positions(all, path)[k]].path == path,
        forall|i: int|
            0 <= i < all.len() && (#[trigger] all[i]).path == path ==> source_positions(
                all,
                path,
            ).contains(i),
    decreases all.len(),
{
    if all.len() > 0 {
        let before = all.drop_last();
        lemma_source_positions(before, path);
        let held = source_positions(all, path);
        let inner = source_positions(before, path);
        assert forall|k: int| 0 <= k < held.len() implies 0 <= #[trigger] held[k] < all.len()
            && all[held[k]].path == path by {
            if k < inner.len() {
                assert(held[k] == inner[k]);
                assert(before[inner[k]].path == path);
            }
        }
        assert forall|i: int| 0 <= i < all.len() && (#[trigger] all[i]).path
            == path implies held.contains(i) by {
            if i < before.len() {
                assert(before[i].path == path);
                let k = inner.index_of(i);
                assert(held[k] == i);
            } else {
                assert(held[held.len() - 1] == i);
            }
        }
    }
}

// ---------------------------------------------------------------------------
// Batches
// ---------------------------------------------------------------------------

/// Where the batch that begins at `start` ends.
pub fn batch_end(start: usize, total: usize, batch_size: usize) -> (end: usize)
    requires
        start < total,
        batch_size > 0,
    ensures
        end == if total - start <= batch_size {
            total as int
        } else {
            start + batch_size
        },
        start < end <= total,
{
    if total - start <= batch_size {
        total
    } else {
        start + batch_size
    }
}

/// What is said when the endpoint returned the wrong number of vectors.
pub open spec fn wrong_count(got: nat, wanted: nat) -> Seq<char> {
    "embedding endpoint returned "@ + decimal(got) + " vectors for "@ + decimal(wanted)
        + " inputs"@
}

/// Refuses an answer that does not hold one vector for each input.
pub fn check_batch(got: usize, wanted: usize) -> (r: Result<(), Error>)
    ensures
        match r {
            Ok(_) => got == wanted,
            Err(error) => got != wanted && error@ == Fault::Other(
                wrong_count(got as nat, wanted as nat),
            ),
        },
{
    if got == wanted {
        return Ok(());
    }
    let mut words: String = String::new();
    words.append("embedding endpoint returned ");
    words.append(to_decimal(got as u64).as_str());
    words.append(" vectors for ");
    words.append(to_decimal(wanted as u64).as_str());
    words.append(" inputs");
    assert(words@ =~= wrong_count(got as nat, wanted as nat));
    Err(Error::Other(words))
}

/// The chunk of the index that a waiting chunk becomes with its vector.
pub fn embedded_chunk(pending: &PendingChunk, dimension: usize) -> (r: EmbeddingChunk)
    ensures
        r@ == (Entry {
            id: pending.id@,
            path: pending.path@,
            title: pending.title@,
            heading: opt_text(pending.heading),
            text: pending.text@,
            content_hash: pending.content_hash@,
            dimension: dimension as nat,
        }),
{
    EmbeddingChunk {
        id: pending.id.clone(),
        path: pending.path.clone(),
        title: pending.title.clone(),
        heading: copy_opt(&pending.heading),
        text: pending.text.clone(),
        content_hash: pending.content_hash.clone(),
        dimension,
    }
}

/// The chunks of an index at these positions.
pub open spec fn kept_entries(index: Option<StoredIndex>, kept: Seq<int>) -> Seq<Entry> {
    match index {
        Some(stored) => kept.map_values(|p: int| stored.chunks@[p]@),
        None => Seq::empty(),
    }
}

/// The chunks that waited, with their vectors.
pub open spec fn embedded_entries(pending: Seq<Pending>, dimensions: Seq<usize>) -> Seq<Entry> {
    Seq::new(
        pending.len(),
        |i: int|
            Entry {
                id: pending[i].id,
                path: pending[i].path,
                title: pending[i].title,
                heading: pending[i].heading,
                text: pending[i].text,
                content_hash: pending[i].content_hash,
                dimension: dimensions[i] as nat,
            },
    )
}

/// Whether all positions are ones of chunks of the index.
pub open spec fn kept_ok(kept: Seq<usize>, index: Option<StoredIndex>) -> bool {
    forall|k: int|
        0 <= k < kept.len() ==> index is Some && #[trigger] kept[k] < index->0.chunks.len()
}

/// The chunks of the new index in the order in which they came up: those carried over and
/// then those embedded.
pub open spec fn collected(index: Option<StoredIndex>, build: Build) -> Seq<Entry> {
    kept_entries(index, build.kept) + embedded_entries(build.pending, build.dimensions)
}

/// A copy of a chunk.
fn copy_chunk(chunk: &EmbeddingChunk) -> (r: EmbeddingChunk)
    ensures
        r@ == chunk@,
{
    EmbeddingChunk {
        id: chunk.id.clone(),
        path: chunk.path.clone(),
        title: chunk.title.clone(),
        heading: copy_opt(&chunk.heading),
        text: chunk.text.clone(),
        content_hash: chunk.content_hash.clone(),
        dimension: chunk.dimension,
    }
}

/// The text of a source, cut into its chunks.
pub struct CutText {
    title: String,
    source_type: String,
    markdown: Ghost<Seq<char>>,
    chunk_chars: usize,
    chunk_overlap: usize,
    chunks: Vec<ChunkText>,
}

/// The text of a source that is embedded: its chunks, and each of them as plain text.
pub struct SourceText {
    cut: CutText,
    plain: Vec<String>,
}

/// A source that a build came upon. Its text is there where it was asked for and could be
/// read.
pub struct Source {
    pub path: String,
    pub content_hash: String,
    pub text: Option<SourceText>,
}

/// The model of the text of a source: the text, and the limits that it is cut by.
pub struct Cut {
    pub title: Seq<char>,
    pub source_type: Seq<char>,
    pub markdown: Seq<char>,
    pub chunk_chars: nat,
    pub chunk_overlap: nat,
}

impl Cut {
    /// The chunks of the text.
    pub open spec fn chunks(self) -> Seq<Chunk> {
        chunk_model(self.markdown, self.title, self.chunk_chars, self.chunk_overlap)
    }
}

/// The model of the text of a source that is embedded.
pub struct Embedded {
    pub cut: Cut,
    /// Each chunk as plain text.
    pub plain: Seq<Seq<char>>,
}

/// The model of a source.
pub struct Seen {
    pub path: Seq<char>,
    pub content_hash: Seq<char>,
    pub text: Option<Embedded>,
}

impl View for CutText {
    type V = Cut;

    closed spec fn view(&self) -> Cut {
        Cut {
            title: self.title@,
            source_type: self.source_type@,
            markdown: self.markdown@,
            chunk_chars: self.chunk_chars as nat,
            chunk_overlap: self.chunk_overlap as nat,
        }
    }
}

impl CutText {
    #[verifier::type_invariant]
    spec fn is_cut(self) -> bool {
        chunks_of(self.chunks@) == self@.chunks()
    }

    /// Cuts the text of a source.
    pub fn new(
        title: String,
        source_type: &str,
        markdown: &str,
        chunk_chars: usize,
        chunk_overlap: usize,
    ) -> (r: CutText)
        ensures
            r@ == (Cut {
                title: title@,
                source_type: source_type@,
                markdown: markdown@,
                chunk_chars: chunk_chars as nat,
                chunk_overlap: chunk_overlap as nat,
            }),
    {
        let chunks = chunk_markdown(markdown, title.as_str(), chunk_chars, chunk_overlap);
        CutText {
            title,
            source_type: copy(source_type),
            markdown: Ghost(markdown@),
            chunk_chars,
            chunk_overlap,
            chunks,
        }
    }

    /// The chunks of the text.
    pub fn chunks(&self) -> (r: &Vec<ChunkText>)
        ensures
            chunks_of(r@) == self@.chunks(),
    {
        proof {
            use_type_invariant(self);
        }
        &self.chunks
    }

    /// The text with each of its chunks as plain text.
    pub fn with_plain(self, plain: Vec<String>) -> (r: SourceText)
        requires
            plain.len() == self@.chunks().len(),
        ensures
            r@ == (Embedded { cut: self@, plain: texts(plain@) }),
    {
        proof {
            use_type_invariant(&self);
            assert(chunks_of(self.chunks@).len() == self.chunks.len());
        }
        SourceText { cut: self, plain }
    }
}

impl View for SourceText {
    type V = Embedded;

    closed spec fn view(&self) -> Embedded {
        Embedded { cut: self.cut@, plain: texts(self.plain@) }
    }
}

impl SourceText {
    #[verifier::type_invariant]
    spec fn has_plain(self) -> bool {
        self.plain.len() == self.cut.chunks.len()
    }
}

impl View for Source {
    type V = Seen;

    open spec fn view(&self) -> Seen {
        Seen {
            path: self.path@,
            content_hash: self.content_hash@,
            text: match self.text {
                Some(text) => Some(text@),
                None => None,
            },
        }
    }
}

/// A build under way: the chunks that are carried over, by their positions in the
/// index, those that wait for their vectors, and how many components the vectors have
/// that came so far.
#[derive(Debug)]
pub struct ReindexRun {
    pub kept: Vec<usize>,
    pub pending: Vec<PendingChunk>,
    pub dimensions: Vec<usize>,
}

/// The model of a build under way.
#[verifier::ext_equal]
pub struct Build {
    pub kept: Seq<int>,
    pub pending: Seq<Pending>,
    pub dimensions: Seq<usize>,
}

impl View for ReindexRun {
    type V = Build;

    open spec fn view(&self) -> Build {
        Build {
            kept: positions_model(self.kept@),
            pending: waiting(self.pending@),
            dimensions: self.dimensions@,
        }
    }
}

/// A build once it has taken a source: what the index holds of it is carried over, or
/// else its chunks wait for their vectors. A source that could not be read adds nothing.
pub open spec fn with_source(
    build: Build,
    index: Option<StoredIndex>,
    model: Seq<char>,
    source: Seen,
) -> Build {
    match source_fate(index, model, source.path, source.content_hash) {
        Fate::Skip => build,
        Fate::Reuse(held) => Build { kept: build.kept + held, ..build },
        Fate::Embed => match source.text {
            Some(text) => Build {
                pending: build.pending + pending_of(
                    source.path,
                    text.cut.title,
                    text.cut.source_type,
                    text.cut.chunks(),
                    text.plain,
                    source.content_hash,
                ),
                ..build
            },
            None => build,
        },
    }
}

/// What waits of one chunk of the text of a source.
pub open spec fn queued(source: Seen, text: Embedded, n: int) -> Pending {
    let heading = text.cut.chunks()[n].heading;
    Pending {
        id: chunk_id(source.path, n as nat),
        path: source.path,
        title: text.cut.title,
        heading,
        text: text.plain[n],
        input: embedding_input(
            text.cut.title,
            text.cut.source_type,
            heading,
            source.path,
            text.plain[n],
        ),
        content_hash: source.content_hash,
    }
}

/// Every chunk of the text of a source that is embedded waits for its vector, unless it is
/// blank as plain text, and nothing else of the source does.
pub proof fn lemma_every_chunk_of_a_text_is_queued(
    build: Build,
    index: Option<StoredIndex>,
    model: Seq<char>,
    source: Seen,
    text: Embedded,
)
    requires
        source_fate(index, model, source.path, source.content_hash) is Embed,
        source.text == Some(text),
    ensures
        ({
            let before = build.pending;
            let after = with_source(build, index, model, source).pending;
            let chunks = text.cut.chunks();
            &&& before.len() <= after.len() && after.take(before.len() as int) == before
            &&& forall|n: int|
                0 <= n < chunks.len() && trim(text.plain[n]).len() > 0 ==> after.skip(
                    before.len() as int,
                ).contains(#[trigger] queued(source, text, n))
            &&& forall|k: int|
                before.len() <= k < after.len() ==> exists|n: int|
                    0 <= n < chunks.len() && trim(text.plain[n]).len() > 0 && #[trigger] after[k]
                        == #[trigger] queued(source, text, n)
        }),
{
    let before = build.pending;
    let after = with_source(build, index, model, source).pending;
    let chunks = text.cut.chunks();
    let new = pending_of(
        source.path,
        text.cut.title,
        text.cut.source_type,
        chunks,
        text.plain,
        source.content_hash,
    );
    lemma_pending_of(source, text, chunks.len() as int);
    assert(chunks.take(chunks.len() as int) =~= chunks);
    assert(after =~= before + new);
    assert(after.take(before.len() as int) =~= before);
    assert(after.skip(before.len() as int) =~= new);
    assert forall|k: int| before.len() <= k < after.len() implies exists|n: int|
        0 <= n < chunks.len() && trim(text.plain[n]).len() > 0 && #[trigger] after[k]
            == #[trigger] queued(source, text, n) by {
        assert(after[k] == new[k - before.len()]);
    }
}

proof fn lemma_pending_of(source: Seen, text: Embedded, count: int)
    requires
        0 <= count <= text.cut.chunks().len(),
    ensures
        ({
            let new = pending_of(
                source.path,
                text.cut.title,
                text.cut.source_type,
                text.cut.chunks().take(count),
                text.plain,
                source.content_hash,
            );
            &&& forall|n: int|
                0 <= n < count && trim(text.plain[n]).len() > 0 ==> new.contains(
                    #[trigger] queued(source, text, n),
                )
            &&& forall|k: int|
                0 <= k < new.len() ==> exists|n: int|
                    0 <= n < count && trim(text.plain[n]).len() > 0 && #[trigger] new[k]
                        == #[trigger] queued(source, text, n)
        }),
    decreases count,
{
    if count > 0 {
        let chunks = text.cut.chunks();
        lemma_pending_of(source, text, count - 1);
        assert(chunks.take(count).drop_last() =~= chunks.take(count - 1));
        let before = pending_of(
            source.path,
            text.cut.title,
            text.cut.source_type,
            chunks.take(count - 1),
            text.plain,
            source.content_hash,
        );
        let new = pending_of(
            source.path,
            text.cut.title,
            text.cut.source_type,
            chunks.take(count),
            text.plain,
            source.content_hash,
        );
        assert forall|n: int|
            0 <= n < count && trim(text.plain[n]).len() > 0 implies new.contains(
            #[trigger] queued(source, text, n),
        ) by {
            if n < count - 1 {
                let k = choose|k: int| 0 <= k < before.len() && before[k] == queued(source, text, n);
                assert(before.contains(queued(source, text, n)));
                assert(new[k] == before[k]);
            } else {
                assert(new[new.len() - 1] == queued(source, text, n));
            }
        }
        assert forall|k: int| 0 <= k < new.len() implies exists|n: int|
            0 <= n < count && trim(text.plain[n]).len() > 0 && #[trigger] new[k]
                == #[trigger] queued(source, text, n) by {
            if k < before.len() {
                assert(new[k] == before[k]);
                let n = choose|n: int|
                    0 <= n < count - 1 && trim(text.plain[n]).len() > 0 && before[k]
                        == #[trigger] queued(source, text, n);
                assert(new[k] == queued(source, text, n));
            } else {
                assert(new[k] == queued(source, text, count - 1));
            }
        }
    }
}

/// A build that has taken nothing.
pub open spec fn empty_build() -> Build {
    Build { kept: Seq::empty(), pending: Seq::empty(), dimensions: Seq::empty() }
}

/// A build once it has taken these sources, one after the other.
pub open spec fn build_of(index: Option<StoredIndex>, model: Seq<char>, sources: Seq<Seen>) -> Build
    decreases sources.len(),
{
    if sources.len() == 0 {
        empty_build()
    } else {
        with_source(build_of(index, model, sources.drop_last()), index, model, sources.last())
    }
}

/// Where the batch of a build that is sent next ends.
pub open spec fn batch_of(build: Build, batch_size: nat) -> int {
    if build.pending.len() - build.dimensions.len() <= batch_size {
        build.pending.len() as int
    } else {
        (build.dimensions.len() + batch_size) as int
    }
}

/// What is sent to be embedded, by chunk.
pub open spec fn inputs_of(pending: Seq<Pending>) -> Seq<Seq<char>> {
    pending.map_values(|p: Pending| p.input)
}

impl ReindexRun {
    /// Nothing was taken yet.
    pub fn new() -> (r: ReindexRun)
        ensures
            r@ == empty_build(),
    {
        let r = ReindexRun { kept: Vec::new(), pending: Vec::new(), dimensions: Vec::new() };
        assert(r@ =~= empty_build());
        r
    }

    /// Takes a source.
    pub fn take(&mut self, index: &Option<StoredIndex>, model: &str, source: &Source)
        ensures
            final(self)@ == with_source(old(self)@, *index, model@, source@),
            kept_ok(old(self).kept@, *index) ==> kept_ok(final(self).kept@, *index),
    {
        let path = source.path.as_str();
        let ghost start = self@;
        match plan_source(index, model, path, source.content_hash.as_str()) {
            SourcePlan::Skip => {},
            SourcePlan::Embed => {
                match &source.text {
                    Some(text) => {
                        proof {
                            use_type_invariant(text);
                            use_type_invariant(&text.cut);
                        }
                        queue_text_chunks(
                            &mut self.pending,
                            path,
                            text.cut.title.as_str(),
                            text.cut.source_type.as_str(),
                            &text.cut.chunks,
                            &text.plain,
                            source.content_hash.as_str(),
                        );
                    },
                    None => {},
                }
            },
            SourcePlan::Reuse(held) => {
                let mut more = held;
                let ghost added = positions_model(more@);
                let ghost old_kept = self.kept@;
                self.kept.append(&mut more);
                proof {
                    assert(positions_model(self.kept@) =~= start.kept + added);
                    lemma_source_positions(entries(index->0.chunks@), path@);
                    if kept_ok(old_kept, *index) {
                        assert forall|k: int| 0 <= k < self.kept.len() implies index is Some
                            && #[trigger] self.kept@[k] < index->0.chunks.len() by {
                            if k < old_kept.len() {
                                assert(self.kept@[k] == old_kept[k]);
                            } else {
                                assert(positions_model(self.kept@)[k] == self.kept@[k] as int);
                                assert((start.kept + added)[k] == added[k - old_kept.len()]);
                            }
                        }
                    }
                }
            },
        }
        assert(self@ =~= with_source(start, *index, model@, source@));
    }

    /// What is sent to be embedded next; nothing once every chunk has its vector.
    pub fn next_inputs(&self, batch_size: usize) -> (out: Vec<String>)
        requires
            self.dimensions.len() <= self.pending.len(),
            batch_size > 0,
        ensures
            texts(out@) == inputs_of(
                self@.pending.subrange(
                    self.dimensions.len() as int,
                    batch_of(self@, batch_size as nat),
                ),
            ),
            out.len() == 0 <==> self.dimensions.len() == self.pending.len(),
    {
        let start: usize = self.dimensions.len();
        let mut out: Vec<String> = Vec::new();
        let end: usize = if start < self.pending.len() {
            batch_end(start, self.pending.len(), batch_size)
        } else {
            start
        };
        let ghost all = inputs_of(self@.pending.subrange(start as int, end as int));
        let mut i: usize = start;
        assert(texts(out@) =~= all.take(0));
        while i < end
            invariant
                start <= i <= end <= self.pending.len(),
                all == inputs_of(self@.pending.subrange(start as int, end as int)),
                out.len() == i - start,
                texts(out@) == all.take(i - start),
            decreases end - i,
        {
            let ghost before = texts(out@);
            out.push(self.pending[i].input.clone());
            assert(all[i - start] == self.pending@[i as int].input@);
            assert(texts(out@) =~= before.push(self.pending@[i as int].input@));
            assert(texts(out@) =~= all.take(i + 1 - start));
            i = i + 1;
        }
        assert(all.take(end - start) =~= all);
        out
    }

    /// Takes the vectors that came for what was sent, of which only the lengths matter
    /// here. An answer that does not hold one for each input is refused.
    pub fn accept(&mut self, batch_size: usize, dimensions: &Vec<usize>) -> (r: Result<(), Error>)
        requires
            old(self).dimensions.len() <= old(self).pending.len(),
            batch_size > 0,
        ensures
            ({
                let sent = batch_of(old(self)@, batch_size as nat) - old(self).dimensions.len();
                match r {
                    Ok(_) => dimensions.len() == sent && final(self)@ == (Build {
                        dimensions: old(self)@.dimensions + dimensions@,
                        ..old(self)@
                    }),
                    Err(error) => dimensions.len() != sent && final(self)@ == old(self)@ && error@
                        == Fault::Other(wrong_count(dimensions.len() as nat, sent as nat)),
                }
            }),
            final(self).dimensions.len() <= final(self).pending.len(),
            final(self).kept == old(self).kept,
    {
        let start: usize = self.dimensions.len();
        let end: usize = if start < self.pending.len() {
            batch_end(start, self.pending.len(), batch_size)
        } else {
            start
        };
        match check_batch(dimensions.len(), end - start) {
            Ok(_) => {},
            Err(error) => {
                return Err(error);
            },
        }
        let ghost before = self@;
        let mut i: usize = 0;
        assert(self.dimensions@ =~= before.dimensions + dimensions@.take(0));
        while i < dimensions.len()
            invariant
                i <= dimensions.len(),
                self.dimensions@ == before.dimensions + dimensions@.take(i as int),
                self.kept == old(self).kept,
                self.pending == old(self).pending,
            decreases dimensions.len() - i,
        {
            self.dimensions.push(dimensions[i]);
            assert(self.dimensions@ =~= before.dimensions + dimensions@.take(i + 1));
            i = i + 1;
        }
        assert(dimensions@.take(i as int) =~= dimensions@);
        assert(self@ =~= Build { dimensions: before.dimensions + dimensions@, ..before });
        Ok(())
    }

    /// All chunks of the new index: those carried over and then those embedded.
    fn collect(&self, index: &Option<StoredIndex>) -> (out: Vec<EmbeddingChunk>)
        requires
            self.dimensions.len() == self.pending.len(),
            kept_ok(self.kept@, *index),
        ensures
            entries(out@) == collected(*index, self@),
    {
        let mut out: Vec<EmbeddingChunk> = Vec::new();
        match index {
            Some(stored) => {
                let ghost kept = kept_entries(*index, positions_model(self.kept@));
                let mut i: usize = 0;
                assert(entries(out@) =~= kept.take(0));
                while i < self.kept.len()
                    invariant
                        i <= self.kept.len(),
                        *index == Some(*stored),
                        kept == kept_entries(*index, positions_model(self.kept@)),
                        kept.len() == self.kept.len(),
                        forall|k: int|
                            0 <= k < self.kept.len() ==> #[trigger] self.kept@[k]
                                < stored.chunks.len(),
                        entries(out@) == kept.take(i as int),
                    decreases self.kept.len() - i,
                {
                    let ghost before = entries(out@);
                    let chunk = &stored.chunks[self.kept[i]];
                    assert(kept[i as int] == chunk@);
                    let copied = copy_chunk(chunk);
                    out.push(copied);
                    assert(entries(out@) =~= before.push(copied@));
                    assert(entries(out@) =~= kept.take(i + 1));
                    i = i + 1;
                }
                assert(kept.take(i as int) =~= kept);
            },
            None => {
                assert(entries(out@) =~= Seq::<Entry>::empty());
            },
        }
        let ghost front = entries(out@);
        let ghost all = embedded_entries(waiting(self.pending@), self.dimensions@);
        let mut j: usize = 0;
        assert(entries(out@) =~= front + all.take(0));
        while j < self.pending.len()
            invariant
                j <= self.pending.len() == self.dimensions.len(),
                all == embedded_entries(waiting(self.pending@), self.dimensions@),
                all.len() == self.pending.len(),
                entries(out@) == front + all.take(j as int),
            decreases self.pending.len() - j,
        {
            let ghost before = entries(out@);
            let chunk = embedded_chunk(&self.pending[j], self.dimensions[j]);
            assert(all[j as int] == chunk@);
            out.push(chunk);
            assert(entries(out@) =~= before.push(chunk@));
            assert(entries(out@) =~= front + all.take(j + 1));
            j = j + 1;
        }
        assert(all.take(j as int) =~= all);
        out
    }
}

// ---------------------------------------------------------------------------
// The finished index
// ---------------------------------------------------------------------------

/// The order of the chunks in the index: by identifier.
pub open spec fn id_order() -> spec_fn(Entry, Entry) -> bool {
    |a: Entry, b: Entry| text_before(a.id, b.id)
}

/// The positions of the chunks in the order of their identifiers.
pub fn order_by_id(chunks: &Vec<EmbeddingChunk>) -> (out: Vec<usize>)
    ensures
        out@.map_values(|p: usize| chunks@[p as int]@) == sort_by(entries(chunks@), id_order()),
        forall|k: int| 0 <= k < out.len() ==> #[trigger] out@[k] < chunks.len(),
        out@.no_duplicates(),
        out.len() == chunks.len(),
{
    let ghost all = entries(chunks@);
    let ghost shown = |s: Seq<usize>| s.map_values(|p: usize| chunks@[p as int]@);
    let mut out: Vec<usize> = Vec::new();
    let mut i: usize = 0;
    assert(shown(out@) =~= sort_by(all.take(0), id_order()));
    while i < chunks.len()
        invariant
            i <= chunks.len(),
            all == entries(chunks@),
            shown == (|s: Seq<usize>| s.map_values(|p: usize| chunks@[p as int]@)),
            out.len() == i,
            forall|k: int| 0 <= k < out.len() ==> #[trigger] out@[k] < i,
            out@.no_duplicates(),
            shown(out@) == sort_by(all.take(i as int), id_order()),
        decreases chunks.len() - i,
    {
        assert(all.take(i + 1).drop_last() =~= all.take(i as int));
        assert(all[i as int] == chunks@[i as int]@);
        let ghost before = shown(out@);
        let ghost entry = chunks@[i as int]@;
        let mut k: usize = out.len();
        let mut moving: bool = true;
        while moving
            invariant
                k <= out.len(),
                out.len() == i < chunks.len(),
                shown == (|s: Seq<usize>| s.map_values(|p: usize| chunks@[p as int]@)),
                before == shown(out@),
                entry == chunks@[i as int]@,
                forall|m: int| 0 <= m < out.len() ==> #[trigger] out@[m] < i,
                forall|j: int| k <= j < before.len() ==> id_order()(entry, #[trigger] before[j]),
                !moving ==> k == 0 || !id_order()(entry, before[k - 1]),
            decreases k, (if moving { 1int } else { 0int }),
        {
            if k == 0 {
                moving = false;
            } else {
                let other: usize = out[k - 1];
                assert(before[k - 1] == chunks@[other as int]@);
                if comes_before(chunks[i].id.as_str(), chunks[other].id.as_str()) {
                    k = k - 1;
                } else {
                    moving = false;
                }
            }
        }
        let ghost old_out = out@;
        out.insert(k, i);
        proof {
            lemma_insert_at(before, entry, id_order(), k as int);
            assert(shown(out@) =~= before.insert(k as int, entry));
            assert forall|m: int| 0 <= m < out.len() implies #[trigger] out@[m] < i + 1 by {
                if m < k {
                    assert(out@[m] == old_out[m]);
                } else if m > k {
                    assert(out@[m] == old_out[m - 1]);
                }
            }
            assert forall|a: int, b: int|
                0 <= a < out.len() && 0 <= b < out.len() && a != b implies out@[a] != out@[b] by {
                let x = if a < k {
                    a
                } else {
                    a - 1
                };
                let y = if b < k {
                    b
                } else {
                    b - 1
                };
                if a == k {
                    assert(out@[b] == old_out[y]);
                } else if b == k {
                    assert(out@[a] == old_out[x]);
                } else {
                    assert(out@[a] == old_out[x] && out@[b] == old_out[y]);
                }
            }
        }
        i = i + 1;
    }
    assert(all.take(i as int) =~= all);
    out
}

/// Whether all vectors have as many components as the first one.
pub open spec fn one_dimension(all: Seq<Entry>) -> bool {
    forall|i: int| 0 <= i < all.len() ==> (#[trigger] all[i]).dimension == all[0].dimension
}

/// The number of components of the vectors of an index.
pub open spec fn dimension_of(all: Seq<Entry>) -> nat {
    if all.len() == 0 {
        0
    } else {
        all[0].dimension
    }
}

/// Makes an index of the chunks. Vectors of different lengths make none.
pub fn build_index(
    chunks: Vec<EmbeddingChunk>,
    model: &str,
    vault_path: &str,
    built_at: &str,
    document_indexing_enabled: bool,
    document_max_bytes: u64,
    document_manifest: Vec<DocumentStamp>,
) -> (r: Result<StoredIndex, Error>)
    ensures
        match r {
            Ok(index) => {
                &&& one_dimension(entries(chunks@))
                &&& entries(index.chunks@) == entries(chunks@)
                &&& index.dimension == dimension_of(entries(chunks@))
                &&& index.built_at@ == built_at@
                &&& stamps(index.document_manifest@) == stamps(document_manifest@)
                &&& is_reusable(index, model@)
                &&& mismatch(
                    index,
                    model@,
                    vault_path@,
                    document_indexing_enabled,
                    document_max_bytes,
                ) is None
            },
            Err(error) => !one_dimension(entries(chunks@)) && error@ == Fault::Other(
                "embedding endpoint returned inconsistent vector dimensions"@,
            ),
        },
{
    let ghost all = entries(chunks@);
    let dimension: usize = if chunks.len() == 0 {
        0
    } else {
        chunks[0].dimension
    };
    assert(chunks.len() > 0 ==> all[0] == chunks@[0]@);
    let mut i: usize = 0;
    while i < chunks.len()
        invariant
            i <= chunks.len(),
            all == entries(chunks@),
            chunks.len() > 0 ==> dimension == all[0].dimension,
            forall|k: int| 0 <= k < i ==> (#[trigger] all[k]).dimension == dimension,
        decreases chunks.len() - i,
    {
        assert(all[i as int] == chunks@[i as int]@);
        if chunks[i].dimension != dimension {
            return Err(
                Error::Other(
                    copy("embedding endpoint returned inconsistent vector dimensions"),
                ),
            );
        }
        i = i + 1;
    }
    Ok(
        StoredIndex {
            schema_version: INDEX_SCHEMA_VERSION,
            chunker_version: copy(CHUNKER_VERSION),
            model: copy(model),
            vault_path: copy(vault_path),
            dimension,
            built_at: copy(built_at),
            document_indexing_enabled,
            document_max_bytes,
            document_manifest,
            chunks,
        },
    )
}

/// An index with the position at which each of its chunks came up, by which its vector is
/// found.
#[derive(Debug)]
pub struct BuiltIndex {
    pub index: StoredIndex,
    pub order: Vec<usize>,
}

impl ReindexRun {
    /// Ends a build once every chunk has its vector: all chunks in the order of their identifiers, as an index for these
    /// settings. Vectors of different lengths make none.
    pub fn finish(
        &self,
        index: &Option<StoredIndex>,
        config: &EmbeddingConfig,
        vault_path: &str,
        built_at: &str,
        document_manifest: Vec<DocumentStamp>,
    ) -> (r: Result<BuiltIndex, Error>)
        requires
            self.dimensions.len() == self.pending.len(),
            kept_ok(self.kept@, *index),
        ensures
            ({
                let all = collected(*index, self@);
                let sorted = sort_by(all, id_order());
                match r {
                    Ok(built) => {
                        &&& one_dimension(sorted)
                        &&& entries(built.index.chunks@) == sorted
                        &&& built.order@.map_values(|p: usize| all[p as int]) == sorted
                        &&& built.order@.no_duplicates()
                        &&& forall|k: int|
                            0 <= k < built.order.len() ==> #[trigger] built.order@[k] < all.len()
                        &&& built.index.dimension == dimension_of(sorted)
                        &&& built.index.built_at@ == built_at@
                        &&& stamps(built.index.document_manifest@) == stamps(document_manifest@)
                        &&& mismatch(
                            built.index,
                            config.model@,
                            vault_path@,
                            config.document_indexing_enabled,
                            config.document_max_bytes,
                        ) is None
                    },
                    Err(error) => !one_dimension(sorted) && error@ == Fault::Other(
                        "embedding endpoint returned inconsistent vector dimensions"@,
                    ),
                }
            }),
    {
        let all = self.collect(index);
        let ghost model = entries(all@);
        let order = order_by_id(&all);
        let ghost sorted = sort_by(model, id_order());
        let mut chunks: Vec<EmbeddingChunk> = Vec::new();
        let mut i: usize = 0;
        assert(entries(chunks@) =~= sorted.take(0));
        while i < order.len()
            invariant
                i <= order.len(),
                model == entries(all@),
                forall|k: int| 0 <= k < order.len() ==> #[trigger] order@[k] < all.len(),
                order@.map_values(|p: usize| all@[p as int]@) == sorted,
                entries(chunks@) == sorted.take(i as int),
            decreases order.len() - i,
        {
            let ghost before = entries(chunks@);
            let ghost shown = order@.map_values(|p: usize| all@[p as int]@);
            assert(shown[i as int] == all@[order@[i as int] as int]@);
            let chunk = copy_chunk(&all[order[i]]);
            chunks.push(chunk);
            assert(entries(chunks@) =~= before.push(chunk@));
            assert(entries(chunks@) =~= sorted.take(i + 1));
            i = i + 1;
        }
        assert(order@.map_values(|p: usize| all@[p as int]@).len() == order.len());
        assert(sorted.take(i as int) =~= sorted);
        assert(order@.map_values(|p: usize| model[p as int]) =~= order@.map_values(
            |p: usize| all@[p as int]@,
        )) by {
            assert forall|k: int| 0 <= k < order.len() implies model[#[trigger] order@[k] as int]
                == all@[order@[k] as int]@ by {}
        }
        match build_index(
            chunks,
            config.model.as_str(),
            vault_path,
            built_at,
            config.document_indexing_enabled,
            config.document_max_bytes,
            document_manifest,
        ) {
            Ok(index) => Ok(BuiltIndex { index, order }),
            Err(error) => Err(error),
        }
    }
}

/// The chunks of a finished index stand in the order of their identifiers, and none that
/// came up is lost.
pub proof fn lemma_index_is_sorted(all: Seq<Entry>)
    ensures
        in_order(sort_by(all, id_order()), id_order()),
        sort_by(all, id_order()).to_multiset() == all.to_multiset(),
{
    let lt = id_order();
    assert forall|a: Entry, b: Entry| #[trigger] lt(a, b) implies !lt(b, a) by {
        lemma_text_order_asymmetric(a.id, b.id);
    }
    assert forall|a: Entry, b: Entry, c: Entry|
        !#[trigger] lt(b, a) && !#[trigger] lt(c, b) implies !lt(c, a) by {
        lemma_text_order_transitive(a.id, b.id, c.id);
    }
    assert(is_order(lt));
    lemma_sort_in_order(all, lt);
    lemma_sort_permutes(all, lt);
}

/// Whether one of the sources stands at this path and is not left out.
pub open spec fn has_source(sources: Seq<Seen>, path: Seq<char>) -> bool {
    !is_excluded(path) && exists|i: int|
        0 <= i < sources.len() && (#[trigger] sources[i]).path == path
}

/// Nothing comes into an index but chunks of the sources that the build came upon, and
/// nothing of a source that is left out. What was removed from the vault is gone from
/// the index.
pub proof fn lemma_index_holds_only_its_sources(
    index: Option<StoredIndex>,
    model: Seq<char>,
    sources: Seq<Seen>,
    dimensions: Seq<usize>,
    at: int,
)
    requires
        0 <= at < collected(
            index,
            Build { dimensions, ..build_of(index, model, sources) },
        ).len(),
    ensures
        has_source(
            sources,
            collected(index, Build { dimensions, ..build_of(index, model, sources) })[at].path,
        ),
{
    let build = build_of(index, model, sources);
    lemma_build_sources(index, model, sources);
    let kept = kept_entries(index, build.kept);
    if at < kept.len() {
        assert(has_source(sources, index->0.chunks@[build.kept[at]]@.path));
    } else {
        assert(has_source(sources, build.pending[at - kept.len()].path));
    }
}

proof fn lemma_more_sources(sources: Seq<Seen>, source: Seen, path: Seq<char>)
    requires
        has_source(sources, path) || (!is_excluded(path) && source.path == path),
    ensures
        has_source(sources.push(source), path),
{
    let all = sources.push(source);
    if has_source(sources, path) {
        let i = choose|i: int| 0 <= i < sources.len() && (#[trigger] sources[i]).path == path;
        assert(all[i].path == path);
    } else {
        assert(all[sources.len() as int].path == path);
    }
}

proof fn lemma_build_sources(index: Option<StoredIndex>, model: Seq<char>, sources: Seq<Seen>)
    ensures
        forall|k: int|
            0 <= k < build_of(index, model, sources).kept.len() ==> index is Some && has_source(
                sources,
                index->0.chunks@[#[trigger] build_of(index, model, sources).kept[k]]@.path,
            ),
        forall|k: int|
            0 <= k < build_of(index, model, sources).pending.len() ==> has_source(
                sources,
                (#[trigger] build_of(index, model, sources).pending[k]).path,
            ),
    decreases sources.len(),
{
    if sources.len() > 0 {
        let front = sources.drop_last();
        let source = sources.last();
        let before = build_of(index, model, front);
        let build = build_of(index, model, sources);
        lemma_build_sources(index, model, front);
        assert(sources =~= front.push(source));
        assert forall|k: int| 0 <= k < build.kept.len() implies index is Some && has_source(
            sources,
            index->0.chunks@[#[trigger] build.kept[k]]@.path,
        ) by {
            if k < before.kept.len() {
                assert(build.kept[k] == before.kept[k]);
                lemma_more_sources(front, source, index->0.chunks@[before.kept[k]]@.path);
            } else {
                let all = entries(index->0.chunks@);
                let held = source_positions(all, source.path);
                lemma_source_positions(all, source.path);
                assert(build.kept[k] == held[k - before.kept.len()]);
                assert(all[build.kept[k]] == index->0.chunks@[build.kept[k]]@);
                lemma_more_sources(front, source, source.path);
            }
        }
        assert forall|k: int| 0 <= k < build.pending.len() implies has_source(
            sources,
            (#[trigger] build.pending[k]).path,
        ) by {
            if k < before.pending.len() {
                assert(build.pending[k] == before.pending[k]);
                lemma_more_sources(front, source, before.pending[k].path);
            } else {
                let text = source.text->0;
                lemma_pending_path(
                    source.path,
                    text.cut.title,
                    text.cut.source_type,
                    text.cut.chunks(),
                    text.plain,
                    source.content_hash,
                );
                lemma_more_sources(front, source, source.path);
            }
        }
    }
}

proof fn lemma_pending_path(
    path: Seq<char>,
    title: Seq<char>,
    source_type: Seq<char>,
    chunks: Seq<Chunk>,
    plain: Seq<Seq<char>>,
    content_hash: Seq<char>,
)
    ensures
        forall|k: int|
            0 <= k < pending_of(path, title, source_type, chunks, plain, content_hash).len() ==> (
            #[trigger] pending_of(path, title, source_type, chunks, plain, content_hash)[k]).path
                == path,
    decreases chunks.len(),
{
    if chunks.len() > 0 {
        lemma_pending_path(path, title, source_type, chunks.drop_last(), plain, content_hash);
    }
}

/// Whether the index holds a source with this content.
pub open spec fn is_held(stored: StoredIndex, source: Seen) -> bool {
    &&& exists|i: int|
        0 <= i < stored.chunks@.len() && #[trigger] stored.chunks@[i].path@ == source.path
    &&& forall|i: int|
        0 <= i < stored.chunks@.len() && #[trigger] stored.chunks@[i].path@ == source.path
            ==> stored.chunks@[i].content_hash@ == source.content_hash
}

/// Building again from sources whose content the index holds embeds nothing, whatever else
/// is in the index.
pub proof fn lemma_unchanged_sources_embed_nothing(
    stored: StoredIndex,
    model: Seq<char>,
    sources: Seq<Seen>,
)
    requires
        is_reusable(stored, model),
        forall|i: int|
            0 <= i < sources.len() ==> is_excluded((#[trigger] sources[i]).path) || is_held(
                stored,
                sources[i],
            ),
    ensures
        build_of(Some(stored), model, sources).pending.len() == 0,
    decreases sources.len(),
{
    if sources.len() > 0 {
        let front = sources.drop_last();
        let source = sources.last();
        assert(source == sources[sources.len() - 1]);
        assert forall|i: int| 0 <= i < front.len() implies is_excluded((#[trigger] front[i]).path)
            || is_held(stored, front[i]) by {
            assert(front[i] == sources[i]);
        }
        lemma_unchanged_sources_embed_nothing(stored, model, front);
        if !is_excluded(source.path) {
            let at = choose|i: int|
                0 <= i < stored.chunks@.len() && #[trigger] stored.chunks@[i].path@ == source.path;
            lemma_unchanged_source_is_reused(stored, model, source.path, source.content_hash, at);
        }
    }
}

/// A source that the index holds keeps all its chunks.
pub proof fn lemma_held_source_keeps_its_chunks(
    stored: StoredIndex,
    model: Seq<char>,
    sources: Seq<Seen>,
    which: int,
    at: int,
)
    requires
        is_reusable(stored, model),
        0 <= which < sources.len(),
        !is_excluded(sources[which].path),
        is_held(stored, sources[which]),
        0 <= at < stored.chunks@.len(),
        stored.chunks@[at].path@ == sources[which].path,
    ensures
        build_of(Some(stored), model, sources).kept.contains(at),
    decreases sources.len(),
{
    let front = sources.drop_last();
    let source = sources.last();
    let before = build_of(Some(stored), model, front);
    let build = build_of(Some(stored), model, sources);
    if which < front.len() {
        assert(front[which] == sources[which]);
        lemma_held_source_keeps_its_chunks(stored, model, front, which, at);
        let k = before.kept.index_of(at);
        assert(build.kept[k] == at);
    } else {
        lemma_unchanged_source_is_reused(stored, model, source.path, source.content_hash, at);
        let held = source_positions(entries(stored.chunks@), source.path);
        let k = held.index_of(at);
        assert(build.kept[before.kept.len() + k] == at);
    }
}

// ---------------------------------------------------------------------------
// Progress
// ---------------------------------------------------------------------------

/// What a status report says of a build.
#[derive(Debug)]
pub struct ReindexProgress {
    pub in_progress: bool,
    pub phase: Option<String>,
    pub processed_chunks: usize,
    pub total_chunks: usize,
    pub started_at: Option<String>,
    pub completed_at: Option<String>,
    pub error: Option<String>,
}

impl Default for ReindexProgress {
    fn default() -> (r: Self)
        ensures
            !r.in_progress,
            r.phase is None,
            r.processed_chunks == 0,
            r.total_chunks == 0,
            r.started_at is None,
            r.completed_at is None,
            r.error is None,
    {
        ReindexProgress {
            in_progress: false,
            phase: None,
            processed_chunks: 0,
            total_chunks: 0,
            started_at: None,
            completed_at: None,
            error: None,
        }
    }
}

impl ReindexProgress {
    /// A build begins: everything of the last one is forgotten.
    pub fn begin_reindex(&mut self, now: &str)
        ensures
            final(self).in_progress,
            opt_text(final(self).phase) == Some("scanning"@),
            final(self).processed_chunks == 0,
            final(self).total_chunks == 0,
            opt_text(final(self).started_at) == Some(now@),
            final(self).completed_at is None,
            final(self).error is None,
    {
        self.in_progress = true;
        self.phase = Some(copy("scanning"));
        self.processed_chunks = 0;
        self.total_chunks = 0;
        self.started_at = Some(copy(now));
        self.completed_at = None;
        self.error = None;
    }

    /// A build enters a phase.
    pub fn set_reindex_phase(&mut self, phase: &str, processed: usize, total: usize)
        ensures
            opt_text(final(self).phase) == Some(phase@),
            final(self).processed_chunks == processed,
            final(self).total_chunks == total,
            final(self).in_progress == old(self).in_progress,
            final(self).started_at == old(self).started_at,
            final(self).completed_at == old(self).completed_at,
            final(self).error == old(self).error,
    {
        self.phase = Some(copy(phase));
        self.processed_chunks = processed;
        self.total_chunks = total;
    }

    /// A build has embedded so many chunks.
    pub fn set_reindex_progress(&mut self, processed: usize, total: usize)
        ensures
            final(self).processed_chunks == processed,
            final(self).total_chunks == total,
            final(self).phase == old(self).phase,
            final(self).in_progress == old(self).in_progress,
            final(self).started_at == old(self).started_at,
            final(self).completed_at == old(self).completed_at,
            final(self).error == old(self).error,
    {
        self.processed_chunks = processed;
        self.total_chunks = total;
    }

    /// A build ends, with an error or without.
    pub fn finish_reindex(&mut self, error: &Option<String>, now: &str)
        ensures
            !final(self).in_progress,
            opt_text(final(self).phase) == Some(
                if error is None {
                    "complete"@
                } else {
                    "failed"@
                },
            ),
            opt_text(final(self).completed_at) == Some(now@),
            opt_text(final(self).error) == opt_text(*error),
            final(self).total_chunks == old(self).total_chunks,
            final(self).processed_chunks == if error is None {
                old(self).total_chunks
            } else {
                old(self).processed_chunks
            },
            final(self).started_at == old(self).started_at,
    {
        self.in_progress = false;
        self.phase = Some(
            if error.is_none() {
                copy("complete")
            } else {
                copy("failed")
            },
        );
        self.completed_at = Some(copy(now));
        self.error = copy_opt(error);
        if error.is_none() {
            self.processed_chunks = self.total_chunks;
        }
    }
}

} // verus!
