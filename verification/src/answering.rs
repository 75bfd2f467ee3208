//! What answers are made of: counts, vectors, requests, documents and messages.
use crate::cache::{marker_names, project_dir};
use crate::config::{is_plain_config, vault_names, Vault, VaultConfig, WriteBackend};
use crate::document_extract::{docx_after, docx_answer, docx_markdown, xml_pieces, Piece};
use crate::engine::{
    candidate_positions, chunk_paths, counts_of, document_paths, input_order, numbered,
    visible_paths, wrong_dimension,
};
use crate::error::Fault;
use crate::index::{is_document, is_source_excluded, EmbeddingChunk, Entry, Mismatch, StoredIndex};
use crate::lines::{join, split};
use crate::manager::changed_since_read;
use crate::markup::lemma_front_matter_keeps_its_lines;
use crate::multi_vault::{by_name, is_first_name, registry_ok, Registry};
use crate::numbers::decimal;
use crate::ordering::{
    lemma_sorting_is_stable, lemma_texts_compare_by_their_first_difference,
};
use crate::pathing::{is_name, lemma_empty_parts_do_not_count};
use crate::paths::{extension, file_stem, joined_path, parts, piece_parts, Part};
use crate::prose::{front_end, front_of, yaml_fields};
use crate::reindex::{dimension_of, empty_build, one_dimension, title_of, wrong_count};
use crate::search::preview;
use crate::search_results::{plain_request, with_pair, Request};
use crate::sorting::{lemma_sort_in_order, sort_by, text_before};
use crate::standalone::{all_elements, no_elements};
use crate::text::ascii_lowered;
use crate::text_index::{
    best_hits, engine_layout, engine_setup, first_stored_error, is_answer, reading, seen,
    stored_error, FieldKind, FoundDocument, Hit,
};
use vstd::prelude::*;

verus! {

// ---------------------------------------------------------------------------
// Counts and vectors
// ---------------------------------------------------------------------------

proof fn lemma_visible_are_candidates(chunks: Seq<EmbeddingChunk>, subtrees: Seq<Seq<char>>)
    ensures
        visible_paths(chunk_paths(chunks), subtrees).len() == candidate_positions(
            chunks,
            subtrees,
        ).len(),
    decreases chunks.len(),
{
    if chunks.len() > 0 {
        lemma_visible_are_candidates(chunks.drop_last(), subtrees);
        assert(chunk_paths(chunks).drop_last() =~= chunk_paths(chunks.drop_last()));
    }
}

proof fn lemma_visible_has(paths: Seq<Seq<char>>, subtrees: Seq<Seq<char>>, path: Seq<char>)
    ensures
        visible_paths(paths, subtrees).contains(path) <==> paths.contains(path)
            && !is_source_excluded(path, subtrees),
        document_paths(paths).contains(path) <==> paths.contains(path) && is_document(path),
        document_paths(paths).len() <= paths.len(),
    decreases paths.len(),
{
    if paths.len() > 0 {
        let front = paths.drop_last();
        lemma_visible_has(front, subtrees, path);
        lemma_push_has(front, paths.last(), path);
        assert(front.push(paths.last()) =~= paths);
        lemma_push_has(visible_paths(front, subtrees), paths.last(), path);
        lemma_push_has(document_paths(front), paths.last(), path);
    }
}

proof fn lemma_push_has(all: Seq<Seq<char>>, last: Seq<char>, path: Seq<char>)
    ensures
        all.push(last).contains(path) <==> all.contains(path) || path == last,
{
    if all.contains(path) {
        let i = choose|i: int| 0 <= i < all.len() && all[i] == path;
        assert(all.push(last)[i] == path);
    }
    assert(all.push(last)[all.len() as int] == last);
}

/// What is counted as a chunk of an index is what a search may return. A document is counted
/// once, however many of its chunks are.
pub proof fn lemma_what_can_be_found_is_counted(index: StoredIndex, subtrees: Seq<Seq<char>>)
    ensures
        ({
            let told = counts_of(Some(index), subtrees);
            &&& told.chunks == candidate_positions(index.chunks@, subtrees).len()
            &&& told.document_chunks <= told.chunks
            &&& exists|files: Set<Seq<char>>|
                files.len() == told.document_files_indexed && forall|path: Seq<char>| #[trigger]
                    files.contains(path) <==> chunk_paths(index.chunks@).contains(path)
                        && is_document(path) && !is_source_excluded(path, subtrees)
        }),
        counts_of(None, subtrees).chunks == 0,
        counts_of(None, subtrees).document_chunks == 0,
        counts_of(None, subtrees).document_files_indexed == 0,
        counts_of(None, subtrees).document_files_discovered == 0,
{
    let paths = chunk_paths(index.chunks@);
    let shown = visible_paths(paths, subtrees);
    lemma_visible_are_candidates(index.chunks@, subtrees);
    lemma_visible_has(shown, subtrees, Seq::empty());
    let files = document_paths(shown).to_set();
    assert forall|path: Seq<char>| #[trigger] files.contains(path) <==> paths.contains(path)
        && is_document(path) && !is_source_excluded(path, subtrees) by {
        lemma_visible_has(shown, subtrees, path);
        lemma_visible_has(paths, subtrees, path);
    }
}

proof fn lemma_grows(values: Seq<int>, k: int)
    requires
        0 <= k < values.len(),
        forall|a: int, b: int| 0 <= a < b < values.len() ==> values[a] < values[b],
        forall|a: int| 0 <= a < values.len() ==> 0 <= #[trigger] values[a] < values.len(),
    ensures
        values[k] == k,
{
    lemma_grows_up(values, k);
    lemma_grows_down(values, k);
}

proof fn lemma_grows_up(values: Seq<int>, k: int)
    requires
        0 <= k < values.len(),
        forall|a: int, b: int| 0 <= a < b < values.len() ==> values[a] < values[b],
        forall|a: int| 0 <= a < values.len() ==> 0 <= #[trigger] values[a] < values.len(),
    ensures
        values[k] >= k,
    decreases k,
{
    if k > 0 {
        lemma_grows_up(values, k - 1);
    }
}

proof fn lemma_grows_down(values: Seq<int>, k: int)
    requires
        0 <= k < values.len(),
        forall|a: int, b: int| 0 <= a < b < values.len() ==> values[a] < values[b],
        forall|a: int| 0 <= a < values.len() ==> 0 <= #[trigger] values[a] < values.len(),
    ensures
        values[k] <= k,
    decreases values.len() - k,
{
    if k < values.len() - 1 {
        lemma_grows_down(values, k + 1);
    }
}

/// In a response that has one item for each input, in whatever order, the item for an input
/// comes to stand in the place of the input.
pub proof fn lemma_items_come_to_their_inputs(indices: Seq<usize>, k: int)
    requires
        0 <= k < indices.len(),
        indices.no_duplicates(),
        forall|i: int| 0 <= i < indices.len() ==> #[trigger] indices[i] < indices.len(),
    ensures
        ({
            let sorted = sort_by(numbered(indices), input_order());
            &&& sorted.len() == indices.len()
            &&& 0 <= sorted[k].1 < indices.len()
            &&& indices[sorted[k].1] == k
        }),
{
    let all = numbered(indices);
    let sorted = sort_by(all, input_order());
    let places = lemma_sorting_is_stable(all, input_order());
    let values = Seq::new(sorted.len(), |i: int| sorted[i].0);
    assert forall|a: int, b: int| 0 <= a < b < values.len() implies values[a] < values[b] by {
        lemma_in_input_order(indices, a, b);
    }
    assert forall|a: int| 0 <= a < values.len() implies 0 <= #[trigger] values[a]
        < values.len() by {
        assert(sorted[a] == all[places[a]]);
        assert(values[a] == indices[places[a]]);
    }
    lemma_grows(values, k);
    assert(sorted[k] == all[places[k]]);
}

proof fn lemma_in_input_order(indices: Seq<usize>, a: int, b: int)
    requires
        indices.no_duplicates(),
        0 <= a < b < sort_by(numbered(indices), input_order()).len(),
    ensures
        sort_by(numbered(indices), input_order())[a].0 < sort_by(
            numbered(indices),
            input_order(),
        )[b].0,
{
    let all = numbered(indices);
    let sorted = sort_by(all, input_order());
    let places = lemma_sorting_is_stable(all, input_order());
    lemma_sort_in_order(all, input_order());
    assert(sorted[a] == all[places[a]] && sorted[b] == all[places[b]]);
    assert(places[a] != places[b]);
    assert(indices[places[a]] != indices[places[b]]);
}

/// Messages on vectors tell what came and what was wanted.
pub proof fn lemma_wrong_vectors_are_told(got: nat, wanted: nat)
    ensures
        wrong_dimension(got, wanted) == "query vector dimension "@ + decimal(got)
            + " does not match index dimension "@ + decimal(wanted),
        wrong_count(got, wanted) == "embedding endpoint returned "@ + decimal(got)
            + " vectors for "@ + decimal(wanted) + " inputs"@,
{
}

/// A message on a file that changed tells both digests.
pub proof fn lemma_changed_files_are_told(expected: Seq<char>, actual: Seq<char>)
    ensures
        changed_since_read(expected, actual) == "File modified since read. Expected hash: "@
            + expected + ", actual: "@ + actual + ". Re-read the file and try again."@,
{
}

// ---------------------------------------------------------------------------
// Requests
// ---------------------------------------------------------------------------

/// A request asks for ten notes without conditions; each pair that is added is one more
/// condition, and changes nothing else.
pub proof fn lemma_requests_gather_conditions(
    query: Seq<char>,
    request: Request,
    key: Seq<char>,
    value: Seq<char>,
)
    ensures
        ({
            let plain = plain_request(query);
            &&& plain.query == query && plain.limit == 10
            &&& plain.filter.tags is None && plain.filter.frontmatter is None
            &&& plain.filter.backlinks_from is None && plain.filter.excluded is None
        }),
        ({
            let more = with_pair(request, key, value);
            &&& more.query == request.query && more.limit == request.limit
            &&& more.filter.tags == request.filter.tags
            &&& more.filter.backlinks_from == request.filter.backlinks_from
            &&& more.filter.excluded == request.filter.excluded
            &&& request.filter.frontmatter is None ==> more.filter.frontmatter == Some(
                seq![(key, value)],
            )
            &&& request.filter.frontmatter matches Some(held) ==> more.filter.frontmatter == Some(
                held.push((key, value)),
            )
        }),
{
    assert(Seq::<(Seq<char>, Seq<char>)>::empty().push((key, value)) =~= seq![(key, value)]);
}

/// Asking for all elements asks for each of them, but not for the content of callouts;
/// asking for none asks for nothing.
pub proof fn lemma_all_and_none_of_the_elements()
    ensures
        ({
            let all = all_elements();
            &&& all.parse_frontmatter && all.parse_wikilinks && all.parse_markdown_links
            &&& all.parse_headings && all.parse_tasks && all.parse_callouts && all.parse_tags
            &&& !all.full_callouts
        }),
        ({
            let none = no_elements();
            &&& !none.parse_frontmatter && !none.parse_wikilinks && !none.parse_markdown_links
            &&& !none.parse_headings && !none.parse_tasks && !none.parse_callouts
            &&& !none.parse_tags && !none.full_callouts
        }),
{
}

// ---------------------------------------------------------------------------
// Vaults and projects
// ---------------------------------------------------------------------------

/// Vaults of different names are each found under their own, and under no other.
pub proof fn lemma_vaults_are_found_by_name(vaults: Seq<VaultConfig>, i: int, name: Seq<char>)
    requires
        vault_names(vaults).no_duplicates(),
    ensures
        0 <= i < vaults.len() ==> by_name(vaults).contains_key(vaults[i].name@) && by_name(
            vaults,
        )[vaults[i].name@] == vaults[i]@,
        (forall|k: int| 0 <= k < vaults.len() ==> (#[trigger] vaults[k]).name@ != name) ==> !by_name(
            vaults,
        ).contains_key(name),
{
    let names = vault_names(vaults);
    if 0 <= i < vaults.len() {
        assert(names[i] == vaults[i].name@);
        assert(names.contains(names[i]));
        assert(names[names.index_of(names[i])] == names[i]);
    }
    if (forall|k: int| 0 <= k < vaults.len() ==> (#[trigger] vaults[k]).name@ != name)
        && names.contains(name) {
        let k = choose|k: int| 0 <= k < names.len() && names[k] == name;
        assert(vaults[k].name@ == name);
    }
}

/// A registry with vaults has one of them active, and one without has none.
pub proof fn lemma_one_vault_is_active(registry: Registry, name: Seq<char>)
    requires
        registry_ok(registry),
    ensures
        registry.vaults.contains_key(name) ==> registry.vaults.contains_key(registry.active),
        !registry.vaults.contains_key(registry.active) ==> registry.active.len() == 0,
{
    if registry.vaults.contains_key(name) {
        assert(registry.vaults.dom().contains(name));
    }
}

/// The vault that takes over when the active one leaves is the one whose name comes first: no
/// other begins a name with a smaller character where they first differ, or is a beginning
/// of it.
pub proof fn lemma_the_first_name_takes_over(
    vaults: Map<Seq<char>, Vault>,
    name: Seq<char>,
    other: Seq<char>,
    n: int,
)
    requires
        is_first_name(vaults, name),
        vaults.contains_key(other),
        0 <= n <= name.len(),
        n <= other.len(),
        name.take(n) == other.take(n),
    ensures
        vaults.contains_key(name),
        n < name.len() && n < other.len() ==> name[n] <= other[n],
        n == other.len() ==> n == name.len(),
{
    lemma_texts_compare_by_their_first_difference(other, name, n);
    assert(!text_before(other, name));
}

/// A vault of which only name and path were said leaves everything else open, makes no
/// commits, and is not the default.
pub proof fn lemma_plain_vaults_leave_everything_open(
    config: VaultConfig,
    name: Seq<char>,
    path: Seq<char>,
)
    requires
        is_plain_config(config, name, path),
    ensures
        config.name@ == name && config.path@ == path,
        !config.is_default,
        config.write_backend == WriteBackend::Direct && config.git is None,
        config.reconcile_external_changes is None && config.max_file_size is None,
        config.allowed_extensions is None && config.excluded_paths is None,
        config.excluded_subtrees is None && config.enable_caching is None,
        config.cache_ttl is None && config.template_dirs is None,
        config.allowed_operations is None,
{
}

/// The root of a project is known by five names, and its cache lies among the projects.
pub proof fn lemma_projects_are_known_by_their_files(cache_dir: Seq<char>, id: Seq<char>)
    ensures
        marker_names() == seq![
            ".git"@,
            ".obsidian"@,
            "Cargo.toml"@,
            "package.json"@,
            ".project"@,
        ],
        project_dir(cache_dir, id) == joined_path(joined_path(cache_dir, "projects"@), id),
{
}

/// One dot is a part of its own where a path begins with it, and two dots are one anywhere.
pub proof fn lemma_dots_are_parts(name: Seq<char>)
    requires
        is_name(name),
    ensures
        parts(seq!['.']) == seq![Part::Cur],
        parts(seq!['.', '.']) == seq![Part::Parent],
        parts(seq!['.', '/'] + name) == seq![Part::Cur, Part::Normal(name)],
        parts(seq!['.', '.', '/'] + name) == seq![Part::Parent, Part::Normal(name)],
{
    let one = seq!['.'];
    let two = seq!['.', '.'];
    lemma_whole_piece(one);
    lemma_whole_piece(two);
    assert(piece_parts(Seq::empty()) =~= Seq::empty());
    assert(seq![one].drop_last() =~= Seq::<Seq<char>>::empty());
    assert(seq![two].drop_last() =~= Seq::<Seq<char>>::empty());
    assert(two[0] == '.' && two.len() == 2 && one.len() == 1);
    assert(parts(one) =~= seq![Part::Cur]);
    assert(parts(two) =~= seq![Part::Parent]);
    lemma_empty_parts_do_not_count(one);
    lemma_empty_parts_do_not_count(two);
    assert(one.push('/') + name =~= seq!['.', '/'] + name);
    assert(two.push('/') + name =~= seq!['.', '.', '/'] + name);
    assert(parts(one).push(Part::Normal(name)) =~= seq![Part::Cur, Part::Normal(name)]);
    assert(parts(two).push(Part::Normal(name)) =~= seq![Part::Parent, Part::Normal(name)]);
}

proof fn lemma_whole_piece(piece: Seq<char>)
    requires
        !piece.contains('/'),
    ensures
        split(piece, '/') == seq![piece],
    decreases piece.len(),
{
    if piece.len() == 0 {
        assert(split(piece, '/')[0] =~= piece);
        assert(split(piece, '/') =~= seq![piece]);
    } else {
        let front = piece.drop_last();
        assert forall|i: int| 0 <= i < front.len() implies front[i] != '/' by {
            assert(front[i] == piece[i]);
            assert(piece.contains(piece[i]));
        }
        assert(piece.contains(piece[piece.len() - 1]));
        lemma_whole_piece(front);
        assert(front.push(piece.last()) =~= piece);
        assert(split(piece, '/') =~= seq![piece]);
    }
}

/// A path from the root stands for itself wherever it is joined; any other is written behind
/// the base, with one slash between them.
pub proof fn lemma_paths_are_joined_by_a_slash(base: Seq<char>, path: Seq<char>)
    ensures
        joined_path(base, seq!['/'] + path) == seq!['/'] + path,
        base.len() == 0 ==> joined_path(base, path) == path,
        base.len() > 0 && base.last() != '/' && (path.len() == 0 || path[0] != '/') ==> joined_path(
            base,
            path,
        ) == base + seq!['/'] + path,
        path.len() == 0 || path[0] != '/' ==> joined_path(base.push('/'), path) == base + seq!['/']
            + path,
{
    assert((seq!['/'] + path)[0] == '/');
    assert(base.push('/') =~= base + seq!['/']);
}

// ---------------------------------------------------------------------------
// Documents
// ---------------------------------------------------------------------------

/// A DOCX file is read from its document; what is missing on the way there is told.
pub proof fn lemma_docx_files_are_read_from_their_document(
    is_archive: bool,
    document: Option<Option<Seq<char>>>,
)
    ensures
        !is_archive ==> docx_answer(is_archive, document) == Err::<Seq<char>, Seq<char>>(
            "invalid DOCX ZIP container"@,
        ),
        is_archive && document is None ==> docx_answer(is_archive, document) == Err::<
            Seq<char>,
            Seq<char>,
        >("DOCX has no word/document.xml"@),
        is_archive && document == Some(None::<Seq<char>>) ==> docx_answer(is_archive, document)
            == Err::<Seq<char>, Seq<char>>("DOCX document.xml is not UTF-8 XML"@),
        is_archive ==> (document matches Some(Some(xml)) ==> docx_answer(is_archive, document)
            == docx_markdown(xml_pieces(xml))),
{
}

/// Reading begins outside of any paragraph. A paragraph begins with its element and ends with
/// it; its text is read inside its text elements, and no other piece changes where reading
/// stands.
pub proof fn lemma_paragraphs_and_texts_begin_and_end(all: Seq<Piece>, piece: Piece)
    ensures
        ({
            let none = docx_after(Seq::empty());
            &&& none.paragraphs.len() == 0 && none.text.len() == 0 && none.style is None
            &&& !none.in_paragraph && !none.in_text
        }),
        ({
            let before = docx_after(all);
            let after = docx_after(all.push(piece));
            let opens = piece is Start && piece->Start_0.name == "p"@;
            let closes = piece is End && piece->End_0 == "p"@;
            let opens_text = piece is Start && piece->Start_0.name == "t"@;
            let closes_text = piece is End && piece->End_0 == "t"@;
            &&& opens ==> after.in_paragraph && after.text.len() == 0 && after.style is None
            &&& closes ==> !after.in_paragraph && !after.in_text && after.text.len() == 0
            &&& !opens && !closes ==> after.in_paragraph == before.in_paragraph
            &&& !closes ==> after.paragraphs == before.paragraphs
            &&& opens_text ==> after.in_text == (before.in_text || before.in_paragraph)
            &&& closes_text ==> !after.in_text
            &&& !opens_text && !closes_text && !closes ==> after.in_text == before.in_text
        }),
{
    reveal_strlit("p");
    reveal_strlit("t");
    assert("p"@[0] == 'p' && "t"@[0] == 't');
    assert(all.push(piece).drop_last() =~= all);
    assert(all.push(piece).last() == piece);
}

/// Front matter has the lines between its borders as its text, and the fields that are read
/// from it, none where it is no mapping.
pub proof fn lemma_front_matter_is_read_between_its_borders(all: Seq<Seq<char>>)
    ensures
        front_of(all) is Some <==> front_end(all) is Some,
        front_end(all) matches Some(close) ==> {
            let front = front_of(all)->0;
            &&& front.text == join(all.subrange(1, close).push(Seq::empty()), "\n"@)
            &&& yaml_fields(front.text) is None ==> front.data.len() == 0
            &&& yaml_fields(front.text) is Some ==> front.data == yaml_fields(front.text)->0
        },
{
    match front_end(all) {
        Some(close) => {
            lemma_front_matter_keeps_its_lines(all.subrange(1, close));
        },
        None => {},
    }
}

/// A note is called by the title in its front matter, without one by its first heading, and
/// without any by the name of its file.
pub proof fn lemma_notes_are_called_by_their_title(
    declared: Option<Seq<char>>,
    heading: Option<Seq<char>>,
    path: Seq<char>,
)
    ensures
        declared matches Some(title) ==> title_of(declared, heading, path) == title,
        declared is None ==> (heading matches Some(text) ==> title_of(declared, heading, path)
            == text),
        declared is None && heading is None ==> (file_stem(path) matches Some(stem) ==> title_of(
            declared,
            heading,
            path,
        ) == stem),
        declared is None && heading is None && file_stem(path) is None ==> title_of(
            declared,
            heading,
            path,
        ) == "Untitled"@,
{
}

/// A file is an attachment by its extension alone, in upper or lower case.
pub proof fn lemma_attachments_are_known_by_their_extension(path: Seq<char>)
    ensures
        is_document(path) <==> extension(path) is Some && (ascii_lowered(extension(path)->0)
            == ascii_lowered("pdf"@) || ascii_lowered(extension(path)->0) == ascii_lowered(
            "docx"@,
        )),
{
}

/// Why an index cannot be used is told in words that name what differs.
pub proof fn lemma_differences_are_told_in_words()
    ensures
        Mismatch::Schema.words() == "index schema version differs from this build"@,
        Mismatch::Chunker.words() == "index chunker version differs from this build"@,
        Mismatch::Model.words() == "index was built with a different embedding model"@,
        Mismatch::VaultPath.words() == "index was built for a different vault path"@,
        Mismatch::DocumentPolicy.words() == "document indexing configuration changed"@,
{
}

/// A preview is the text as it is, or its first two hundred characters where it is longer.
pub proof fn lemma_previews_are_short(plain: Seq<char>)
    ensures
        plain.len() <= 200 ==> preview(plain) == plain,
        plain.len() > 200 ==> preview(plain).len() == 200 && preview(plain) == plain.subrange(
            0,
            200,
        ),
{
}

/// An index has as many components in each vector as in any other, none where it is empty.
pub proof fn lemma_vectors_have_one_length(
    all: Seq<Entry>,
    i: int,
    j: int,
)
    requires
        one_dimension(all),
        0 <= i < all.len(),
        0 <= j < all.len(),
    ensures
        all[i].dimension == all[j].dimension,
        dimension_of(all) == all[i].dimension,
        dimension_of(Seq::empty()) == 0,
{
}

/// A build begins with nothing.
pub proof fn lemma_builds_begin_with_nothing()
    ensures
        empty_build().kept.len() == 0,
        empty_build().pending.len() == 0,
        empty_build().dimensions.len() == 0,
{
}

// ---------------------------------------------------------------------------
// Full-text queries
// ---------------------------------------------------------------------------

/// The index has four fields. A path is found as a whole, the others by their words, and the
/// content is not given back; a query looks for its words, with one typo at most, everywhere
/// but in the path.
pub proof fn lemma_words_are_looked_for_in_three_fields(part: crate::text_index::Part)
    ensures
        engine_layout() == seq![
            ("path"@, FieldKind::Whole),
            ("title"@, FieldKind::Words),
            ("content"@, FieldKind::Hidden),
            ("tags"@, FieldKind::Words),
        ],
        engine_setup().layout == engine_layout(),
        engine_setup().parts.contains(part) <==> part != crate::text_index::Part::Path,
        part != crate::text_index::Part::Path ==> engine_setup().tolerance.contains_key(part)
            && engine_setup().tolerance[part] == (false, 1u8, true),
{
    let parts = engine_setup().parts;
    assert(parts[0] == crate::text_index::Part::Title && parts[1] == crate::text_index::Part::Content && parts[2] == crate::text_index::Part::Tags);
}

proof fn lemma_first_stored_error(searcher: tantivy::Searcher, hits: Seq<Hit>, i: int)
    requires
        0 <= i < hits.len(),
        forall|k: int|
            0 <= k < i ==> stored_error(searcher, (#[trigger] hits[k]).segment, hits[k].number)
                is None,
    ensures
        stored_error(searcher, hits[i].segment, hits[i].number) is Some ==> first_stored_error(
            searcher,
            hits,
        ) == stored_error(searcher, hits[i].segment, hits[i].number),
        i == hits.len() - 1 && stored_error(searcher, hits[i].segment, hits[i].number) is None
            ==> first_stored_error(searcher, hits) is None,
    decreases hits.len(),
{
    let front = hits.drop_last();
    if i < hits.len() - 1 {
        assert forall|k: int| 0 <= k < i implies stored_error(
            searcher,
            (#[trigger] front[k]).segment,
            front[k].number,
        ) is None by {
            assert(front[k] == hits[k]);
        }
        lemma_first_stored_error(searcher, front, i);
        assert(front[i] == hits[i]);
    } else if front.len() > 0 {
        assert forall|k: int| 0 <= k < front.len() - 1 implies stored_error(
            searcher,
            (#[trigger] front[k]).segment,
            front[k].number,
        ) is None by {
            assert(front[k] == hits[k]);
        }
        assert(front[front.len() - 1] == hits[front.len() - 1]);
        lemma_first_stored_error(searcher, front, front.len() - 1);
    }
}

/// The answer to a query is the best documents for it, in their order and with their scores,
/// all of them where each is given back. What stops a query on the way is told, and a query
/// that says nothing finds nothing.
pub proof fn lemma_queries_are_answered_by_the_best_documents(
    r: Result<Seq<FoundDocument>, Fault>,
    searcher: tantivy::Searcher,
    parser: tantivy::query::QueryParser,
    query: Seq<char>,
    limit: nat,
    i: int,
)
    requires
        is_answer(r, Ok::<tantivy::Searcher, Seq<char>>(searcher), parser, query, limit),
    ensures
        reading(parser, query) matches Err(fault) ==> r == Err::<Seq<FoundDocument>, Fault>(fault),
        reading(parser, query) == Ok::<Option<Seq<char>>, Fault>(None) ==> r == Ok::<
            Seq<FoundDocument>,
            Fault,
        >(Seq::empty()),
        reading(parser, query) matches Ok(Some(text)) ==> match best_hits(
            searcher,
            parser,
            text,
            limit,
        ) {
            Err(message) => r == Err::<Seq<FoundDocument>, Fault>(
                Fault::Config("Search failed: "@ + message),
            ),
            Ok(hits) => {
                &&& 0 <= i < hits.len() && (forall|k: int|
                    0 <= k < i ==> stored_error(
                        searcher,
                        (#[trigger] hits[k]).segment,
                        hits[k].number,
                    ) is None) ==> (stored_error(searcher, hits[i].segment, hits[i].number)
                    matches Some(message) ==> r == Err::<Seq<FoundDocument>, Fault>(
                    Fault::Config("Failed to retrieve doc: "@ + message),
                ))
                &&& (forall|k: int|
                    0 <= k < hits.len() ==> stored_error(
                        searcher,
                        (#[trigger] hits[k]).segment,
                        hits[k].number,
                    ) is None) ==> r is Ok && r->Ok_0.len() == hits.len() && (0 <= i < hits.len()
                    ==> {
                    let doc = seen(searcher)[(hits[i].segment, hits[i].number)];
                    &&& r->Ok_0[i].path@ == doc.path
                    &&& r->Ok_0[i].title@ == doc.title
                    &&& r->Ok_0[i].tags@ == doc.tags
                    &&& r->Ok_0[i].score == hits[i].score
                })
            },
        },
{
    match reading(parser, query) {
        Ok(Some(text)) => {
            match best_hits(searcher, parser, text, limit) {
                Ok(hits) => {
                    if 0 <= i < hits.len() && (forall|k: int|
                        0 <= k < i ==> stored_error(
                            searcher,
                            (#[trigger] hits[k]).segment,
                            hits[k].number,
                        ) is None) {
                        lemma_first_stored_error(searcher, hits, i);
                    }
                    if hits.len() > 0 && (forall|k: int|
                        0 <= k < hits.len() ==> stored_error(
                            searcher,
                            (#[trigger] hits[k]).segment,
                            hits[k].number,
                        ) is None) {
                        lemma_first_stored_error(searcher, hits, hits.len() - 1);
                    }
                    if 0 <= i < hits.len() && r is Ok {
                        let found = r->Ok_0;
                        assert(found[i] == found[i]);
                    }
                },
                Err(_) => {},
            }
        },
        _ => {},
    }
}

} // verus!
