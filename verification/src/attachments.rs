//! What the text of an attachment comes to, from one paragraph to the whole document.
use crate::document_extract::{
    after_piece, attribute, compact, docx_after, docx_markdown, heading_level, normalized,
    page_sections, pages_markdown, paragraph_markdown, pdf_answer, reference_text, right_trimmed,
    xml_attributes, Docx, Piece, Tag,
};
use crate::filling::{ink, ink_of, lemma_ink_of_joined, lemma_ink_of_trimmed};
use crate::lines::{chomp, join, lines, split_inclusive, trim, trim_end, unix_newlines};
use crate::numbers::{decimal, lemma_number_of_decimal, number_of};
use crate::text::{is_white_space, lower_of_char, occurs_at};
use crate::wording::{lemma_pieces_make_the_text, lemma_trimming_cuts_white_space_at_the_ends};
use vstd::prelude::*;

verus! {

// ---------------------------------------------------------------------------
// Paragraphs of a Word document
// ---------------------------------------------------------------------------

/// The level of the heading that a paragraph with this style is, if it is one.
pub open spec fn level_of_style(style: Option<Seq<char>>) -> Option<nat> {
    match style {
        Some(name) => heading_level(name),
        None => None,
    }
}

/// Whether a text is a heading of this level with these words: so many hash signs, a space,
/// and the words.
pub open spec fn is_heading_with(s: Seq<char>, level: nat, said: Seq<char>) -> bool {
    &&& s.len() == level + 1 + said.len()
    &&& forall|i: int| 0 <= i < level ==> #[trigger] s[i] == '#'
    &&& s[level as int] == ' '
    &&& forall|i: int| 0 <= i < said.len() ==> s[level + 1 + i] == #[trigger] said[i]
}

/// A paragraph whose style has no heading level, or that has no style, is its text and
/// nothing else. One whose style has level `n` is a heading: `n` hash signs, a space and its
/// text.
pub proof fn lemma_paragraph_reads_as_its_style_says(text: Seq<char>, style: Option<Seq<char>>)
    ensures
        match level_of_style(style) {
            Some(n) => is_heading_with(paragraph_markdown(text, style), n, text),
            None => paragraph_markdown(text, style) == text,
        },
{
    reveal_strlit(" ");
}

/// The heading levels run from one to six. A style has one of them where its name, read
/// without white space and hyphens and in lower case, is `heading` with that number behind
/// it, and no style has a level otherwise.
pub proof fn lemma_heading_styles_are_numbered(style: Seq<char>, n: nat)
    ensures
        1 <= n <= 6 && compact(style) == "heading"@ + decimal(n) ==> heading_level(style) == Some(
            n,
        ),
        heading_level(style) == Some(n) ==> 1 <= n <= 6 && exists|number: Seq<char>|
            compact(style) == "heading"@ + number && #[trigger] number_of(
                number,
                usize::MAX as nat,
            ) == Some(n),
{
    let name = compact(style);
    let word = "heading"@;
    let rest = name.skip(word.len() as int);
    if 1 <= n <= 6 && name == word + decimal(n) {
        assert(name.subrange(0, word.len() as int) =~= word);
        assert(occurs_at(name, word, 0));
        assert(rest =~= decimal(n));
        assert(n <= usize::MAX);
        lemma_number_of_decimal(n, usize::MAX as nat);
    }
    if heading_level(style) == Some(n) {
        assert(name.subrange(0, word.len() as int) =~= word);
        assert(name =~= word + rest);
        assert(number_of(rest, usize::MAX as nat) == Some(n));
    }
}

/// In the name of a style, white space and hyphens do not count, wherever they stand, and
/// neither does the case of its letters.
pub proof fn lemma_spaces_in_style_names_do_not_count(a: Seq<char>, c: char, b: Seq<char>)
    ensures
        is_white_space(c) || c == '-' ==> heading_level(a + seq![c] + b) == heading_level(a + b),
        !is_white_space(c) && c != '-' ==> compact(a + seq![c] + b) == compact(a) + lower_of_char(c)
            + compact(b),
{
    let one = seq![c];
    assert(one.drop_last() =~= Seq::<char>::empty());
    assert(compact(Seq::<char>::empty()) =~= Seq::<char>::empty());
    assert(one.last() == c);
    lemma_compact_of_both(a, one);
    lemma_compact_of_both(a + one, b);
    lemma_compact_of_both(a, b);
    if is_white_space(c) || c == '-' {
        assert(compact(one) =~= Seq::<char>::empty());
        assert(compact(a) + compact(one) =~= compact(a));
    } else {
        assert(compact(one) =~= lower_of_char(c));
    }
}

proof fn lemma_compact_of_both(a: Seq<char>, b: Seq<char>)
    ensures
        compact(a + b) == compact(a) + compact(b),
    decreases b.len(),
{
    if b.len() == 0 {
        assert(a + b =~= a);
        assert(compact(a) + compact(b) =~= compact(a));
    } else {
        lemma_compact_of_both(a, b.drop_last());
        assert((a + b).drop_last() =~= a + b.drop_last());
        assert((a + b).last() == b.last());
        assert(compact(a + b) =~= compact(a) + compact(b));
    }
}

/// The value of an attribute is that of the first one with its name that can be read,
/// without white space at its ends.
pub proof fn lemma_first_attribute_counts(
    all: Seq<Option<(Seq<char>, Seq<char>)>>,
    name: Seq<char>,
    at: int,
    value: Seq<char>,
)
    requires
        0 <= at < all.len(),
        all[at] == Some((name, value)),
        forall|k: int| 0 <= k < at ==> (#[trigger] all[k] matches Some(a) ==> a.0 != name),
    ensures
        attribute(all, name) == Some(trim(value)),
    decreases at,
{
    if at > 0 {
        let rest = all.drop_first();
        assert(all[0] matches Some(a) ==> a.0 != name);
        assert forall|k: int| 0 <= k < at - 1 implies (#[trigger] rest[k] matches Some(a) ==> a.0
            != name) by {
            assert(rest[k] == all[k + 1]);
        }
        lemma_first_attribute_counts(rest, name, at - 1, value);
    }
}

/// The pieces of runs of text in a paragraph.
pub open spec fn runs(texts: Seq<Seq<char>>, tag: Tag) -> Seq<Piece>
    decreases texts.len(),
{
    if texts.len() == 0 {
        Seq::empty()
    } else {
        runs(texts.drop_last(), tag) + seq![
            Piece::Start(tag),
            Piece::Text(texts.last()),
            Piece::End(tag.name),
        ]
    }
}

proof fn lemma_one_more_piece(all: Seq<Piece>, piece: Piece)
    ensures
        docx_after(all + seq![piece]) == after_piece(docx_after(all), piece),
{
    assert((all + seq![piece]).drop_last() =~= all);
}

proof fn lemma_runs_gather(before: Seq<Piece>, texts: Seq<Seq<char>>, tag: Tag)
    requires
        tag.name == "t"@,
        docx_after(before).in_paragraph,
    ensures
        ({
            let start = docx_after(before);
            let end = docx_after(before + runs(texts, tag));
            &&& end.text == start.text + join(texts, Seq::empty())
            &&& end.paragraphs == start.paragraphs
            &&& end.style == start.style
            &&& end.in_paragraph
        }),
    decreases texts.len(),
{
    reveal_strlit("t");
    reveal_strlit("p");
    assert("t"@[0] != "p"@[0]);
    if texts.len() == 0 {
        assert(before + runs(texts, tag) =~= before);
        assert(docx_after(before).text + join(texts, Seq::empty()) =~= docx_after(before).text);
    } else {
        let front = before + runs(texts.drop_last(), tag);
        lemma_runs_gather(before, texts.drop_last(), tag);
        let one = front + seq![Piece::Start(tag)];
        let two = one + seq![Piece::Text(texts.last())];
        let three = two + seq![Piece::End(tag.name)];
        lemma_one_more_piece(front, Piece::Start(tag));
        lemma_one_more_piece(one, Piece::Text(texts.last()));
        lemma_one_more_piece(two, Piece::End(tag.name));
        assert(before + runs(texts, tag) =~= three);
        assert(docx_after(before).text + join(texts, Seq::empty()) =~= docx_after(front).text
            + texts.last()) by {
            if texts.len() == 1 {
                assert(join(texts.drop_last(), Seq::<char>::empty()) =~= Seq::<char>::empty());
            }
        }
    }
}

/// A paragraph of runs of text, with or without a style, adds to the document what all of
/// its runs say together, without white space at the ends: as it is where the style has no
/// heading level, and as a heading of that level where it has one. One that says nothing
/// adds nothing.
pub proof fn lemma_paragraph_is_appended(
    all: Seq<Piece>,
    paragraph: Tag,
    style: Option<Tag>,
    run: Tag,
    texts: Seq<Seq<char>>,
)
    requires
        paragraph.name == "p"@,
        style matches Some(tag) ==> tag.name == "pStyle"@,
        run.name == "t"@,
    ensures
        ({
            let inner = match style {
                Some(tag) => seq![Piece::Empty(tag)],
                None => Seq::empty(),
            };
            let named = match style {
                Some(tag) => attribute(xml_attributes(tag.attributes), "val"@),
                None => None,
            };
            let before = docx_after(all).paragraphs;
            let after = docx_after(
                all + seq![Piece::Start(paragraph)] + inner + runs(texts, run) + seq![
                    Piece::End(paragraph.name),
                ],
            ).paragraphs;
            let said = trim(join(texts, Seq::empty()));
            if said.len() == 0 {
                after == before
            } else {
                &&& after.len() == before.len() + 1
                &&& after.drop_last() == before
                &&& match level_of_style(named) {
                    Some(n) => is_heading_with(after.last(), n, said),
                    None => after.last() == said,
                }
            }
        }),
{
    reveal_strlit("p");
    reveal_strlit("t");
    reveal_strlit("pStyle");
    assert("t"@[0] != "p"@[0]);
    assert("pStyle"@.len() != "p"@.len());
    let inner = match style {
        Some(tag) => seq![Piece::Empty(tag)],
        None => Seq::empty(),
    };
    let named = match style {
        Some(tag) => attribute(xml_attributes(tag.attributes), "val"@),
        None => None,
    };
    let end = Piece::End(paragraph.name);
    let opened = all + seq![Piece::Start(paragraph)];
    lemma_one_more_piece(all, Piece::Start(paragraph));
    let styled = opened + inner;
    match style {
        Some(tag) => {
            lemma_one_more_piece(opened, Piece::Empty(tag));
        },
        None => {
            assert(styled =~= opened);
        },
    }
    let state = docx_after(styled);
    assert(state.in_paragraph && state.style == named && state.text =~= Seq::<char>::empty());
    lemma_runs_gather(styled, texts, run);
    let told = styled + runs(texts, run);
    assert(state.text + join(texts, Seq::empty()) =~= join(texts, Seq::empty()));
    lemma_one_more_piece(told, end);
    let said = trim(join(texts, Seq::empty()));
    lemma_paragraph_reads_as_its_style_says(said, named);
    let before = docx_after(all).paragraphs;
    if said.len() > 0 {
        assert(docx_after(told + seq![end]).paragraphs =~= before.push(
            paragraph_markdown(said, named),
        ));
        assert(before.push(paragraph_markdown(said, named)).drop_last() =~= before);
    }
}

/// Inside a paragraph a tab stands for a tab, and both kinds of break for the end of a line;
/// outside of one neither adds anything.
pub proof fn lemma_tabs_and_breaks_are_kept(all: Seq<Piece>, tag: Tag)
    requires
        tag.name == "tab"@ || tag.name == "br"@ || tag.name == "cr"@,
    ensures
        ({
            let before = docx_after(all);
            let c = if tag.name == "tab"@ {
                '\t'
            } else {
                '\n'
            };
            let after = if before.in_paragraph {
                Docx { text: before.text.push(c), ..before }
            } else {
                before
            };
            docx_after(all + seq![Piece::Empty(tag)]) == after && docx_after(
                all + seq![Piece::Start(tag)],
            ) == after
        }),
{
    reveal_strlit("tab");
    reveal_strlit("br");
    reveal_strlit("cr");
    reveal_strlit("p");
    reveal_strlit("t");
    reveal_strlit("pStyle");
    assert("tab"@[0] == 't' && "br"@[0] == 'b' && "cr"@[0] == 'c');
    assert("pStyle"@[0] == 'p');
    assert("tab"@.len() == 3 && "t"@.len() == 1 && "p"@.len() == 1);
    lemma_one_more_piece(all, Piece::Empty(tag));
    lemma_one_more_piece(all, Piece::Start(tag));
}

/// The five references that XML defines stand for one character each.
pub proof fn lemma_references_are_characters()
    ensures
        reference_text("amp"@) == seq!['&'],
        reference_text("lt"@) == seq!['<'],
        reference_text("gt"@) == seq!['>'],
        reference_text("apos"@) == seq!['\''],
        reference_text("quot"@) == seq!['"'],
        forall|name: Seq<char>|
            name != "amp"@ && name != "lt"@ && name != "gt"@ && name != "apos"@ && name != "quot"@
                ==> #[trigger] reference_text(name) == Seq::<char>::empty(),
{
    reveal_strlit("");
    assert(""@ =~= Seq::<char>::empty());
    reveal_strlit("amp");
    reveal_strlit("lt");
    reveal_strlit("gt");
    reveal_strlit("apos");
    reveal_strlit("quot");
    reveal_strlit("&");
    reveal_strlit("<");
    reveal_strlit(">");
    reveal_strlit("'");
    reveal_strlit("\"");
    assert("amp"@[1] == 'm' && "apos"@[1] == 'p' && "quot"@[0] == 'q');
    assert("lt"@[0] == 'l' && "gt"@[0] == 'g' && "amp"@[0] == 'a' && "apos"@[0] == 'a');
    assert(reference_text("amp"@) =~= seq!['&']);
    assert(reference_text("lt"@) =~= seq!['<']);
    assert(reference_text("gt"@) =~= seq!['>']);
    assert(reference_text("apos"@) =~= seq!['\'']);
    assert(reference_text("quot"@) =~= seq!['"']);
}

/// Text and references count inside the text of a paragraph, and nowhere else.
pub proof fn lemma_only_text_is_read(all: Seq<Piece>, text: Seq<char>)
    ensures
        ({
            let before = docx_after(all);
            let said = docx_after(all + seq![Piece::Text(text)]);
            let named = docx_after(all + seq![Piece::Reference(text)]);
            &&& before.in_text ==> said == (Docx { text: before.text + text, ..before }) && named
                == (Docx { text: before.text + reference_text(text), ..before })
            &&& !before.in_text ==> said == before && named == before
        }),
{
    lemma_one_more_piece(all, Piece::Text(text));
    lemma_one_more_piece(all, Piece::Reference(text));
}

/// A document that can be read to its end and says anything comes out as its paragraphs,
/// with an empty line between each two; any other comes out as the reason.
pub proof fn lemma_document_is_its_paragraphs(all: Seq<Piece>)
    ensures
        ({
            let broken = exists|i: int| 0 <= i < all.len() && #[trigger] all[i] is Malformed;
            let paragraphs = docx_after(all).paragraphs;
            &&& broken ==> docx_markdown(all) == Err::<Seq<char>, Seq<char>>(
                "malformed DOCX document.xml"@,
            )
            &&& !broken && paragraphs.len() == 0 ==> docx_markdown(all) == Err::<
                Seq<char>,
                Seq<char>,
            >("DOCX has no extractable paragraph text"@)
            &&& !broken && paragraphs.len() > 0 ==> docx_markdown(all) == Ok::<
                Seq<char>,
                Seq<char>,
            >(join(paragraphs, "\n\n"@))
        }),
{
}

// ---------------------------------------------------------------------------
// Pages of a PDF file
// ---------------------------------------------------------------------------

proof fn lemma_ink_of_unix(s: Seq<char>)
    ensures
        ink(unix_newlines(s)) == ink(s),
    decreases s.len(),
{
    if s.len() > 0 {
        let before = unix_newlines(s.drop_last());
        let after = unix_newlines(s);
        lemma_ink_of_unix(s.drop_last());
        assert(is_white_space('\r') && is_white_space('\n'));
        if after.len() > before.len() {
            assert(after.drop_last() =~= before);
        }
    }
}

proof fn lemma_ink_of_right_trimmed(s: Seq<char>)
    ensures
        ink(trim_end(s)) == ink(s),
    decreases s.len(),
{
    if s.len() > 0 && is_white_space(s.last()) {
        lemma_ink_of_right_trimmed(s.drop_last());
    }
}

proof fn lemma_ink_of_chomped(piece: Seq<char>)
    ensures
        ink(chomp(piece)) == ink(piece),
{
    assert(is_white_space('\r') && is_white_space('\n'));
    if piece.len() > 0 && piece.last() == '\n' {
        let front = piece.drop_last();
        if piece.len() > 1 && piece[piece.len() - 2] == '\r' {
            assert(front.last() == '\r');
            assert(front.drop_last() =~= piece.take(piece.len() - 2));
            assert(ink(front) == ink(front.drop_last()));
        }
    }
}

proof fn lemma_ink_of_mapped(a: Seq<Seq<char>>, b: Seq<Seq<char>>)
    requires
        a.len() == b.len(),
        forall|k: int| 0 <= k < a.len() ==> ink(#[trigger] a[k]) == ink(b[k]),
    ensures
        ink_of(a) == ink_of(b),
    decreases a.len(),
{
    if a.len() > 0 {
        let x = a.drop_last();
        let y = b.drop_last();
        assert forall|k: int| 0 <= k < x.len() implies ink(#[trigger] x[k]) == ink(y[k]) by {
            assert(x[k] == a[k]);
        }
        lemma_ink_of_mapped(x, y);
        assert(ink(a[a.len() - 1]) == ink(b[a.len() - 1]));
    }
}

/// Tidying the text of a page drops white space and nothing else.
pub proof fn lemma_tidied_text_keeps_every_character(text: Seq<char>)
    ensures
        ink(normalized(text)) == ink(text),
        normalized(text).len() == 0 <==> ink(text).len() == 0,
        normalized(text).len() > 0 ==> !is_white_space(normalized(text)[0]) && !is_white_space(
            normalized(text).last(),
        ),
{
    let unix = unix_newlines(text);
    let all = lines(unix);
    let kept = right_trimmed(all);
    let pieces = split_inclusive(unix, '\n');
    let nl = "\n"@;
    reveal_strlit("\n");
    lemma_ink_of_unix(text);
    lemma_pieces_make_the_text(unix, '\n');
    lemma_ink_of_joined(pieces, Seq::empty());
    assert forall|k: int| 0 <= k < all.len() implies ink(#[trigger] all[k]) == ink(pieces[k]) by {
        lemma_ink_of_chomped(pieces[k]);
    }
    lemma_ink_of_mapped(all, pieces);
    assert forall|k: int| 0 <= k < kept.len() implies ink(#[trigger] kept[k]) == ink(all[k]) by {
        lemma_ink_of_right_trimmed(all[k]);
    }
    lemma_ink_of_mapped(kept, all);
    assert forall|i: int| 0 <= i < nl.len() implies is_white_space(#[trigger] nl[i]) by {}
    lemma_ink_of_joined(kept, nl);
    let whole = join(kept, nl);
    lemma_ink_of_trimmed(whole);
    let ends = lemma_trimming_cuts_white_space_at_the_ends(whole);
    let out = normalized(text);
    if out.len() > 0 {
        lemma_ends_in_ink(out);
    }
}

proof fn lemma_ends_in_ink(s: Seq<char>)
    requires
        s.len() > 0,
        !is_white_space(s.last()),
    ensures
        ink(s).len() > 0,
{
}

/// The pages of a document come out in their order, each that holds text as one section under
/// its own number, counted from one over all pages.
pub proof fn lemma_pages_come_out_under_their_numbers(pages: Seq<Seq<char>>) -> (numbers: Seq<int>)
    ensures
        numbers.len() == page_sections(pages).len(),
        forall|a: int, b: int| 0 <= a < b < numbers.len() ==> numbers[a] < numbers[b],
        forall|n: int|
            1 <= n <= pages.len() ==> (numbers.contains(n) <==> ink(#[trigger] pages[n - 1]).len()
                > 0),
        forall|k: int|
            0 <= k < numbers.len() ==> 1 <= #[trigger] numbers[k] <= pages.len() && page_sections(
                pages,
            )[k] == "# Page "@ + decimal(numbers[k] as nat) + "\n\n"@ + normalized(
                pages[numbers[k] - 1],
            ),
    decreases pages.len(),
{
    if pages.len() == 0 {
        Seq::empty()
    } else {
        let front = pages.drop_last();
        let before = lemma_pages_come_out_under_their_numbers(front);
        let last = pages.len() as int;
        lemma_tidied_text_keeps_every_character(pages.last());
        let numbers = if normalized(pages.last()).len() == 0 {
            before
        } else {
            before.push(last)
        };
        assert forall|k: int| 0 <= k < numbers.len() implies 1 <= #[trigger] numbers[k]
            <= pages.len() && page_sections(pages)[k] == "# Page "@ + decimal(numbers[k] as nat)
            + "\n\n"@ + normalized(pages[numbers[k] - 1]) by {
            if k < before.len() {
                assert(numbers[k] == before[k]);
                assert(front[before[k] - 1] == pages[before[k] - 1]);
            }
        }
        assert forall|a: int, b: int| 0 <= a < b < numbers.len() implies numbers[a]
            < numbers[b] by {
            assert(numbers[a] == before[a]);
            if b < before.len() {
                assert(numbers[b] == before[b]);
            }
        }
        assert forall|n: int| 1 <= n <= pages.len() implies (numbers.contains(n) <==> ink(
            #[trigger] pages[n - 1],
        ).len() > 0) by {
            if n < last {
                assert(front[n - 1] == pages[n - 1]);
                if before.contains(n) {
                    assert(numbers[before.index_of(n)] == n);
                }
                if numbers.contains(n) {
                    assert(before[numbers.index_of(n)] == n);
                }
            } else {
                if numbers.contains(n) {
                    let k = numbers.index_of(n);
                    if k < before.len() {
                        assert(before[k] <= front.len());
                    }
                }
                if normalized(pages.last()).len() > 0 {
                    assert(numbers[before.len() as int] == n);
                }
            }
        }
        numbers
    }
}

/// A document comes out as the sections of its pages, with an empty line between each two; one
/// whose pages hold no text is refused.
pub proof fn lemma_document_is_its_pages(pages: Seq<Seq<char>>)
    ensures
        (exists|k: int| 0 <= k < pages.len() && ink(#[trigger] pages[k]).len() > 0)
            <==> pages_markdown(pages) is Ok,
        pages_markdown(pages) matches Ok(text) ==> text == join(page_sections(pages), "\n\n"@),
        pages_markdown(pages) matches Err(reason) ==> reason
            == "PDF has no extractable text layer; OCR is required for scanned pages"@,
        pdf_answer(Ok(pages)) == pages_markdown(pages),
{
    let numbers = lemma_pages_come_out_under_their_numbers(pages);
    if exists|k: int| 0 <= k < pages.len() && ink(#[trigger] pages[k]).len() > 0 {
        let k = choose|k: int| 0 <= k < pages.len() && ink(#[trigger] pages[k]).len() > 0;
        assert(pages[(k + 1) - 1] == pages[k]);
        assert(numbers.contains(k + 1));
    }
    if numbers.len() > 0 {
        assert(numbers.contains(numbers[0]));
        assert(ink(pages[numbers[0] - 1]).len() > 0);
    }
}

} // verus!
