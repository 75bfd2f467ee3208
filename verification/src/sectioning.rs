//! Where a note is cut: at its sections, as far as they fit.
use crate::chunker::{
    chunk_model, close_group, emit, emit_all, emit_children, gathered_with, own_chunks, path_to,
};
use crate::coverage::{lemma_child_texts_len, lemma_cut_is_not_empty};
use crate::headings::{breadcrumb, folded, Heading};
use crate::lines::{join, trim, unix_newlines};
use crate::packing::{closed, pack_units, units_of, Chunk};
use crate::sections::{
    child_texts, children_ok, lemma_section_tree_ok, render, section_ok, section_tree, tree_ok,
    Section,
};
use crate::text::{is_letter_or_digit, lower_of_char};
use crate::wording::lemma_joining_one_more;
use vstd::prelude::*;

verus! {

proof fn lemma_emitted(
    nodes: Seq<Section>,
    ids: Seq<int>,
    ancestors: Seq<Heading>,
    max: nat,
    overlap: nat,
    k: int,
)
    requires
        0 <= k < ids.len(),
        0 <= ids[k] < nodes.len(),
        nodes[ids[k]].heading is Some,
        render(nodes, ids[k]).len() <= max,
    ensures
        emit_all(nodes, ids, ancestors, max, overlap).contains(
            Chunk {
                heading: Some(breadcrumb(ancestors.push(nodes[ids[k]].heading->0))),
                markdown: render(nodes, ids[k]),
            },
        ),
    decreases ids.len(),
{
    let chunk = Chunk {
        heading: Some(breadcrumb(ancestors.push(nodes[ids[k]].heading->0))),
        markdown: render(nodes, ids[k]),
    };
    let front = emit_all(nodes, ids.drop_last(), ancestors, max, overlap);
    let last = emit(nodes, ids.last(), ancestors, max, overlap);
    let all = emit_all(nodes, ids, ancestors, max, overlap);
    assert(all == front + last);
    if k == ids.len() - 1 {
        assert(ids.last() == ids[k]);
        assert(last == seq![chunk]);
        assert(last[0] == chunk);
        assert(all[front.len() as int] == chunk);
    } else {
        assert(ids.drop_last()[k] == ids[k]);
        lemma_emitted(nodes, ids.drop_last(), ancestors, max, overlap, k);
        let i = choose|i: int| 0 <= i < front.len() && front[i] == chunk;
        assert(all[i] == chunk);
    }
}

proof fn lemma_behind(a: Seq<Chunk>, b: Seq<Chunk>, chunk: Chunk)
    requires
        b.contains(chunk),
    ensures
        (a + b).contains(chunk),
{
    let i = choose|i: int| 0 <= i < b.len() && b[i] == chunk;
    assert((a + b)[a.len() + i] == chunk);
}

/// A top-level section that fits is one chunk, with all that lies in it. A first-level
/// heading that reads like the title of the note, with the rest of the note under it, does
/// not count as one: the sections in it do.
pub proof fn lemma_top_level_sections_that_fit_are_one_chunk(
    markdown: Seq<char>,
    title: Seq<char>,
    max: nat,
    overlap: nat,
    k: int,
)
    ensures
        ({
            let nodes = section_tree(unix_newlines(markdown));
            let chunks = chunk_model(markdown, title, max, overlap);
            let top = nodes[0].children;
            let first = nodes[top[0]];
            let is_title = top.len() == 1 && nodes[0].blocks.len() == 0 && first.children.len() > 0
                && first.heading->0.level == 1 && folded(first.heading->0.text) == folded(title);
            &&& !is_title && 0 <= k < top.len() && render(nodes, top[k]).len() <= max
                ==> chunks.contains(
                Chunk {
                    heading: Some(breadcrumb(seq![nodes[top[k]].heading->0])),
                    markdown: render(nodes, top[k]),
                },
            )
            &&& is_title && 0 <= k < first.children.len() && render(nodes, first.children[k]).len()
                <= max ==> chunks.contains(
                Chunk {
                    heading: Some(
                        breadcrumb(
                            seq![first.heading->0, nodes[first.children[k]].heading->0],
                        ),
                    ),
                    markdown: render(nodes, first.children[k]),
                },
            )
        }),
{
    let text = unix_newlines(markdown);
    let nodes = section_tree(text);
    lemma_section_tree_ok(text);
    let top = nodes[0].children;
    assert(children_ok(nodes, 0));
    let first = nodes[top[0]];
    if top.len() > 0 {
        assert(0 < top[0] < nodes.len());
        assert(section_ok(nodes, top[0]));
        assert(children_ok(nodes, top[0]));
    }
    let is_title = top.len() == 1 && nodes[0].blocks.len() == 0 && first.children.len() > 0
        && first.heading->0.level == 1 && folded(first.heading->0.text) == folded(title);
    if !is_title && 0 <= k < top.len() && render(nodes, top[k]).len() <= max {
        assert(0 < top[k] < nodes.len());
        assert(section_ok(nodes, top[k]));
        lemma_emitted(nodes, top, Seq::empty(), max, overlap, k);
        assert(Seq::<Heading>::empty().push(nodes[top[k]].heading->0) =~= seq![
            nodes[top[k]].heading->0,
        ]);
        lemma_behind(
            own_chunks(nodes[0], None, max, overlap),
            emit_all(nodes, top, Seq::empty(), max, overlap),
            Chunk {
                heading: Some(breadcrumb(seq![nodes[top[k]].heading->0])),
                markdown: render(nodes, top[k]),
            },
        );
    }
    if is_title && 0 <= k < first.children.len() && render(nodes, first.children[k]).len() <= max {
        let child = first.children[k];
        assert(0 < child < nodes.len());
        assert(section_ok(nodes, child));
        let path = seq![first.heading->0];
        lemma_emitted(nodes, first.children, path, max, overlap, k);
        assert(path.push(nodes[child].heading->0) =~= seq![
            first.heading->0,
            nodes[child].heading->0,
        ]);
        lemma_behind(
            own_chunks(first, Some(breadcrumb(path)), max, overlap),
            emit_all(nodes, first.children, path, max, overlap),
            Chunk {
                heading: Some(breadcrumb(seq![first.heading->0, nodes[child].heading->0])),
                markdown: render(nodes, child),
            },
        );
    }
}

/// Titles are compared by their letters and digits, in lower case; other characters do not
/// count.
pub proof fn lemma_titles_are_compared_by_letters_and_digits(a: Seq<char>, b: Seq<char>, c: char)
    ensures
        folded(a + b) == folded(a) + folded(b),
        is_letter_or_digit(c) ==> folded(seq![c]) == lower_of_char(c),
        !is_letter_or_digit(c) ==> folded(seq![c]).len() == 0,
    decreases b.len(),
{
    assert(seq![c].drop_last() =~= Seq::<char>::empty());
    assert(folded(Seq::empty()) =~= Seq::empty());
    if is_letter_or_digit(c) {
        assert(folded(seq![c]) =~= lower_of_char(c));
    }
    if b.len() == 0 {
        assert(a + b =~= a);
        assert(folded(a + b) =~= folded(a) + folded(b));
    } else {
        lemma_titles_are_compared_by_letters_and_digits(a, b.drop_last(), c);
        assert((a + b).drop_last() =~= a + b.drop_last());
        assert(folded(a + b) =~= folded(a) + folded(b));
    }
}

proof fn lemma_join_grows(parts: Seq<Seq<char>>, sep: Seq<char>)
    requires
        parts.len() > 0,
    ensures
        join(parts.drop_last(), sep).len() <= join(parts, sep).len(),
        parts.last().len() <= join(parts, sep).len(),
{
    let front = parts.drop_last();
    lemma_joining_one_more(front, parts.last(), sep);
    assert(front.push(parts.last()) =~= parts);
    if front.len() == 0 {
        assert(front =~= Seq::empty());
    }
}

proof fn lemma_gathered(
    nodes: Seq<Section>,
    id: int,
    path: Seq<Heading>,
    n: nat,
    max: nat,
    overlap: nat,
)
    requires
        tree_ok(nodes),
        0 <= id < nodes.len(),
        n <= nodes[id].children.len(),
        forall|k: int| 0 <= k < n ==> (#[trigger] child_texts(nodes, id, n)[k]).len() > 0,
        join(child_texts(nodes, id, n), "\n\n"@).len() <= max,
    ensures
        ({
            let group = emit_children(nodes, id, path, n, max, overlap);
            &&& group.done.len() == 0
            &&& group.members.len() == n
            &&& group.text == join(child_texts(nodes, id, n), "\n\n"@)
            &&& n == 1 ==> group.members[0] == nodes[id].children[0]
        }),
    decreases n,
{
    let sep = "\n\n"@;
    let texts = child_texts(nodes, id, n);
    if n == 0 {
        lemma_joining_one_more(texts, Seq::empty(), sep);
        assert(texts =~= Seq::empty());
        assert(join(texts, sep) =~= Seq::empty());
    } else {
        let m = (n - 1) as nat;
        let front = child_texts(nodes, id, m);
        lemma_child_texts_len(nodes, id, n);
        lemma_child_texts_len(nodes, id, m);
        assert(children_ok(nodes, id));
        let child = nodes[id].children[n - 1];
        assert(id < child < nodes.len());
        let text = render(nodes, child);
        assert(texts == front.push(text));
        assert(texts.drop_last() =~= front);
        assert forall|k: int| 0 <= k < m implies (#[trigger] front[k]).len() > 0 by {
            assert(texts[k] == front[k]);
        }
        lemma_join_grows(texts, sep);
        lemma_gathered(nodes, id, path, m, max, overlap);
        lemma_joining_one_more(front, text, sep);
        let before = emit_children(nodes, id, path, m, max, overlap);
        if m == 0 {
            assert(front =~= Seq::empty());
            assert(before.text.len() == 0);
        } else {
            assert(front.len() > 0);
            assert(front[m - 1].len() > 0);
            lemma_join_grows(front, sep);
            assert(before.text.len() > 0);
        }
        assert(gathered_with(before.text, text) == join(texts, sep));
    }
}

/// Sections that fit together are one chunk: of a section that is too large, its own blocks
/// come first, and then all the sections in it, with an empty line between them.
pub proof fn lemma_sections_that_fit_together_are_one_chunk(
    nodes: Seq<Section>,
    id: int,
    ancestors: Seq<Heading>,
    max: nat,
    overlap: nat,
)
    requires
        tree_ok(nodes),
        0 <= id < nodes.len(),
        nodes[id].children.len() > 0,
        render(nodes, id).len() > max,
        ({
            let texts = child_texts(nodes, id, nodes[id].children.len());
            &&& forall|k: int| 0 <= k < texts.len() ==> (#[trigger] texts[k]).len() > 0
            &&& join(texts, "\n\n"@).len() <= max
        }),
    ensures
        ({
            let path = path_to(nodes, id, ancestors);
            let chunks = emit(nodes, id, ancestors, max, overlap);
            let own = own_chunks(nodes[id], Some(breadcrumb(path)), max, overlap);
            &&& chunks.len() == own.len() + 1
            &&& chunks.drop_last() == own
            &&& chunks.last().markdown == join(
                child_texts(nodes, id, nodes[id].children.len()),
                "\n\n"@,
            )
        }),
{
    let path = path_to(nodes, id, ancestors);
    let n = nodes[id].children.len();
    lemma_child_texts_len(nodes, id, n);
    lemma_gathered(nodes, id, path, n, max, overlap);
    let own = own_chunks(nodes[id], Some(breadcrumb(path)), max, overlap);
    let group = emit_children(nodes, id, path, n, max, overlap);
    let last = close_group(nodes, path, group);
    assert(last.len() == 1);
    let chunks = emit(nodes, id, ancestors, max, overlap);
    assert(chunks =~= own + last);
    assert(chunks.drop_last() =~= own);
    assert(chunks.last() == last[0]);
}

proof fn lemma_something_stays_open(
    units: Seq<Seq<char>>,
    heading: Option<Seq<char>>,
    max: nat,
    overlap: nat,
)
    requires
        units.len() > 0,
    ensures
        closed(pack_units(units, heading, max, overlap), heading).len() > 0,
{
}

/// A note that says anything has a chunk.
pub proof fn lemma_whatever_says_anything_is_cut(
    markdown: Seq<char>,
    title: Seq<char>,
    max: nat,
    overlap: nat,
)
    requires
        trim(unix_newlines(markdown)).len() > 0,
    ensures
        chunk_model(markdown, title, max, overlap).len() > 0,
{
    let said = trim(unix_newlines(markdown));
    lemma_cut_is_not_empty(said, max);
    assert(seq![said].drop_last() =~= Seq::<Seq<char>>::empty());
    let units = units_of(seq![said], max);
    assert(units.len() > 0);
    lemma_something_stays_open(units, None, max, overlap);
}

} // verus!
