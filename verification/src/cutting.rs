//! How a note is cut into chunks: each chunk is a run of pieces of the note, in the order in
//! which they are written, under the headings that lead to them; and all the pieces that
//! hold text are there.
use crate::chunker::{
    chunk_model, close_group, emit, emit_all, emit_children, gathered_with, is_title_wrapped,
    own_chunks, path_to, tree_chunks, Grouping,
};
use crate::coverage::{
    blocks_ok, has_ink, is_under, lemma_add_block_has_ink, lemma_all_under_root,
    lemma_blocks_have_ink, lemma_child_on_the_way, lemma_child_text, lemma_child_texts_len,
    lemma_contains_ink, lemma_cut_is_not_empty, lemma_render_holds, lemma_trim,
};
use crate::headings::{breadcrumb, heading_of, heading_texts, Heading};
use crate::lines::{join, lines, trim, unix_newlines};
use crate::packing::{
    carried, lemma_carried_is_whole_blocks, pack, pack_units, paragraphs, split_block, units_of,
    Chunk,
};
use crate::sections::{
    add_block, child_texts, children_ok, heading_line, lemma_enclosing, lemma_read_lines_ok,
    lemma_section_tree_ok, level_of, open_section, own_parts, read_lines, render, section_ok,
    section_tree, tree_ok, visible, Section,
};
use crate::text::{contains, is_white_space, occurs_at};
use vstd::prelude::*;

verus! {

// ---------------------------------------------------------------------------
// Pieces of a note
// ---------------------------------------------------------------------------

/// A piece of a note: the heading line of a section, at place 0, or one of the pieces that
/// its blocks are cut into, at the places behind it.
pub struct Item {
    pub section: int,
    pub place: nat,
}

/// What a piece says.
pub open spec fn item_text(nodes: Seq<Section>, max: nat, item: Item) -> Seq<char> {
    let section = nodes[item.section];
    if item.place == 0 {
        Seq::new(section.heading->0.level, |i: int| '#') + seq![' '] + section.heading->0.text
    } else {
        units_of(section.blocks, max)[item.place - 1]
    }
}

/// Whether a note has this piece.
pub open spec fn is_item(nodes: Seq<Section>, max: nat, item: Item) -> bool {
    &&& 0 <= item.section < nodes.len()
    &&& item.place == 0 ==> nodes[item.section].heading is Some
    &&& item.place <= units_of(nodes[item.section].blocks, max).len()
}

/// What these pieces say.
pub open spec fn item_texts(nodes: Seq<Section>, max: nat, items: Seq<Item>) -> Seq<Seq<char>> {
    items.map_values(|item: Item| item_text(nodes, max, item))
}

/// Whether a piece is written before another.
pub open spec fn comes_first(a: Item, b: Item) -> bool {
    a.section < b.section || (a.section == b.section && a.place < b.place)
}

/// The texts of the headings that lead to a section, from the outermost to its own.
pub open spec fn trail(nodes: Seq<Section>, id: int) -> Seq<char>
    decreases id,
{
    let own = nodes[id].heading->0.text;
    match nodes[id].parent {
        Some(p) if 0 < p < id => trail(nodes, p) + " > "@ + own,
        _ => own,
    }
}

/// Whether a heading is that of these pieces: none for what stands before the first heading,
/// and for anything else the trail of a section that encloses all of them.
pub open spec fn is_labelled(
    nodes: Seq<Section>,
    heading: Option<Seq<char>>,
    items: Seq<Item>,
) -> bool {
    match heading {
        None => forall|k: int| 0 <= k < items.len() ==> (#[trigger] items[k]).section == 0,
        Some(said) => exists|id: int|
            1 <= id < nodes.len() && said == #[trigger] trail(nodes, id) && forall|k: int|
                0 <= k < items.len() ==> is_under(nodes, id, (#[trigger] items[k]).section),
    }
}

/// Whether a chunk is made of these pieces: it says what they say, with an empty line between
/// each two, in the order in which they are written, under their heading.
pub open spec fn is_made_of(
    nodes: Seq<Section>,
    max: nat,
    chunk: Chunk,
    items: Seq<Item>,
) -> bool {
    &&& items.len() > 0
    &&& forall|k: int| 0 <= k < items.len() ==> is_item(nodes, max, #[trigger] items[k])
    &&& forall|j: int, k: int|
        0 <= j < k < items.len() ==> comes_first(#[trigger] items[j], #[trigger] items[k])
    &&& chunk.markdown == join(item_texts(nodes, max, items), "\n\n"@)
    &&& is_labelled(nodes, chunk.heading, items)
}

/// Whether the chunks are made of these pieces, each of its own. Each chunk goes further than
/// those before it, and where nothing is to overlap, it begins behind them.
pub open spec fn is_cut(
    nodes: Seq<Section>,
    max: nat,
    overlap: nat,
    chunks: Seq<Chunk>,
    cut: Seq<Seq<Item>>,
) -> bool {
    &&& chunks.len() == cut.len()
    &&& forall|i: int| 0 <= i < cut.len() ==> is_made_of(nodes, max, chunks[i], #[trigger] cut[i])
    &&& forall|i: int, j: int|
        0 <= i < j < cut.len() ==> comes_first(
            (#[trigger] cut[i]).last(),
            (#[trigger] cut[j]).last(),
        )
    &&& overlap == 0 ==> forall|i: int, j: int|
        0 <= i < j < cut.len() ==> comes_first((#[trigger] cut[i]).last(), (#[trigger] cut[j])[0])
}

/// Whether one of the chunks has this piece.
pub open spec fn has_item(cut: Seq<Seq<Item>>, item: Item) -> bool {
    exists|i: int| 0 <= i < cut.len() && (#[trigger] cut[i]).contains(item)
}

// ---------------------------------------------------------------------------
// Joining
// ---------------------------------------------------------------------------

proof fn lemma_join_both(a: Seq<Seq<char>>, b: Seq<Seq<char>>, sep: Seq<char>)
    ensures
        a.len() > 0 && b.len() > 0 ==> join(a + b, sep) == join(a, sep) + sep + join(b, sep),
        a.len() == 0 ==> join(a + b, sep) == join(b, sep),
        b.len() == 0 ==> join(a + b, sep) == join(a, sep),
    decreases b.len(),
{
    if b.len() == 0 {
        assert(a + b =~= a);
    } else if a.len() == 0 {
        assert(a + b =~= b);
    } else {
        assert((a + b).drop_last() =~= a + b.drop_last());
        assert((a + b).last() == b.last());
        lemma_join_both(a, b.drop_last(), sep);
        if b.len() == 1 {
            assert(a + b.drop_last() =~= a);
            assert(b[0] == b.last());
        } else {
            assert(join(a, sep) + sep + join(b.drop_last(), sep) + sep + b.last() =~= join(a, sep)
                + sep + join(b, sep));
        }
    }
}

proof fn lemma_join_flat(a: Seq<Seq<char>>, b: Seq<Seq<char>>, sep: Seq<char>)
    requires
        b.len() > 0,
    ensures
        join(a.push(join(b, sep)), sep) == join(a + b, sep),
{
    let one = seq![join(b, sep)];
    assert(a.push(join(b, sep)) =~= a + one);
    lemma_join_both(a, one, sep);
    lemma_join_both(a, b, sep);
}

proof fn lemma_texts_of_both(nodes: Seq<Section>, max: nat, a: Seq<Item>, b: Seq<Item>)
    ensures
        item_texts(nodes, max, a + b) == item_texts(nodes, max, a) + item_texts(nodes, max, b),
{
    assert(item_texts(nodes, max, a + b) =~= item_texts(nodes, max, a) + item_texts(
        nodes,
        max,
        b,
    ));
}

// ---------------------------------------------------------------------------
// The way to a section
// ---------------------------------------------------------------------------

/// The headings that lead to a section, itself last.
spec fn way(nodes: Seq<Section>, id: int) -> Seq<Heading>
    decreases id,
{
    if id <= 0 {
        Seq::empty()
    } else {
        match nodes[id].parent {
            Some(p) if 0 <= p < id => way(nodes, p).push(nodes[id].heading->0),
            _ => Seq::empty(),
        }
    }
}

proof fn lemma_way_reads_as_trail(nodes: Seq<Section>, id: int)
    requires
        tree_ok(nodes),
        1 <= id < nodes.len(),
    ensures
        breadcrumb(way(nodes, id)) == trail(nodes, id),
        way(nodes, id).len() > 0,
    decreases id,
{
    assert(section_ok(nodes, id));
    let p = nodes[id].parent->0;
    let said = heading_texts(way(nodes, id));
    assert(said =~= heading_texts(way(nodes, p)).push(nodes[id].heading->0.text));
    assert(said.drop_last() =~= heading_texts(way(nodes, p)));
    if p == 0 {
        assert(way(nodes, p).len() == 0);
        assert(said.len() == 1);
    } else {
        lemma_way_reads_as_trail(nodes, p);
        assert(said.len() > 1);
    }
}

proof fn lemma_way_goes_on(nodes: Seq<Section>, id: int)
    requires
        tree_ok(nodes),
        1 <= id < nodes.len(),
    ensures
        path_to(nodes, id, way(nodes, nodes[id].parent->0)) == way(nodes, id),
{
    assert(section_ok(nodes, id));
}

proof fn lemma_under_is_behind(nodes: Seq<Section>, id: int, d: int)
    requires
        is_under(nodes, id, d),
        0 <= id,
    ensures
        id <= d,
    decreases d,
{
    if d != id {
        lemma_under_is_behind(nodes, id, nodes[d].parent->0);
    }
}

proof fn lemma_under_under(nodes: Seq<Section>, a: int, b: int, d: int)
    requires
        is_under(nodes, a, b),
        is_under(nodes, b, d),
    ensures
        is_under(nodes, a, d),
    decreases d,
{
    if d != b {
        lemma_under_under(nodes, a, b, nodes[d].parent->0);
    }
}

proof fn lemma_child_is_under(nodes: Seq<Section>, id: int, k: int)
    requires
        tree_ok(nodes),
        0 <= id < nodes.len(),
        0 <= k < nodes[id].children.len(),
    ensures
        is_under(nodes, id, nodes[id].children[k]),
        id < nodes[id].children[k] < nodes.len(),
        nodes[nodes[id].children[k]].parent == Some(id),
{
    assert(children_ok(nodes, id));
    let child = nodes[id].children[k];
    assert(id < child < nodes.len());
    assert(is_under(nodes, id, id));
}

/// What lies in a section stands before the next section beside it.
proof fn lemma_siblings_stand_apart(nodes: Seq<Section>, id: int, i: int, j: int, d: int)
    requires
        tree_ok(nodes),
        0 <= id < nodes.len(),
        0 <= i < j < nodes[id].children.len(),
        is_under(nodes, nodes[id].children[i], d),
        0 <= d < nodes.len(),
    ensures
        d < nodes[id].children[j],
    decreases d,
{
    let a = nodes[id].children[i];
    let b = nodes[id].children[j];
    assert(children_ok(nodes, id));
    assert(a < b);
    lemma_child_is_under(nodes, id, i);
    lemma_child_is_under(nodes, id, j);
    if d != a {
        let p = nodes[d].parent->0;
        lemma_siblings_stand_apart(nodes, id, i, j, p);
        lemma_under_is_behind(nodes, a, p);
        assert(section_ok(nodes, d));
        assert(section_ok(nodes, b));
        if d > b {
            assert(level_of(nodes[b]) >= level_of(nodes[d]));
            assert(level_of(nodes[p]) >= level_of(nodes[b]));
        }
    }
}

// ---------------------------------------------------------------------------
// The blocks of one section
// ---------------------------------------------------------------------------

/// Some pieces of one section that follow each other.
spec fn run(id: int, from: int, to: int) -> Seq<Item> {
    Seq::new((to - from) as nat, |k: int| Item { section: id, place: (from + k + 1) as nat })
}

/// Whether a heading is that of a section.
spec fn names(nodes: Seq<Section>, heading: Option<Seq<char>>, id: int) -> bool {
    if id == 0 {
        heading is None
    } else {
        heading == Some(trail(nodes, id))
    }
}

proof fn lemma_run_is_a_chunk(
    nodes: Seq<Section>,
    max: nat,
    id: int,
    from: int,
    to: int,
    heading: Option<Seq<char>>,
)
    requires
        0 <= id < nodes.len(),
        0 <= from < to <= units_of(nodes[id].blocks, max).len(),
        names(nodes, heading, id),
    ensures
        is_made_of(
            nodes,
            max,
            Chunk {
                heading,
                markdown: paragraphs(units_of(nodes[id].blocks, max).subrange(from, to)),
            },
            run(id, from, to),
        ),
{
    let items = run(id, from, to);
    assert(item_texts(nodes, max, items) =~= units_of(nodes[id].blocks, max).subrange(from, to));
    if id != 0 {
        assert forall|k: int| 0 <= k < items.len() implies is_under(
            nodes,
            id,
            (#[trigger] items[k]).section,
        ) by {}
        assert(heading == Some(trail(nodes, id)));
    }
}

/// Whether all these pieces belong to one section.
spec fn all_in(cut: Seq<Seq<Item>>, id: int) -> bool {
    forall|i: int, k: int|
        0 <= i < cut.len() && 0 <= k < cut[i].len() ==> (#[trigger] cut[i][k]).section == id
}

#[verifier::spinoff_prover]
proof fn lemma_units_are_cut(
    nodes: Seq<Section>,
    id: int,
    heading: Option<Seq<char>>,
    max: nat,
    overlap: nat,
    n: int,
) -> (r: (Seq<Seq<Item>>, int))
    requires
        0 <= id < nodes.len(),
        names(nodes, heading, id),
        0 <= n <= units_of(nodes[id].blocks, max).len(),
    ensures
        ({
            let units = units_of(nodes[id].blocks, max);
            let packing = pack_units(units.take(n), heading, max, overlap);
            let (cut, from) = r;
            &&& 0 <= from <= n && (n > 0 ==> from < n)
            &&& packing.open == units.subrange(from, n)
            &&& is_cut(nodes, max, overlap, packing.done, cut)
            &&& all_in(cut, id)
            &&& forall|i: int|
                0 <= i < cut.len() ==> (#[trigger] cut[i]).last().place < n && (overlap == 0
                    ==> cut[i].last().place <= from)
            &&& forall|item: Item|
                item.section == id && 1 <= item.place <= from ==> #[trigger] has_item(cut, item)
        }),
    decreases n,
{
    let units = units_of(nodes[id].blocks, max);
    if n == 0 {
        assert(units.take(0) =~= Seq::<Seq<char>>::empty());
        assert(units.subrange(0, 0) =~= Seq::<Seq<char>>::empty());
        (Seq::empty(), 0)
    } else {
        let (cut, from) = lemma_units_are_cut(nodes, id, heading, max, overlap, n - 1);
        assert(units.take(n).drop_last() =~= units.take(n - 1));
        let before = pack_units(units.take(n - 1), heading, max, overlap);
        let packing = pack_units(units.take(n), heading, max, overlap);
        let unit = units[n - 1];
        if paragraphs(before.open.push(unit)).len() <= max {
            assert(packing.open =~= units.subrange(from, n));
            (cut, from)
        } else {
            let kept = carried(before.open, overlap);
            lemma_carried_is_whole_blocks(before.open, overlap);
            let next = if paragraphs(kept.push(unit)).len() > max {
                n - 1
            } else {
                n - 1 - kept.len()
            };
            assert(packing.open =~= units.subrange(next, n));
            if n - 1 == 0 {
                assert(before.open.len() == 0);
                (cut, next)
            } else {
                let items = run(id, from, n - 1);
                lemma_run_is_a_chunk(nodes, max, id, from, n - 1, heading);
                let more = cut.push(items);
                assert(items.last().place == n - 1);
                assert(items[0].place == from + 1);
                assert forall|i: int, j: int| 0 <= i < j < more.len() implies comes_first(
                    (#[trigger] more[i]).last(),
                    (#[trigger] more[j]).last(),
                ) by {
                    assert(more[i] == cut[i]);
                    assert(is_made_of(nodes, max, before.done[i], cut[i]));
                    assert(cut[i][cut[i].len() - 1].section == id);
                    if j < cut.len() {
                        assert(more[j] == cut[j]);
                    }
                }
                if overlap == 0 {
                    assert forall|i: int, j: int| 0 <= i < j < more.len() implies comes_first(
                        (#[trigger] more[i]).last(),
                        (#[trigger] more[j])[0],
                    ) by {
                        assert(more[i] == cut[i]);
                        assert(is_made_of(nodes, max, before.done[i], cut[i]));
                        assert(cut[i][cut[i].len() - 1].section == id);
                        if j < cut.len() {
                            assert(more[j] == cut[j]);
                        }
                    }
                }
                assert forall|i: int| 0 <= i < more.len() implies is_made_of(
                    nodes,
                    max,
                    packing.done[i],
                    #[trigger] more[i],
                ) by {
                    if i < cut.len() {
                        assert(more[i] == cut[i]);
                        assert(packing.done[i] == before.done[i]);
                    }
                }
                assert forall|i: int| 0 <= i < more.len() implies (#[trigger] more[i]).last().place
                    < n && (overlap == 0 ==> more[i].last().place <= next) by {
                    if i < cut.len() {
                        assert(more[i] == cut[i]);
                    }
                }
                assert forall|i: int, k: int|
                    0 <= i < more.len() && 0 <= k < more[i].len() implies (
                #[trigger] more[i][k]).section == id by {
                    if i < cut.len() {
                        assert(more[i][k] == cut[i][k]);
                    }
                }
                assert forall|item: Item|
                    item.section == id && 1 <= item.place <= next implies #[trigger] has_item(
                    more,
                    item,
                ) by {
                    let m = item.place as int;
                    if m <= from {
                        assert(has_item(cut, item));
                        let i = choose|i: int|
                            0 <= i < cut.len() && (#[trigger] cut[i]).contains(item);
                        assert(more[i] == cut[i]);
                    } else {
                        assert(items[m - from - 1] == item);
                        assert(more[cut.len() as int].contains(item));
                    }
                }
                (more, next)
            }
        }
    }
}

proof fn lemma_blocks_are_cut(
    nodes: Seq<Section>,
    id: int,
    heading: Option<Seq<char>>,
    max: nat,
    overlap: nat,
) -> (cut: Seq<Seq<Item>>)
    requires
        0 <= id < nodes.len(),
        names(nodes, heading, id),
    ensures
        is_cut(nodes, max, overlap, own_chunks(nodes[id], heading, max, overlap), cut),
        all_in(cut, id),
        forall|item: Item|
            item.section == id && 1 <= item.place <= units_of(nodes[id].blocks, max).len()
                ==> #[trigger] has_item(cut, item),
{
    let units = units_of(nodes[id].blocks, max);
    let n = units.len() as int;
    if nodes[id].blocks.len() == 0 {
        Seq::empty()
    } else {
        let (cut, from) = lemma_units_are_cut(nodes, id, heading, max, overlap, n);
        assert(units.take(n) =~= units);
        let packing = pack_units(units, heading, max, overlap);
        let chunks = pack(nodes[id].blocks, heading, max, overlap);
        if n == 0 {
            assert(chunks == packing.done);
            cut
        } else {
            let items = run(id, from, n);
            lemma_run_is_a_chunk(nodes, max, id, from, n, heading);
            let more = cut.push(items);
            assert(items.last().place == n);
            assert forall|i: int| 0 <= i < more.len() implies is_made_of(
                nodes,
                max,
                chunks[i],
                #[trigger] more[i],
            ) by {
                if i < cut.len() {
                    assert(more[i] == cut[i]);
                    assert(chunks[i] == packing.done[i]);
                }
            }
            assert forall|i: int, j: int| 0 <= i < j < more.len() implies comes_first(
                (#[trigger] more[i]).last(),
                (#[trigger] more[j]).last(),
            ) by {
                assert(more[i] == cut[i]);
                assert(is_made_of(nodes, max, packing.done[i], cut[i]));
                assert(cut[i][cut[i].len() - 1].section == id);
                if j < cut.len() {
                    assert(more[j] == cut[j]);
                }
            }
            if overlap == 0 {
                assert forall|i: int, j: int| 0 <= i < j < more.len() implies comes_first(
                    (#[trigger] more[i]).last(),
                    (#[trigger] more[j])[0],
                ) by {
                    assert(more[i] == cut[i]);
                    assert(is_made_of(nodes, max, packing.done[i], cut[i]));
                    assert(cut[i][cut[i].len() - 1].section == id);
                    if j < cut.len() {
                        assert(more[j] == cut[j]);
                    }
                }
            }
            assert forall|i: int, k: int|
                0 <= i < more.len() && 0 <= k < more[i].len() implies (#[trigger] more[i][k]).section
                == id by {
                if i < cut.len() {
                    assert(more[i][k] == cut[i][k]);
                }
            }
            assert forall|item: Item|
                item.section == id && 1 <= item.place <= n implies #[trigger] has_item(
                more,
                item,
            ) by {
                let m = item.place as int;
                if m <= from {
                    assert(has_item(cut, item));
                    let i = choose|i: int| 0 <= i < cut.len() && (#[trigger] cut[i]).contains(item);
                    assert(more[i] == cut[i]);
                } else {
                    assert(items[m - from - 1] == item);
                    assert(more[cut.len() as int].contains(item));
                }
            }
            more
        }
    }
}

// ---------------------------------------------------------------------------
// A section as a whole
// ---------------------------------------------------------------------------

/// Whether every heading has a level.
spec fn levels_ok(nodes: Seq<Section>) -> bool {
    forall|n: int|
        0 <= n < nodes.len() ==> ((#[trigger] nodes[n]).heading matches Some(heading)
            ==> heading.level >= 1)
}

/// What holds of the sections of a note.
spec fn is_note(nodes: Seq<Section>) -> bool {
    tree_ok(nodes) && blocks_ok(nodes) && levels_ok(nodes)
}

proof fn lemma_heading_has_ink(heading: Heading)
    requires
        heading.level >= 1,
    ensures
        has_ink(heading_line(heading)),
{
    let line = heading_line(heading);
    assert(line[0] == '#');
    assert(!is_white_space('#'));
}

proof fn lemma_render_has_ink(nodes: Seq<Section>, id: int)
    requires
        is_note(nodes),
        1 <= id < nodes.len(),
    ensures
        has_ink(render(nodes, id)),
        render(nodes, id).len() > 0,
{
    assert(section_ok(nodes, id));
    let line = heading_line(nodes[id].heading->0);
    lemma_heading_has_ink(nodes[id].heading->0);
    let parts = own_parts(nodes[id]) + child_texts(nodes, id, nodes[id].children.len());
    assert(parts[0] == line);
    let ends = lemma_trim(line);
    crate::coverage::lemma_visible(parts, 0);
    let k = visible(parts).index_of(line);
    crate::coverage::lemma_join_contains(visible(parts), "\n\n"@, k);
    lemma_contains_ink(render(nodes, id), line);
}

proof fn lemma_all_visible(parts: Seq<Seq<char>>)
    requires
        forall|k: int| 0 <= k < parts.len() ==> has_ink(#[trigger] parts[k]),
    ensures
        visible(parts) == parts,
    decreases parts.len(),
{
    if parts.len() > 0 {
        let front = parts.drop_last();
        assert forall|k: int| 0 <= k < front.len() implies has_ink(#[trigger] front[k]) by {
            assert(front[k] == parts[k]);
        }
        lemma_all_visible(front);
        assert(has_ink(parts[parts.len() - 1]));
        let ends = lemma_trim(parts.last());
        assert(front.push(parts.last()) =~= parts);
    }
}

/// The parts of a section are all visible.
proof fn lemma_parts_of_a_section(nodes: Seq<Section>, id: int)
    requires
        is_note(nodes),
        1 <= id < nodes.len(),
    ensures
        render(nodes, id) == join(
            own_parts(nodes[id]) + child_texts(nodes, id, nodes[id].children.len()),
            "\n\n"@,
        ),
{
    assert(section_ok(nodes, id));
    let own = own_parts(nodes[id]);
    let n = nodes[id].children.len();
    let inner = child_texts(nodes, id, n);
    let parts = own + inner;
    lemma_child_texts_len(nodes, id, n);
    assert forall|k: int| 0 <= k < parts.len() implies has_ink(#[trigger] parts[k]) by {
        if k == 0 {
            lemma_heading_has_ink(nodes[id].heading->0);
        } else if k < own.len() {
            assert(parts[k] == nodes[id].blocks[k - 1]);
        } else {
            lemma_child_text(nodes, id, n, k - own.len());
            lemma_child_is_under(nodes, id, k - own.len());
            lemma_render_has_ink(nodes, nodes[id].children[k - own.len()]);
        }
    }
    lemma_all_visible(parts);
}

proof fn lemma_contains_is_no_longer(s: Seq<char>, t: Seq<char>)
    requires
        contains(s, t),
    ensures
        t.len() <= s.len(),
{
    let at = choose|at: int| occurs_at(s, t, at);
}

/// In a section that fits, its own blocks and the sections in it fit.
proof fn lemma_fitting_section(nodes: Seq<Section>, id: int, max: nat)
    requires
        is_note(nodes),
        1 <= id < nodes.len(),
        render(nodes, id).len() <= max,
    ensures
        units_of(nodes[id].blocks, max) == nodes[id].blocks,
        forall|k: int|
            0 <= k < nodes[id].children.len() ==> render(
                nodes,
                #[trigger] nodes[id].children[k],
            ).len() <= max,
{
    let n = nodes[id].children.len();
    assert forall|b: int| 0 <= b < nodes[id].blocks.len() implies (
    #[trigger] nodes[id].blocks[b]).len() <= max by {
        assert(is_under(nodes, id, id));
        lemma_render_holds(nodes, id, id, b);
        lemma_contains_is_no_longer(render(nodes, id), nodes[id].blocks[b]);
    }
    lemma_whole_units(nodes[id].blocks, max);
    lemma_parts_of_a_section(nodes, id);
    let own = own_parts(nodes[id]);
    let parts = own + child_texts(nodes, id, n);
    lemma_child_texts_len(nodes, id, n);
    assert forall|k: int| 0 <= k < n implies render(
        nodes,
        #[trigger] nodes[id].children[k],
    ).len() <= max by {
        lemma_child_text(nodes, id, n, k);
        assert(parts[own.len() + k] == render(nodes, nodes[id].children[k]));
        crate::coverage::lemma_join_contains(parts, "\n\n"@, own.len() + k);
        lemma_contains_is_no_longer(render(nodes, id), render(nodes, nodes[id].children[k]));
    }
}

proof fn lemma_whole_units(blocks: Seq<Seq<char>>, max: nat)
    requires
        forall|b: int| 0 <= b < blocks.len() ==> (#[trigger] blocks[b]).len() <= max,
    ensures
        units_of(blocks, max) == blocks,
    decreases blocks.len(),
{
    if blocks.len() > 0 {
        let front = blocks.drop_last();
        assert forall|b: int| 0 <= b < front.len() implies (#[trigger] front[b]).len() <= max by {
            assert(front[b] == blocks[b]);
        }
        lemma_whole_units(front, max);
        assert(blocks[blocks.len() - 1].len() <= max);
        assert(split_block(blocks.last(), max) == seq![blocks.last()]);
        assert(front + seq![blocks.last()] =~= blocks);
    }
}

/// Whether these pieces stand in a section, in their order.
spec fn is_inside(nodes: Seq<Section>, max: nat, id: int, items: Seq<Item>) -> bool {
    &&& forall|k: int|
        0 <= k < items.len() ==> is_item(nodes, max, #[trigger] items[k]) && is_under(
            nodes,
            id,
            items[k].section,
        )
    &&& forall|j: int, k: int|
        0 <= j < k < items.len() ==> comes_first(#[trigger] items[j], #[trigger] items[k])
}

/// Whether a piece of text stands in a section.
spec fn is_text_in(nodes: Seq<Section>, max: nat, id: int, item: Item) -> bool {
    is_item(nodes, max, item) && item.place >= 1 && is_under(nodes, id, item.section)
}

proof fn lemma_whole_section(nodes: Seq<Section>, id: int, max: nat) -> (items: Seq<Item>)
    requires
        is_note(nodes),
        1 <= id < nodes.len(),
        render(nodes, id).len() <= max,
    ensures
        items.len() > 0,
        is_inside(nodes, max, id, items),
        render(nodes, id) == join(item_texts(nodes, max, items), "\n\n"@),
        forall|item: Item| #[trigger]
            is_text_in(nodes, max, id, item) ==> items.contains(item),
    decreases nodes.len() - id, nodes[id].children.len() + 1,
{
    lemma_fitting_section(nodes, id, max);
    lemma_parts_of_a_section(nodes, id);
    let n = nodes[id].children.len();
    let items = lemma_first_children(nodes, id, max, n);
    assert forall|item: Item| #[trigger] is_text_in(nodes, max, id, item) implies items.contains(
        item,
    ) by {
        if item.section != id {
            let k = lemma_child_on_the_way(nodes, id, item.section);
            assert(is_text_in(nodes, max, nodes[id].children[k], item));
        }
    }
    items
}

#[verifier::spinoff_prover]
proof fn lemma_first_children(nodes: Seq<Section>, id: int, max: nat, n: nat) -> (items: Seq<Item>)
    requires
        is_note(nodes),
        1 <= id < nodes.len(),
        units_of(nodes[id].blocks, max) == nodes[id].blocks,
        n <= nodes[id].children.len(),
        forall|k: int|
            0 <= k < nodes[id].children.len() ==> render(
                nodes,
                #[trigger] nodes[id].children[k],
            ).len() <= max,
    ensures
        items.len() > 0,
        is_inside(nodes, max, id, items),
        join(own_parts(nodes[id]) + child_texts(nodes, id, n), "\n\n"@) == join(
            item_texts(nodes, max, items),
            "\n\n"@,
        ),
        n < nodes[id].children.len() ==> forall|k: int|
            0 <= k < items.len() ==> (#[trigger] items[k]).section < nodes[id].children[n as int],
        forall|item: Item|
            item.section == id && 1 <= item.place <= nodes[id].blocks.len()
                ==> #[trigger] items.contains(item),
        forall|c: int, item: Item|
            0 <= c < n && #[trigger] is_text_in(nodes, max, nodes[id].children[c], item)
                ==> items.contains(item),
    decreases nodes.len() - id, n,
{
    assert(section_ok(nodes, id));
    assert(children_ok(nodes, id));
    let own = own_parts(nodes[id]);
    let sep = "\n\n"@;
    if n == 0 {
        let count = nodes[id].blocks.len();
        let items = Seq::new(count + 1, |k: int| Item { section: id, place: k as nat });
        assert(item_texts(nodes, max, items) =~= own) by {
            assert forall|k: int| 0 <= k < items.len() implies item_texts(nodes, max, items)[k]
                == own[k] by {
                if k == 0 {
                    let heading = nodes[id].heading->0;
                    assert(item_text(nodes, max, items[0]) =~= heading_line(heading));
                }
            }
        }
        assert(own + child_texts(nodes, id, 0) =~= own);
        assert forall|k: int| 0 <= k < items.len() implies is_item(nodes, max, #[trigger] items[k])
            && is_under(nodes, id, items[k].section) by {}
        assert forall|item: Item|
            item.section == id && 1 <= item.place <= nodes[id].blocks.len() implies
            #[trigger] items.contains(item) by {
            assert(items[item.place as int] == item);
        }
        items
    } else {
        let front = lemma_first_children(nodes, id, max, (n - 1) as nat);
        let child = nodes[id].children[n - 1];
        lemma_child_is_under(nodes, id, n - 1);
        let more = lemma_whole_section(nodes, child, max);
        let items = front + more;
        lemma_texts_of_both(nodes, max, front, more);
        let before = own + child_texts(nodes, id, (n - 1) as nat);
        assert(own + child_texts(nodes, id, n) =~= before.push(render(nodes, child)));
        lemma_join_flat(before, item_texts(nodes, max, more), sep);
        lemma_join_both(before, item_texts(nodes, max, more), sep);
        lemma_join_both(item_texts(nodes, max, front), item_texts(nodes, max, more), sep);
        assert(before.len() > 0);
        assert forall|k: int| 0 <= k < items.len() implies is_item(nodes, max, #[trigger] items[k])
            && is_under(nodes, id, items[k].section) by {
            if k >= front.len() {
                assert(items[k] == more[k - front.len()]);
                lemma_under_under(nodes, id, child, items[k].section);
            } else {
                assert(items[k] == front[k]);
            }
        }
        assert forall|j: int, k: int| 0 <= j < k < items.len() implies comes_first(
            #[trigger] items[j],
            #[trigger] items[k],
        ) by {
            if k < front.len() {
                assert(items[j] == front[j] && items[k] == front[k]);
            } else if j >= front.len() {
                assert(items[j] == more[j - front.len()] && items[k] == more[k - front.len()]);
            } else {
                assert(items[j] == front[j] && items[k] == more[k - front.len()]);
                lemma_under_is_behind(nodes, child, items[k].section);
            }
        }
        if n < nodes[id].children.len() {
            assert forall|k: int| 0 <= k < items.len() implies (#[trigger] items[k]).section
                < nodes[id].children[n as int] by {
                if k < front.len() {
                    assert(items[k] == front[k]);
                } else {
                    assert(items[k] == more[k - front.len()]);
                    lemma_siblings_stand_apart(nodes, id, n - 1, n as int, items[k].section);
                }
            }
        }
        assert forall|item: Item|
            item.section == id && 1 <= item.place <= nodes[id].blocks.len() implies
            #[trigger] items.contains(item) by {
            assert(front.contains(item));
            assert(items[front.index_of(item)] == item);
        }
        assert forall|c: int, item: Item|
            0 <= c < n && #[trigger] is_text_in(
                nodes,
                max,
                nodes[id].children[c],
                item,
            ) implies items.contains(item) by {
            if c < n - 1 {
                assert(front.contains(item));
                assert(items[front.index_of(item)] == item);
            } else {
                assert(more.contains(item));
                assert(items[front.len() + more.index_of(item)] == item);
            }
        }
        items
    }
}

// ---------------------------------------------------------------------------
// Sections in chunks
// ---------------------------------------------------------------------------

/// Whether all these pieces stand in a section.
spec fn all_under(nodes: Seq<Section>, cut: Seq<Seq<Item>>, id: int) -> bool {
    forall|i: int, k: int|
        0 <= i < cut.len() && 0 <= k < cut[i].len() ==> is_under(
            nodes,
            id,
            (#[trigger] cut[i][k]).section,
        )
}

/// Whether all these pieces stand in the sections from one up to another.
spec fn all_between(cut: Seq<Seq<Item>>, from: int, to: int) -> bool {
    forall|i: int, k: int|
        0 <= i < cut.len() && 0 <= k < cut[i].len() ==> from <= (#[trigger] cut[i][k]).section < to
}

#[verifier::spinoff_prover]
proof fn lemma_cuts_follow(
    nodes: Seq<Section>,
    max: nat,
    overlap: nat,
    chunks: Seq<Chunk>,
    cut: Seq<Seq<Item>>,
    more: Seq<Chunk>,
    rest: Seq<Seq<Item>>,
    from: int,
    mid: int,
    to: int,
)
    requires
        is_cut(nodes, max, overlap, chunks, cut),
        is_cut(nodes, max, overlap, more, rest),
        all_between(cut, from, mid),
        all_between(rest, mid, to),
        from <= mid <= to,
    ensures
        is_cut(nodes, max, overlap, chunks + more, cut + rest),
        all_between(cut + rest, from, to),
{
    let all = chunks + more;
    let both = cut + rest;
    let n = cut.len() as int;
    assert forall|i: int| 0 <= i < both.len() implies is_made_of(
        nodes,
        max,
        all[i],
        #[trigger] both[i],
    ) by {
        if i < n {
            assert(both[i] == cut[i] && all[i] == chunks[i]);
        } else {
            assert(both[i] == rest[i - n] && all[i] == more[i - n]);
        }
    }
    assert forall|i: int, j: int| 0 <= i < j < both.len() implies comes_first(
        (#[trigger] both[i]).last(),
        (#[trigger] both[j]).last(),
    ) && (overlap == 0 ==> comes_first(both[i].last(), both[j][0])) by {
        assert(is_made_of(nodes, max, all[i], both[i]));
        assert(is_made_of(nodes, max, all[j], both[j]));
        if j < n {
            assert(both[i] == cut[i] && both[j] == cut[j]);
        } else if i >= n {
            assert(both[i] == rest[i - n] && both[j] == rest[j - n]);
        } else {
            assert(both[i] == cut[i] && both[j] == rest[j - n]);
            assert(cut[i][cut[i].len() - 1].section < mid);
            assert(rest[j - n][rest[j - n].len() - 1].section >= mid);
            assert(rest[j - n][0].section >= mid);
        }
    }
    assert forall|i: int, k: int| 0 <= i < both.len() && 0 <= k < both[i].len() implies from <= (
    #[trigger] both[i][k]).section < to by {
        if i < n {
            assert(both[i][k] == cut[i][k]);
        } else {
            assert(both[i][k] == rest[i - n][k]);
        }
    }
}

proof fn lemma_has_item_in(a: Seq<Seq<Item>>, b: Seq<Seq<Item>>, item: Item)
    requires
        has_item(a, item) || has_item(b, item),
    ensures
        has_item(a + b, item),
{
    if has_item(a, item) {
        let i = choose|i: int| 0 <= i < a.len() && (#[trigger] a[i]).contains(item);
        assert((a + b)[i] == a[i]);
    } else {
        let i = choose|i: int| 0 <= i < b.len() && (#[trigger] b[i]).contains(item);
        assert((a + b)[a.len() + i] == b[i]);
    }
}

proof fn lemma_under_both(nodes: Seq<Section>, a: Seq<Seq<Item>>, b: Seq<Seq<Item>>, id: int)
    requires
        all_under(nodes, a, id),
        all_under(nodes, b, id),
    ensures
        all_under(nodes, a + b, id),
{
    let both = a + b;
    assert forall|i: int, k: int| 0 <= i < both.len() && 0 <= k < both[i].len() implies is_under(
        nodes,
        id,
        (#[trigger] both[i][k]).section,
    ) by {
        if i < a.len() {
            assert(both[i][k] == a[i][k]);
        } else {
            assert(both[i][k] == b[i - a.len()][k]);
        }
    }
}

/// One chunk that is made of these pieces.
proof fn lemma_one_chunk(
    nodes: Seq<Section>,
    max: nat,
    overlap: nat,
    id: int,
    label: int,
    chunk: Chunk,
    items: Seq<Item>,
)
    requires
        1 <= label < nodes.len(),
        items.len() > 0,
        is_inside(nodes, max, id, items),
        is_inside(nodes, max, label, items),
        chunk.heading == Some(trail(nodes, label)),
        chunk.markdown == join(item_texts(nodes, max, items), "\n\n"@),
    ensures
        is_cut(nodes, max, overlap, seq![chunk], seq![items]),
        all_under(nodes, seq![items], id),
{
    assert(is_labelled(nodes, chunk.heading, items)) by {
        assert forall|k: int| 0 <= k < items.len() implies is_under(
            nodes,
            label,
            (#[trigger] items[k]).section,
        ) by {}
        assert(trail(nodes, label) == chunk.heading->0);
    }
    assert(is_made_of(nodes, max, chunk, items));
}

/// What the chunks of the first sections in a section are made of, and the pieces of the
/// chunk that is still gathered.
spec fn is_grouping(
    nodes: Seq<Section>,
    max: nat,
    overlap: nat,
    id: int,
    n: nat,
    group: Grouping,
    cut: Seq<Seq<Item>>,
    open: Seq<Item>,
) -> bool {
    let end = if n < nodes[id].children.len() {
        nodes[id].children[n as int]
    } else {
        nodes.len() as int
    };
    &&& is_cut(nodes, max, overlap, group.done, cut)
    &&& all_under(nodes, cut, id)
    &&& is_inside(nodes, max, id, open)
    &&& open.len() == 0 <==> group.members.len() == 0
    &&& open.len() == 0 <==> group.text.len() == 0
    &&& open.len() > 0 ==> group.text == join(item_texts(nodes, max, open), "\n\n"@)
    &&& group.members.len() == 1 ==> is_inside(nodes, max, group.members[0], open)
    &&& forall|m: int|
        0 <= m < group.members.len() ==> nodes[id].children.contains(#[trigger] group.members[m])
    &&& forall|k: int|
        0 <= k < open.len() ==> id < (#[trigger] open[k]).section < end
    &&& all_between(cut, id + 1, if open.len() > 0 { open[0].section } else { end })
    &&& forall|c: int, item: Item|
        0 <= c < n && #[trigger] is_text_in(nodes, max, nodes[id].children[c], item) ==> has_item(
            cut,
            item,
        ) || open.contains(item)
}

/// The gathered chunk is one more.
#[verifier::spinoff_prover]
proof fn lemma_group_is_closed(
    nodes: Seq<Section>,
    max: nat,
    overlap: nat,
    id: int,
    n: nat,
    group: Grouping,
    cut: Seq<Seq<Item>>,
    open: Seq<Item>,
) -> (all: Seq<Seq<Item>>)
    requires
        is_note(nodes),
        1 <= id < nodes.len(),
        n <= nodes[id].children.len(),
        is_grouping(nodes, max, overlap, id, n, group, cut, open),
    ensures
        ({
            let end = if n < nodes[id].children.len() {
                nodes[id].children[n as int]
            } else {
                nodes.len() as int
            };
            &&& is_cut(nodes, max, overlap, close_group(nodes, way(nodes, id), group), all)
            &&& all_under(nodes, all, id)
            &&& all_between(all, id + 1, end)
            &&& forall|c: int, item: Item|
                0 <= c < n && #[trigger] is_text_in(
                    nodes,
                    max,
                    nodes[id].children[c],
                    item,
                ) ==> has_item(all, item)
        }),
{
    let end = if n < nodes[id].children.len() {
        nodes[id].children[n as int]
    } else {
        nodes.len() as int
    };
    let path = way(nodes, id);
    let chunks = close_group(nodes, path, group);
    if open.len() == 0 {
        cut
    } else {
        let label = if group.members.len() == 1 {
            group.members[0]
        } else {
            id
        };
        if group.members.len() == 1 {
            assert(nodes[id].children.contains(group.members[0]));
            let k = nodes[id].children.index_of(label);
            lemma_child_is_under(nodes, id, k);
            lemma_way_goes_on(nodes, label);
        }
        lemma_way_reads_as_trail(nodes, label);
        let chunk = Chunk { heading: Some(trail(nodes, label)), markdown: group.text };
        assert(chunks =~= group.done + seq![chunk]);
        lemma_one_chunk(nodes, max, overlap, id, label, chunk, open);
        let first = open[0].section;
        assert(all_between(seq![open], first, end)) by {
            let one = seq![open];
            assert forall|i: int, k: int| 0 <= i < one.len() && 0 <= k < one[i].len() implies first
                <= (#[trigger] one[i][k]).section < end by {
                assert(one[i][k] == open[k]);
                if k > 0 {
                    assert(comes_first(open[0], open[k]));
                }
            }
        }
        assert(id < open[0].section < end);
        lemma_cuts_follow(
            nodes,
            max,
            overlap,
            group.done,
            cut,
            seq![chunk],
            seq![open],
            id + 1,
            first,
            end,
        );
        lemma_under_both(nodes, cut, seq![open], id);
        let all = cut + seq![open];
        assert forall|c: int, item: Item|
            0 <= c < n && #[trigger] is_text_in(
                nodes,
                max,
                nodes[id].children[c],
                item,
            ) implies has_item(all, item) by {
            if open.contains(item) {
                assert(seq![open][0].contains(item));
            }
            lemma_has_item_in(cut, seq![open], item);
        }
        all
    }
}

#[verifier::spinoff_prover]
#[verifier::rlimit(40)]
proof fn lemma_children_are_cut(
    nodes: Seq<Section>,
    id: int,
    max: nat,
    overlap: nat,
    n: nat,
) -> (r: (Seq<Seq<Item>>, Seq<Item>))
    requires
        is_note(nodes),
        1 <= id < nodes.len(),
        n <= nodes[id].children.len(),
    ensures
        is_grouping(
            nodes,
            max,
            overlap,
            id,
            n,
            emit_children(nodes, id, way(nodes, id), n, max, overlap),
            r.0,
            r.1,
        ),
    decreases nodes.len() - id, n,
{
    let path = way(nodes, id);
    let after = emit_children(nodes, id, path, n, max, overlap);
    if n == 0 {
        (Seq::empty(), Seq::empty())
    } else {
        let m = (n - 1) as nat;
        let before = emit_children(nodes, id, path, m, max, overlap);
        let (cut, open) = lemma_children_are_cut(nodes, id, max, overlap, m);
        let child = nodes[id].children[m as int];
        let end = if n < nodes[id].children.len() {
            nodes[id].children[n as int]
        } else {
            nodes.len() as int
        };
        lemma_child_is_under(nodes, id, m as int);
        assert(children_ok(nodes, id));
        let text = render(nodes, child);
        lemma_render_has_ink(nodes, child);
        if text.len() > max {
            let all = lemma_group_is_closed(nodes, max, overlap, id, m, before, cut, open);
            let more = lemma_section_is_cut(nodes, child, max, overlap);
            lemma_behind(nodes, more, id, m as int);
            let chunks = close_group(nodes, path, before);
            let rest = emit(nodes, child, path, max, overlap);
            lemma_cuts_follow(
                nodes,
                max,
                overlap,
                chunks,
                all,
                rest,
                more,
                id + 1,
                child,
                end,
            );
            lemma_under_both(nodes, all, more, id);
            let result = all + more;
            assert(after.done =~= chunks + rest);
            assert forall|c: int, item: Item|
                0 <= c < n && #[trigger] is_text_in(
                    nodes,
                    max,
                    nodes[id].children[c],
                    item,
                ) implies has_item(result, item) by {
                lemma_has_item_in(all, more, item);
            }
            (result, Seq::empty())
        } else {
            let items = lemma_whole_section(nodes, child, max);
            lemma_items_behind(nodes, max, items, id, m as int);
            if gathered_with(before.text, text).len() > max {
                let all = lemma_group_is_closed(nodes, max, overlap, id, m, before, cut, open);
                assert(after.members =~= seq![child]);
                assert(nodes[id].children.contains(child));
                assert(all_between(all, id + 1, items[0].section)) by {
                    assert forall|i: int, k: int|
                        0 <= i < all.len() && 0 <= k < all[i].len() implies id + 1 <= (
                    #[trigger] all[i][k]).section < items[0].section by {}
                }
                (all, items)
            } else {
                let more = open + items;
                lemma_texts_of_both(nodes, max, open, items);
                lemma_join_both(
                    item_texts(nodes, max, open),
                    item_texts(nodes, max, items),
                    "\n\n"@,
                );
                assert(more.len() > 0);
                assert forall|k: int| 0 <= k < more.len() implies id < (#[trigger] more[k]).section
                    < end && is_item(nodes, max, more[k]) && is_under(
                    nodes,
                    id,
                    more[k].section,
                ) by {
                    if k < open.len() {
                        assert(more[k] == open[k]);
                    } else {
                        assert(more[k] == items[k - open.len()]);
                    }
                }
                assert forall|j: int, k: int| 0 <= j < k < more.len() implies comes_first(
                    #[trigger] more[j],
                    #[trigger] more[k],
                ) by {
                    if k < open.len() {
                        assert(more[j] == open[j] && more[k] == open[k]);
                    } else if j >= open.len() {
                        assert(more[j] == items[j - open.len()] && more[k] == items[k
                            - open.len()]);
                    } else {
                        assert(more[j] == open[j] && more[k] == items[k - open.len()]);
                    }
                }
                assert(is_inside(nodes, max, id, more));
                assert(after.members == before.members.push(child));
                assert forall|k: int| 0 <= k < after.members.len() implies nodes[id].children.contains(
                    #[trigger] after.members[k],
                ) by {
                    if k < before.members.len() {
                        assert(after.members[k] == before.members[k]);
                    } else {
                        assert(nodes[id].children[m as int] == child);
                    }
                }
                if after.members.len() == 1 {
                    assert(open.len() == 0);
                    assert(more =~= items);
                }
                assert(all_between(cut, id + 1, more[0].section)) by {
                    if open.len() == 0 {
                        assert(more[0] == items[0]);
                    } else {
                        assert(more[0] == open[0]);
                    }
                }
                assert forall|c: int, item: Item|
                    0 <= c < n && #[trigger] is_text_in(
                        nodes,
                        max,
                        nodes[id].children[c],
                        item,
                    ) implies has_item(cut, item) || more.contains(item) by {
                    if open.contains(item) {
                        assert(more[open.index_of(item)] == item);
                    }
                    if items.contains(item) {
                        assert(more[open.len() + items.index_of(item)] == item);
                    }
                }
                assert(after.text == join(item_texts(nodes, max, more), "\n\n"@));
                (cut, more)
            }
        }
    }
}

/// The pieces of a section in another stand behind those of the sections before it, and
/// before the next one.
proof fn lemma_behind(nodes: Seq<Section>, cut: Seq<Seq<Item>>, id: int, m: int)
    requires
        is_note(nodes),
        0 <= id < nodes.len(),
        0 <= m < nodes[id].children.len(),
        all_under(nodes, cut, nodes[id].children[m]),
        forall|i: int, k: int|
            0 <= i < cut.len() && 0 <= k < cut[i].len() ==> 0 <= (#[trigger] cut[i][k]).section
                < nodes.len(),
    ensures
        all_under(nodes, cut, id),
        all_between(
            cut,
            nodes[id].children[m],
            if m + 1 < nodes[id].children.len() {
                nodes[id].children[m + 1]
            } else {
                nodes.len() as int
            },
        ),
{
    let child = nodes[id].children[m];
    lemma_child_is_under(nodes, id, m);
    assert forall|i: int, k: int| 0 <= i < cut.len() && 0 <= k < cut[i].len() implies is_under(
        nodes,
        id,
        (#[trigger] cut[i][k]).section,
    ) && child <= cut[i][k].section && (m + 1 < nodes[id].children.len() ==> cut[i][k].section
        < nodes[id].children[m + 1]) by {
        let d = cut[i][k].section;
        assert(is_under(nodes, child, d));
        lemma_under_under(nodes, id, child, d);
        lemma_under_is_behind(nodes, child, d);
        if m + 1 < nodes[id].children.len() {
            lemma_siblings_stand_apart(nodes, id, m, m + 1, d);
        }
    }
}

proof fn lemma_items_behind(nodes: Seq<Section>, max: nat, items: Seq<Item>, id: int, m: int)
    requires
        is_note(nodes),
        0 <= id < nodes.len(),
        0 <= m < nodes[id].children.len(),
        is_inside(nodes, max, nodes[id].children[m], items),
    ensures
        is_inside(nodes, max, id, items),
        forall|k: int|
            0 <= k < items.len() ==> nodes[id].children[m] <= (#[trigger] items[k]).section < if m
                + 1 < nodes[id].children.len() {
                nodes[id].children[m + 1]
            } else {
                nodes.len() as int
            },
{
    let cut = seq![items];
    assert forall|i: int, k: int| 0 <= i < cut.len() && 0 <= k < cut[i].len() implies is_under(
        nodes,
        nodes[id].children[m],
        (#[trigger] cut[i][k]).section,
    ) && 0 <= cut[i][k].section < nodes.len() by {
        assert(is_item(nodes, max, items[k]));
    }
    lemma_behind(nodes, cut, id, m);
    assert forall|k: int| 0 <= k < items.len() implies is_under(
        nodes,
        id,
        (#[trigger] items[k]).section,
    ) && nodes[id].children[m] <= items[k].section && (m + 1 < nodes[id].children.len()
        ==> items[k].section < nodes[id].children[m + 1]) by {
        assert(cut[0][k] == items[k]);
    }
}

#[verifier::spinoff_prover]
proof fn lemma_section_is_cut(nodes: Seq<Section>, id: int, max: nat, overlap: nat) -> (cut: Seq<
    Seq<Item>,
>)
    requires
        is_note(nodes),
        1 <= id < nodes.len(),
    ensures
        is_cut(
            nodes,
            max,
            overlap,
            emit(nodes, id, way(nodes, nodes[id].parent->0), max, overlap),
            cut,
        ),
        all_under(nodes, cut, id),
        forall|i: int, k: int|
            0 <= i < cut.len() && 0 <= k < cut[i].len() ==> 0 <= (#[trigger] cut[i][k]).section
                < nodes.len(),
        forall|item: Item| #[trigger]
            is_text_in(nodes, max, id, item) ==> has_item(cut, item),
    decreases nodes.len() - id, nodes[id].children.len() + 1,
{
    assert(section_ok(nodes, id));
    let outer = way(nodes, nodes[id].parent->0);
    let path = way(nodes, id);
    let label = Some(trail(nodes, id));
    let chunks = emit(nodes, id, outer, max, overlap);
    lemma_way_goes_on(nodes, id);
    lemma_way_reads_as_trail(nodes, id);
    if render(nodes, id).len() <= max {
        let items = lemma_whole_section(nodes, id, max);
        let chunk = Chunk { heading: label, markdown: render(nodes, id) };
        assert(chunks =~= seq![chunk]);
        lemma_one_chunk(nodes, max, overlap, id, id, chunk, items);
        let cut = seq![items];
        assert forall|i: int, k: int| 0 <= i < cut.len() && 0 <= k < cut[i].len() implies 0 <= (
        #[trigger] cut[i][k]).section < nodes.len() by {
            assert(is_item(nodes, max, items[k]));
        }
        assert forall|item: Item| #[trigger] is_text_in(nodes, max, id, item) implies has_item(
            cut,
            item,
        ) by {
            assert(cut[0].contains(item));
        }
        cut
    } else {
        let n = nodes[id].children.len();
        let own = lemma_blocks_are_cut(nodes, id, label, max, overlap);
        let (inner, open) = lemma_children_are_cut(nodes, id, max, overlap, n);
        let group = emit_children(nodes, id, path, n, max, overlap);
        let rest = lemma_group_is_closed(nodes, max, overlap, id, n, group, inner, open);
        let first = own_chunks(nodes[id], label, max, overlap);
        let more = close_group(nodes, path, group);
        assert(chunks =~= first + more);
        assert(all_between(own, id, id + 1));
        assert(all_under(nodes, own, id));
        lemma_cuts_follow(
            nodes,
            max,
            overlap,
            first,
            own,
            more,
            rest,
            id,
            id + 1,
            nodes.len() as int,
        );
        lemma_under_both(nodes, own, rest, id);
        let cut = own + rest;
        assert forall|item: Item| #[trigger] is_text_in(nodes, max, id, item) implies has_item(
            cut,
            item,
        ) by {
            if item.section == id {
                assert(has_item(own, item));
            } else {
                let k = lemma_child_on_the_way(nodes, id, item.section);
                assert(is_text_in(nodes, max, nodes[id].children[k], item));
            }
            lemma_has_item_in(own, rest, item);
        }
        cut
    }
}

// ---------------------------------------------------------------------------
// The whole note
// ---------------------------------------------------------------------------

proof fn lemma_levels(all: Seq<Seq<char>>)
    ensures
        levels_ok(read_lines(all).nodes),
    decreases all.len(),
{
    if all.len() > 0 {
        let before = read_lines(all.drop_last());
        lemma_levels(all.drop_last());
        lemma_read_lines_ok(all.drop_last());
        let flushed = add_block(before.nodes, before.gathered);
        lemma_block_keeps_levels(before.nodes, before.gathered);
        match heading_of(all.last()) {
            Some(heading) => {
                lemma_enclosing(flushed, heading.level);
                let opened = open_section(flushed, heading);
                assert forall|n: int| 0 <= n < opened.len() implies ((
                #[trigger] opened[n]).heading matches Some(h) ==> h.level >= 1) by {
                    if n < flushed.len() {
                        assert(opened[n].heading == flushed[n].heading);
                    }
                }
            },
            None => {},
        }
    }
}

proof fn lemma_block_keeps_levels(nodes: Seq<Section>, gathered: Seq<Seq<char>>)
    requires
        nodes.len() > 0,
        levels_ok(nodes),
    ensures
        levels_ok(add_block(nodes, gathered)),
{
    let after = add_block(nodes, gathered);
    assert forall|n: int| 0 <= n < after.len() implies ((#[trigger] after[n]).heading matches Some(
        h,
    ) ==> h.level >= 1) by {
        assert(after[n].heading == nodes[n].heading);
    }
}

proof fn lemma_sections_are_a_note(text: Seq<char>)
    ensures
        is_note(section_tree(text)),
{
    let end = read_lines(lines(text));
    lemma_section_tree_ok(text);
    lemma_read_lines_ok(lines(text));
    lemma_blocks_have_ink(lines(text));
    lemma_add_block_has_ink(end.nodes, end.gathered);
    lemma_levels(lines(text));
    lemma_block_keeps_levels(end.nodes, end.gathered);
}

#[verifier::spinoff_prover]
proof fn lemma_top_sections_are_cut(
    nodes: Seq<Section>,
    top: int,
    max: nat,
    overlap: nat,
    n: int,
) -> (cut: Seq<Seq<Item>>)
    requires
        is_note(nodes),
        0 <= top < nodes.len(),
        0 <= n <= nodes[top].children.len(),
    ensures
        is_cut(
            nodes,
            max,
            overlap,
            emit_all(nodes, nodes[top].children.take(n), way(nodes, top), max, overlap),
            cut,
        ),
        all_between(
            cut,
            top + 1,
            if n < nodes[top].children.len() {
                nodes[top].children[n]
            } else {
                nodes.len() as int
            },
        ),
        forall|c: int, item: Item|
            0 <= c < n && #[trigger] is_text_in(nodes, max, nodes[top].children[c], item)
                ==> has_item(cut, item),
    decreases n,
{
    let ids = nodes[top].children;
    if n == 0 {
        assert(ids.take(0).len() == 0);
        Seq::empty()
    } else {
        let cut = lemma_top_sections_are_cut(nodes, top, max, overlap, n - 1);
        assert(ids.take(n).drop_last() =~= ids.take(n - 1));
        let child = ids[n - 1];
        lemma_child_is_under(nodes, top, n - 1);
        let more = lemma_section_is_cut(nodes, child, max, overlap);
        lemma_behind(nodes, more, top, n - 1);
        let end = if n < ids.len() {
            ids[n]
        } else {
            nodes.len() as int
        };
        assert(children_ok(nodes, top));
        let before = emit_all(nodes, ids.take(n - 1), way(nodes, top), max, overlap);
        let own = emit(nodes, child, way(nodes, top), max, overlap);
        lemma_cuts_follow(nodes, max, overlap, before, cut, own, more, top + 1, child, end);
        assert(ids.take(n).last() == child);
        let all = cut + more;
        assert forall|c: int, item: Item|
            0 <= c < n && #[trigger] is_text_in(
                nodes,
                max,
                nodes[top].children[c],
                item,
            ) implies has_item(all, item) by {
            lemma_has_item_in(cut, more, item);
        }
        all
    }
}

#[verifier::spinoff_prover]
proof fn lemma_tree_is_cut(nodes: Seq<Section>, title: Seq<char>, max: nat, overlap: nat) -> (cut:
    Seq<Seq<Item>>)
    requires
        is_note(nodes),
    ensures
        is_cut(nodes, max, overlap, tree_chunks(nodes, title, max, overlap), cut),
        forall|item: Item|
            is_item(nodes, max, item) && item.place >= 1 ==> #[trigger] has_item(cut, item),
{
    let wrapped = is_title_wrapped(nodes, title);
    assert(children_ok(nodes, 0));
    let top = if wrapped {
        nodes[0].children[0]
    } else {
        0
    };
    let label = if wrapped {
        Some(trail(nodes, top))
    } else {
        None
    };
    let path = way(nodes, top);
    if wrapped {
        lemma_child_is_under(nodes, 0, 0);
        assert(section_ok(nodes, top));
        lemma_way_reads_as_trail(nodes, top);
        assert(way(nodes, 0) =~= Seq::<Heading>::empty());
        assert(path =~= seq![nodes[top].heading->0]);
    } else {
        assert(path =~= Seq::<Heading>::empty());
    }
    let own = own_chunks(nodes[top], label, max, overlap);
    let ids = nodes[top].children;
    let rest = emit_all(nodes, ids, path, max, overlap);
    let all = tree_chunks(nodes, title, max, overlap);
    assert(all =~= own + rest);
    let first = lemma_blocks_are_cut(nodes, top, label, max, overlap);
    let n = ids.len() as int;
    let more = lemma_top_sections_are_cut(nodes, top, max, overlap, n);
    assert(ids.take(n) =~= ids);
    assert(all_between(first, top, top + 1));
    lemma_cuts_follow(
        nodes,
        max,
        overlap,
        own,
        first,
        rest,
        more,
        top,
        top + 1,
        nodes.len() as int,
    );
    let cut = first + more;
    assert forall|item: Item|
        is_item(nodes, max, item) && item.place >= 1 implies #[trigger] has_item(cut, item) by {
        let d = item.section;
        lemma_all_under_root(nodes, d);
        if wrapped {
            if d == 0 {
                assert(units_of(nodes[0].blocks, max).len() == 0);
            } else {
                let k = lemma_child_on_the_way(nodes, 0, d);
                assert(nodes[0].children[k] == top);
            }
        }
        if d == top {
            assert(has_item(first, item));
        } else {
            let k = lemma_child_on_the_way(nodes, top, d);
            assert(is_text_in(nodes, max, ids[k], item));
        }
        lemma_has_item_in(first, more, item);
    }
    cut
}

/// Whether any section of a note has text of its own.
pub open spec fn has_text(nodes: Seq<Section>) -> bool {
    exists|n: int| 0 <= n < nodes.len() && (#[trigger] nodes[n]).blocks.len() > 0
}

/// The chunks of a note are its pieces in their order, each under the headings that lead to
/// it, and no text is missing. A note of headings alone, all of them too long for a chunk, is
/// cut as one text instead, and has no headings.
pub proof fn lemma_chunks_are_the_note_in_pieces(
    markdown: Seq<char>,
    title: Seq<char>,
    max: nat,
    overlap: nat,
) -> (cut: Seq<Seq<Item>>)
    ensures
        ({
            let text = unix_newlines(markdown);
            let nodes = section_tree(text);
            let chunks = chunk_model(markdown, title, max, overlap);
            ||| is_cut(nodes, max, overlap, chunks, cut) && forall|item: Item|
                is_item(nodes, max, item) && item.place >= 1 ==> #[trigger] has_item(cut, item)
            ||| !has_text(nodes) && chunks == pack(seq![trim(text)], None, max, overlap)
        }),
{
    let text = unix_newlines(markdown);
    let nodes = section_tree(text);
    lemma_sections_are_a_note(text);
    let cut = lemma_tree_is_cut(nodes, title, max, overlap);
    if tree_chunks(nodes, title, max, overlap).len() == 0 && has_text(nodes) {
        let d = choose|n: int| 0 <= n < nodes.len() && (#[trigger] nodes[n]).blocks.len() > 0;
        lemma_text_has_units(nodes, d, max);
        let item = Item { section: d, place: 1 };
        assert(is_item(nodes, max, item));
        assert(has_item(cut, item));
    }
    cut
}

proof fn lemma_text_has_units(nodes: Seq<Section>, d: int, max: nat)
    requires
        is_note(nodes),
        0 <= d < nodes.len(),
        nodes[d].blocks.len() > 0,
    ensures
        units_of(nodes[d].blocks, max).len() > 0,
{
    let blocks = nodes[d].blocks;
    assert(has_ink(nodes[d].blocks[blocks.len() - 1]));
    lemma_cut_is_not_empty(blocks.last(), max);
}

// ---------------------------------------------------------------------------
// What the headings of chunks promise
// ---------------------------------------------------------------------------

/// Whether a chunk that stands under a section, or under one that encloses it, holds a text.
pub open spec fn is_told_under(
    nodes: Seq<Section>,
    chunks: Seq<Chunk>,
    section: int,
    text: Seq<char>,
) -> bool {
    exists|i: int, id: int|
        0 <= i < chunks.len() && 1 <= id < nodes.len() && contains(
            (#[trigger] chunks[i]).markdown,
            text,
        ) && is_under(nodes, id, section) && chunks[i].heading == Some(#[trigger] trail(nodes, id))
}

/// Whatever stands under a heading stands in a chunk with a heading, and that heading is the
/// trail of its section or of one that encloses it: all pieces of every block do, whether the
/// section fits into one chunk or not.
pub proof fn lemma_text_under_a_heading_is_found_under_it(
    markdown: Seq<char>,
    title: Seq<char>,
    max: nat,
    overlap: nat,
    section: int,
    piece: int,
)
    requires
        1 <= section < section_tree(unix_newlines(markdown)).len(),
        0 <= piece < units_of(section_tree(unix_newlines(markdown))[section].blocks, max).len(),
    ensures
        is_told_under(
            section_tree(unix_newlines(markdown)),
            chunk_model(markdown, title, max, overlap),
            section,
            units_of(section_tree(unix_newlines(markdown))[section].blocks, max)[piece],
        ),
{
    let text = unix_newlines(markdown);
    let nodes = section_tree(text);
    let chunks = chunk_model(markdown, title, max, overlap);
    let cut = lemma_chunks_are_the_note_in_pieces(markdown, title, max, overlap);
    if nodes[section].blocks.len() == 0 {
        assert(units_of(nodes[section].blocks, max).len() == 0);
    }
    assert(has_text(nodes));
    let item = Item { section, place: (piece + 1) as nat };
    assert(is_item(nodes, max, item));
    assert(has_item(cut, item));
    let i = choose|i: int| 0 <= i < cut.len() && (#[trigger] cut[i]).contains(item);
    let items = cut[i];
    let k = items.index_of(item);
    assert(is_made_of(nodes, max, chunks[i], items));
    let said = item_texts(nodes, max, items);
    assert(said[k] == item_text(nodes, max, item));
    crate::coverage::lemma_join_contains(said, "\n\n"@, k);
    assert(items[k].section == section);
    match chunks[i].heading {
        Some(heading) => {
            let id = choose|id: int|
                1 <= id < nodes.len() && heading == #[trigger] trail(nodes, id) && forall|k: int|
                    0 <= k < items.len() ==> is_under(nodes, id, (#[trigger] items[k]).section);
            assert(is_under(nodes, id, items[k].section));
            assert(contains(chunks[i].markdown, said[k]));
        },
        None => {},
    }
}

/// A chunk has no heading only where all its text stands before the first heading of the
/// note; with no text there, every chunk has one. A chunk with a heading holds nothing but
/// headings and text of the section that the heading leads to and of those in it.
pub proof fn lemma_headings_are_those_of_the_text(
    markdown: Seq<char>,
    title: Seq<char>,
    max: nat,
    overlap: nat,
    i: int,
) -> (items: Seq<Item>)
    requires
        has_text(section_tree(unix_newlines(markdown))),
        0 <= i < chunk_model(markdown, title, max, overlap).len(),
    ensures
        ({
            let nodes = section_tree(unix_newlines(markdown));
            let chunk = chunk_model(markdown, title, max, overlap)[i];
            &&& items.len() > 0
            &&& chunk.markdown == join(item_texts(nodes, max, items), "\n\n"@)
            &&& forall|k: int| 0 <= k < items.len() ==> is_item(nodes, max, #[trigger] items[k])
            &&& chunk.heading is None ==> nodes[0].blocks.len() > 0 && forall|k: int|
                0 <= k < items.len() ==> (#[trigger] items[k]).section == 0
            &&& chunk.heading is Some ==> exists|id: int|
                1 <= id < nodes.len() && chunk.heading->0 == #[trigger] trail(nodes, id)
                    && forall|k: int|
                    0 <= k < items.len() ==> is_under(nodes, id, (#[trigger] items[k]).section)
        }),
{
    let nodes = section_tree(unix_newlines(markdown));
    let chunks = chunk_model(markdown, title, max, overlap);
    let cut = lemma_chunks_are_the_note_in_pieces(markdown, title, max, overlap);
    let items = cut[i];
    assert(is_made_of(nodes, max, chunks[i], items));
    if chunks[i].heading is None {
        lemma_sections_are_a_note(unix_newlines(markdown));
        assert(is_item(nodes, max, items[0]));
        assert(items[0].section == 0);
        if nodes[0].blocks.len() == 0 {
            assert(units_of(nodes[0].blocks, max).len() == 0);
        }
    }
    items
}

} // verus!
