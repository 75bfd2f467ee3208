//! Chunking loses nothing: whatever is written in a note stands in one of its chunks.
use crate::chunker::{
    chunk_model, close_group, emit, emit_all, emit_children, gathered_with, is_title_wrapped,
    own_chunks, path_to, tree_chunks, Grouping,
};
use crate::headings::{breadcrumb, fence_after, heading_of, Heading};
use crate::lines::{join, lines, trim, trim_end, trim_start, unix_newlines};
use crate::packing::{
    closed, pack, pack_units, paragraphs, split_block, stretches, units_of, Chunk, Packing,
};
use crate::sections::{
    add_block, child_texts, children_ok, lemma_enclosing, lemma_read_lines_ok,
    lemma_section_tree_ok, open_section, own_parts, read_lines, render, section_ok, section_tree,
    tree_ok, visible, Section,
};
use crate::text::{contains, is_white_space, occurs_at};
use vstd::prelude::*;

verus! {

// ---------------------------------------------------------------------------
// Texts in texts
// ---------------------------------------------------------------------------

pub proof fn lemma_contains_self(s: Seq<char>)
    ensures
        contains(s, s),
{
    assert(s.subrange(0, s.len() as int) =~= s);
    assert(occurs_at(s, s, 0));
}

pub proof fn lemma_contains_in(a: Seq<char>, m: Seq<char>, b: Seq<char>, t: Seq<char>)
    requires
        contains(m, t),
    ensures
        contains(a + m + b, t),
{
    let at = choose|at: int| occurs_at(m, t, at);
    let s = a + m + b;
    let to = a.len() + at;
    assert(s.subrange(to, to + t.len()) =~= m.subrange(at, at + t.len()));
    assert(occurs_at(s, t, to));
}

pub proof fn lemma_contains_trans(s: Seq<char>, m: Seq<char>, t: Seq<char>)
    requires
        contains(s, m),
        contains(m, t),
    ensures
        contains(s, t),
{
    let at = choose|at: int| occurs_at(s, m, at);
    let a = s.take(at);
    let b = s.skip(at + m.len());
    assert(s =~= a + m + b);
    lemma_contains_in(a, m, b, t);
}

pub proof fn lemma_join_contains(parts: Seq<Seq<char>>, sep: Seq<char>, k: int)
    requires
        0 <= k < parts.len(),
    ensures
        contains(join(parts, sep), parts[k]),
    decreases parts.len(),
{
    if parts.len() == 1 {
        lemma_contains_self(parts[0]);
    } else {
        let front = join(parts.drop_last(), sep);
        let none = Seq::<char>::empty();
        if k == parts.len() - 1 {
            lemma_contains_self(parts[k]);
            lemma_contains_in(front + sep, parts[k], none, parts[k]);
            assert((front + sep) + parts[k] + none =~= join(parts, sep));
        } else {
            lemma_join_contains(parts.drop_last(), sep, k);
            assert(parts.drop_last()[k] == parts[k]);
            lemma_contains_in(none, front, sep + parts.last(), parts[k]);
            assert(none + front + (sep + parts.last()) =~= join(parts, sep));
        }
    }
}

/// Whether a text holds anything but white space.
pub open spec fn has_ink(s: Seq<char>) -> bool {
    exists|i: int| 0 <= i < s.len() && !is_white_space(#[trigger] s[i])
}

/// A trimmed text is the stretch between the first and the last character that is no white
/// space.
pub proof fn lemma_trim(s: Seq<char>) -> (ends: (int, int))
    ensures
        0 <= ends.0 <= ends.1 <= s.len(),
        trim(s) == s.subrange(ends.0, ends.1),
        forall|i: int| 0 <= i < ends.0 || ends.1 <= i < s.len() ==> is_white_space(#[trigger] s[i]),
        trim(s).len() > 0 <==> has_ink(s),
        trim(s).len() > 0 ==> !is_white_space(s[ends.0]),
{
    let from = lemma_trim_start(s);
    let rest = trim_start(s);
    let to = lemma_trim_end(rest);
    assert(trim(s) =~= s.subrange(from, from + to));
    assert forall|i: int| 0 <= i < from || from + to <= i < s.len() implies is_white_space(
        #[trigger] s[i],
    ) by {
        if i >= from + to {
            assert(rest[i - from] == s[i]);
        }
    }
    if trim(s).len() > 0 {
        assert(rest[0] == s[from]);
    }
    if has_ink(s) && trim(s).len() == 0 {
        let i = choose|i: int| 0 <= i < s.len() && !is_white_space(#[trigger] s[i]);
        assert(is_white_space(s[i]));
    }
    (from, from + to)
}

/// A text is blank where nothing is left of it once it is trimmed.
pub proof fn lemma_blank_has_no_ink(s: Seq<char>)
    ensures
        trim(s).len() > 0 <==> has_ink(s),
{
    let ends = lemma_trim(s);
}

proof fn lemma_trim_start(s: Seq<char>) -> (from: int)
    ensures
        0 <= from <= s.len(),
        trim_start(s) == s.skip(from),
        forall|i: int| 0 <= i < from ==> is_white_space(#[trigger] s[i]),
        from < s.len() ==> !is_white_space(s[from]),
    decreases s.len(),
{
    if s.len() > 0 && is_white_space(s[0]) {
        let rest = s.drop_first();
        let from = lemma_trim_start(rest);
        assert(rest.skip(from) =~= s.skip(from + 1));
        assert forall|i: int| 0 <= i < from + 1 implies is_white_space(#[trigger] s[i]) by {
            if i > 0 {
                assert(rest[i - 1] == s[i]);
            }
        }
        if from + 1 < s.len() {
            assert(rest[from] == s[from + 1]);
        }
        from + 1
    } else {
        assert(s.skip(0) =~= s);
        0
    }
}

proof fn lemma_trim_end(s: Seq<char>) -> (to: int)
    ensures
        0 <= to <= s.len(),
        trim_end(s) == s.take(to),
        forall|i: int| to <= i < s.len() ==> is_white_space(#[trigger] s[i]),
    decreases s.len(),
{
    if s.len() > 0 && is_white_space(s.last()) {
        let front = s.drop_last();
        let to = lemma_trim_end(front);
        assert(front.take(to) =~= s.take(to));
        assert forall|i: int| to <= i < s.len() implies is_white_space(#[trigger] s[i]) by {
            if i < front.len() {
                assert(front[i] == s[i]);
            }
        }
        to
    } else {
        assert(s.take(s.len() as int) =~= s);
        s.len() as int
    }
}

pub proof fn lemma_contains_ink(s: Seq<char>, t: Seq<char>)
    requires
        contains(s, t),
        has_ink(t),
    ensures
        has_ink(s),
        trim(s).len() > 0,
{
    let at = choose|at: int| occurs_at(s, t, at);
    let i = choose|i: int| 0 <= i < t.len() && !is_white_space(#[trigger] t[i]);
    assert(s.subrange(at, at + t.len())[i] == s[at + i]);
    let ends = lemma_trim(s);
}

/// What stands in a text stands, trimmed, in the trimmed text.
proof fn lemma_contains_trimmed(s: Seq<char>, t: Seq<char>)
    requires
        contains(s, t),
        has_ink(t),
    ensures
        contains(trim(s), trim(t)),
{
    let at = choose|at: int| occurs_at(s, t, at);
    let (i, j) = lemma_trim(t);
    let (p, q) = lemma_trim(s);
    let piece = s.subrange(at, at + t.len());
    assert(piece == t);
    assert(t[i] == piece[i] && piece[i] == s[at + i]);
    assert(p <= at + i);
    assert(q >= at + j) by {
        if q < at + j {
            lemma_last_ink(t);
            assert(t[j - 1] == piece[j - 1] && piece[j - 1] == s[at + j - 1]);
        }
    }
    let to = at + i - p;
    assert(trim(s).subrange(to, to + trim(t).len()) =~= trim(t)) by {
        assert forall|k: int| 0 <= k < trim(t).len() implies trim(s)[to + k] == trim(t)[k] by {
            assert(trim(t)[k] == t[i + k]);
            assert(t[i + k] == piece[i + k] && piece[i + k] == s[at + i + k]);
        }
    }
    assert(occurs_at(trim(s), trim(t), to));
}

proof fn lemma_last_ink(t: Seq<char>)
    ensures
        trim(t).len() > 0 ==> !is_white_space(trim(t).last()),
{
    lemma_end_ink(trim_start(t));
}

proof fn lemma_end_ink(s: Seq<char>)
    ensures
        trim_end(s).len() > 0 ==> !is_white_space(trim_end(s).last()),
    decreases s.len(),
{
    if s.len() > 0 && is_white_space(s.last()) {
        lemma_end_ink(s.drop_last());
    }
}

// ---------------------------------------------------------------------------
// Blocks in chunks
// ---------------------------------------------------------------------------

/// Whether one of the chunks holds a text.
pub open spec fn is_told(chunks: Seq<Chunk>, text: Seq<char>) -> bool {
    exists|i: int| 0 <= i < chunks.len() && contains((#[trigger] chunks[i]).markdown, text)
}

/// Whether the chunks hold a block: as a whole, or in the pieces into which it is cut where
/// it is too large for one chunk.
pub open spec fn is_covered(chunks: Seq<Chunk>, block: Seq<char>, max: nat) -> bool {
    is_told(chunks, block) || forall|k: int|
        0 <= k < split_block(block, max).len() ==> is_told(
            chunks,
            #[trigger] split_block(block, max)[k],
        )
}

proof fn lemma_told_in(before: Seq<Chunk>, chunks: Seq<Chunk>, after: Seq<Chunk>, text: Seq<char>)
    requires
        is_told(chunks, text),
    ensures
        is_told(before + chunks + after, text),
{
    let i = choose|i: int| 0 <= i < chunks.len() && contains((#[trigger] chunks[i]).markdown, text);
    assert((before + chunks + after)[before.len() + i] == chunks[i]);
}

proof fn lemma_covered_in(
    before: Seq<Chunk>,
    chunks: Seq<Chunk>,
    after: Seq<Chunk>,
    block: Seq<char>,
    max: nat,
)
    requires
        is_covered(chunks, block, max),
    ensures
        is_covered(before + chunks + after, block, max),
{
    if is_told(chunks, block) {
        lemma_told_in(before, chunks, after, block);
    } else {
        assert forall|k: int| 0 <= k < split_block(block, max).len() implies is_told(
            before + chunks + after,
            #[trigger] split_block(block, max)[k],
        ) by {
            lemma_told_in(before, chunks, after, split_block(block, max)[k]);
        }
    }
}

/// Whether a unit was put into a chunk that is closed or stands in the one that is open.
spec fn is_placed(packing: Packing, unit: Seq<char>) -> bool {
    is_told(packing.done, unit) || packing.open.contains(unit)
}

proof fn lemma_closed_tells(packing: Packing, heading: Option<Seq<char>>, unit: Seq<char>)
    requires
        is_placed(packing, unit),
    ensures
        is_told(closed(packing, heading), unit),
{
    let all = closed(packing, heading);
    if is_told(packing.done, unit) {
        let i = choose|i: int|
            0 <= i < packing.done.len() && contains((#[trigger] packing.done[i]).markdown, unit);
        assert(all[i] == packing.done[i]);
    } else {
        let k = packing.open.index_of(unit);
        lemma_join_contains(packing.open, "\n\n"@, k);
        assert(contains(all[all.len() - 1].markdown, unit));
    }
}

proof fn lemma_units_are_placed(
    units: Seq<Seq<char>>,
    heading: Option<Seq<char>>,
    max: nat,
    overlap: nat,
    at: int,
)
    requires
        0 <= at < units.len(),
    ensures
        is_placed(pack_units(units, heading, max, overlap), units[at]),
    decreases units.len(),
{
    let front = units.drop_last();
    let before = pack_units(front, heading, max, overlap);
    let after = pack_units(units, heading, max, overlap);
    let unit = units[at];
    if at == units.len() - 1 {
        assert(after.open[after.open.len() - 1] == unit);
    } else {
        assert(front[at] == unit);
        lemma_units_are_placed(front, heading, max, overlap, at);
        if paragraphs(before.open.push(units.last())).len() <= max {
            if before.open.contains(unit) {
                let k = before.open.index_of(unit);
                assert(after.open[k] == unit);
            }
        } else {
            lemma_closed_tells(before, heading, unit);
        }
    }
}

proof fn lemma_pieces_are_units(blocks: Seq<Seq<char>>, max: nat, at: int, k: int) -> (u: int)
    requires
        0 <= at < blocks.len(),
        0 <= k < split_block(blocks[at], max).len(),
    ensures
        0 <= u < units_of(blocks, max).len(),
        units_of(blocks, max)[u] == split_block(blocks[at], max)[k],
    decreases blocks.len(),
{
    let front = blocks.drop_last();
    if at == blocks.len() - 1 {
        units_of(front, max).len() as int + k
    } else {
        assert(front[at] == blocks[at]);
        let u = lemma_pieces_are_units(front, max, at, k);
        assert(units_of(blocks, max)[u] == units_of(front, max)[u]);
        u
    }
}

/// Packing blocks into chunks loses none of them.
pub proof fn lemma_packing_keeps_every_block(
    blocks: Seq<Seq<char>>,
    heading: Option<Seq<char>>,
    max: nat,
    overlap: nat,
    at: int,
)
    requires
        0 <= at < blocks.len(),
    ensures
        is_covered(pack(blocks, heading, max, overlap), blocks[at], max),
{
    let units = units_of(blocks, max);
    let chunks = pack(blocks, heading, max, overlap);
    assert forall|k: int| 0 <= k < split_block(blocks[at], max).len() implies is_told(
        chunks,
        #[trigger] split_block(blocks[at], max)[k],
    ) by {
        let u = lemma_pieces_are_units(blocks, max, at, k);
        lemma_units_are_placed(units, heading, max, overlap, u);
        lemma_closed_tells(pack_units(units, heading, max, overlap), heading, units[u]);
    }
}

// ---------------------------------------------------------------------------
// Blocks in sections
// ---------------------------------------------------------------------------

/// Whether no block of any section is blank.
pub open spec fn blocks_ok(nodes: Seq<Section>) -> bool {
    forall|n: int, b: int|
        0 <= n < nodes.len() && 0 <= b < nodes[n].blocks.len() ==> has_ink(
            #[trigger] nodes[n].blocks[b],
        )
}

/// Whether a section lies in another, at any depth, or is that section.
pub open spec fn is_under(nodes: Seq<Section>, id: int, d: int) -> bool
    decreases d,
{
    d == id || (nodes[d].parent matches Some(p) && 0 <= p < d && is_under(nodes, id, p))
}

pub proof fn lemma_visible(parts: Seq<Seq<char>>, k: int)
    requires
        0 <= k < parts.len(),
        trim(parts[k]).len() > 0,
    ensures
        visible(parts).contains(parts[k]),
    decreases parts.len(),
{
    let front = parts.drop_last();
    if k == parts.len() - 1 {
        assert(visible(parts)[visible(parts).len() - 1] == parts[k]);
    } else {
        assert(front[k] == parts[k]);
        lemma_visible(front, k);
        let i = visible(front).index_of(parts[k]);
        assert(visible(parts)[i] == parts[k]);
    }
}

pub proof fn lemma_child_text(nodes: Seq<Section>, id: int, n: nat, k: int)
    requires
        tree_ok(nodes),
        0 <= id < nodes.len(),
        0 <= k < n <= nodes[id].children.len(),
    ensures
        child_texts(nodes, id, n).len() == n,
        child_texts(nodes, id, n)[k] == render(nodes, nodes[id].children[k]),
    decreases n,
{
    assert(children_ok(nodes, id));
    lemma_child_texts_len(nodes, id, (n - 1) as nat);
    if k < n - 1 {
        lemma_child_text(nodes, id, (n - 1) as nat, k);
    }
}

pub proof fn lemma_child_texts_len(nodes: Seq<Section>, id: int, n: nat)
    requires
        0 <= id < nodes.len(),
    ensures
        child_texts(nodes, id, n).len() == n,
    decreases n,
{
    if n > 0 {
        lemma_child_texts_len(nodes, id, (n - 1) as nat);
    }
}

/// On the way from a section to one that lies in it stands one of its own children.
pub proof fn lemma_child_on_the_way(nodes: Seq<Section>, id: int, d: int) -> (k: int)
    requires
        tree_ok(nodes),
        0 <= id < nodes.len(),
        0 <= d < nodes.len(),
        is_under(nodes, id, d),
        d != id,
    ensures
        0 <= k < nodes[id].children.len(),
        is_under(nodes, nodes[id].children[k], d),
        id < nodes[id].children[k] < nodes.len(),
    decreases d,
{
    assert(children_ok(nodes, id));
    assert(d >= 1);
    assert(section_ok(nodes, d));
    let p = nodes[d].parent->0;
    if p == id {
        let k = nodes[id].children.index_of(d);
        assert(nodes[id].children[k] == d);
        k
    } else {
        let k = lemma_child_on_the_way(nodes, id, p);
        assert(is_under(nodes, nodes[id].children[k], d));
        k
    }
}

pub proof fn lemma_all_under_root(nodes: Seq<Section>, d: int)
    requires
        tree_ok(nodes),
        0 <= d < nodes.len(),
    ensures
        is_under(nodes, 0, d),
    decreases d,
{
    if d > 0 {
        assert(section_ok(nodes, d));
        lemma_all_under_root(nodes, nodes[d].parent->0);
    }
}

/// The text of a section holds every block of the sections that lie in it.
pub proof fn lemma_render_holds(nodes: Seq<Section>, id: int, d: int, b: int)
    requires
        tree_ok(nodes),
        blocks_ok(nodes),
        0 <= id < nodes.len(),
        0 <= d < nodes.len(),
        is_under(nodes, id, d),
        0 <= b < nodes[d].blocks.len(),
    ensures
        contains(render(nodes, id), nodes[d].blocks[b]),
    decreases nodes.len() - id,
{
    let block = nodes[d].blocks[b];
    let own = own_parts(nodes[id]);
    let inner = child_texts(nodes, id, nodes[id].children.len());
    let parts = own + inner;
    assert(has_ink(block));
    if d == id {
        let at = match nodes[id].heading {
            Some(_) => b + 1,
            None => b,
        };
        assert(parts[at] == block);
        let ends = lemma_trim(block);
        lemma_visible(parts, at);
        lemma_join_contains(visible(parts), "\n\n"@, visible(parts).index_of(block));
    } else {
        let k = lemma_child_on_the_way(nodes, id, d);
        let child = nodes[id].children[k];
        lemma_render_holds(nodes, child, d, b);
        lemma_child_text(nodes, id, nodes[id].children.len(), k);
        let text = render(nodes, child);
        assert(parts[own.len() + k] == text);
        lemma_contains_ink(text, block);
        lemma_visible(parts, own.len() + k);
        lemma_join_contains(visible(parts), "\n\n"@, visible(parts).index_of(text));
        lemma_contains_trans(render(nodes, id), text, block);
    }
}

// ---------------------------------------------------------------------------
// Sections in chunks
// ---------------------------------------------------------------------------

/// Whether a block was put into a chunk that is closed or stands in the one that gathers.
spec fn is_grouped(group: Grouping, block: Seq<char>, max: nat) -> bool {
    is_covered(group.done, block, max) || (group.members.len() > 0 && contains(group.text, block))
}

proof fn lemma_close_group_covers(
    nodes: Seq<Section>,
    path: Seq<Heading>,
    group: Grouping,
    block: Seq<char>,
    max: nat,
)
    requires
        is_grouped(group, block, max),
    ensures
        is_covered(close_group(nodes, path, group), block, max),
{
    let all = close_group(nodes, path, group);
    let none = Seq::<Chunk>::empty();
    if is_covered(group.done, block, max) {
        if group.members.len() > 0 {
            lemma_covered_in(none, group.done, seq![all.last()], block, max);
            assert(none + group.done + seq![all.last()] =~= all);
        }
    } else {
        assert(contains(all[all.len() - 1].markdown, block));
        assert(is_told(all, block));
    }
}

proof fn lemma_emit_covers(
    nodes: Seq<Section>,
    id: int,
    ancestors: Seq<Heading>,
    max: nat,
    overlap: nat,
    d: int,
    b: int,
)
    requires
        tree_ok(nodes),
        blocks_ok(nodes),
        0 <= id < nodes.len(),
        0 <= d < nodes.len(),
        is_under(nodes, id, d),
        0 <= b < nodes[d].blocks.len(),
    ensures
        is_covered(emit(nodes, id, ancestors, max, overlap), nodes[d].blocks[b], max),
    decreases nodes.len() - id, nodes[id].children.len() + 1,
{
    let block = nodes[d].blocks[b];
    let path = path_to(nodes, id, ancestors);
    let chunks = emit(nodes, id, ancestors, max, overlap);
    let none = Seq::<Chunk>::empty();
    if render(nodes, id).len() <= max {
        lemma_render_holds(nodes, id, d, b);
        assert(contains(chunks[0].markdown, block));
        assert(is_told(chunks, block));
    } else {
        let label = Some(breadcrumb(path));
        let n = nodes[id].children.len();
        let own = if nodes[id].blocks.len() == 0 {
            none
        } else {
            pack(nodes[id].blocks, label, max, overlap)
        };
        let group = emit_children(nodes, id, path, n, max, overlap);
        let rest = close_group(nodes, path, group);
        assert(chunks =~= own + rest);
        if d == id {
            lemma_packing_keeps_every_block(nodes[id].blocks, label, max, overlap, b);
            lemma_covered_in(none, own, rest, block, max);
            assert(none + own + rest =~= chunks);
        } else {
            let k = lemma_child_on_the_way(nodes, id, d);
            lemma_children_are_grouped(nodes, id, path, n, max, overlap, k, d, b);
            lemma_close_group_covers(nodes, path, group, block, max);
            lemma_covered_in(own, rest, none, block, max);
            assert(own + rest + none =~= chunks);
        }
    }
}

proof fn lemma_children_are_grouped(
    nodes: Seq<Section>,
    id: int,
    path: Seq<Heading>,
    n: nat,
    max: nat,
    overlap: nat,
    k: int,
    d: int,
    b: int,
)
    requires
        tree_ok(nodes),
        blocks_ok(nodes),
        0 <= id < nodes.len(),
        0 <= k < n <= nodes[id].children.len(),
        0 <= d < nodes.len(),
        is_under(nodes, nodes[id].children[k], d),
        0 <= b < nodes[d].blocks.len(),
    ensures
        is_grouped(emit_children(nodes, id, path, n, max, overlap), nodes[d].blocks[b], max),
    decreases nodes.len() - id, n,
{
    let block = nodes[d].blocks[b];
    let before = emit_children(nodes, id, path, (n - 1) as nat, max, overlap);
    let after = emit_children(nodes, id, path, n, max, overlap);
    let child = nodes[id].children[n - 1];
    let text = render(nodes, child);
    let none = Seq::<Chunk>::empty();
    assert(children_ok(nodes, id));
    assert(id < child < nodes.len());
    let last = k == n - 1;
    if !last {
        lemma_children_are_grouped(nodes, id, path, (n - 1) as nat, max, overlap, k, d, b);
        lemma_close_group_covers(nodes, path, before, block, max);
    }
    if text.len() > max {
        let closed_before = close_group(nodes, path, before);
        let own = emit(nodes, child, path, max, overlap);
        if last {
            lemma_emit_covers(nodes, child, path, max, overlap, d, b);
            lemma_covered_in(closed_before, own, none, block, max);
            assert(closed_before + own + none =~= after.done);
        } else {
            lemma_covered_in(none, closed_before, own, block, max);
            assert(none + closed_before + own =~= after.done);
        }
    } else {
        if last {
            lemma_render_holds(nodes, child, d, b);
        }
        if gathered_with(before.text, text).len() <= max {
            let nothing = Seq::<char>::empty();
            if before.text.len() > 0 {
                if last {
                    lemma_contains_in(before.text + "\n\n"@, text, nothing, block);
                    assert((before.text + "\n\n"@) + text + nothing =~= after.text);
                } else if contains(before.text, block) {
                    lemma_contains_in(nothing, before.text, "\n\n"@ + text, block);
                    assert(nothing + before.text + ("\n\n"@ + text) =~= after.text);
                }
            } else if !last && contains(before.text, block) {
                lemma_contains_ink(before.text, block);
            }
        }
    }
}

proof fn lemma_emit_all_covers(
    nodes: Seq<Section>,
    ids: Seq<int>,
    ancestors: Seq<Heading>,
    max: nat,
    overlap: nat,
    k: int,
    d: int,
    b: int,
)
    requires
        tree_ok(nodes),
        blocks_ok(nodes),
        0 <= k < ids.len(),
        0 <= ids[k] < nodes.len(),
        0 <= d < nodes.len(),
        is_under(nodes, ids[k], d),
        0 <= b < nodes[d].blocks.len(),
    ensures
        is_covered(emit_all(nodes, ids, ancestors, max, overlap), nodes[d].blocks[b], max),
    decreases ids.len(),
{
    let block = nodes[d].blocks[b];
    let front = emit_all(nodes, ids.drop_last(), ancestors, max, overlap);
    let own = emit(nodes, ids.last(), ancestors, max, overlap);
    let none = Seq::<Chunk>::empty();
    let all = emit_all(nodes, ids, ancestors, max, overlap);
    if k == ids.len() - 1 {
        lemma_emit_covers(nodes, ids.last(), ancestors, max, overlap, d, b);
        lemma_covered_in(front, own, none, block, max);
        assert(front + own + none =~= all);
    } else {
        lemma_emit_all_covers(nodes, ids.drop_last(), ancestors, max, overlap, k, d, b);
        lemma_covered_in(none, front, own, block, max);
        assert(none + front + own =~= all);
    }
}

proof fn lemma_tree_covers(
    nodes: Seq<Section>,
    title: Seq<char>,
    max: nat,
    overlap: nat,
    d: int,
    b: int,
)
    requires
        tree_ok(nodes),
        blocks_ok(nodes),
        0 <= d < nodes.len(),
        0 <= b < nodes[d].blocks.len(),
    ensures
        is_covered(tree_chunks(nodes, title, max, overlap), nodes[d].blocks[b], max),
{
    let block = nodes[d].blocks[b];
    let none = Seq::<Chunk>::empty();
    let wrapped = is_title_wrapped(nodes, title);
    let top = if wrapped {
        nodes[0].children[0]
    } else {
        0
    };
    let path = if wrapped {
        seq![nodes[top].heading->0]
    } else {
        Seq::<Heading>::empty()
    };
    let label = if wrapped {
        Some(breadcrumb(path))
    } else {
        None
    };
    assert(children_ok(nodes, 0));
    let own = own_chunks(nodes[top], label, max, overlap);
    let rest = emit_all(nodes, nodes[top].children, path, max, overlap);
    let all = tree_chunks(nodes, title, max, overlap);
    assert(all =~= own + rest);
    lemma_all_under_root(nodes, d);
    if wrapped {
        assert(d != 0);
        let k = lemma_child_on_the_way(nodes, 0, d);
        assert(nodes[0].children[k] == top);
    }
    if d == top {
        lemma_packing_keeps_every_block(nodes[top].blocks, label, max, overlap, b);
        lemma_covered_in(none, own, rest, block, max);
        assert(none + own + rest =~= all);
    } else {
        let k = lemma_child_on_the_way(nodes, top, d);
        lemma_emit_all_covers(nodes, nodes[top].children, path, max, overlap, k, d, b);
        lemma_covered_in(own, rest, none, block, max);
        assert(own + rest + none =~= all);
    }
}

// ---------------------------------------------------------------------------
// Lines in blocks
// ---------------------------------------------------------------------------

/// Whether one of the sections has a block with this text in it.
pub open spec fn is_in_a_block(nodes: Seq<Section>, text: Seq<char>) -> bool {
    exists|n: int, b: int|
        0 <= n < nodes.len() && 0 <= b < nodes[n].blocks.len() && contains(
            #[trigger] nodes[n].blocks[b],
            text,
        )
}

/// Whether a line is text: it is not blank, and it is no heading, unless it stands in code.
pub open spec fn is_text_line(all: Seq<Seq<char>>, at: int) -> bool {
    let fence = read_lines(all.take(at)).fence;
    let line = all[at];
    has_ink(line) && (fence is Some || fence_after(line, fence) != fence || heading_of(line) is None)
}

proof fn lemma_kept_by_add_block(
    nodes: Seq<Section>,
    gathered: Seq<Seq<char>>,
    text: Seq<char>,
)
    requires
        nodes.len() > 0,
        is_in_a_block(nodes, text),
    ensures
        is_in_a_block(add_block(nodes, gathered), text),
{
    let (n, b) = choose|n: int, b: int|
        0 <= n < nodes.len() && 0 <= b < nodes[n].blocks.len() && contains(
            #[trigger] nodes[n].blocks[b],
            text,
        );
    assert(add_block(nodes, gathered)[n].blocks[b] == nodes[n].blocks[b]);
}

proof fn lemma_kept_by_open_section(nodes: Seq<Section>, heading: Heading, text: Seq<char>)
    requires
        nodes.len() > 0,
        is_in_a_block(nodes, text),
    ensures
        is_in_a_block(open_section(nodes, heading), text),
{
    let (n, b) = choose|n: int, b: int|
        0 <= n < nodes.len() && 0 <= b < nodes[n].blocks.len() && contains(
            #[trigger] nodes[n].blocks[b],
            text,
        );
    lemma_enclosing(nodes, heading.level);
    assert(open_section(nodes, heading)[n].blocks[b] == nodes[n].blocks[b]);
}

proof fn lemma_gathered_becomes_a_block(
    nodes: Seq<Section>,
    gathered: Seq<Seq<char>>,
    k: int,
)
    requires
        nodes.len() > 0,
        0 <= k < gathered.len(),
        has_ink(gathered[k]),
    ensures
        is_in_a_block(add_block(nodes, gathered), trim(gathered[k])),
{
    let whole = join(gathered, "\n"@);
    lemma_join_contains(gathered, "\n"@, k);
    lemma_contains_ink(whole, gathered[k]);
    lemma_contains_trimmed(whole, gathered[k]);
    let after = add_block(nodes, gathered);
    let last = nodes.len() - 1;
    assert(after[last].blocks[after[last].blocks.len() - 1] == trim(whole));
}

proof fn lemma_lines_are_gathered(all: Seq<Seq<char>>, at: int)
    requires
        0 <= at < all.len(),
        is_text_line(all, at),
    ensures
        is_in_a_block(read_lines(all).nodes, trim(all[at])) || read_lines(all).gathered.contains(
            all[at],
        ),
    decreases all.len(),
{
    let front = all.drop_last();
    let before = read_lines(front);
    let after = read_lines(all);
    let line = all[at];
    lemma_read_lines_ok(front);
    if at == all.len() - 1 {
        assert(all.take(at) =~= front);
        let ends = lemma_trim(line);
        assert(after.gathered[after.gathered.len() - 1] == line);
    } else {
        assert(front[at] == line);
        assert(front.take(at) =~= all.take(at));
        lemma_lines_are_gathered(front, at);
        let flushed = add_block(before.nodes, before.gathered);
        if before.gathered.contains(line) {
            let k = before.gathered.index_of(line);
            lemma_gathered_becomes_a_block(before.nodes, before.gathered, k);
            assert(before.gathered.push(all.last())[k] == line);
        } else {
            lemma_kept_by_add_block(before.nodes, before.gathered, trim(line));
        }
        match heading_of(all.last()) {
            Some(heading) => {
                lemma_kept_by_open_section(flushed, heading, trim(line));
            },
            None => {},
        }
    }
}

/// Every line of text stands in a block of one of the sections.
pub proof fn lemma_every_line_is_in_a_block(markdown: Seq<char>, at: int)
    requires
        0 <= at < lines(markdown).len(),
        is_text_line(lines(markdown), at),
    ensures
        is_in_a_block(section_tree(markdown), trim(lines(markdown)[at])),
{
    let all = lines(markdown);
    let end = read_lines(all);
    lemma_read_lines_ok(all);
    lemma_lines_are_gathered(all, at);
    if end.gathered.contains(all[at]) {
        lemma_gathered_becomes_a_block(end.nodes, end.gathered, end.gathered.index_of(all[at]));
    } else {
        lemma_kept_by_add_block(end.nodes, end.gathered, trim(all[at]));
    }
}

pub proof fn lemma_blocks_have_ink(all: Seq<Seq<char>>)
    ensures
        blocks_ok(read_lines(all).nodes),
    decreases all.len(),
{
    if all.len() > 0 {
        let before = read_lines(all.drop_last());
        lemma_blocks_have_ink(all.drop_last());
        lemma_read_lines_ok(all.drop_last());
        lemma_add_block_has_ink(before.nodes, before.gathered);
        let flushed = add_block(before.nodes, before.gathered);
        match heading_of(all.last()) {
            Some(heading) => {
                lemma_enclosing(flushed, heading.level);
                let opened = open_section(flushed, heading);
                assert forall|n: int, b: int|
                    0 <= n < opened.len() && 0 <= b < opened[n].blocks.len() implies has_ink(
                    #[trigger] opened[n].blocks[b],
                ) by {
                    assert(opened[n].blocks[b] == flushed[n].blocks[b]);
                }
            },
            None => {},
        }
    }
}

pub proof fn lemma_add_block_has_ink(nodes: Seq<Section>, gathered: Seq<Seq<char>>)
    requires
        nodes.len() > 0,
        blocks_ok(nodes),
    ensures
        blocks_ok(add_block(nodes, gathered)),
{
    let whole = join(gathered, "\n"@);
    let text = trim(whole);
    let ends = lemma_trim(whole);
    if text.len() > 0 {
        assert(text[0] == whole[ends.0]);
        assert(has_ink(text));
    }
    let after = add_block(nodes, gathered);
    let last = nodes.len() - 1;
    assert forall|n: int, b: int|
        0 <= n < after.len() && 0 <= b < after[n].blocks.len() implies has_ink(
        #[trigger] after[n].blocks[b],
    ) by {
        if n == last && b == nodes[last].blocks.len() {
            assert(after[n].blocks[b] == text);
        } else {
            assert(after[n].blocks[b] == nodes[n].blocks[b]);
        }
    }
}

// ---------------------------------------------------------------------------
// Laws
// ---------------------------------------------------------------------------

/// No block of any section of a note is missing from its chunks.
pub proof fn lemma_every_block_is_covered(
    markdown: Seq<char>,
    title: Seq<char>,
    max: nat,
    overlap: nat,
    section: int,
    block: int,
)
    requires
        0 <= section < section_tree(unix_newlines(markdown)).len(),
        0 <= block < section_tree(unix_newlines(markdown))[section].blocks.len(),
    ensures
        is_covered(
            chunk_model(markdown, title, max, overlap),
            section_tree(unix_newlines(markdown))[section].blocks[block],
            max,
        ),
{
    let text = unix_newlines(markdown);
    let nodes = section_tree(text);
    let end = read_lines(lines(text));
    lemma_section_tree_ok(text);
    lemma_read_lines_ok(lines(text));
    lemma_blocks_have_ink(lines(text));
    lemma_add_block_has_ink(end.nodes, end.gathered);
    lemma_tree_covers(nodes, title, max, overlap, section, block);
    let chunks = tree_chunks(nodes, title, max, overlap);
    let whole = nodes[section].blocks[block];
    assert(has_ink(whole));
    if chunks.len() == 0 {
        lemma_cut_is_not_empty(whole, max);
        assert(!is_told(chunks, whole));
        assert(is_told(chunks, split_block(whole, max)[0]));
    }
}

pub proof fn lemma_cut_is_not_empty(block: Seq<char>, max: nat)
    requires
        block.len() > 0,
    ensures
        split_block(block, max).len() > 0,
{
    let size: nat = if max == 0 {
        1
    } else {
        max
    };
    assert(stretches(block, size).len() > 0);
}

/// Whatever a note says, its chunks say: each of its lines that is neither blank nor a
/// heading stands in a block that the chunks hold, whole or, where it is too large for a
/// chunk, in pieces.
pub proof fn lemma_no_line_is_lost(
    markdown: Seq<char>,
    title: Seq<char>,
    max: nat,
    overlap: nat,
    at: int,
)
    requires
        0 <= at < lines(unix_newlines(markdown)).len(),
        is_text_line(lines(unix_newlines(markdown)), at),
    ensures
        exists|block: Seq<char>| #[trigger]
            contains(block, trim(lines(unix_newlines(markdown))[at])) && is_covered(
                chunk_model(markdown, title, max, overlap),
                block,
                max,
            ),
{
    let text = unix_newlines(markdown);
    let nodes = section_tree(text);
    let line = trim(lines(text)[at]);
    lemma_every_line_is_in_a_block(text, at);
    let (n, b) = choose|n: int, b: int|
        0 <= n < nodes.len() && 0 <= b < nodes[n].blocks.len() && contains(
            #[trigger] nodes[n].blocks[b],
            line,
        );
    lemma_every_block_is_covered(markdown, title, max, overlap, n, b);
    assert(contains(nodes[n].blocks[b], line));
}

/// A block that fits into a chunk stands in one as it is.
pub proof fn lemma_fitting_block_stays_whole(chunks: Seq<Chunk>, block: Seq<char>, max: nat)
    requires
        is_covered(chunks, block, max),
        block.len() <= max,
    ensures
        is_told(chunks, block),
{
    assert(split_block(block, max)[0] == block);
}

} // verus!
