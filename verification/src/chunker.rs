//! Context-aware chunks of a Markdown text.
//!
//! Top-level sections are retrieval boundaries. A section stays whole, with all
//! that lies in it, where it fits; only an oversized one is split at the headings
//! in it, and there sections that fit together share a chunk.
use crate::headings::{
    breadcrumb, copy_heading, copy_headings, folded, format_breadcrumb, frames, normalize_heading,
    Heading, HeadingFrame,
};
use crate::lines::{is_blank, trim, trimmed, unix_newlines, with_unix_newlines};
use crate::packing::{chunks_fit, chunks_of, lemma_pack_fits, pack, pack_blocks, Chunk, ChunkText};
use crate::sections::{
    children_ok, indices, lemma_section_tree_ok, parse_section_tree, render, render_subtree,
    section_tree, sections, tree_ok, Section, SectionNode,
};
use crate::text::{char_count, copy, opt_text, same, texts};
use vstd::prelude::*;

verus! {

// ---------------------------------------------------------------------------
// One section
// ---------------------------------------------------------------------------

/// The headings that lead to a section, itself last.
pub open spec fn path_to(nodes: Seq<Section>, id: int, ancestors: Seq<Heading>) -> Seq<Heading> {
    match nodes[id].heading {
        Some(heading) => ancestors.push(heading),
        None => ancestors,
    }
}

/// The chunks of the sections in one section so far, and the sections that the
/// next chunk gathers, with their text.
pub struct Grouping {
    pub done: Seq<Chunk>,
    pub members: Seq<int>,
    pub text: Seq<char>,
}

/// The chunks with the gathered one closed. Where it holds a single section, it
/// is labelled with that section.
pub open spec fn close_group(nodes: Seq<Section>, path: Seq<Heading>, group: Grouping) -> Seq<
    Chunk,
> {
    if group.members.len() == 0 {
        group.done
    } else {
        group.done.push(
            Chunk {
                heading: Some(
                    breadcrumb(
                        if group.members.len() == 1 {
                            path_to(nodes, group.members[0], path)
                        } else {
                            path
                        },
                    ),
                ),
                markdown: group.text,
            },
        )
    }
}

/// A gathered text with one more section.
pub open spec fn gathered_with(text: Seq<char>, more: Seq<char>) -> Seq<char> {
    if text.len() == 0 {
        more
    } else {
        text + "\n\n"@ + more
    }
}

/// The chunks of a section: one where all of it fits, else those of its own
/// blocks and then those of the sections in it.
pub open spec fn emit(
    nodes: Seq<Section>,
    id: int,
    ancestors: Seq<Heading>,
    max: nat,
    overlap: nat,
) -> Seq<Chunk>
    decreases nodes.len() - id, nodes[id].children.len() + 1,
{
    let path = path_to(nodes, id, ancestors);
    let label = Some(breadcrumb(path));
    let whole = render(nodes, id);
    if !(0 <= id < nodes.len()) {
        Seq::empty()
    } else if whole.len() <= max {
        seq![Chunk { heading: label, markdown: whole }]
    } else {
        let own = if nodes[id].blocks.len() == 0 {
            Seq::empty()
        } else {
            pack(nodes[id].blocks, label, max, overlap)
        };
        own + close_group(
            nodes,
            path,
            emit_children(nodes, id, path, nodes[id].children.len(), max, overlap),
        )
    }
}

/// The chunks of the first `n` sections in a section. One that fits is gathered
/// with those before it as long as they fit together; an oversized one is split.
pub open spec fn emit_children(
    nodes: Seq<Section>,
    id: int,
    path: Seq<Heading>,
    n: nat,
    max: nat,
    overlap: nat,
) -> Grouping
    decreases nodes.len() - id, n,
{
    if n == 0 || !(0 <= id < nodes.len()) {
        Grouping { done: Seq::empty(), members: Seq::empty(), text: Seq::empty() }
    } else {
        let before = emit_children(nodes, id, path, (n - 1) as nat, max, overlap);
        let child = nodes[id].children[n - 1];
        let text = render(nodes, child);
        if text.len() > max {
            Grouping {
                done: close_group(nodes, path, before) + if id < child < nodes.len() {
                    emit(nodes, child, path, max, overlap)
                } else {
                    Seq::empty()
                },
                members: Seq::empty(),
                text: Seq::empty(),
            }
        } else if gathered_with(before.text, text).len() > max {
            Grouping { done: close_group(nodes, path, before), members: seq![child], text }
        } else {
            Grouping {
                done: before.done,
                members: before.members.push(child),
                text: gathered_with(before.text, text),
            }
        }
    }
}

/// Closes the gathered chunk, if any.
fn flush_group(
    nodes: &Vec<SectionNode>,
    path: &Vec<HeadingFrame>,
    members: &Vec<usize>,
    text: &str,
    chunks: &mut Vec<ChunkText>,
    Ghost(start): Ghost<Seq<Chunk>>,
    Ghost(group): Ghost<Grouping>,
)
    requires
        indices(members@) == group.members,
        forall|k: int| 0 <= k < members.len() ==> #[trigger] members@[k] < nodes.len(),
        text@ == group.text,
        chunks_of(old(chunks)@) == start + group.done,
    ensures
        chunks_of(final(chunks)@) == start + close_group(
            sections(nodes@),
            frames(path@),
            group,
        ),
{
    if members.len() > 0 {
        let ghost before = chunks_of(chunks@);
        let mut label = copy_headings(path);
        if members.len() == 1 {
            match &nodes[members[0]].heading {
                Some(heading) => {
                    let ghost inner = frames(label@);
                    label.push(copy_heading(heading));
                    assert(frames(label@) =~= inner.push(heading@));
                },
                None => {},
            }
            assert(sections(nodes@)[members@[0] as int] == nodes@[members@[0] as int]@);
            assert(frames(label@) == path_to(
                sections(nodes@),
                group.members[0],
                frames(path@),
            ));
        }
        let last = ChunkText { heading: Some(format_breadcrumb(&label)), markdown: copy(text) };
        chunks.push(last);
        assert(chunks_of(chunks@) =~= before.push(last@));
        assert(before.push(last@) =~= start + close_group(
            sections(nodes@),
            frames(path@),
            group,
        ));
    }
}

/// Appends the chunks of a section.
pub fn emit_section_chunks(
    nodes: &Vec<SectionNode>,
    node_id: usize,
    ancestors: &Vec<HeadingFrame>,
    max_chars: usize,
    overlap: usize,
    chunks: &mut Vec<ChunkText>,
)
    requires
        tree_ok(sections(nodes@)),
        node_id < nodes.len(),
    ensures
        chunks_of(final(chunks)@) == chunks_of(old(chunks)@) + emit(
            sections(nodes@),
            node_id as int,
            frames(ancestors@),
            max_chars as nat,
            overlap as nat,
        ),
    decreases nodes.len() - node_id,
{
    let ghost model = sections(nodes@);
    let ghost section = model[node_id as int];
    let ghost id = node_id as int;
    let ghost max = max_chars as nat;
    let ghost lap = overlap as nat;
    let ghost outset = chunks_of(chunks@);
    assert(section == nodes@[node_id as int]@);
    assert(children_ok(model, id));
    let mut path = copy_headings(ancestors);
    match &nodes[node_id].heading {
        Some(heading) => {
            let ghost outer = frames(path@);
            path.push(copy_heading(heading));
            assert(frames(path@) =~= outer.push(heading@));
        },
        None => {},
    }
    assert(frames(path@) == path_to(model, id, frames(ancestors@)));
    let label: Option<String> = Some(format_breadcrumb(&path));
    let whole = render_subtree(nodes, node_id);
    if char_count(whole.as_str()) <= max_chars {
        let only = ChunkText { heading: label, markdown: whole };
        chunks.push(only);
        assert(chunks_of(chunks@) =~= outset.push(only@));
        assert(outset.push(only@) =~= outset + seq![only@]);
        return;
    }
    let ghost own = if section.blocks.len() == 0 {
        Seq::empty()
    } else {
        pack(section.blocks, opt_text(label), max, lap)
    };
    if nodes[node_id].blocks.len() > 0 {
        let mut packed = pack_blocks(&nodes[node_id].blocks, &label, max_chars, overlap);
        chunks.append(&mut packed);
        assert(chunks_of(chunks@) =~= outset + own);
    }
    let ghost start = outset + own;
    assert(chunks_of(chunks@) =~= start);
    let mut members: Vec<usize> = Vec::new();
    let mut text: String = String::new();
    let mut c: usize = 0;
    let ghost mut group = emit_children(model, id, frames(path@), 0, max, lap);
    assert(chunks_of(chunks@) =~= start + group.done);
    assert(indices(members@) =~= group.members);
    while c < nodes[node_id].children.len()
        invariant
            model == sections(nodes@),
            tree_ok(model),
            node_id < nodes.len(),
            id == node_id,
            section == model[id],
            section == nodes@[id]@,
            children_ok(model, id),
            max == max_chars,
            lap == overlap,
            c <= nodes@[id].children.len(),
            group == emit_children(model, id, frames(path@), c as nat, max, lap),
            indices(members@) == group.members,
            forall|k: int| 0 <= k < members.len() ==> #[trigger] members@[k] < nodes.len(),
            text@ == group.text,
            chunks_of(chunks@) == start + group.done,
        decreases nodes@[id].children.len() - c,
    {
        let child: usize = nodes[node_id].children[c];
        assert(section.children[c as int] == child);
        let child_text = render_subtree(nodes, child);
        let ghost next = emit_children(model, id, frames(path@), (c + 1) as nat, max, lap);
        if char_count(child_text.as_str()) > max_chars {
            flush_group(
                nodes,
                &path,
                &members,
                text.as_str(),
                chunks,
                Ghost(start),
                Ghost(group),
            );
            let ghost closed = chunks_of(chunks@);
            emit_section_chunks(nodes, child, &path, max_chars, overlap, chunks);
            assert(chunks_of(chunks@) =~= start + next.done);
            members = Vec::new();
            text = String::new();
        } else {
            let mut candidate: String = String::new();
            if text.as_str().is_empty() {
                candidate.append(child_text.as_str());
            } else {
                candidate.append(text.as_str());
                candidate.append("\n\n");
                candidate.append(child_text.as_str());
            }
            assert(candidate@ =~= gathered_with(group.text, child_text@));
            if char_count(candidate.as_str()) > max_chars {
                flush_group(
                    nodes,
                    &path,
                    &members,
                    text.as_str(),
                    chunks,
                    Ghost(start),
                    Ghost(group),
                );
                members = Vec::new();
                text = child_text;
            } else {
                text = candidate;
            }
            members.push(child);
        }
        proof {
            assert(indices(members@) =~= next.members);
            group = next;
        }
        c = c + 1;
    }
    flush_group(nodes, &path, &members, text.as_str(), chunks, Ghost(start), Ghost(group));
    assert(chunks_of(chunks@) =~= outset + emit(model, id, frames(ancestors@), max, lap));
}


// ---------------------------------------------------------------------------
// A whole text
// ---------------------------------------------------------------------------

/// Whether the only top-level section is the title of the note: a first-level
/// heading that reads like the title, with nothing before it and sections in it.
/// It then wraps the note, and the sections in it are the retrieval boundaries.
pub open spec fn is_title_wrapped(nodes: Seq<Section>, title: Seq<char>) -> bool {
    &&& nodes[0].children.len() == 1
    &&& nodes[0].blocks.len() == 0
    &&& nodes[nodes[0].children[0]].heading matches Some(heading) && heading.level == 1 && folded(
        heading.text,
    ) == folded(title)
    &&& nodes[nodes[0].children[0]].children.len() > 0
}

/// The chunks of the own blocks of a section.
pub open spec fn own_chunks(
    section: Section,
    label: Option<Seq<char>>,
    max: nat,
    overlap: nat,
) -> Seq<Chunk> {
    if section.blocks.len() == 0 {
        Seq::empty()
    } else {
        pack(section.blocks, label, max, overlap)
    }
}

/// The chunks of these sections, in order.
pub open spec fn emit_all(
    nodes: Seq<Section>,
    ids: Seq<int>,
    ancestors: Seq<Heading>,
    max: nat,
    overlap: nat,
) -> Seq<Chunk>
    decreases ids.len(),
{
    if ids.len() == 0 {
        Seq::empty()
    } else {
        emit_all(nodes, ids.drop_last(), ancestors, max, overlap) + emit(
            nodes,
            ids.last(),
            ancestors,
            max,
            overlap,
        )
    }
}

/// The chunks of a heading tree.
pub open spec fn tree_chunks(
    nodes: Seq<Section>,
    title: Seq<char>,
    max: nat,
    overlap: nat,
) -> Seq<Chunk> {
    if is_title_wrapped(nodes, title) {
        let wrapper = nodes[nodes[0].children[0]];
        let path = seq![wrapper.heading->0];
        own_chunks(wrapper, Some(breadcrumb(path)), max, overlap) + emit_all(
            nodes,
            wrapper.children,
            path,
            max,
            overlap,
        )
    } else {
        own_chunks(nodes[0], None, max, overlap) + emit_all(
            nodes,
            nodes[0].children,
            Seq::empty(),
            max,
            overlap,
        )
    }
}

/// The chunks of a Markdown text: those of its heading tree. A text of which
/// none comes, though it is not blank, is packed as one block.
pub open spec fn chunk_model(
    markdown: Seq<char>,
    title: Seq<char>,
    max: nat,
    overlap: nat,
) -> Seq<Chunk> {
    let text = unix_newlines(markdown);
    let chunks = tree_chunks(section_tree(text), title, max, overlap);
    if chunks.len() == 0 && trim(text).len() > 0 {
        pack(seq![trim(text)], None, max, overlap)
    } else {
        chunks
    }
}

/// Appends the chunks of the sections that lie in a section.
fn emit_children_of(
    nodes: &Vec<SectionNode>,
    id: usize,
    ancestors: &Vec<HeadingFrame>,
    max_chars: usize,
    overlap: usize,
    chunks: &mut Vec<ChunkText>,
)
    requires
        tree_ok(sections(nodes@)),
        id < nodes.len(),
    ensures
        chunks_of(final(chunks)@) == chunks_of(old(chunks)@) + emit_all(
            sections(nodes@),
            sections(nodes@)[id as int].children,
            frames(ancestors@),
            max_chars as nat,
            overlap as nat,
        ),
{
    let ghost model = sections(nodes@);
    let ghost ids = model[id as int].children;
    let ghost start = chunks_of(chunks@);
    let mut i: usize = 0;
    assert(model[id as int] == nodes@[id as int]@);
    assert(children_ok(model, id as int));
    assert(chunks_of(chunks@) =~= start + emit_all(
        model,
        ids.take(0),
        frames(ancestors@),
        max_chars as nat,
        overlap as nat,
    ));
    while i < nodes[id].children.len()
        invariant
            model == sections(nodes@),
            tree_ok(model),
            id < nodes.len(),
            children_ok(model, id as int),
            model[id as int] == nodes@[id as int]@,
            ids == model[id as int].children,
            i <= ids.len(),
            chunks_of(chunks@) == start + emit_all(
                model,
                ids.take(i as int),
                frames(ancestors@),
                max_chars as nat,
                overlap as nat,
            ),
        decreases ids.len() - i,
    {
        let child: usize = nodes[id].children[i];
        assert(ids[i as int] == child);
        assert(ids.take(i + 1).drop_last() =~= ids.take(i as int));
        emit_section_chunks(nodes, child, ancestors, max_chars, overlap, chunks);
        assert(chunks_of(chunks@) =~= start + emit_all(
            model,
            ids.take(i + 1),
            frames(ancestors@),
            max_chars as nat,
            overlap as nat,
        ));
        i = i + 1;
    }
    assert(ids.take(i as int) =~= ids);
}

/// The only top-level section, where it wraps the note.
fn title_wrapper(nodes: &Vec<SectionNode>, title: &str) -> (r: Option<usize>)
    requires
        tree_ok(sections(nodes@)),
    ensures
        r is Some == is_title_wrapped(sections(nodes@), title@),
        r is Some ==> r->0 == sections(nodes@)[0].children[0] && r->0 < nodes.len(),
{
    let ghost model = sections(nodes@);
    assert(model[0] == nodes@[0]@);
    assert(children_ok(model, 0));
    if nodes[0].children.len() != 1 || nodes[0].blocks.len() != 0 {
        return None;
    }
    let wrapper: usize = nodes[0].children[0];
    assert(model[0].children[0] == wrapper);
    assert(model[wrapper as int] == nodes@[wrapper as int]@);
    match &nodes[wrapper].heading {
        Some(heading) => {
            let reads_title: bool = same(
                normalize_heading(heading.text.as_str()).as_str(),
                normalize_heading(title).as_str(),
            );
            if heading.level == 1 && reads_title && nodes[wrapper].children.len() > 0 {
                Some(wrapper)
            } else {
                None
            }
        },
        None => None,
    }
}

/// The chunks of a Markdown text.
pub fn chunk_markdown(markdown: &str, title: &str, max_chars: usize, overlap: usize) -> (chunks:
    Vec<ChunkText>)
    ensures
        chunks_of(chunks@) == chunk_model(
            markdown@,
            title@,
            max_chars as nat,
            overlap as nat,
        ),
{
    let normalized = with_unix_newlines(markdown);
    let nodes = parse_section_tree(normalized.as_str());
    let ghost model = sections(nodes@);
    let ghost max = max_chars as nat;
    let ghost lap = overlap as nat;
    assert(model[0] == nodes@[0]@);
    let mut chunks: Vec<ChunkText> = Vec::new();
    let mut path: Vec<HeadingFrame> = Vec::new();
    assert(frames(path@) =~= Seq::<Heading>::empty());
    match title_wrapper(&nodes, title) {
        Some(wrapper) => {
            assert(model[wrapper as int] == nodes@[wrapper as int]@);
            match &nodes[wrapper].heading {
                Some(heading) => {
                    path.push(copy_heading(heading));
                    assert(frames(path@) =~= seq![heading@]);
                },
                None => {},
            }
            if nodes[wrapper].blocks.len() > 0 {
                let label: Option<String> = Some(format_breadcrumb(&path));
                chunks = pack_blocks(&nodes[wrapper].blocks, &label, max_chars, overlap);
            }
            assert(chunks_of(chunks@) =~= own_chunks(
                model[wrapper as int],
                Some(breadcrumb(frames(path@))),
                max,
                lap,
            ));
            emit_children_of(&nodes, wrapper, &path, max_chars, overlap, &mut chunks);
        },
        None => {
            if nodes[0].blocks.len() > 0 {
                chunks = pack_blocks(&nodes[0].blocks, &None, max_chars, overlap);
            }
            assert(chunks_of(chunks@) =~= own_chunks(model[0], None, max, lap));
            emit_children_of(&nodes, 0, &path, max_chars, overlap, &mut chunks);
        },
    }
    assert(chunks_of(chunks@) == tree_chunks(model, title@, max, lap));
    if chunks.len() == 0 && !is_blank(normalized.as_str()) {
        let mut whole: Vec<String> = Vec::new();
        whole.push(trimmed(normalized.as_str()));
        assert(texts(whole@) =~= seq![trim(normalized@)]);
        return pack_blocks(&whole, &None, max_chars, overlap);
    }
    chunks
}

// ---------------------------------------------------------------------------
// Laws
// ---------------------------------------------------------------------------

/// A section that fits is one chunk, with all the sections that lie in it,
/// labelled with the headings that lead to it.
pub proof fn lemma_fitting_section_is_one_chunk(
    nodes: Seq<Section>,
    id: int,
    ancestors: Seq<Heading>,
    max: nat,
    overlap: nat,
)
    requires
        0 <= id < nodes.len(),
        render(nodes, id).len() <= max,
    ensures
        emit(nodes, id, ancestors, max, overlap) == seq![
            Chunk {
                heading: Some(breadcrumb(path_to(nodes, id, ancestors))),
                markdown: render(nodes, id),
            },
        ],
{
}

/// Whatever the text and its title, no chunk is larger than the limit.
pub proof fn lemma_chunks_fit(markdown: Seq<char>, title: Seq<char>, max: nat, overlap: nat)
    requires
        max > 0,
    ensures
        chunks_fit(chunk_model(markdown, title, max, overlap), max),
{
    let text = unix_newlines(markdown);
    let nodes = section_tree(text);
    lemma_section_tree_ok(text);
    lemma_pack_fits(seq![trim(text)], None, max, overlap);
    lemma_pack_fits(nodes[0].blocks, None, max, overlap);
    lemma_emit_all_fits(nodes, nodes[0].children, Seq::empty(), max, overlap);
    let wrapper = nodes[nodes[0].children[0]];
    let path = seq![wrapper.heading->0];
    lemma_pack_fits(wrapper.blocks, Some(breadcrumb(path)), max, overlap);
    lemma_emit_all_fits(nodes, wrapper.children, path, max, overlap);
}

proof fn lemma_emit_all_fits(
    nodes: Seq<Section>,
    ids: Seq<int>,
    ancestors: Seq<Heading>,
    max: nat,
    overlap: nat,
)
    requires
        max > 0,
    ensures
        chunks_fit(emit_all(nodes, ids, ancestors, max, overlap), max),
    decreases ids.len(),
{
    if ids.len() > 0 {
        lemma_emit_all_fits(nodes, ids.drop_last(), ancestors, max, overlap);
        lemma_emit_fits(nodes, ids.last(), ancestors, max, overlap);
    }
}

proof fn lemma_emit_fits(
    nodes: Seq<Section>,
    id: int,
    ancestors: Seq<Heading>,
    max: nat,
    overlap: nat,
)
    requires
        max > 0,
    ensures
        chunks_fit(emit(nodes, id, ancestors, max, overlap), max),
    decreases nodes.len() - id, nodes[id].children.len() + 1,
{
    let path = path_to(nodes, id, ancestors);
    if 0 <= id < nodes.len() && render(nodes, id).len() > max {
        lemma_pack_fits(nodes[id].blocks, Some(breadcrumb(path)), max, overlap);
        lemma_emit_children_fits(nodes, id, path, nodes[id].children.len(), max, overlap);
    }
}

proof fn lemma_emit_children_fits(
    nodes: Seq<Section>,
    id: int,
    path: Seq<Heading>,
    n: nat,
    max: nat,
    overlap: nat,
)
    requires
        max > 0,
    ensures
        chunks_fit(emit_children(nodes, id, path, n, max, overlap).done, max),
        emit_children(nodes, id, path, n, max, overlap).text.len() <= max,
    decreases nodes.len() - id, n,
{
    if n > 0 && 0 <= id < nodes.len() {
        lemma_emit_children_fits(nodes, id, path, (n - 1) as nat, max, overlap);
        let child = nodes[id].children[n - 1];
        if id < child < nodes.len() {
            lemma_emit_fits(nodes, child, path, max, overlap);
        }
    }
}

} // verus!
