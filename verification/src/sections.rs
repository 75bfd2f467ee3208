//! The heading tree of a Markdown text.
//!
//! Section 0 is the root, which holds what stands before the first heading. Every
//! other section belongs to a heading line outside of fenced code, in the order
//! of those lines, and lies under the nearest section before it with a smaller
//! level.
use crate::headings::{
    fence_after, heading_of, next_fence_state, parse_heading, Heading, HeadingFrame, OpenFence,
};
use crate::lines::{is_blank, join, joined, lines, lines_of, trim, trimmed};
use crate::packing::paragraphs;
use crate::text::{copy, texts};
use vstd::prelude::*;

verus! {

/// A section: the section it lies in, its heading, its own blocks of text and the
/// sections that lie in it.
pub struct Section {
    pub parent: Option<int>,
    pub heading: Option<Heading>,
    pub blocks: Seq<Seq<char>>,
    pub children: Seq<int>,
}

/// A section as it is held at run time.
#[derive(Debug)]
pub struct SectionNode {
    pub parent: Option<usize>,
    pub heading: Option<HeadingFrame>,
    pub blocks: Vec<String>,
    pub children: Vec<usize>,
}

/// The model of an optional heading.
pub open spec fn opt_heading(h: Option<HeadingFrame>) -> Option<Heading> {
    match h {
        Some(frame) => Some(frame@),
        None => None,
    }
}

/// The model of a vector of section numbers.
pub open spec fn indices(v: Seq<usize>) -> Seq<int> {
    v.map_values(|n: usize| n as int)
}

impl View for SectionNode {
    type V = Section;

    open spec fn view(&self) -> Section {
        Section {
            parent: match self.parent {
                Some(p) => Some(p as int),
                None => None,
            },
            heading: opt_heading(self.heading),
            blocks: texts(self.blocks@),
            children: indices(self.children@),
        }
    }
}

/// The model of a vector of sections.
pub open spec fn sections(v: Seq<SectionNode>) -> Seq<Section> {
    v.map_values(|n: SectionNode| n@)
}

// ---------------------------------------------------------------------------
// The tree
// ---------------------------------------------------------------------------

/// The level of a section; the root has level 0.
pub open spec fn level_of(section: Section) -> nat {
    match section.heading {
        Some(heading) => heading.level,
        None => 0,
    }
}

/// The last section with a smaller level, the root where there is no other.
pub open spec fn enclosing(nodes: Seq<Section>, level: nat) -> int
    decreases nodes.len(),
{
    if nodes.len() <= 1 {
        0
    } else if level_of(nodes.last()) < level {
        nodes.len() - 1
    } else {
        enclosing(nodes.drop_last(), level)
    }
}

/// The sections before anything was read.
pub open spec fn root_only() -> Seq<Section> {
    seq![
        Section {
            parent: None,
            heading: None,
            blocks: Seq::empty(),
            children: Seq::empty(),
        },
    ]
}

/// The sections with one more, that a heading opens.
pub open spec fn open_section(nodes: Seq<Section>, heading: Heading) -> Seq<Section> {
    let parent = enclosing(nodes, heading.level);
    nodes.update(
        parent,
        Section { children: nodes[parent].children.push(nodes.len() as int), ..nodes[parent] },
    ).push(
        Section {
            parent: Some(parent),
            heading: Some(heading),
            blocks: Seq::empty(),
            children: Seq::empty(),
        },
    )
}

/// The sections with the gathered lines as one more block of the last section,
/// unless the lines are blank.
pub open spec fn add_block(nodes: Seq<Section>, gathered: Seq<Seq<char>>) -> Seq<Section> {
    let text = trim(join(gathered, "\n"@));
    if text.len() == 0 {
        nodes
    } else {
        let last = nodes.len() - 1;
        nodes.update(last, Section { blocks: nodes[last].blocks.push(text), ..nodes[last] })
    }
}

/// What reading a text has led to: the sections, the lines of the block that
/// still grows, and the code fence that is open.
pub struct Reading {
    pub nodes: Seq<Section>,
    pub gathered: Seq<Seq<char>>,
    pub fence: Option<OpenFence>,
}

/// What one more line leads to. Within a fence, and on the lines that open or
/// close one, a line is only gathered; elsewhere a heading opens a section, a
/// blank line ends the block, and any other line is gathered.
pub open spec fn read_line(before: Reading, line: Seq<char>) -> Reading {
    let fence = fence_after(line, before.fence);
    if before.fence is Some || fence != before.fence {
        Reading { nodes: before.nodes, gathered: before.gathered.push(line), fence }
    } else {
        match heading_of(line) {
            Some(heading) => Reading {
                nodes: open_section(add_block(before.nodes, before.gathered), heading),
                gathered: Seq::empty(),
                fence,
            },
            None => if trim(line).len() == 0 {
                Reading {
                    nodes: add_block(before.nodes, before.gathered),
                    gathered: Seq::empty(),
                    fence,
                }
            } else {
                Reading { nodes: before.nodes, gathered: before.gathered.push(line), fence }
            },
        }
    }
}

/// What reading these lines leads to.
pub open spec fn read_lines(all: Seq<Seq<char>>) -> Reading
    decreases all.len(),
{
    if all.len() == 0 {
        Reading { nodes: root_only(), gathered: Seq::empty(), fence: None }
    } else {
        read_line(read_lines(all.drop_last()), all.last())
    }
}

/// The sections of a text.
pub open spec fn section_tree(markdown: Seq<char>) -> Seq<Section> {
    let end = read_lines(lines(markdown));
    add_block(end.nodes, end.gathered)
}

/// What holds of the children of one section: they come after it, in ascending
/// order, and name it as their parent.
pub open spec fn children_ok(nodes: Seq<Section>, p: int) -> bool {
    let children = nodes[p].children;
    &&& forall|i: int|
        0 <= i < children.len() ==> p < #[trigger] children[i] < nodes.len()
            && nodes[children[i]].parent == Some(p)
    &&& forall|i: int, j: int| 0 <= i < j < children.len() ==> children[i] < children[j]
}

/// What holds of a section other than the root: it has a heading, and it lies in
/// the nearest section before it with a smaller level.
pub open spec fn section_ok(nodes: Seq<Section>, k: int) -> bool {
    &&& nodes[k].heading is Some
    &&& nodes[k].parent is Some
    &&& 0 <= nodes[k].parent->0 < k
    &&& level_of(nodes[nodes[k].parent->0]) < level_of(nodes[k]) || nodes[k].parent->0 == 0
    &&& forall|j: int|
        nodes[k].parent->0 < j < k ==> level_of(#[trigger] nodes[j]) >= level_of(nodes[k])
    &&& nodes[nodes[k].parent->0].children.contains(k)
}

/// The invariant of a heading tree.
pub open spec fn tree_ok(nodes: Seq<Section>) -> bool {
    &&& nodes.len() >= 1
    &&& nodes[0].heading is None
    &&& nodes[0].parent is None
    &&& forall|k: int| 1 <= k < nodes.len() ==> #[trigger] section_ok(nodes, k)
    &&& forall|p: int| 0 <= p < nodes.len() ==> #[trigger] children_ok(nodes, p)
}

/// The enclosing section is the nearest before the end with a smaller level.
pub proof fn lemma_enclosing(nodes: Seq<Section>, level: nat)
    requires
        nodes.len() >= 1,
    ensures
        0 <= enclosing(nodes, level) < nodes.len(),
        enclosing(nodes, level) == 0 || level_of(nodes[enclosing(nodes, level)]) < level,
        forall|j: int|
            enclosing(nodes, level) < j < nodes.len() ==> level_of(#[trigger] nodes[j]) >= level,
    decreases nodes.len(),
{
    if nodes.len() > 1 && level_of(nodes.last()) >= level {
        let before = nodes.drop_last();
        lemma_enclosing(before, level);
        assert forall|j: int| enclosing(nodes, level) < j < nodes.len() implies level_of(
            #[trigger] nodes[j],
        ) >= level by {
            if j < before.len() {
                assert(before[j] == nodes[j]);
            }
        }
        assert(before[enclosing(before, level)] == nodes[enclosing(before, level)]);
    }
}

/// A section with these properties is the enclosing one.
proof fn lemma_enclosing_unique(nodes: Seq<Section>, level: nat, at: int)
    requires
        0 <= at < nodes.len(),
        at == 0 || level_of(nodes[at]) < level,
        forall|j: int| at < j < nodes.len() ==> level_of(#[trigger] nodes[j]) >= level,
    ensures
        enclosing(nodes, level) == at,
    decreases nodes.len(),
{
    if nodes.len() > 1 && at < nodes.len() - 1 {
        let before = nodes.drop_last();
        assert(level_of(nodes[nodes.len() - 1]) >= level);
        assert forall|j: int| at < j < before.len() implies level_of(#[trigger] before[j])
            >= level by {
            assert(before[j] == nodes[j]);
        }
        assert(before[at] == nodes[at]);
        lemma_enclosing_unique(before, level, at);
    }
}

/// Opening a section keeps the tree in order.
pub proof fn lemma_open_section_ok(nodes: Seq<Section>, heading: Heading)
    requires
        tree_ok(nodes),
    ensures
        tree_ok(open_section(nodes, heading)),
        open_section(nodes, heading).len() == nodes.len() + 1,
{
    lemma_enclosing(nodes, heading.level);
    let parent = enclosing(nodes, heading.level);
    let after = open_section(nodes, heading);
    let n = nodes.len() as int;
    assert(children_ok(nodes, parent));
    assert forall|k: int| 1 <= k < after.len() implies #[trigger] section_ok(after, k) by {
        if k < n {
            assert(section_ok(nodes, k));
            let p = nodes[k].parent->0;
            assert(after[p].children.contains(k)) by {
                let at = nodes[p].children.index_of(k);
                assert(nodes[p].children[at] == k);
                assert(after[p].children[at] == k);
            }
            assert forall|j: int| p < j < k implies level_of(#[trigger] after[j]) >= level_of(
                after[k],
            ) by {
                assert(level_of(nodes[j]) >= level_of(nodes[k]));
            }
        } else {
            assert(after[parent].children.contains(n)) by {
                assert(after[parent].children[after[parent].children.len() - 1] == n);
            }
            assert forall|j: int| parent < j < k implies level_of(#[trigger] after[j])
                >= level_of(after[k]) by {
                assert(level_of(nodes[j]) >= heading.level);
            }
        }
    }
    assert forall|p: int| 0 <= p < after.len() implies #[trigger] children_ok(after, p) by {
        if p < n {
            assert(children_ok(nodes, p));
            let children = after[p].children;
            assert forall|i: int| 0 <= i < children.len() implies p < #[trigger] children[i]
                < after.len() && after[children[i]].parent == Some(p) by {
                if i < nodes[p].children.len() {
                    assert(children[i] == nodes[p].children[i]);
                }
            }
            assert forall|i: int, j: int| 0 <= i < j < children.len() implies children[i]
                < children[j] by {
                if j < nodes[p].children.len() {
                    assert(nodes[p].children[i] < nodes[p].children[j]);
                } else {
                    assert(children[i] == nodes[p].children[i]);
                }
            }
        }
    }
}

/// Adding a block keeps the tree in order.
pub proof fn lemma_add_block_ok(nodes: Seq<Section>, gathered: Seq<Seq<char>>)
    requires
        tree_ok(nodes),
    ensures
        tree_ok(add_block(nodes, gathered)),
        add_block(nodes, gathered).len() == nodes.len(),
{
    let after = add_block(nodes, gathered);
    assert forall|k: int| 0 <= k < nodes.len() implies after[k].heading == nodes[k].heading
        && after[k].parent == nodes[k].parent && after[k].children == nodes[k].children by {}
    assert forall|k: int| 1 <= k < after.len() implies #[trigger] section_ok(after, k) by {
        assert(section_ok(nodes, k));
        assert forall|j: int| after[k].parent->0 < j < k implies level_of(#[trigger] after[j])
            >= level_of(after[k]) by {
            assert(level_of(nodes[j]) >= level_of(nodes[k]));
        }
    }
    assert forall|p: int| 0 <= p < after.len() implies #[trigger] children_ok(after, p) by {
        assert(children_ok(nodes, p));
    }
}

/// Reading lines keeps the tree in order.
pub proof fn lemma_read_lines_ok(all: Seq<Seq<char>>)
    ensures
        tree_ok(read_lines(all).nodes),
    decreases all.len(),
{
    if all.len() > 0 {
        let before = read_lines(all.drop_last());
        lemma_read_lines_ok(all.drop_last());
        lemma_add_block_ok(before.nodes, before.gathered);
        match heading_of(all.last()) {
            Some(heading) => {
                lemma_open_section_ok(add_block(before.nodes, before.gathered), heading);
            },
            None => {},
        }
    }
}

/// The sections of any text form a heading tree: every section but the root lies
/// in the nearest section before it with a smaller level.
pub proof fn lemma_section_tree_ok(markdown: Seq<char>)
    ensures
        tree_ok(section_tree(markdown)),
{
    let end = read_lines(lines(markdown));
    lemma_read_lines_ok(lines(markdown));
    lemma_add_block_ok(end.nodes, end.gathered);
}

/// Within a code fence no line opens a section, whatever it reads; nor does a
/// line that opens or closes the fence.
pub proof fn lemma_fenced_lines_open_no_section(before: Reading, line: Seq<char>)
    requires
        before.fence is Some || fence_after(line, before.fence) is Some,
    ensures
        read_line(before, line).nodes == before.nodes,
{
}

/// A blank line leaves an open code fence open.
pub proof fn lemma_blank_line_keeps_fence(line: Seq<char>, open: Option<OpenFence>)
    requires
        trim(line).len() == 0,
    ensures
        fence_after(line, open) == open,
{
    lemma_blank_has_no_body(line);
}

proof fn lemma_blank_has_no_body(line: Seq<char>)
    requires
        trim(line).len() == 0,
    ensures
        crate::lines::trim_start(line).len() == 0,
    decreases line.len(),
{
    let body = crate::lines::trim_start(line);
    if line.len() > 0 && crate::text::is_white_space(line[0]) {
        lemma_blank_has_no_body(line.drop_first());
    } else if body.len() > 0 {
        lemma_trim_end_keeps_front(body);
    }
}

proof fn lemma_trim_end_keeps_front(s: Seq<char>)
    requires
        s.len() > 0,
        !crate::text::is_white_space(s[0]),
    ensures
        crate::lines::trim_end(s).len() > 0,
    decreases s.len(),
{
    if crate::text::is_white_space(s.last()) {
        lemma_trim_end_keeps_front(s.drop_last());
    }
}

// ---------------------------------------------------------------------------
// Reading a text
// ---------------------------------------------------------------------------

/// The gathered lines as one more block of the last section.
fn flush(nodes: &mut Vec<SectionNode>, gathered: &Vec<String>)
    requires
        old(nodes).len() >= 1,
    ensures
        sections(final(nodes)@) == add_block(sections(old(nodes)@), texts(gathered@)),
        final(nodes).len() == old(nodes).len(),
{
    let text = trimmed(joined(gathered, "\n").as_str());
    if !text.as_str().is_empty() {
        let last: usize = nodes.len() - 1;
        let ghost before = nodes@;
        let ghost block = text@;
        match nodes.pop() {
            Some(mut node) => {
                let ghost old_node = node;
                node.blocks.push(text);
                assert(texts(node.blocks@) =~= texts(old_node.blocks@).push(block));
                nodes.push(node);
                assert(sections(nodes@) =~= add_block(sections(before), texts(gathered@)));
            },
            None => {},
        }
    }
}

/// Climbs from the last section to the nearest one with a smaller level.
fn climb(nodes: &Vec<SectionNode>, level: usize) -> (at: usize)
    requires
        tree_ok(sections(nodes@)),
        level >= 1,
    ensures
        at == enclosing(sections(nodes@), level as nat),
        at < nodes.len(),
{
    let ghost model = sections(nodes@);
    let mut at: usize = nodes.len() - 1;
    let mut climbing: bool = true;
    while climbing
        invariant
            model == sections(nodes@),
            tree_ok(model),
            level >= 1,
            at < nodes.len(),
            forall|j: int| at < j < model.len() ==> level_of(#[trigger] model[j]) >= level,
            !climbing ==> at == 0 || level_of(model[at as int]) < level,
        decreases at, (if climbing { 1int } else { 0int }),
    {
        assert(model[at as int] == nodes@[at as int]@);
        if at == 0 {
            climbing = false;
        } else {
            assert(section_ok(model, at as int));
            let higher: bool = match &nodes[at].heading {
                Some(active) => active.level >= level,
                None => false,
            };
            if !higher {
                climbing = false;
            } else {
                match nodes[at].parent {
                    Some(parent) => {
                        assert forall|j: int| parent < j < model.len() implies level_of(
                            #[trigger] model[j],
                        ) >= level by {}
                        at = parent;
                    },
                    None => {
                        climbing = false;
                    },
                }
            }
        }
    }
    proof {
        lemma_enclosing_unique(model, level as nat, at as int);
    }
    at
}

/// Opens the section of a heading.
fn push_section(nodes: &mut Vec<SectionNode>, heading: HeadingFrame)
    requires
        tree_ok(sections(old(nodes)@)),
        heading.level >= 1,
    ensures
        sections(final(nodes)@) == open_section(sections(old(nodes)@), heading@),
        final(nodes).len() == old(nodes).len() + 1,
{
    let parent: usize = climb(nodes, heading.level);
    let id: usize = nodes.len();
    let ghost before = sections(nodes@);
    let ghost old_nodes = nodes@;
    let mut children: Vec<usize> = Vec::new();
    children.append(&mut nodes[parent].children);
    let ghost old_children = children@;
    children.push(id);
    nodes[parent].children = children;
    nodes.push(
        SectionNode {
            parent: Some(parent),
            heading: Some(heading),
            blocks: Vec::new(),
            children: Vec::new(),
        },
    );
    proof {
        assert(indices(old_children) =~= before[parent as int].children);
        assert(indices(old_children.push(id)) =~= before[parent as int].children.push(id as int));
        assert(sections(nodes@)[parent as int].children =~= before[parent as int].children.push(
            id as int,
        ));
        assert(sections(nodes@).last().blocks =~= Seq::<Seq<char>>::empty());
        assert(sections(nodes@).last().children =~= Seq::<int>::empty());
        assert(sections(nodes@) =~= open_section(before, heading@));
    }
}

/// The sections of a text.
pub fn parse_section_tree(markdown: &str) -> (nodes: Vec<SectionNode>)
    ensures
        sections(nodes@) == section_tree(markdown@),
        tree_ok(sections(nodes@)),
{
    let all = lines_of(markdown);
    let ghost model = texts(all@);
    let mut nodes: Vec<SectionNode> = Vec::new();
    nodes.push(
        SectionNode { parent: None, heading: None, blocks: Vec::new(), children: Vec::new() },
    );
    let mut gathered: Vec<String> = Vec::new();
    let mut fence: Option<OpenFence> = None;
    let mut i: usize = 0;
    proof {
        assert(sections(nodes@)[0].blocks =~= Seq::<Seq<char>>::empty());
        assert(sections(nodes@)[0].children =~= Seq::<int>::empty());
        assert(sections(nodes@) =~= root_only());
        assert(texts(gathered@) =~= Seq::<Seq<char>>::empty());
    }
    while i < all.len()
        invariant
            i <= all.len(),
            model == texts(all@),
            sections(nodes@) == read_lines(model.take(i as int)).nodes,
            texts(gathered@) == read_lines(model.take(i as int)).gathered,
            fence == read_lines(model.take(i as int)).fence,
            nodes.len() >= 1,
        decreases all.len() - i,
    {
        let ghost before = read_lines(model.take(i as int));
        proof {
            assert(model.take(i + 1).drop_last() =~= model.take(i as int));
            lemma_read_lines_ok(model.take(i as int));
            lemma_add_block_ok(before.nodes, before.gathered);
        }
        let next_fence: Option<OpenFence> = next_fence_state(all[i].as_str(), fence);
        let ghost line = model[i as int];
        let moved: bool = match (&fence, &next_fence) {
            (None, None) => false,
            _ => true,
        };
        if moved {
            gathered.push(all[i].clone());
            assert(texts(gathered@) =~= before.gathered.push(line));
            fence = next_fence;
        } else {
            match parse_heading(all[i].as_str()) {
                Some(heading) => {
                    flush(&mut nodes, &gathered);
                    gathered = Vec::new();
                    push_section(&mut nodes, heading);
                    assert(texts(gathered@) =~= Seq::<Seq<char>>::empty());
                },
                None => {
                    if is_blank(all[i].as_str()) {
                        flush(&mut nodes, &gathered);
                        gathered = Vec::new();
                        assert(texts(gathered@) =~= Seq::<Seq<char>>::empty());
                    } else {
                        gathered.push(all[i].clone());
                        assert(texts(gathered@) =~= before.gathered.push(line));
                    }
                },
            }
        }
        i = i + 1;
    }
    assert(model.take(i as int) =~= model);
    flush(&mut nodes, &gathered);
    proof {
        lemma_section_tree_ok(markdown@);
    }
    nodes
}

// ---------------------------------------------------------------------------
// Rendering a subtree
// ---------------------------------------------------------------------------

/// The line of a heading.
pub open spec fn heading_line(heading: Heading) -> Seq<char> {
    Seq::new(heading.level, |i: int| '#').push(' ') + heading.text
}

/// What a section itself holds: its heading line and its blocks.
pub open spec fn own_parts(section: Section) -> Seq<Seq<char>> {
    match section.heading {
        Some(heading) => seq![heading_line(heading)] + section.blocks,
        None => section.blocks,
    }
}

/// The parts that are not blank.
pub open spec fn visible(parts: Seq<Seq<char>>) -> Seq<Seq<char>>
    decreases parts.len(),
{
    if parts.len() == 0 {
        parts
    } else if trim(parts.last()).len() == 0 {
        visible(parts.drop_last())
    } else {
        visible(parts.drop_last()).push(parts.last())
    }
}

/// A section with all that lies in it, as one text.
pub open spec fn render(nodes: Seq<Section>, id: int) -> Seq<char>
    decreases nodes.len() - id, nodes[id].children.len() + 1,
{
    if 0 <= id < nodes.len() {
        paragraphs(
            visible(own_parts(nodes[id]) + child_texts(nodes, id, nodes[id].children.len())),
        )
    } else {
        Seq::empty()
    }
}

/// The texts of the first `n` sections that lie in a section.
pub open spec fn child_texts(nodes: Seq<Section>, id: int, n: nat) -> Seq<Seq<char>>
    decreases nodes.len() - id, n,
{
    if n == 0 || !(0 <= id < nodes.len()) {
        Seq::empty()
    } else {
        let child = nodes[id].children[n - 1];
        child_texts(nodes, id, (n - 1) as nat).push(
            if id < child < nodes.len() {
                render(nodes, child)
            } else {
                Seq::empty()
            },
        )
    }
}

/// The line of a heading.
fn render_heading(heading: &HeadingFrame) -> (out: String)
    ensures
        out@ == heading_line(heading@),
{
    let mut out: String = String::new();
    let mut i: usize = 0;
    while i < heading.level
        invariant
            i <= heading.level,
            out@ == Seq::new(i as nat, |k: int| '#'),
        decreases heading.level - i,
    {
        out.push('#');
        assert(out@ =~= Seq::new((i + 1) as nat, |k: int| '#'));
        i = i + 1;
    }
    out.push(' ');
    out.append(heading.text.as_str());
    out
}

/// The parts that are not blank, with an empty line between each two.
fn joined_visible(parts: &Vec<String>) -> (out: String)
    ensures
        out@ == paragraphs(visible(texts(parts@))),
{
    let ghost all = texts(parts@);
    let mut kept: Vec<String> = Vec::new();
    let mut i: usize = 0;
    assert(texts(kept@) =~= visible(all.take(0)));
    while i < parts.len()
        invariant
            i <= parts.len(),
            all == texts(parts@),
            texts(kept@) == visible(all.take(i as int)),
        decreases parts.len() - i,
    {
        assert(all.take(i + 1).drop_last() =~= all.take(i as int));
        if !is_blank(parts[i].as_str()) {
            kept.push(parts[i].clone());
            assert(texts(kept@) =~= visible(all.take(i + 1)));
        }
        i = i + 1;
    }
    assert(all.take(i as int) =~= all);
    joined(&kept, "\n\n")
}

/// A section with all that lies in it, as one text.
pub fn render_subtree(nodes: &Vec<SectionNode>, node_id: usize) -> (out: String)
    requires
        tree_ok(sections(nodes@)),
        node_id < nodes.len(),
    ensures
        out@ == render(sections(nodes@), node_id as int),
    decreases nodes.len() - node_id,
{
    let ghost model = sections(nodes@);
    let ghost section = model[node_id as int];
    assert(section == nodes@[node_id as int]@);
    assert(children_ok(model, node_id as int));
    let mut parts: Vec<String> = Vec::new();
    match &nodes[node_id].heading {
        Some(heading) => {
            parts.push(render_heading(heading));
        },
        None => {},
    }
    let ghost head = texts(parts@);
    let mut i: usize = 0;
    while i < nodes[node_id].blocks.len()
        invariant
            node_id < nodes.len(),
            i <= nodes@[node_id as int].blocks.len(),
            section == nodes@[node_id as int]@,
            texts(parts@) == head + section.blocks.take(i as int),
        decreases nodes@[node_id as int].blocks.len() - i,
    {
        let ghost before = texts(parts@);
        parts.push(copy(nodes[node_id].blocks[i].as_str()));
        assert(texts(parts@) =~= before.push(section.blocks[i as int]));
        assert(texts(parts@) =~= head + section.blocks.take(i + 1));
        i = i + 1;
    }
    assert(texts(parts@) =~= own_parts(section));
    let mut c: usize = 0;
    while c < nodes[node_id].children.len()
        invariant
            model == sections(nodes@),
            tree_ok(model),
            node_id < nodes.len(),
            c <= nodes@[node_id as int].children.len(),
            section == model[node_id as int],
            section == nodes@[node_id as int]@,
            children_ok(model, node_id as int),
            texts(parts@) == own_parts(section) + child_texts(model, node_id as int, c as nat),
        decreases nodes@[node_id as int].children.len() - c,
    {
        let child: usize = nodes[node_id].children[c];
        assert(section.children[c as int] == child);
        let text = render_subtree(nodes, child);
        let ghost before = texts(parts@);
        parts.push(text);
        assert(texts(parts@) =~= before.push(text@));
        assert(texts(parts@) =~= own_parts(section) + child_texts(
            model,
            node_id as int,
            (c + 1) as nat,
        ));
        c = c + 1;
    }
    joined_visible(&parts)
}

} // verus!
