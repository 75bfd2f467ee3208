//! Packing the blocks of one section into chunks of a bounded size.
//!
//! A block that is too large is cut at line ends, then at sentence ends, and at
//! characters only where nothing else helps. Neighbouring chunks of one section
//! may share whole blocks, never parts of one.
use crate::lines::{join, joined, split, split_after, split_at, split_inclusive, trim, trimmed};
use crate::text::{char_count, chars_of, copy, copy_opt, copy_texts, opt_text, slice_text, texts};
use vstd::prelude::*;

verus! {

/// A chunk: the breadcrumb of the section it comes from, and its text.
pub struct Chunk {
    pub heading: Option<Seq<char>>,
    pub markdown: Seq<char>,
}

/// A chunk as it is held at run time.
#[derive(Debug)]
pub struct ChunkText {
    pub heading: Option<String>,
    pub markdown: String,
}

impl View for ChunkText {
    type V = Chunk;

    open spec fn view(&self) -> Chunk {
        Chunk { heading: opt_text(self.heading), markdown: self.markdown@ }
    }
}

/// The model of a vector of chunks.
pub open spec fn chunks_of(v: Seq<ChunkText>) -> Seq<Chunk> {
    v.map_values(|c: ChunkText| c@)
}

/// Whether every text has at most `max` characters.
pub open spec fn all_fit(pieces: Seq<Seq<char>>, max: nat) -> bool {
    forall|i: int| 0 <= i < pieces.len() ==> (#[trigger] pieces[i]).len() <= max
}

/// Whether every chunk has at most `max` characters.
pub open spec fn chunks_fit(chunks: Seq<Chunk>, max: nat) -> bool {
    forall|i: int| 0 <= i < chunks.len() ==> (#[trigger] chunks[i]).markdown.len() <= max
}

/// The blocks with an empty line between each two.
pub open spec fn paragraphs(parts: Seq<Seq<char>>) -> Seq<char> {
    join(parts, "\n\n"@)
}

// ---------------------------------------------------------------------------
// Cutting one block
// ---------------------------------------------------------------------------

/// The pieces, trimmed, without those of which nothing is left.
pub open spec fn trimmed_pieces(pieces: Seq<Seq<char>>) -> Seq<Seq<char>>
    decreases pieces.len(),
{
    if pieces.len() == 0 {
        pieces
    } else if trim(pieces.last()).len() == 0 {
        trimmed_pieces(pieces.drop_last())
    } else {
        trimmed_pieces(pieces.drop_last()).push(trim(pieces.last()))
    }
}

/// The parts of a text: its lines, or its trimmed sentences.
pub open spec fn parts_at(text: Seq<char>, separator: char) -> Seq<Seq<char>> {
    if separator == '\n' {
        split(text, '\n')
    } else {
        trimmed_pieces(split_inclusive(text, separator))
    }
}

/// What stands between two parts in one piece.
pub open spec fn joiner(separator: char) -> Seq<char> {
    if separator == '\n' {
        "\n"@
    } else {
        " "@
    }
}

/// A piece with one more part.
pub open spec fn glued(piece: Seq<char>, glue: Seq<char>, part: Seq<char>) -> Seq<char> {
    if piece.len() == 0 {
        part
    } else {
        piece + glue + part
    }
}

/// Pieces that are complete, and the one that still grows.
pub struct Pieces {
    pub done: Seq<Seq<char>>,
    pub open: Seq<char>,
}

/// The parts put into pieces from the first to the last: a part joins the open
/// piece where that still fits, and starts a new one where it does not.
pub open spec fn fill_pieces(parts: Seq<Seq<char>>, glue: Seq<char>, max: nat) -> Pieces
    decreases parts.len(),
{
    if parts.len() == 0 {
        Pieces { done: Seq::empty(), open: Seq::empty() }
    } else {
        let before = fill_pieces(parts.drop_last(), glue, max);
        let candidate = glued(before.open, glue, parts.last());
        if candidate.len() <= max {
            Pieces { done: before.done, open: candidate }
        } else {
            Pieces { done: before.done.push(before.open), open: parts.last() }
        }
    }
}

/// The text cut at a separator into pieces of at most `max` characters; the text
/// as it is where there is nothing to cut or a part alone is too large.
pub open spec fn split_packed(text: Seq<char>, separator: char, max: nat) -> Seq<Seq<char>> {
    let parts = parts_at(text, separator);
    if parts.len() < 2 || !all_fit(parts, max) {
        seq![text]
    } else {
        let pieces = fill_pieces(parts, joiner(separator), max);
        if pieces.open.len() > 0 {
            pieces.done.push(pieces.open)
        } else {
            pieces.done
        }
    }
}

/// The text in stretches of `size` characters, the last one possibly shorter.
pub open spec fn stretches(s: Seq<char>, size: nat) -> Seq<Seq<char>>
    decreases s.len(),
{
    if s.len() == 0 || size == 0 {
        Seq::empty()
    } else if s.len() <= size {
        seq![s]
    } else {
        seq![s.take(size as int)] + stretches(s.skip(size as int), size)
    }
}

/// Whether a cut helps: more than one piece, and each of them fits.
pub open spec fn good_cut(pieces: Seq<Seq<char>>, max: nat) -> bool {
    pieces.len() > 1 && all_fit(pieces, max)
}

/// A block as pieces of at most `max` characters: the block itself where it
/// fits, else cut at line ends, at one of the three sentence ends, or at
/// characters, the first of these that helps.
pub open spec fn split_block(block: Seq<char>, max: nat) -> Seq<Seq<char>> {
    if block.len() <= max {
        seq![block]
    } else if good_cut(split_packed(block, '\n', max), max) {
        split_packed(block, '\n', max)
    } else if good_cut(split_packed(block, '.', max), max) {
        split_packed(block, '.', max)
    } else if good_cut(split_packed(block, '!', max), max) {
        split_packed(block, '!', max)
    } else if good_cut(split_packed(block, '?', max), max) {
        split_packed(block, '?', max)
    } else {
        stretches(block, if max == 0 { 1 } else { max })
    }
}

/// Whether every string has at most `max` characters.
fn each_fits(pieces: &Vec<String>, max: usize) -> (r: bool)
    ensures
        r == all_fit(texts(pieces@), max as nat),
{
    let mut i: usize = 0;
    while i < pieces.len()
        invariant
            i <= pieces.len(),
            forall|k: int| 0 <= k < i ==> (#[trigger] texts(pieces@)[k]).len() <= max,
        decreases pieces.len() - i,
    {
        if char_count(pieces[i].as_str()) > max {
            assert(texts(pieces@)[i as int].len() > max);
            return false;
        }
        i = i + 1;
    }
    true
}

/// The parts of a text: its lines, or its trimmed sentences.
fn raw_parts(text: &str, separator: char) -> (out: Vec<String>)
    ensures
        texts(out@) == parts_at(text@, separator),
{
    if separator == '\n' {
        return split_at(text, '\n');
    }
    let pieces = split_after(text, separator);
    let ghost all = texts(pieces@);
    let mut out: Vec<String> = Vec::new();
    let mut i: usize = 0;
    while i < pieces.len()
        invariant
            i <= pieces.len(),
            all == texts(pieces@),
            texts(out@) == trimmed_pieces(all.take(i as int)),
        decreases pieces.len() - i,
    {
        assert(all.take(i + 1).drop_last() =~= all.take(i as int));
        let part = trimmed(pieces[i].as_str());
        if !part.as_str().is_empty() {
            out.push(part);
            assert(texts(out@) =~= trimmed_pieces(all.take(i + 1)));
        }
        i = i + 1;
    }
    assert(all.take(i as int) =~= all);
    out
}

/// The text cut at a separator into pieces of at most `max_chars` characters;
/// the text as it is where there is nothing to cut or a part alone is too large.
pub fn split_and_pack(text: &str, separator: char, max_chars: usize) -> (out: Vec<String>)
    ensures
        texts(out@) == split_packed(text@, separator, max_chars as nat),
{
    let parts = raw_parts(text, separator);
    let ghost all = texts(parts@);
    let ghost max = max_chars as nat;
    if parts.len() < 2 || !each_fits(&parts, max_chars) {
        let mut whole: Vec<String> = Vec::new();
        whole.push(copy(text));
        assert(texts(whole@) =~= seq![text@]);
        return whole;
    }
    let glue: String = if separator == '\n' {
        copy("\n")
    } else {
        copy(" ")
    };
    let mut packed: Vec<String> = Vec::new();
    let mut current: String = String::new();
    let mut i: usize = 0;
    while i < parts.len()
        invariant
            i <= parts.len(),
            all == texts(parts@),
            max == max_chars,
            glue@ == joiner(separator),
            texts(packed@) == fill_pieces(all.take(i as int), glue@, max).done,
            current@ == fill_pieces(all.take(i as int), glue@, max).open,
        decreases parts.len() - i,
    {
        assert(all.take(i + 1).drop_last() =~= all.take(i as int));
        let mut candidate: String = String::new();
        if current.as_str().is_empty() {
            candidate.append(parts[i].as_str());
        } else {
            candidate.append(current.as_str());
            candidate.append(glue.as_str());
            candidate.append(parts[i].as_str());
        }
        assert(candidate@ =~= glued(current@, glue@, all[i as int]));
        if char_count(candidate.as_str()) <= max_chars {
            current = candidate;
        } else {
            packed.push(current);
            current = parts[i].clone();
            assert(texts(packed@) =~= fill_pieces(all.take(i + 1), glue@, max).done);
        }
        i = i + 1;
    }
    assert(all.take(i as int) =~= all);
    if !current.as_str().is_empty() {
        let ghost before = texts(packed@);
        packed.push(current);
        assert(texts(packed@) =~= before.push(current@));
    }
    packed
}

/// The text in stretches of `size` characters.
fn cut_stretches(text: &str, size: usize) -> (out: Vec<String>)
    requires
        size > 0,
    ensures
        texts(out@) == stretches(text@, size as nat),
{
    let chars = chars_of(text);
    let mut out: Vec<String> = Vec::new();
    let mut i: usize = 0;
    assert(text@.skip(0) =~= text@);
    while i < chars.len()
        invariant
            i <= chars.len(),
            chars@ == text@,
            size > 0,
            texts(out@) + stretches(text@.skip(i as int), size as nat) == stretches(
                text@,
                size as nat,
            ),
        decreases chars.len() - i,
    {
        let end: usize = if chars.len() - i <= size {
            chars.len()
        } else {
            i + size
        };
        let ghost before = texts(out@);
        let ghost rest = text@.skip(i as int);
        out.push(slice_text(&chars, i, end));
        proof {
            assert(texts(out@) =~= before.push(text@.subrange(i as int, end as int)));
            if rest.len() <= size {
                assert(text@.subrange(i as int, end as int) =~= rest);
                assert(text@.skip(end as int) =~= Seq::<char>::empty());
            } else {
                assert(rest.take(size as int) =~= text@.subrange(i as int, end as int));
                assert(rest.skip(size as int) =~= text@.skip(end as int));
            }
            assert(texts(out@) + stretches(text@.skip(end as int), size as nat) =~= before
                + stretches(rest, size as nat));
        }
        i = end;
    }
    assert(text@.skip(i as int) =~= Seq::<char>::empty());
    assert(texts(out@) =~= stretches(text@, size as nat));
    out
}

/// A block as pieces of at most `max_chars` characters.
pub fn split_oversized_block(block: &str, max_chars: usize) -> (out: Vec<String>)
    ensures
        texts(out@) == split_block(block@, max_chars as nat),
{
    if char_count(block) <= max_chars {
        let mut whole: Vec<String> = Vec::new();
        whole.push(copy(block));
        assert(texts(whole@) =~= seq![block@]);
        return whole;
    }
    let at_lines = split_and_pack(block, '\n', max_chars);
    if at_lines.len() > 1 && each_fits(&at_lines, max_chars) {
        return at_lines;
    }
    let at_stops = split_and_pack(block, '.', max_chars);
    if at_stops.len() > 1 && each_fits(&at_stops, max_chars) {
        return at_stops;
    }
    let at_exclamations = split_and_pack(block, '!', max_chars);
    if at_exclamations.len() > 1 && each_fits(&at_exclamations, max_chars) {
        return at_exclamations;
    }
    let at_questions = split_and_pack(block, '?', max_chars);
    if at_questions.len() > 1 && each_fits(&at_questions, max_chars) {
        return at_questions;
    }
    cut_stretches(block, if max_chars == 0 { 1 } else { max_chars })
}

// ---------------------------------------------------------------------------
// Packing blocks
// ---------------------------------------------------------------------------

/// Where the longest run of whole blocks at the end begins, of those that begin
/// at `from` or before it, that takes at most `overlap` characters.
pub open spec fn carry_from(blocks: Seq<Seq<char>>, overlap: nat, from: nat) -> nat
    decreases from,
{
    if from > 0 && paragraphs(blocks.skip(from - 1)).len() <= overlap {
        carry_from(blocks, overlap, (from - 1) as nat)
    } else {
        from
    }
}

/// The whole blocks at the end that the next chunk repeats: as many as fit into
/// `overlap` characters, and none of a chunk of a single block.
pub open spec fn carried(blocks: Seq<Seq<char>>, overlap: nat) -> Seq<Seq<char>> {
    if overlap == 0 || blocks.len() < 2 {
        Seq::empty()
    } else {
        blocks.skip(carry_from(blocks, overlap, blocks.len()) as int)
    }
}

/// The pieces of all blocks, in order.
pub open spec fn units_of(blocks: Seq<Seq<char>>, max: nat) -> Seq<Seq<char>>
    decreases blocks.len(),
{
    if blocks.len() == 0 {
        blocks
    } else {
        units_of(blocks.drop_last(), max) + split_block(blocks.last(), max)
    }
}

/// Chunks that are complete, and the blocks of the one that still grows.
pub struct Packing {
    pub done: Seq<Chunk>,
    pub open: Seq<Seq<char>>,
}

/// The chunks with the open one closed.
pub open spec fn closed(packing: Packing, heading: Option<Seq<char>>) -> Seq<Chunk> {
    if packing.open.len() == 0 {
        packing.done
    } else {
        packing.done.push(Chunk { heading, markdown: paragraphs(packing.open) })
    }
}

/// The units packed from the first to the last: a unit joins the open chunk where
/// that still fits. Where it does not, the chunk is closed, and the next one
/// begins with the carried blocks if they and the unit fit, else with the unit.
pub open spec fn pack_units(
    units: Seq<Seq<char>>,
    heading: Option<Seq<char>>,
    max: nat,
    overlap: nat,
) -> Packing
    decreases units.len(),
{
    if units.len() == 0 {
        Packing { done: Seq::empty(), open: Seq::empty() }
    } else {
        let before = pack_units(units.drop_last(), heading, max, overlap);
        let unit = units.last();
        if paragraphs(before.open.push(unit)).len() <= max {
            Packing { done: before.done, open: before.open.push(unit) }
        } else {
            let carry = carried(before.open, overlap).push(unit);
            Packing {
                done: closed(before, heading),
                open: if paragraphs(carry).len() > max {
                    seq![unit]
                } else {
                    carry
                },
            }
        }
    }
}

/// The blocks of a section as chunks under one heading.
pub open spec fn pack(
    blocks: Seq<Seq<char>>,
    heading: Option<Seq<char>>,
    max: nat,
    overlap: nat,
) -> Seq<Chunk> {
    closed(pack_units(units_of(blocks, max), heading, max, overlap), heading)
}

/// Joining is also stated from the front.
pub proof fn lemma_join_front(first: Seq<char>, rest: Seq<Seq<char>>, sep: Seq<char>)
    requires
        rest.len() > 0,
    ensures
        join(seq![first] + rest, sep) == first + sep + join(rest, sep),
    decreases rest.len(),
{
    let all = seq![first] + rest;
    if rest.len() == 1 {
        assert(all.drop_last() =~= seq![first]);
        assert(join(seq![first], sep) == first);
        assert(join(all, sep) =~= first + sep + join(rest, sep));
    } else {
        lemma_join_front(first, rest.drop_last(), sep);
        assert(all.drop_last() =~= seq![first] + rest.drop_last());
        assert(join(all, sep) =~= first + sep + join(rest, sep));
    }
}

/// The run of carried blocks begins within the blocks.
pub proof fn lemma_carry_from(blocks: Seq<Seq<char>>, overlap: nat, from: nat)
    ensures
        carry_from(blocks, overlap, from) <= from,
    decreases from,
{
    if from > 0 && paragraphs(blocks.skip(from - 1)).len() <= overlap {
        lemma_carry_from(blocks, overlap, (from - 1) as nat);
    }
}

/// The whole blocks at the end that the next chunk repeats.
pub fn trailing_whole_blocks(blocks: &Vec<String>, overlap: usize) -> (out: Vec<String>)
    ensures
        texts(out@) == carried(texts(blocks@), overlap as nat),
{
    let mut out: Vec<String> = Vec::new();
    if overlap == 0 || blocks.len() < 2 {
        assert(texts(out@) =~= Seq::<Seq<char>>::empty());
        return out;
    }
    let ghost all = texts(blocks@);
    let ghost limit = overlap as nat;
    let mut from: usize = blocks.len();
    let mut used: usize = 0;
    let mut more: bool = true;
    proof {
        assert(all.skip(from as int) =~= Seq::<Seq<char>>::empty());
    }
    while more
        invariant
            from <= blocks.len(),
            all == texts(blocks@),
            limit == overlap,
            used == paragraphs(all.skip(from as int)).len(),
            used <= overlap,
            carry_from(all, limit, all.len()) == carry_from(all, limit, from as nat),
            !more ==> carry_from(all, limit, from as nat) == from,
        decreases from, (if more { 1int } else { 0int }),
    {
        if from == 0 {
            more = false;
        } else {
            let size: usize = char_count(blocks[from - 1].as_str());
            let gap: usize = if from < blocks.len() {
                2
            } else {
                0
            };
            let room: usize = overlap - used;
            proof {
                reveal_strlit("\n\n");
                let tail = all.skip(from as int);
                assert(all.skip(from - 1) =~= seq![all[from - 1]] + tail);
                if tail.len() > 0 {
                    lemma_join_front(all[from - 1], tail, "\n\n"@);
                } else {
                    assert(all.skip(from - 1) =~= seq![all[from - 1]]);
                }
                assert(paragraphs(all.skip(from - 1)).len() == size + gap + used);
            }
            if gap > room || size > room - gap {
                more = false;
            } else {
                used = used + gap + size;
                from = from - 1;
            }
        }
    }
    let mut i: usize = from;
    while i < blocks.len()
        invariant
            from <= i <= blocks.len(),
            all == texts(blocks@),
            texts(out@) == all.subrange(from as int, i as int),
        decreases blocks.len() - i,
    {
        let ghost before = texts(out@);
        out.push(blocks[i].clone());
        assert(texts(out@) =~= before.push(all[i as int]));
        assert(before.push(all[i as int]) =~= all.subrange(from as int, i + 1));
        i = i + 1;
    }
    assert(all.subrange(from as int, i as int) =~= all.skip(from as int));
    out
}

/// The pieces of all blocks, in order.
fn split_units(blocks: &Vec<String>, max_chars: usize) -> (out: Vec<String>)
    ensures
        texts(out@) == units_of(texts(blocks@), max_chars as nat),
{
    let ghost all = texts(blocks@);
    let mut out: Vec<String> = Vec::new();
    let mut i: usize = 0;
    assert(texts(out@) =~= units_of(all.take(0), max_chars as nat));
    while i < blocks.len()
        invariant
            i <= blocks.len(),
            all == texts(blocks@),
            texts(out@) == units_of(all.take(i as int), max_chars as nat),
        decreases blocks.len() - i,
    {
        assert(all.take(i + 1).drop_last() =~= all.take(i as int));
        let ghost before = texts(out@);
        let mut pieces = split_oversized_block(blocks[i].as_str(), max_chars);
        let ghost added = texts(pieces@);
        out.append(&mut pieces);
        assert(texts(out@) =~= before + added);
        i = i + 1;
    }
    assert(all.take(i as int) =~= all);
    out
}

/// The blocks and one more, as one text.
fn joined_with(blocks: &Vec<String>, unit: &str) -> (out: String)
    ensures
        out@ == paragraphs(texts(blocks@).push(unit@)),
{
    let mut all = copy_texts(blocks);
    let ghost before = texts(all@);
    all.push(copy(unit));
    assert(texts(all@) =~= before.push(unit@));
    joined(&all, "\n\n")
}

/// The blocks of a section as chunks under one heading.
pub fn pack_blocks(
    blocks: &Vec<String>,
    heading: &Option<String>,
    max_chars: usize,
    overlap: usize,
) -> (out: Vec<ChunkText>)
    ensures
        chunks_of(out@) == pack(
            texts(blocks@),
            opt_text(*heading),
            max_chars as nat,
            overlap as nat,
        ),
{
    let units = split_units(blocks, max_chars);
    let ghost all = texts(units@);
    let ghost label = opt_text(*heading);
    let ghost max = max_chars as nat;
    let ghost lap = overlap as nat;
    let mut chunks: Vec<ChunkText> = Vec::new();
    let mut current: Vec<String> = Vec::new();
    let mut i: usize = 0;
    proof {
        assert(chunks_of(chunks@) =~= pack_units(all.take(0), label, max, lap).done);
        assert(texts(current@) =~= pack_units(all.take(0), label, max, lap).open);
    }
    while i < units.len()
        invariant
            i <= units.len(),
            all == texts(units@),
            label == opt_text(*heading),
            max == max_chars,
            lap == overlap,
            chunks_of(chunks@) == pack_units(all.take(i as int), label, max, lap).done,
            texts(current@) == pack_units(all.take(i as int), label, max, lap).open,
        decreases units.len() - i,
    {
        let ghost before = pack_units(all.take(i as int), label, max, lap);
        assert(all.take(i + 1).drop_last() =~= all.take(i as int));
        let candidate = joined_with(&current, units[i].as_str());
        if char_count(candidate.as_str()) <= max_chars {
            current.push(units[i].clone());
            assert(texts(current@) =~= before.open.push(all[i as int]));
        } else {
            if current.len() > 0 {
                chunks.push(
                    ChunkText { heading: copy_opt(heading), markdown: joined(&current, "\n\n") },
                );
            }
            assert(chunks_of(chunks@) =~= closed(before, label));
            let mut carry = trailing_whole_blocks(&current, overlap);
            let ghost kept = texts(carry@);
            let with_carry = joined_with(&carry, units[i].as_str());
            if char_count(with_carry.as_str()) > max_chars {
                carry = Vec::new();
            }
            let ghost base = texts(carry@);
            carry.push(units[i].clone());
            assert(texts(carry@) =~= base.push(all[i as int]));
            assert(base.len() == 0 ==> texts(carry@) =~= seq![all[i as int]]);
            current = carry;
        }
        i = i + 1;
    }
    assert(all.take(i as int) =~= all);
    if current.len() > 0 {
        let ghost before = chunks_of(chunks@);
        let last = ChunkText { heading: copy_opt(heading), markdown: joined(&current, "\n\n") };
        chunks.push(last);
        assert(chunks_of(chunks@) =~= before.push(last@));
    }
    chunks
}

// ---------------------------------------------------------------------------
// Laws
// ---------------------------------------------------------------------------

/// Cutting at characters loses nothing: the stretches put together are the text,
/// and each of them fits.
pub proof fn lemma_stretches(s: Seq<char>, size: nat)
    requires
        size > 0,
    ensures
        join(stretches(s, size), Seq::empty()) == s,
        all_fit(stretches(s, size), size),
    decreases s.len(),
{
    if s.len() > size {
        let rest = s.skip(size as int);
        lemma_stretches(rest, size);
        assert(stretches(rest, size).len() > 0);
        lemma_join_front(s.take(size as int), stretches(rest, size), Seq::empty());
        assert(s.take(size as int) + Seq::<char>::empty() + rest =~= s);
    }
}

/// A block of any size comes out in pieces that fit.
pub proof fn lemma_split_block_fits(block: Seq<char>, max: nat)
    requires
        max > 0,
    ensures
        all_fit(split_block(block, max), max),
{
    lemma_stretches(block, max);
}

/// The pieces of blocks of any size fit.
pub proof fn lemma_units_fit(blocks: Seq<Seq<char>>, max: nat)
    requires
        max > 0,
    ensures
        all_fit(units_of(blocks, max), max),
    decreases blocks.len(),
{
    if blocks.len() > 0 {
        lemma_units_fit(blocks.drop_last(), max);
        lemma_split_block_fits(blocks.last(), max);
    }
}

/// Whatever the blocks, no chunk is larger than the limit.
pub proof fn lemma_pack_fits(
    blocks: Seq<Seq<char>>,
    heading: Option<Seq<char>>,
    max: nat,
    overlap: nat,
)
    requires
        max > 0,
    ensures
        chunks_fit(pack(blocks, heading, max, overlap), max),
{
    lemma_units_fit(blocks, max);
    lemma_pack_units_fit(units_of(blocks, max), heading, max, overlap);
}

proof fn lemma_pack_units_fit(
    units: Seq<Seq<char>>,
    heading: Option<Seq<char>>,
    max: nat,
    overlap: nat,
)
    requires
        all_fit(units, max),
    ensures
        chunks_fit(pack_units(units, heading, max, overlap).done, max),
        paragraphs(pack_units(units, heading, max, overlap).open).len() <= max,
    decreases units.len(),
{
    if units.len() > 0 {
        assert(all_fit(units.drop_last(), max)) by {
            assert forall|i: int| 0 <= i < units.drop_last().len() implies (
            #[trigger] units.drop_last()[i]).len() <= max by {
                assert(units[i].len() <= max);
            }
        }
        lemma_pack_units_fit(units.drop_last(), heading, max, overlap);
        assert(units[units.len() - 1].len() <= max);
    }
}

/// What the next chunk repeats is a run of whole blocks at the end of the one
/// before it, and takes at most `overlap` characters.
pub proof fn lemma_carried_is_whole_blocks(blocks: Seq<Seq<char>>, overlap: nat)
    ensures
        paragraphs(carried(blocks, overlap)).len() <= overlap,
        carried(blocks, overlap).len() <= blocks.len(),
        carried(blocks, overlap) == blocks.skip(blocks.len() - carried(blocks, overlap).len()),
{
    assert(blocks.skip(blocks.len() as int) =~= Seq::<Seq<char>>::empty());
    if overlap > 0 && blocks.len() >= 2 {
        lemma_carry_from(blocks, overlap, blocks.len());
        lemma_carry_fits(blocks, overlap, blocks.len());
    }
}

proof fn lemma_carry_fits(blocks: Seq<Seq<char>>, overlap: nat, from: nat)
    requires
        from <= blocks.len(),
        paragraphs(blocks.skip(from as int)).len() <= overlap,
    ensures
        paragraphs(blocks.skip(carry_from(blocks, overlap, from) as int)).len() <= overlap,
    decreases from,
{
    if from > 0 && paragraphs(blocks.skip(from - 1)).len() <= overlap {
        lemma_carry_fits(blocks, overlap, (from - 1) as nat);
    }
}

} // verus!
