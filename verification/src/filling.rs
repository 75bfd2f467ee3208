//! Chunks are filled as far as they go, and what does not fit is cut without losing a
//! character that is no white space.
use crate::lines::{join, split, split_inclusive, trim};
use crate::packing::{
    all_fit, carried, carry_from, fill_pieces, glued, good_cut, joiner,
    lemma_carried_is_whole_blocks, lemma_carry_from, pack, pack_units, paragraphs, parts_at,
    split_block, split_packed, stretches, trimmed_pieces, units_of, Chunk,
};
use crate::text::is_white_space;
use crate::wording::{
    lemma_pieces_make_the_text, lemma_split_and_join, lemma_trimming_cuts_white_space_at_the_ends,
};
use vstd::prelude::*;

verus! {

// ---------------------------------------------------------------------------
// The characters of a text
// ---------------------------------------------------------------------------

/// The characters of a text that are no white space.
pub open spec fn ink(s: Seq<char>) -> Seq<char>
    decreases s.len(),
{
    if s.len() == 0 {
        s
    } else if is_white_space(s.last()) {
        ink(s.drop_last())
    } else {
        ink(s.drop_last()).push(s.last())
    }
}

/// The characters of several texts that are no white space.
pub open spec fn ink_of(all: Seq<Seq<char>>) -> Seq<char>
    decreases all.len(),
{
    if all.len() == 0 {
        Seq::empty()
    } else {
        ink_of(all.drop_last()) + ink(all.last())
    }
}

pub proof fn lemma_ink_of_both(a: Seq<char>, b: Seq<char>)
    ensures
        ink(a + b) == ink(a) + ink(b),
    decreases b.len(),
{
    if b.len() == 0 {
        assert(a + b =~= a);
        assert(ink(a) + ink(b) =~= ink(a));
    } else {
        assert((a + b).drop_last() =~= a + b.drop_last());
        lemma_ink_of_both(a, b.drop_last());
        assert(ink(a + b) =~= ink(a) + ink(b));
    }
}

pub proof fn lemma_no_ink(s: Seq<char>)
    requires
        forall|i: int| 0 <= i < s.len() ==> is_white_space(#[trigger] s[i]),
    ensures
        ink(s) == Seq::<char>::empty(),
    decreases s.len(),
{
    if s.len() > 0 {
        let front = s.drop_last();
        assert forall|i: int| 0 <= i < front.len() implies is_white_space(#[trigger] front[i]) by {
            assert(front[i] == s[i]);
        }
        lemma_no_ink(front);
        assert(is_white_space(s[s.len() - 1]));
    }
}

pub proof fn lemma_ink_of_trimmed(s: Seq<char>)
    ensures
        ink(trim(s)) == ink(s),
{
    let (a, b) = lemma_trimming_cuts_white_space_at_the_ends(s);
    let head = s.take(a);
    let tail = s.skip(b);
    assert(s =~= head + trim(s) + tail);
    assert forall|i: int| 0 <= i < head.len() implies is_white_space(#[trigger] head[i]) by {
        assert(head[i] == s[i]);
    }
    assert forall|i: int| 0 <= i < tail.len() implies is_white_space(#[trigger] tail[i]) by {
        assert(tail[i] == s[b + i]);
    }
    lemma_no_ink(head);
    lemma_no_ink(tail);
    lemma_ink_of_both(head, trim(s));
    lemma_ink_of_both(head + trim(s), tail);
    assert(ink(s) =~= ink(trim(s)));
}

pub proof fn lemma_ink_of_joined(all: Seq<Seq<char>>, sep: Seq<char>)
    requires
        forall|i: int| 0 <= i < sep.len() ==> is_white_space(#[trigger] sep[i]),
    ensures
        ink(join(all, sep)) == ink_of(all),
    decreases all.len(),
{
    lemma_no_ink(sep);
    if all.len() == 0 {
        assert(join(all, sep) =~= Seq::<char>::empty());
    } else if all.len() == 1 {
        assert(ink_of(all.drop_last()) =~= Seq::<char>::empty());
        assert(all[0] == all.last());
        assert(ink_of(all) =~= ink(all[0]));
    } else {
        let front = join(all.drop_last(), sep);
        lemma_ink_of_joined(all.drop_last(), sep);
        lemma_ink_of_both(front, sep);
        lemma_ink_of_both(front + sep, all.last());
        assert(ink(join(all, sep)) =~= ink_of(all));
    }
}

// ---------------------------------------------------------------------------
// Cutting a block
// ---------------------------------------------------------------------------

proof fn lemma_ink_of_trimmed_pieces(pieces: Seq<Seq<char>>)
    ensures
        ink_of(trimmed_pieces(pieces)) == ink_of(pieces),
    decreases pieces.len(),
{
    if pieces.len() > 0 {
        let front = trimmed_pieces(pieces.drop_last());
        let last = pieces.last();
        lemma_ink_of_trimmed_pieces(pieces.drop_last());
        lemma_ink_of_trimmed(last);
        if trim(last).len() == 0 {
            assert(ink(last) =~= Seq::<char>::empty());
            assert(ink_of(pieces) =~= ink_of(pieces.drop_last()));
        } else {
            assert(front.push(trim(last)).drop_last() =~= front);
        }
    }
}

proof fn lemma_ink_of_parts(text: Seq<char>, sep: char)
    ensures
        ink_of(parts_at(text, sep)) == ink(text),
{
    if sep == '\n' {
        let nl = seq!['\n'];
        lemma_split_and_join(text, '\n');
        assert forall|i: int| 0 <= i < nl.len() implies is_white_space(#[trigger] nl[i]) by {}
        lemma_ink_of_joined(split(text, '\n'), nl);
    } else {
        let pieces = split_inclusive(text, sep);
        lemma_pieces_make_the_text(text, sep);
        lemma_ink_of_joined(pieces, Seq::empty());
        lemma_ink_of_trimmed_pieces(pieces);
    }
}

proof fn lemma_glue_is_white(sep: char)
    ensures
        forall|i: int|
            0 <= i < joiner(sep).len() ==> is_white_space(#[trigger] joiner(sep)[i]),
        joiner(sep).len() == 1,
{
    reveal_strlit("\n");
    reveal_strlit(" ");
}

proof fn lemma_ink_of_filled(parts: Seq<Seq<char>>, glue: Seq<char>, max: nat)
    requires
        forall|i: int| 0 <= i < glue.len() ==> is_white_space(#[trigger] glue[i]),
    ensures
        ({
            let pieces = fill_pieces(parts, glue, max);
            ink_of(pieces.done) + ink(pieces.open) == ink_of(parts)
        }),
    decreases parts.len(),
{
    if parts.len() == 0 {
        assert(ink_of(fill_pieces(parts, glue, max).done) + ink(
            fill_pieces(parts, glue, max).open,
        ) =~= ink_of(parts));
    } else {
        let front = parts.drop_last();
        lemma_ink_of_filled(front, glue, max);
        let before = fill_pieces(front, glue, max);
        let after = fill_pieces(parts, glue, max);
        let last = parts.last();
        lemma_no_ink(glue);
        lemma_ink_of_both(before.open, glue);
        lemma_ink_of_both(before.open + glue, last);
        if glued(before.open, glue, last).len() <= max {
            assert(ink(after.open) =~= ink(before.open) + ink(last));
        } else {
            assert(after.done.drop_last() =~= before.done);
        }
        assert(ink_of(after.done) + ink(after.open) =~= ink_of(before.done) + ink(before.open)
            + ink(last));
    }
}

proof fn lemma_ink_of_packed(text: Seq<char>, sep: char, max: nat)
    ensures
        ink_of(split_packed(text, sep, max)) == ink(text),
{
    let parts = parts_at(text, sep);
    if parts.len() < 2 || !all_fit(parts, max) {
        assert(seq![text].drop_last() =~= Seq::<Seq<char>>::empty());
        assert(ink_of(Seq::<Seq<char>>::empty()) =~= Seq::<char>::empty());
        assert(ink_of(seq![text]) =~= ink(text));
    } else {
        lemma_glue_is_white(sep);
        lemma_ink_of_parts(text, sep);
        lemma_ink_of_filled(parts, joiner(sep), max);
        let pieces = fill_pieces(parts, joiner(sep), max);
        if pieces.open.len() > 0 {
            assert(pieces.done.push(pieces.open).drop_last() =~= pieces.done);
        } else {
            assert(ink(pieces.open) =~= Seq::<char>::empty());
            assert(ink_of(pieces.done) + ink(pieces.open) =~= ink_of(pieces.done));
        }
    }
}

proof fn lemma_ink_of_stretches(s: Seq<char>, size: nat)
    requires
        size > 0,
    ensures
        ink_of(stretches(s, size)) == ink(s),
{
    crate::packing::lemma_stretches(s, size);
    lemma_ink_of_joined(stretches(s, size), Seq::empty());
}

/// However a block is cut, every character that is no white space stands in the pieces, once
/// and in its place; a block that fits is not cut.
pub proof fn lemma_cutting_loses_no_character(block: Seq<char>, max: nat)
    ensures
        ink_of(split_block(block, max)) == ink(block),
        block.len() <= max ==> split_block(block, max) == seq![block],
{
    lemma_ink_of_packed(block, '\n', max);
    lemma_ink_of_packed(block, '.', max);
    lemma_ink_of_packed(block, '!', max);
    lemma_ink_of_packed(block, '?', max);
    lemma_ink_of_stretches(
        block,
        if max == 0 {
            1
        } else {
            max
        },
    );
    if block.len() <= max {
        assert(seq![block].drop_last() =~= Seq::<Seq<char>>::empty());
        assert(ink_of(Seq::<Seq<char>>::empty()) =~= Seq::<char>::empty());
        assert(ink_of(seq![block]) =~= ink(block));
    }
}

proof fn lemma_filled(parts: Seq<Seq<char>>, glue: Seq<char>, max: nat)
    requires
        all_fit(parts, max),
    ensures
        ({
            let pieces = fill_pieces(parts, glue, max);
            let all = pieces.done.push(pieces.open);
            &&& forall|k: int| 0 <= k < pieces.done.len() ==> (#[trigger] pieces.done[k]).len() > 0
            &&& forall|k: int|
                0 <= k < all.len() - 1 ==> (#[trigger] all[k]).len() + glue.len() + all[k + 1].len()
                    > max
        }),
    decreases parts.len(),
{
    if parts.len() > 0 {
        let front = parts.drop_last();
        assert forall|i: int| 0 <= i < front.len() implies (#[trigger] front[i]).len() <= max by {
            assert(front[i] == parts[i]);
        }
        lemma_filled(front, glue, max);
        let before = fill_pieces(front, glue, max);
        let after = fill_pieces(parts, glue, max);
        assert(parts[parts.len() - 1].len() <= max);
        let old_all = before.done.push(before.open);
        let all = after.done.push(after.open);
        assert forall|k: int| 0 <= k < all.len() - 1 implies (#[trigger] all[k]).len() + glue.len()
            + all[k + 1].len() > max by {
            if k < old_all.len() - 1 {
                assert(old_all[k] == all[k]);
                assert(old_all[k + 1].len() <= all[k + 1].len());
            }
        }
        assert forall|k: int| 0 <= k < after.done.len() implies (#[trigger] after.done[k]).len()
            > 0 by {
            if k < before.done.len() {
                assert(after.done[k] == before.done[k]);
            }
        }
    }
}

/// A block is cut no finer than it has to be: no two pieces that follow each other would have
/// fitted into one, be it cut at line ends, at sentence ends or at characters.
pub proof fn lemma_pieces_are_as_large_as_they_can_be(block: Seq<char>, max: nat, k: int)
    requires
        max > 0,
        0 <= k < split_block(block, max).len() - 1,
    ensures
        split_block(block, max)[k].len() + 1 + split_block(block, max)[k + 1].len() > max,
{
    if block.len() > max {
        if good_cut(split_packed(block, '\n', max), max) {
            lemma_packed_is_full(block, '\n', max, k);
        } else if good_cut(split_packed(block, '.', max), max) {
            lemma_packed_is_full(block, '.', max, k);
        } else if good_cut(split_packed(block, '!', max), max) {
            lemma_packed_is_full(block, '!', max, k);
        } else if good_cut(split_packed(block, '?', max), max) {
            lemma_packed_is_full(block, '?', max, k);
        } else {
            lemma_stretches_are_full(block, max, k);
        }
    }
}

proof fn lemma_packed_is_full(text: Seq<char>, sep: char, max: nat, k: int)
    requires
        0 <= k < split_packed(text, sep, max).len() - 1,
    ensures
        split_packed(text, sep, max)[k].len() + 1 + split_packed(text, sep, max)[k + 1].len() > max,
{
    let parts = parts_at(text, sep);
    if parts.len() >= 2 && all_fit(parts, max) {
        lemma_glue_is_white(sep);
        lemma_filled(parts, joiner(sep), max);
        let pieces = fill_pieces(parts, joiner(sep), max);
        let all = pieces.done.push(pieces.open);
        assert(split_packed(text, sep, max)[k] == all[k]);
        assert(split_packed(text, sep, max)[k + 1] == all[k + 1]);
    }
}

proof fn lemma_stretches_are_full(s: Seq<char>, size: nat, k: int)
    requires
        size > 0,
        0 <= k < stretches(s, size).len() - 1,
    ensures
        stretches(s, size)[k].len() == size,
    decreases s.len(),
{
    if s.len() > size {
        let rest = stretches(s.skip(size as int), size);
        if k > 0 {
            assert(stretches(s, size)[k] == rest[k - 1]);
            lemma_stretches_are_full(s.skip(size as int), size, k - 1);
        }
    }
}

// ---------------------------------------------------------------------------
// Packing blocks
// ---------------------------------------------------------------------------

/// As many whole blocks are repeated as fit into the overlap: one more would not.
pub proof fn lemma_as_much_is_repeated_as_fits(blocks: Seq<Seq<char>>, overlap: nat)
    ensures
        ({
            let kept = carried(blocks, overlap);
            let from = blocks.len() - kept.len();
            &&& 0 <= from
            &&& kept == blocks.skip(from)
            &&& paragraphs(kept).len() <= overlap
            &&& overlap == 0 || blocks.len() < 2 ==> kept.len() == 0
            &&& overlap > 0 && blocks.len() >= 2 && from > 0 ==> paragraphs(
                blocks.skip(from - 1),
            ).len() > overlap
        }),
{
    lemma_carried_is_whole_blocks(blocks, overlap);
    if overlap > 0 && blocks.len() >= 2 {
        let from = carry_from(blocks, overlap, blocks.len());
        lemma_carry_from(blocks, overlap, blocks.len());
        lemma_carry_stops(blocks, overlap, blocks.len());
        assert(blocks.skip(from as int).len() == blocks.len() - from);
    }
}

proof fn lemma_carry_stops(blocks: Seq<Seq<char>>, overlap: nat, from: nat)
    ensures
        ({
            let at = carry_from(blocks, overlap, from);
            at > 0 ==> paragraphs(blocks.skip(at - 1)).len() > overlap
        }),
    decreases from,
{
    if from > 0 && paragraphs(blocks.skip(from - 1)).len() <= overlap {
        lemma_carry_stops(blocks, overlap, (from - 1) as nat);
    }
}

/// Whether a run of units could take no more, and the next one begins where it has to: with
/// what is repeated of this one, if that and the next unit fit, or else right behind it.
pub open spec fn is_followed(
    units: Seq<Seq<char>>,
    max: nat,
    overlap: nat,
    run: (int, int),
    next: int,
) -> bool {
    let end = run.1;
    let kept = carried(units.subrange(run.0, end), overlap).len();
    &&& end < units.len()
    &&& paragraphs(units.subrange(run.0, end + 1)).len() > max
    &&& next == if paragraphs(units.subrange(end - kept, end + 1)).len() <= max {
        end - kept
    } else {
        end
    }
}

/// Whether the chunks hold these runs of units: each chunk one of them under the heading; the
/// first one begins with the first unit, and the next one with those that are repeated of the
/// one before it, if they and the next unit fit, or else right behind it. None could have
/// taken one unit more.
pub open spec fn are_runs(
    units: Seq<Seq<char>>,
    heading: Option<Seq<char>>,
    max: nat,
    overlap: nat,
    chunks: Seq<Chunk>,
    runs: Seq<(int, int)>,
) -> bool {
    &&& chunks.len() == runs.len()
    &&& forall|k: int|
        0 <= k < runs.len() ==> 0 <= (#[trigger] runs[k]).0 < runs[k].1 <= units.len()
            && chunks[k].heading == heading && chunks[k].markdown == paragraphs(
            units.subrange(runs[k].0, runs[k].1),
        )
    &&& runs.len() > 0 ==> runs[0].0 == 0
    &&& forall|j: int, k: int|
        0 <= j < k < runs.len() && k == j + 1 ==> is_followed(
            units,
            max,
            overlap,
            #[trigger] runs[j],
            (#[trigger] runs[k]).0,
        )
}

proof fn lemma_runs_of_units(
    units: Seq<Seq<char>>,
    heading: Option<Seq<char>>,
    max: nat,
    overlap: nat,
    n: int,
) -> (r: (Seq<(int, int)>, int))
    requires
        0 <= n <= units.len(),
    ensures
        ({
            let packing = pack_units(units.take(n), heading, max, overlap);
            let (runs, from) = r;
            &&& are_runs(units, heading, max, overlap, packing.done, runs)
            &&& 0 <= from <= n
            &&& n > 0 ==> from < n
            &&& packing.open == units.subrange(from, n)
            &&& runs.len() == 0 ==> from == 0
            &&& runs.len() > 0 ==> runs.last().1 < n && is_followed(
                units,
                max,
                overlap,
                runs.last(),
                from,
            )
        }),
    decreases n,
{
    if n == 0 {
        assert(units.take(0) =~= Seq::<Seq<char>>::empty());
        assert(units.subrange(0, 0) =~= Seq::<Seq<char>>::empty());
        (Seq::empty(), 0)
    } else {
        let (runs, from) = lemma_runs_of_units(units, heading, max, overlap, n - 1);
        assert(units.take(n).drop_last() =~= units.take(n - 1));
        let before = pack_units(units.take(n - 1), heading, max, overlap);
        let packing = pack_units(units.take(n), heading, max, overlap);
        let unit = units[n - 1];
        assert(before.open.push(unit) =~= units.subrange(from, n));
        if paragraphs(before.open.push(unit)).len() <= max {
            (runs, from)
        } else {
            let kept = carried(before.open, overlap);
            lemma_carried_is_whole_blocks(before.open, overlap);
            let start = n - 1 - kept.len();
            assert(kept.push(unit) =~= units.subrange(start, n));
            assert(seq![unit] =~= units.subrange(n - 1, n));
            if n == 1 {
                (runs, 0)
            } else {
                let more = runs.push((from, n - 1));
                let next = if paragraphs(units.subrange(start, n)).len() <= max {
                    start
                } else {
                    n - 1
                };
                assert forall|k: int| 0 <= k < more.len() implies 0 <= (#[trigger] more[k]).0
                    < more[k].1 <= units.len() && packing.done[k].heading == heading
                    && packing.done[k].markdown == paragraphs(
                    units.subrange(more[k].0, more[k].1),
                ) by {
                    if k < runs.len() {
                        assert(more[k] == runs[k]);
                        assert(packing.done[k] == before.done[k]);
                    }
                }
                assert forall|j: int, k: int|
                    0 <= j < k < more.len() && k == j + 1 implies is_followed(
                    units,
                    max,
                    overlap,
                    #[trigger] more[j],
                    (#[trigger] more[k]).0,
                ) by {
                    assert(more[j] == runs[j]);
                    if k < runs.len() {
                        assert(more[k] == runs[k]);
                    }
                }
                assert(units.subrange(from, n - 1) =~= before.open);
                assert(is_followed(units, max, overlap, (from, n - 1), next));
                (more, next)
            }
        }
    }
}

/// The chunks of the blocks of a section are runs of their pieces, which go on from the first
/// to the last. Each takes as many as fit, and each but the first repeats as many whole pieces
/// of the one before it as the overlap and the limit allow.
pub proof fn lemma_chunks_are_filled_in_order(
    blocks: Seq<Seq<char>>,
    heading: Option<Seq<char>>,
    max: nat,
    overlap: nat,
) -> (runs: Seq<(int, int)>)
    ensures
        are_runs(
            units_of(blocks, max),
            heading,
            max,
            overlap,
            pack(blocks, heading, max, overlap),
            runs,
        ),
        units_of(blocks, max).len() > 0 ==> runs.len() > 0 && runs.last().1 == units_of(
            blocks,
            max,
        ).len(),
{
    let units = units_of(blocks, max);
    let n = units.len() as int;
    assert(units.take(n) =~= units);
    let (runs, from) = lemma_runs_of_units(units, heading, max, overlap, n);
    let packing = pack_units(units, heading, max, overlap);
    let chunks = pack(blocks, heading, max, overlap);
    if n == 0 {
        runs
    } else {
        let more = runs.push((from, n));
        assert forall|k: int| 0 <= k < more.len() implies 0 <= (#[trigger] more[k]).0 < more[k].1
            <= units.len() && chunks[k].heading == heading && chunks[k].markdown == paragraphs(
            units.subrange(more[k].0, more[k].1),
        ) by {
            if k < runs.len() {
                assert(more[k] == runs[k]);
                assert(chunks[k] == packing.done[k]);
            }
        }
        assert forall|j: int, k: int| 0 <= j < k < more.len() && k == j + 1 implies is_followed(
            units,
            max,
            overlap,
            #[trigger] more[j],
            (#[trigger] more[k]).0,
        ) by {
            assert(more[j] == runs[j]);
            if k < runs.len() {
                assert(more[k] == runs[k]);
            }
        }
        more
    }
}

} // verus!
