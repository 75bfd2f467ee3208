//! What a reopened passage promises: which chunks stand beside it, how much of each, and when
//! it is refused.
use crate::error::Fault;
use crate::hashing::digest_text;
use crate::index::Entry;
use crate::numbers::{all_digits, decimal, is_digit, lemma_number_of_decimal};
use crate::ordering::lemma_sorting_is_stable;
use crate::fusion::lemma_onto;
use crate::passage::{
    anchor_in, at_distance, budget_of, expanded, is_neighbor, last_hash, note_chunks, of_path,
    opt_root, ordinal, ordinal_order, passage_answer, position_order, positions, reach_of, root_of,
    spend, total_chars, Passage,
};
use crate::reindex::chunk_id;
use crate::sorting::sort_by;
use crate::text::{lemma_position_of, occurs_at};
use vstd::prelude::*;
use vstd::utf8::encode_utf8;

verus! {

// ---------------------------------------------------------------------------
// The chunks of a note
// ---------------------------------------------------------------------------

proof fn lemma_decimal_is_digits(n: nat)
    ensures
        all_digits(decimal(n)),
        decimal(n).len() > 0,
    decreases n,
{
    if n >= 10 {
        lemma_decimal_is_digits(n / 10);
    }
}

proof fn lemma_last_hash(a: Seq<char>, b: Seq<char>)
    requires
        forall|i: int| 0 <= i < b.len() ==> #[trigger] b[i] != '#',
    ensures
        last_hash(a + seq!['#'] + b) == Some(a.len() as int),
    decreases b.len(),
{
    let s = a + seq!['#'] + b;
    if b.len() > 0 {
        let front = b.drop_last();
        assert(s.last() == b[b.len() - 1]);
        assert(s.drop_last() =~= a + seq!['#'] + front);
        assert forall|i: int| 0 <= i < front.len() implies #[trigger] front[i] != '#' by {
            assert(front[i] == b[i]);
        }
        lemma_last_hash(a, front);
    } else {
        assert(s.last() == '#');
    }
}

/// The number that a chunk has in its note is read back from its identifier, so that the
/// chunks of a note are sorted as they stand in it.
pub proof fn lemma_chunks_know_their_number(path: Seq<char>, n: nat)
    requires
        n <= usize::MAX,
    ensures
        ordinal(chunk_id(path, n)) == n,
{
    reveal_strlit("#");
    let digits = decimal(n);
    lemma_decimal_is_digits(n);
    assert forall|i: int| 0 <= i < digits.len() implies #[trigger] digits[i] != '#' by {
        assert(is_digit(digits[i]));
    }
    assert("#"@ =~= seq!['#']);
    lemma_last_hash(path, digits);
    assert(chunk_id(path, n).skip(path.len() as int + 1) =~= digits);
    lemma_number_of_decimal(n, usize::MAX as nat);
}

proof fn lemma_of_path(all: Seq<Entry>, path: Seq<char>) -> (places: Seq<int>)
    ensures
        places.len() == of_path(all, path).len(),
        forall|a: int, b: int| 0 <= a < b < places.len() ==> places[a] < places[b],
        forall|k: int|
            0 <= k < places.len() ==> 0 <= #[trigger] places[k] < all.len() && of_path(all, path)[k]
                == all[places[k]],
        forall|i: int|
            0 <= i < all.len() ==> (places.contains(i) <==> (#[trigger] all[i]).path == path),
    decreases all.len(),
{
    if all.len() == 0 {
        Seq::empty()
    } else {
        let front = all.drop_last();
        let before = lemma_of_path(front, path);
        let last = all.len() - 1;
        let places = if all.last().path == path {
            before.push(last)
        } else {
            before
        };
        assert forall|k: int| 0 <= k < places.len() implies 0 <= #[trigger] places[k] < all.len()
            && of_path(all, path)[k] == all[places[k]] by {
            if k < before.len() {
                assert(places[k] == before[k]);
                assert(front[before[k]] == all[before[k]]);
            }
        }
        assert forall|a: int, b: int| 0 <= a < b < places.len() implies places[a] < places[b] by {
            assert(places[a] == before[a]);
            if b < before.len() {
                assert(places[b] == before[b]);
            }
        }
        assert forall|i: int| 0 <= i < all.len() implies (places.contains(i) <==> (
        #[trigger] all[i]).path == path) by {
            if i < last {
                assert(front[i] == all[i]);
                if before.contains(i) {
                    assert(places[before.index_of(i)] == i);
                }
                if places.contains(i) {
                    let k = places.index_of(i);
                    assert(before[k] == i);
                }
            } else {
                if places.contains(i) {
                    let k = places.index_of(i);
                    if k < before.len() {
                        assert(before[k] < front.len());
                    }
                }
                if all.last().path == path {
                    assert(places[before.len() as int] == i);
                }
            }
        }
        places
    }
}

/// The chunks of a note are those with its path, all of them and each once, by their numbers;
/// chunks of the same number stay in the order of the index.
pub proof fn lemma_note_has_all_its_chunks(all: Seq<Entry>, path: Seq<char>) -> (places: Seq<int>)
    ensures
        ({
            let note = note_chunks(all, path);
            &&& places.len() == note.len()
            &&& places.no_duplicates()
            &&& forall|k: int|
                0 <= k < places.len() ==> 0 <= #[trigger] places[k] < all.len() && note[k]
                    == all[places[k]]
            &&& forall|i: int|
                0 <= i < all.len() ==> (places.contains(i) <==> (#[trigger] all[i]).path == path)
            &&& forall|a: int, b: int|
                0 <= a < b < places.len() ==> ordinal((#[trigger] note[a]).id) < ordinal(
                    (#[trigger] note[b]).id,
                ) || (ordinal(note[a].id) == ordinal(note[b].id) && places[a] < places[b])
        }),
{
    let found = of_path(all, path);
    let note = note_chunks(all, path);
    let first = lemma_of_path(all, path);
    let order = lemma_sorting_is_stable(found, ordinal_order());
    assert(crate::sorting::is_order(ordinal_order()));
    crate::sorting::lemma_sort_in_order(found, ordinal_order());
    let places = order.map_values(|k: int| first[k]);
    assert forall|k: int| 0 <= k < places.len() implies 0 <= #[trigger] places[k] < all.len()
        && note[k] == all[places[k]] by {
        assert(places[k] == first[order[k]]);
        assert(note[k] == found[order[k]]);
    }
    assert forall|a: int, b: int|
        0 <= a < places.len() && 0 <= b < places.len() && a != b implies places[a] != places[b] by {
        assert(order[a] != order[b]);
        if order[a] < order[b] {
            assert(first[order[a]] < first[order[b]]);
        } else {
            assert(first[order[b]] < first[order[a]]);
        }
    }
    assert forall|i: int| 0 <= i < all.len() implies (places.contains(i) <==> (
    #[trigger] all[i]).path == path) by {
        if places.contains(i) {
            let k = places.index_of(i);
            assert(first[order[k]] == i);
            assert(first.contains(i));
        }
        if all[i].path == path {
            assert(first.contains(i));
            let m = first.index_of(i);
            lemma_onto(order, m);
            let k = choose|k: int| 0 <= k < order.len() && order[k] == m;
            assert(places[k] == i);
        }
    }
    assert forall|a: int, b: int| 0 <= a < b < places.len() implies ordinal(
        (#[trigger] note[a]).id,
    ) < ordinal((#[trigger] note[b]).id) || (ordinal(note[a].id) == ordinal(note[b].id)
        && places[a] < places[b]) by {
        assert(!ordinal_order()(note[b], note[a]));
        assert(order[a] != order[b]);
        assert(note[a] == found[order[a]] && note[b] == found[order[b]]);
        if order[a] < order[b] {
            assert(first[order[a]] < first[order[b]]);
            assert(places[a] == first[order[a]] && places[b] == first[order[b]]);
        } else {
            assert(ordinal_order()(found[order[a]], found[order[b]]));
        }
    }
    places
}

// ---------------------------------------------------------------------------
// The neighbours
// ---------------------------------------------------------------------------

/// A heading's first part ends at its first arrow; one without an arrow is its own first part.
pub proof fn lemma_root_ends_at_the_first_arrow(heading: Seq<char>, at: int)
    ensures
        occurs_at(heading, " > "@, at) && (forall|k: int|
            0 <= k < at ==> !occurs_at(heading, " > "@, k)) ==> root_of(heading) == heading.take(
            at,
        ),
        (forall|k: int| 0 <= k ==> !occurs_at(heading, " > "@, k)) ==> root_of(heading) == heading,
{
    lemma_position_of(heading, " > "@, 0);
}

/// How far a position is from another.
pub open spec fn distance(a: int, b: int) -> int {
    if a < b {
        b - a
    } else {
        a - b
    }
}

#[verifier::spinoff_prover]
proof fn lemma_positions(note: Seq<Entry>, at: int, n: nat)
    requires
        0 <= at < note.len(),
    ensures
        ({
            let order = positions(note, at, n);
            &&& order.no_duplicates()
            &&& forall|p: int| #[trigger]
                order.contains(p) <==> 0 <= p < note.len() && opt_root(note[p].heading) == opt_root(
                    note[at].heading,
                ) && distance(at, p) <= n
            &&& forall|i: int, j: int|
                0 <= i < j < order.len() ==> distance(at, #[trigger] order[i]) <= distance(
                    at,
                    #[trigger] order[j],
                )
        }),
    decreases n,
{
    let order = positions(note, at, n);
    if n == 0 {
        assert(order[0] == at);
    } else {
        let before = positions(note, at, (n - 1) as nat);
        let more = at_distance(note, at, n as int);
        lemma_positions(note, at, (n - 1) as nat);
        assert(order == before + more);
        assert forall|k: int| 0 <= k < more.len() implies distance(at, #[trigger] more[k]) == n
            && is_neighbor(note, at, more[k]) by {}
        assert forall|k: int| 0 <= k < before.len() implies distance(at, #[trigger] before[k])
            <= n - 1 by {
            assert(before.contains(before[k]));
        }
        assert forall|i: int, j: int|
            0 <= i < order.len() && 0 <= j < order.len() && i != j implies order[i] != order[j] by {
            if i < before.len() && j < before.len() {
                assert(order[i] == before[i] && order[j] == before[j]);
            } else if i < before.len() {
                assert(order[i] == before[i] && order[j] == more[j - before.len()]);
            } else if j < before.len() {
                assert(order[j] == before[j] && order[i] == more[i - before.len()]);
            } else {
                assert(order[i] == more[i - before.len()] && order[j] == more[j - before.len()]);
            }
        }
        assert forall|i: int, j: int| 0 <= i < j < order.len() implies distance(
            at,
            #[trigger] order[i],
        ) <= distance(at, #[trigger] order[j]) by {
            if j < before.len() {
                assert(order[i] == before[i] && order[j] == before[j]);
            } else if i < before.len() {
                assert(order[i] == before[i] && order[j] == more[j - before.len()]);
            } else {
                assert(order[i] == more[i - before.len()] && order[j] == more[j - before.len()]);
            }
        }
        assert forall|p: int| #[trigger]
            order.contains(p) <==> 0 <= p < note.len() && opt_root(note[p].heading) == opt_root(
                note[at].heading,
            ) && distance(at, p) <= n by {
            if order.contains(p) {
                let k = order.index_of(p);
                if k < before.len() {
                    assert(before.contains(before[k]));
                } else {
                    assert(more[k - before.len()] == p);
                }
            }
            if is_neighbor(note, at, p) && distance(at, p) <= n {
                if distance(at, p) <= n - 1 {
                    assert(before.contains(p));
                    assert(order[before.index_of(p)] == p);
                } else if p == at - n {
                    assert(more[0] == p);
                    assert(order[before.len() as int] == p);
                } else {
                    assert(p == at + n);
                    assert(more[more.len() - 1] == p);
                    assert(order[order.len() - 1] == p);
                }
            }
        }
    }
}

/// Whether a passage is the chunk at a position, or as much of its beginning as was left.
pub open spec fn is_cut_of(note: Seq<Entry>, at: int, chosen: (int, Passage)) -> bool {
    let entry = note[chosen.0];
    let passage = chosen.1;
    &&& passage.chunk_id == entry.id
    &&& passage.heading == entry.heading
    &&& passage.text.len() <= entry.text.len()
    &&& passage.text == entry.text.take(passage.text.len() as int)
    &&& passage.truncated <==> passage.text.len() < entry.text.len()
    &&& passage.anchor <==> chosen.0 == at
}

proof fn lemma_spend(note: Seq<Entry>, at: int, order: Seq<int>, budget: nat)
    ensures
        ({
            let chosen = spend(note, at, order, budget);
            &&& chosen.passages.len() <= order.len()
            &&& forall|k: int|
                0 <= k < chosen.passages.len() ==> (#[trigger] chosen.passages[k]).0 == order[k]
                    && is_cut_of(note, at, chosen.passages[k])
            &&& total_chars(chosen.passages) + chosen.left == budget
            &&& chosen.passages.len() < order.len() ==> chosen.left == 0
            &&& forall|k: int|
                0 <= k < chosen.passages.len() && (#[trigger] chosen.passages[k]).1.truncated
                    ==> chosen.left == 0
        }),
    decreases order.len(),
{
    if order.len() > 0 {
        let front = order.drop_last();
        lemma_spend(note, at, front, budget);
        let before = spend(note, at, front, budget);
        let after = spend(note, at, order, budget);
        if before.left > 0 {
            assert(after.passages.drop_last() =~= before.passages);
            assert forall|k: int| 0 <= k < after.passages.len() implies (
            #[trigger] after.passages[k]).0 == order[k] && is_cut_of(note, at, after.passages[k])
                && (after.passages[k].1.truncated ==> after.left == 0) by {
                if k < before.passages.len() {
                    assert(after.passages[k] == before.passages[k]);
                    assert(front[k] == order[k]);
                }
            }
        } else {
            assert forall|k: int| 0 <= k < after.passages.len() implies (
            #[trigger] after.passages[k]).0 == order[k] by {
                assert(front[k] == order[k]);
            }
        }
    }
}

/// Whether one of the passages is the chunk at this position.
pub open spec fn shows(all: Seq<(int, Passage)>, position: int) -> bool {
    exists|k: int| 0 <= k < all.len() && (#[trigger] all[k]).0 == position
}

proof fn lemma_total_of_sorted(s: Seq<(int, Passage)>, budget: nat)
    requires
        total_chars(s) <= budget,
    ensures
        total_chars(sort_by(s, position_order())) == total_chars(s),
    decreases s.len(),
{
    if s.len() > 0 {
        lemma_total_of_sorted(s.drop_last(), budget);
        lemma_total_with(sort_by(s.drop_last(), position_order()), s.last());
    }
}

proof fn lemma_total_with(s: Seq<(int, Passage)>, x: (int, Passage))
    ensures
        total_chars(crate::sorting::insert_by(s, x, position_order())) == total_chars(s)
            + x.1.text.len(),
    decreases s.len(),
{
    if s.len() == 0 || !position_order()(x, s.last()) {
        assert(s.push(x).drop_last() =~= s);
    } else {
        lemma_total_with(s.drop_last(), x);
        let inner = crate::sorting::insert_by(s.drop_last(), x, position_order());
        assert(inner.push(s.last()).drop_last() =~= inner);
    }
}

/// An answer shows chunks of the top-level section of the passage, at most three places away,
/// each once and in their order, and each as far as the budget allowed. One that is within
/// reach and not shown, or shown in part, is so only because the whole budget was spent, and
/// on nothing that lies further away.
pub proof fn lemma_neighbours_are_shown_as_far_as_the_budget_goes(
    note: Seq<Entry>,
    at: int,
    neighbors: nat,
    max_chars: nat,
)
    requires
        0 <= at < note.len(),
    ensures
        ({
            let all = expanded(note, at, neighbors, max_chars);
            let budget = if max_chars < 1 {
                1
            } else if max_chars > 12_000 {
                12_000
            } else {
                max_chars
            };
            let reach = if neighbors > 3 {
                3
            } else {
                neighbors
            };
            &&& forall|i: int, j: int|
                0 <= i < j < all.len() ==> (#[trigger] all[i]).0 < (#[trigger] all[j]).0
            &&& forall|k: int|
                0 <= k < all.len() ==> 0 <= (#[trigger] all[k]).0 < note.len() && distance(
                    at,
                    all[k].0,
                ) <= reach && opt_root(note[all[k].0].heading) == opt_root(note[at].heading)
                    && is_cut_of(note, at, all[k])
            &&& total_chars(all) <= budget
            &&& forall|k: int|
                0 <= k < all.len() && (#[trigger] all[k]).1.truncated ==> total_chars(all) == budget
            &&& forall|p: int|
                0 <= p < note.len() && distance(at, p) <= reach && opt_root(note[p].heading)
                    == opt_root(note[at].heading) ==> #[trigger] shows(all, p) || (total_chars(all)
                    == budget && forall|k: int|
                    0 <= k < all.len() ==> distance(at, (#[trigger] all[k]).0) <= distance(at, p))
        }),
{
    let all = expanded(note, at, neighbors, max_chars);
    let order = positions(note, at, reach_of(neighbors));
    let budget = budget_of(max_chars);
    let chosen = spend(note, at, order, budget);
    let picked = chosen.passages;
    lemma_positions(note, at, reach_of(neighbors));
    lemma_spend(note, at, order, budget);
    lemma_total_of_sorted(picked, budget);
    let places = lemma_sorting_is_stable(picked, position_order());
    assert(crate::sorting::is_order(position_order()));
    crate::sorting::lemma_sort_in_order(picked, position_order());
    assert forall|k: int| 0 <= k < all.len() implies 0 <= (#[trigger] all[k]).0 < note.len()
        && distance(at, all[k].0) <= reach_of(neighbors) && opt_root(note[all[k].0].heading)
        == opt_root(note[at].heading) && is_cut_of(note, at, all[k]) by {
        assert(all[k] == picked[places[k]]);
        assert(order.contains(order[places[k]]));
    }
    assert forall|i: int, j: int| 0 <= i < j < all.len() implies (#[trigger] all[i]).0 < (
    #[trigger] all[j]).0 by {
        assert(!position_order()(all[j], all[i]));
        assert(all[i] == picked[places[i]] && all[j] == picked[places[j]]);
        assert(places[i] != places[j]);
        assert(order[places[i]] != order[places[j]]);
    }
    assert forall|k: int| 0 <= k < all.len() && (#[trigger] all[k]).1.truncated implies total_chars(
        all,
    ) == budget by {
        assert(all[k] == picked[places[k]]);
    }
    assert forall|p: int|
        0 <= p < note.len() && distance(at, p) <= reach_of(neighbors) && opt_root(note[p].heading)
            == opt_root(note[at].heading) implies #[trigger] shows(all, p) || (total_chars(all)
        == budget && forall|k: int|
        0 <= k < all.len() ==> distance(at, (#[trigger] all[k]).0) <= distance(at, p)) by {
        assert(order.contains(p));
        let n = order.index_of(p);
        if n < picked.len() {
            lemma_onto(places, n);
            let k = choose|k: int| 0 <= k < places.len() && places[k] == n;
            assert(all[k].0 == p);
        } else {
            assert forall|k: int| 0 <= k < all.len() implies distance(at, (#[trigger] all[k]).0)
                <= distance(at, p) by {
                assert(all[k] == picked[places[k]]);
                assert(distance(at, order[places[k]]) <= distance(at, order[n]));
            }
        }
    }
}

proof fn lemma_anchor_in(note: Seq<Entry>, id: Seq<char>)
    ensures
        match anchor_in(note, id) {
            Some(at) => 0 <= at < note.len() && note[at].id == id && forall|k: int|
                0 <= k < at ==> (#[trigger] note[k]).id != id,
            None => forall|k: int| 0 <= k < note.len() ==> (#[trigger] note[k]).id != id,
        },
    decreases note.len(),
{
    if note.len() > 0 {
        let front = note.drop_last();
        lemma_anchor_in(front, id);
        let end = match anchor_in(note, id) {
            Some(at) => at,
            None => note.len() as int,
        };
        assert forall|k: int| 0 <= k < end implies (#[trigger] note[k]).id != id by {
            if k < front.len() {
                assert(front[k] == note[k]);
            }
        }
    }
}

/// A passage is refused where the index has no chunk with that path and identifier, or where
/// its text is not the one that was asked for, and is answered otherwise.
pub proof fn lemma_passages_are_refused_when_they_changed(
    all: Seq<Entry>,
    path: Seq<char>,
    id: Seq<char>,
    hash: Seq<char>,
    neighbors: nat,
    max_chars: nat,
)
    ensures
        ({
            let answer = passage_answer(all, path, id, hash, neighbors, max_chars);
            let is_there = exists|i: int|
                0 <= i < all.len() && (#[trigger] all[i]).path == path && all[i].id == id;
            &&& !is_there ==> answer == Err::<Seq<Passage>, Fault>(
                Fault::Config(
                    "passage anchor not found for this exact path; rerun semantic_search"@,
                ),
            )
            &&& is_there && (forall|i: int|
                0 <= i < all.len() && (#[trigger] all[i]).path == path && all[i].id == id
                    ==> digest_text(encode_utf8(all[i].text)) != hash) ==> answer == Err::<
                Seq<Passage>,
                Fault,
            >(Fault::Config("passage anchor changed since search; rerun semantic_search"@))
            &&& is_there && (forall|i: int|
                0 <= i < all.len() && (#[trigger] all[i]).path == path && all[i].id == id
                    ==> digest_text(encode_utf8(all[i].text)) == hash) ==> answer is Ok
        }),
{
    let note = note_chunks(all, path);
    let places = lemma_note_has_all_its_chunks(all, path);
    lemma_anchor_in(note, id);
    match anchor_in(note, id) {
        Some(at) => {
            assert(note[at] == all[places[at]]);
            assert(places.contains(places[at]));
            assert(all[places[at]].path == path && all[places[at]].id == id);
        },
        None => {
            assert forall|i: int| 0 <= i < all.len() && (#[trigger] all[i]).path == path implies all[i].id
                != id by {
                assert(places.contains(i));
                let k = places.index_of(i);
                assert(note[k] == all[i]);
            }
        },
    }
}

} // verus!
