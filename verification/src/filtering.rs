//! A search leaves out what the request rules out, and nothing else.
use crate::lines::words;
use crate::search_results::{
    at_most, ends_with_any, lemma_results_keep_their_order, lemma_results_pass_the_filter, meets,
    overlap, passes, passing, value_of, CandidateModel, Filter, Found,
};
use crate::text::{contains, ends_with};
use vstd::prelude::*;

verus! {

/// Whether one of the results is the document at this place.
pub open spec fn is_shown(results: Seq<Found>, at: int) -> bool {
    exists|k: int| 0 <= k < results.len() && (#[trigger] results[k]).rank == at
}

// ---------------------------------------------------------------------------
// Every document that passes
// ---------------------------------------------------------------------------

proof fn lemma_passing_is_complete(
    all: Seq<CandidateModel>,
    filter: Filter,
    query: Seq<char>,
    at: int,
)
    requires
        0 <= at < all.len(),
    ensures
        is_shown(passing(all, filter, query), at) <==> passes(filter, all[at]),
    decreases all.len(),
{
    let front = all.drop_last();
    let before = passing(front, filter, query);
    let now = passing(all, filter, query);
    if at < front.len() {
        lemma_passing_is_complete(front, filter, query, at);
        assert(front[at] == all[at]);
        if is_shown(before, at) {
            let k = choose|k: int| 0 <= k < before.len() && (#[trigger] before[k]).rank == at;
            assert(now[k].rank == at);
        }
        if is_shown(now, at) {
            let k = choose|k: int| 0 <= k < now.len() && (#[trigger] now[k]).rank == at;
            assert(before[k] == now[k]);
        }
    } else {
        if passes(filter, all[at]) {
            assert(now[before.len() as int].rank == at);
        }
        if is_shown(now, at) {
            let k = choose|k: int| 0 <= k < now.len() && (#[trigger] now[k]).rank == at;
            assert(at_most(now, now.len())[k] == now[k]);
            lemma_results_pass_the_filter(all, filter, query, now.len(), k);
        }
    }
}

/// A cut keeps the front: what it leaves out stands behind all that it keeps.
proof fn lemma_cut_keeps_the_front(
    all: Seq<CandidateModel>,
    filter: Filter,
    query: Seq<char>,
    limit: nat,
    at: int,
)
    requires
        is_shown(passing(all, filter, query), at),
    ensures
        ({
            let shown = at_most(passing(all, filter, query), limit);
            is_shown(shown, at) || (shown.len() == limit && forall|k: int|
                0 <= k < shown.len() ==> (#[trigger] shown[k]).rank < at)
        }),
{
    let full = passing(all, filter, query);
    let shown = at_most(full, limit);
    lemma_results_keep_their_order(all, filter, query, full.len());
    assert(at_most(full, full.len()) == full);
    let n = choose|n: int| 0 <= n < full.len() && (#[trigger] full[n]).rank == at;
    if n < shown.len() {
        assert(shown[n] == full[n]);
    } else {
        assert forall|k: int| 0 <= k < shown.len() implies (#[trigger] shown[k]).rank < at by {
            assert(shown[k] == full[k]);
            assert(full[k].rank < full[n].rank);
        }
    }
}

proof fn lemma_shown_passes(
    all: Seq<CandidateModel>,
    filter: Filter,
    query: Seq<char>,
    limit: nat,
    at: int,
)
    requires
        is_shown(at_most(passing(all, filter, query), limit), at),
    ensures
        0 <= at < all.len(),
        passes(filter, all[at]),
{
    let shown = at_most(passing(all, filter, query), limit);
    let k = choose|k: int| 0 <= k < shown.len() && (#[trigger] shown[k]).rank == at;
    lemma_results_pass_the_filter(all, filter, query, limit, k);
}

/// With no condition, the results are the documents whose notes can be read, in their order,
/// up to the limit: nothing is left out but what cannot be read and what comes behind the
/// limit.
pub proof fn lemma_plain_search_finds_every_readable_note(
    all: Seq<CandidateModel>,
    filter: Filter,
    query: Seq<char>,
    limit: nat,
)
    requires
        filter.tags is None,
        filter.frontmatter is None,
        filter.backlinks_from is None,
        filter.excluded is None,
    ensures
        ({
            let shown = at_most(passing(all, filter, query), limit);
            &&& shown.len() <= limit
            &&& forall|i: int, j: int|
                0 <= i < j < shown.len() ==> (#[trigger] shown[i]).rank < (
                #[trigger] shown[j]).rank
            &&& forall|k: int|
                0 <= k < shown.len() ==> (#[trigger] shown[k]).rank < all.len()
                    && all[shown[k].rank as int].note is Some
            &&& forall|at: int|
                0 <= at < all.len() && (#[trigger] all[at]).note is Some ==> is_shown(shown, at)
                    || (shown.len() == limit && forall|k: int|
                    0 <= k < shown.len() ==> (#[trigger] shown[k]).rank < at)
        }),
{
    let shown = at_most(passing(all, filter, query), limit);
    lemma_results_keep_their_order(all, filter, query, limit);
    assert forall|k: int| 0 <= k < shown.len() implies (#[trigger] shown[k]).rank < all.len()
        && all[shown[k].rank as int].note is Some by {
        lemma_results_pass_the_filter(all, filter, query, limit, k);
    }
    assert forall|at: int| 0 <= at < all.len() && (#[trigger] all[at]).note is Some implies (
    is_shown(shown, at) || (shown.len() == limit && forall|k: int|
        0 <= k < shown.len() ==> (#[trigger] shown[k]).rank < at)) by {
        assert(passes(filter, all[at]));
        lemma_passing_is_complete(all, filter, query, at);
        lemma_cut_keeps_the_front(all, filter, query, limit, at);
    }
}

/// Whether two documents are the same but for what the filter sets no condition on.
pub open spec fn are_alike(filter: Filter, a: CandidateModel, b: CandidateModel) -> bool {
    &&& a.note is Some <==> b.note is Some
    &&& filter.tags is Some ==> a.tags == b.tags
    &&& filter.excluded is Some ==> a.path == b.path
    &&& filter.frontmatter is Some && a.note is Some ==> a.note->0.frontmatter
        == b.note->0.frontmatter
    &&& filter.backlinks_from is Some && a.note is Some ==> a.note->0.backlinks
        == b.note->0.backlinks
}

/// A condition that the filter leaves unset never removes a document: which documents are
/// results does not depend on what they hold where nothing is asked of it.
pub proof fn lemma_unset_conditions_remove_nothing(
    all: Seq<CandidateModel>,
    others: Seq<CandidateModel>,
    filter: Filter,
    query: Seq<char>,
    limit: nat,
)
    requires
        all.len() == others.len(),
        forall|i: int| 0 <= i < all.len() ==> are_alike(filter, #[trigger] all[i], others[i]),
    ensures
        ({
            let shown = at_most(passing(all, filter, query), limit);
            let twins = at_most(passing(others, filter, query), limit);
            &&& shown.len() == twins.len()
            &&& forall|k: int|
                0 <= k < shown.len() ==> (#[trigger] shown[k]).rank == twins[k].rank
        }),
    decreases all.len(),
{
    let full = passing(all, filter, query);
    let twin = passing(others, filter, query);
    lemma_twins(all, others, filter, query);
    let shown = at_most(full, limit);
    let twins = at_most(twin, limit);
    assert forall|k: int| 0 <= k < shown.len() implies (#[trigger] shown[k]).rank
        == twins[k].rank by {
        assert(shown[k] == full[k] && twins[k] == twin[k]);
    }
}

proof fn lemma_twins(
    all: Seq<CandidateModel>,
    others: Seq<CandidateModel>,
    filter: Filter,
    query: Seq<char>,
)
    requires
        all.len() == others.len(),
        forall|i: int| 0 <= i < all.len() ==> are_alike(filter, #[trigger] all[i], others[i]),
    ensures
        passing(all, filter, query).len() == passing(others, filter, query).len(),
        forall|k: int|
            0 <= k < passing(all, filter, query).len() ==> (#[trigger] passing(
                all,
                filter,
                query,
            )[k]).rank == passing(others, filter, query)[k].rank,
    decreases all.len(),
{
    if all.len() > 0 {
        let front = all.drop_last();
        let fronts = others.drop_last();
        assert forall|i: int| 0 <= i < front.len() implies are_alike(
            filter,
            #[trigger] front[i],
            fronts[i],
        ) by {
            assert(front[i] == all[i]);
        }
        lemma_twins(front, fronts, filter, query);
        let last = all.len() - 1;
        assert(are_alike(filter, all[last], others[last]));
        assert(passes(filter, all[last]) == passes(filter, others[last]));
        assert forall|k: int| 0 <= k < passing(all, filter, query).len() implies (
        #[trigger] passing(all, filter, query)[k]).rank == passing(others, filter, query)[k].rank by {
            let before = passing(front, filter, query);
            if k < before.len() {
                assert(passing(all, filter, query)[k] == before[k]);
            }
        }
    }
}

/// Whether a filter asks for nothing that another does not ask for.
pub open spec fn is_looser(looser: Filter, filter: Filter) -> bool {
    &&& looser.tags is None || looser.tags == filter.tags
    &&& looser.frontmatter is None || looser.frontmatter == filter.frontmatter
    &&& looser.backlinks_from is None || looser.backlinks_from == filter.backlinks_from
    &&& looser.excluded is None || looser.excluded == filter.excluded
}

/// Asking for less finds no less: a document that passes a filter passes any filter that
/// drops some of its conditions.
pub proof fn lemma_fewer_conditions_find_more(
    all: Seq<CandidateModel>,
    looser: Filter,
    filter: Filter,
    query: Seq<char>,
    at: int,
)
    requires
        is_looser(looser, filter),
        is_shown(passing(all, filter, query), at),
    ensures
        is_shown(passing(all, looser, query), at),
{
    let full = passing(all, filter, query);
    assert(at_most(full, full.len()) == full);
    lemma_shown_passes(all, filter, query, full.len(), at);
    lemma_passing_is_complete(all, looser, query, at);
}

// ---------------------------------------------------------------------------
// What each condition asks for
// ---------------------------------------------------------------------------

proof fn lemma_value_of(held: Seq<(Seq<char>, Seq<char>)>, key: Seq<char>) -> (at: int)
    ensures
        match value_of(held, key) {
            Some(value) => {
                &&& 0 <= at < held.len() && held[at].0 == key && held[at].1 == value
                &&& forall|k: int| 0 <= k < at ==> (#[trigger] held[k]).0 != key
            },
            None => forall|k: int| 0 <= k < held.len() ==> (#[trigger] held[k]).0 != key,
        },
    decreases held.len(),
{
    if held.len() == 0 {
        0
    } else if held[0].0 == key {
        0
    } else {
        let rest = held.drop_first();
        let at = lemma_value_of(rest, key) + 1;
        match value_of(held, key) {
            Some(value) => {
                assert(rest[at - 1] == held[at]);
                assert forall|k: int| 0 <= k < at implies (#[trigger] held[k]).0 != key by {
                    if k > 0 {
                        assert(rest[k - 1] == held[k]);
                    }
                }
            },
            None => {
                assert forall|k: int| 0 <= k < held.len() implies (#[trigger] held[k]).0
                    != key by {
                    if k > 0 {
                        assert(rest[k - 1] == held[k]);
                    }
                }
            },
        }
        at
    }
}

/// Whether the first value under a key holds a text.
pub open spec fn first_value_holds(
    held: Seq<(Seq<char>, Seq<char>)>,
    key: Seq<char>,
    text: Seq<char>,
) -> bool {
    exists|at: int|
        0 <= at < held.len() && (#[trigger] held[at]).0 == key && contains(held[at].1, text)
            && forall|k: int| 0 <= k < at ==> (#[trigger] held[k]).0 != key
}

proof fn lemma_meets(held: Seq<(Seq<char>, Seq<char>)>, wanted: (Seq<char>, Seq<char>))
    ensures
        meets(held, wanted) <==> first_value_holds(held, wanted.0, wanted.1),
{
    let at = lemma_value_of(held, wanted.0);
    match value_of(held, wanted.0) {
        Some(value) => {
            assert(held[at].0 == wanted.0);
            if first_value_holds(held, wanted.0, wanted.1) {
                let n = choose|n: int|
                    0 <= n < held.len() && (#[trigger] held[n]).0 == wanted.0 && contains(
                        held[n].1,
                        wanted.1,
                    ) && forall|k: int| 0 <= k < n ==> (#[trigger] held[k]).0 != wanted.0;
                assert(n == at);
            }
        },
        None => {},
    }
}

/// A document is a result, where the limit leaves room, if its note can be read and it meets
/// each condition that is set: it has one of the tags; its path has none of the excluded
/// endings; the first value under each key holds the text that is asked for; and one of the
/// given notes links to it. If it is a result, it meets all of them.
pub proof fn lemma_a_document_is_found_by_its_merits(
    all: Seq<CandidateModel>,
    filter: Filter,
    query: Seq<char>,
    limit: nat,
    at: int,
)
    requires
        0 <= at < all.len(),
    ensures
        ({
            let c = all[at];
            let shown = at_most(passing(all, filter, query), limit);
            let merits = {
                &&& c.note is Some
                &&& filter.tags matches Some(tags) ==> exists|tag: Seq<char>| #[trigger]
                    tags.contains(tag) && words(c.tags).contains(tag)
                &&& filter.excluded matches Some(endings) ==> forall|ending: Seq<char>| #[trigger]
                    endings.contains(ending) ==> ending.len() > c.path.len() || c.path.skip(
                        c.path.len() - ending.len(),
                    ) != ending
                &&& filter.frontmatter matches Some(wanted) ==> c.note->0.frontmatter is Some
                    && forall|k: int|
                    0 <= k < wanted.len() ==> first_value_holds(
                        c.note->0.frontmatter->0,
                        (#[trigger] wanted[k]).0,
                        wanted[k].1,
                    )
                &&& filter.backlinks_from matches Some(paths) ==> exists|path: Seq<char>| #[trigger]
                    paths.contains(path) && c.note->0.backlinks.contains(path)
            };
            &&& is_shown(shown, at) ==> merits
            &&& merits ==> is_shown(shown, at) || (shown.len() == limit && forall|k: int|
                0 <= k < shown.len() ==> (#[trigger] shown[k]).rank < at)
        }),
{
    let c = all[at];
    let shown = at_most(passing(all, filter, query), limit);
    lemma_merits(filter, c);
    if is_shown(shown, at) {
        lemma_shown_passes(all, filter, query, limit, at);
    }
    lemma_passing_is_complete(all, filter, query, at);
    if passes(filter, c) {
        lemma_cut_keeps_the_front(all, filter, query, limit, at);
    }
}

proof fn lemma_overlap(a: Seq<Seq<char>>, b: Seq<Seq<char>>)
    ensures
        overlap(a, b) <==> exists|t: Seq<char>| #[trigger] b.contains(t) && a.contains(t),
{
    if overlap(a, b) {
        let i = choose|i: int| 0 <= i < a.len() && b.contains(#[trigger] a[i]);
        assert(b.contains(a[i]) && a.contains(a[i]));
    }
    if exists|t: Seq<char>| #[trigger] b.contains(t) && a.contains(t) {
        let t = choose|t: Seq<char>| #[trigger] b.contains(t) && a.contains(t);
        assert(b.contains(a[a.index_of(t)]));
    }
}

proof fn lemma_ends(path: Seq<char>, endings: Seq<Seq<char>>)
    ensures
        !ends_with_any(path, endings) <==> forall|ending: Seq<char>| #[trigger]
            endings.contains(ending) ==> ending.len() > path.len() || path.skip(
                path.len() - ending.len(),
            ) != ending,
{
    if ends_with_any(path, endings) {
        let i = choose|i: int| 0 <= i < endings.len() && ends_with(path, #[trigger] endings[i]);
        let ending = endings[i];
        assert(endings.contains(ending));
        assert(path.skip(path.len() - ending.len()) =~= path.subrange(
            path.len() - ending.len(),
            path.len() as int,
        ));
    } else {
        assert forall|ending: Seq<char>| #[trigger] endings.contains(ending) implies ending.len()
            > path.len() || path.skip(path.len() - ending.len()) != ending by {
            let i = endings.index_of(ending);
            assert(!ends_with(path, endings[i]));
            assert(path.skip(path.len() - ending.len()) =~= path.subrange(
                path.len() - ending.len(),
                path.len() as int,
            ));
        }
    }
}

proof fn lemma_merits(filter: Filter, c: CandidateModel)
    ensures
        passes(filter, c) <==> {
            &&& c.note is Some
            &&& filter.tags matches Some(tags) ==> exists|tag: Seq<char>| #[trigger] tags.contains(
                tag,
            ) && words(c.tags).contains(tag)
            &&& filter.excluded matches Some(endings) ==> forall|ending: Seq<char>| #[trigger]
                endings.contains(ending) ==> ending.len() > c.path.len() || c.path.skip(
                    c.path.len() - ending.len(),
                ) != ending
            &&& filter.frontmatter matches Some(wanted) ==> c.note->0.frontmatter is Some
                && forall|k: int|
                0 <= k < wanted.len() ==> first_value_holds(
                    c.note->0.frontmatter->0,
                    (#[trigger] wanted[k]).0,
                    wanted[k].1,
                )
            &&& filter.backlinks_from matches Some(paths) ==> exists|path: Seq<char>| #[trigger]
                paths.contains(path) && c.note->0.backlinks.contains(path)
        },
{
    match filter.tags {
        Some(tags) => {
            lemma_overlap(words(c.tags), tags);
        },
        None => {},
    }
    match filter.excluded {
        Some(endings) => {
            lemma_ends(c.path, endings);
        },
        None => {},
    }
    match filter.backlinks_from {
        Some(paths) => {
            lemma_overlap(c.note->0.backlinks, paths);
        },
        None => {},
    }
    match filter.frontmatter {
        Some(wanted) => {
            let held = c.note->0.frontmatter->0;
            assert forall|k: int| 0 <= k < wanted.len() implies meets(held, #[trigger] wanted[k])
                == first_value_holds(held, wanted[k].0, wanted[k].1) by {
                lemma_meets(held, wanted[k]);
            }
        },
        None => {},
    }
}

// ---------------------------------------------------------------------------
// What a result shows
// ---------------------------------------------------------------------------

/// A result shows its document: path and title as the index holds them, and of the note its
/// links, how many notes link to it, how many characters it has, and its first two hundred.
pub proof fn lemma_results_show_their_document(
    all: Seq<CandidateModel>,
    filter: Filter,
    query: Seq<char>,
    limit: nat,
    k: int,
)
    requires
        0 <= k < at_most(passing(all, filter, query), limit).len(),
    ensures
        ({
            let result = at_most(passing(all, filter, query), limit)[k];
            let c = all[result.rank as int];
            let note = c.note->0;
            &&& result.rank < all.len()
            &&& c.note is Some
            &&& result.path == c.path
            &&& result.title == c.title
            &&& result.tags == words(c.tags)
            &&& result.outgoing_links == note.links
            &&& result.backlink_count == note.backlinks.len()
            &&& result.char_count == note.plain.len()
            &&& result.word_count == words(note.plain).len()
            &&& note.plain.len() <= 200 ==> result.preview == note.plain
            &&& note.plain.len() > 200 ==> result.preview == note.plain.take(200)
        }),
{
    lemma_results_pass_the_filter(all, filter, query, limit, k);
}

} // verus!
