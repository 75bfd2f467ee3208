//! What fusing and reranking promise of each note: where its ranks come from, what it shows,
//! and that it is there once.
use crate::hybrid::{
    after_rerank, at_most, fuse, fuse_dense, hit_worth, is_larger, last_about,
    lemma_ranked_in_order, place_of, pool_of, ranked, rerank_text, reranked, total_failure, visible,
    with_sparse, worth, worth_order, ChannelFailure, DenseHit, Hit, SparseHit,
};
use crate::index::is_source_excluded;
use crate::ordering::lemma_sorting_is_stable;
use crate::text::{contains, opt_text};
use vstd::prelude::*;

verus! {

// ---------------------------------------------------------------------------
// Places
// ---------------------------------------------------------------------------

proof fn lemma_place_of(all: Seq<Hit>, path: Seq<char>)
    ensures
        match place_of(all, path) {
            Some(at) => 0 <= at < all.len() && all[at].path == path,
            None => forall|k: int| 0 <= k < all.len() ==> (#[trigger] all[k]).path != path,
        },
    decreases all.len(),
{
    if all.len() > 0 {
        let front = all.drop_last();
        lemma_place_of(front, path);
        match place_of(all, path) {
            Some(_) => {},
            None => {
                assert forall|k: int| 0 <= k < all.len() implies (#[trigger] all[k]).path != path by {
                    if k < front.len() {
                        assert(front[k] == all[k]);
                    }
                }
            },
        }
    }
}

/// Whether no two notes have one path.
pub open spec fn has_each_once(all: Seq<Hit>) -> bool {
    forall|i: int, j: int|
        0 <= i < j < all.len() ==> (#[trigger] all[i]).path != (#[trigger] all[j]).path
}

/// Whether a note holds what the dense results say of it: the rank, the heading, the text and
/// the passage of the first result for its path, and nothing where there is none.
pub open spec fn follows_dense(hit: Hit, dense: Seq<DenseHit>) -> bool {
    match hit.dense_rank {
        Some(rank) => {
            &&& 1 <= rank <= dense.len()
            &&& dense[rank - 1].path@ == hit.path
            &&& forall|k: int| 0 <= k < rank - 1 ==> (#[trigger] dense[k]).path@ != hit.path
            &&& hit.heading == opt_text(dense[rank - 1].heading)
            &&& hit.text == dense[rank - 1].text@
            &&& hit.chunk_id == Some(dense[rank - 1].chunk_id@)
        },
        None => {
            &&& forall|k: int| 0 <= k < dense.len() ==> (#[trigger] dense[k]).path@ != hit.path
            &&& hit.heading is None
            &&& hit.chunk_id is None
        },
    }
}

/// Whether a note holds what the sparse results say of it: the rank of the first result for
/// its path, and title, preview and snippet of the last one. Where there is none, it shows
/// what the dense result says.
pub open spec fn follows_sparse(hit: Hit, dense: Seq<DenseHit>, sparse: Seq<SparseHit>) -> bool {
    match hit.sparse_rank {
        Some(rank) => {
            &&& 1 <= rank <= sparse.len()
            &&& sparse[rank - 1].path@ == hit.path
            &&& forall|k: int| 0 <= k < rank - 1 ==> (#[trigger] sparse[k]).path@ != hit.path
            &&& hit.dense_rank is None ==> hit.text == sparse[rank - 1].preview@
            &&& hit.sparse_shown is Some
            &&& ({
                let shown = hit.sparse_shown->0;
                &&& rank <= shown <= sparse.len()
                &&& sparse[shown - 1].path@ == hit.path
                &&& forall|k: int|
                    shown <= k < sparse.len() ==> (#[trigger] sparse[k]).path@ != hit.path
                &&& hit.title == sparse[shown - 1].title@
                &&& hit.preview == sparse[shown - 1].preview@
                &&& hit.snippet == sparse[shown - 1].snippet@
            })
        },
        None => {
            &&& forall|k: int| 0 <= k < sparse.len() ==> (#[trigger] sparse[k]).path@ != hit.path
            &&& hit.sparse_shown is None
            &&& hit.dense_rank is Some
            &&& hit.title == dense[hit.dense_rank->0 - 1].title@
            &&& hit.preview == hit.text
            &&& hit.snippet.len() == 0
        },
    }
}

/// Whether the notes have one at this path.
pub open spec fn has_path(all: Seq<Hit>, path: Seq<char>) -> bool {
    exists|i: int| 0 <= i < all.len() && (#[trigger] all[i]).path == path
}

/// Whether the notes are those of both channels.
spec fn are_fused(all: Seq<Hit>, dense: Seq<DenseHit>, sparse: Seq<SparseHit>) -> bool {
    &&& has_each_once(all)
    &&& forall|i: int|
        0 <= i < all.len() ==> follows_dense(#[trigger] all[i], dense) && follows_sparse(
            all[i],
            dense,
            sparse,
        ) && all[i].rerank_rank is None
    &&& forall|k: int| 0 <= k < dense.len() ==> has_path(all, (#[trigger] dense[k]).path@)
    &&& forall|k: int| 0 <= k < sparse.len() ==> has_path(all, (#[trigger] sparse[k]).path@)
}

#[verifier::spinoff_prover]
proof fn lemma_dense_is_fused(dense: Seq<DenseHit>)
    ensures
        are_fused(fuse_dense(dense), dense, Seq::empty()),
    decreases dense.len(),
{
    let none = Seq::<SparseHit>::empty();
    if dense.len() > 0 {
        let front = dense.drop_last();
        let before = fuse_dense(front);
        let all = fuse_dense(dense);
        let last = dense.last();
        lemma_dense_is_fused(front);
        lemma_place_of(before, last.path@);
        assert forall|i: int| 0 <= i < before.len() implies follows_dense(
            #[trigger] before[i],
            dense,
        ) && follows_sparse(before[i], dense, none) by {
            let hit = before[i];
            assert(follows_dense(hit, front) && follows_sparse(hit, front, none));
            let rank = hit.dense_rank->0;
            assert(front[rank - 1] == dense[rank - 1]);
            assert forall|k: int| 0 <= k < rank - 1 implies (#[trigger] dense[k]).path@
                != hit.path by {
                assert(front[k] == dense[k]);
            }
        }
        match place_of(before, last.path@) {
            Some(at) => {
                assert forall|k: int| 0 <= k < dense.len() implies has_path(
                    all,
                    (#[trigger] dense[k]).path@,
                ) by {
                    if k < front.len() {
                        assert(front[k] == dense[k]);
                    } else {
                        assert(all[at].path == dense[k].path@);
                    }
                }
            },
            None => {
                let hit = all[before.len() as int];
                assert(follows_dense(hit, dense)) by {
                    assert forall|k: int| 0 <= k < dense.len() - 1 implies (
                    #[trigger] dense[k]).path@ != hit.path by {
                        assert(front[k] == dense[k]);
                        assert(has_path(before, front[k].path@));
                        let i = choose|i: int|
                            0 <= i < before.len() && (#[trigger] before[i]).path == front[k].path@;
                        assert(before[i].path != last.path@);
                    }
                }
                assert(follows_sparse(hit, dense, none));
                assert forall|i: int| 0 <= i < all.len() implies follows_dense(
                    #[trigger] all[i],
                    dense,
                ) && follows_sparse(all[i], dense, none) && all[i].rerank_rank is None by {
                    if i < before.len() {
                        assert(all[i] == before[i]);
                    }
                }
                assert forall|i: int, j: int| 0 <= i < j < all.len() implies (
                #[trigger] all[i]).path != (#[trigger] all[j]).path by {
                    assert(all[i] == before[i]);
                    if j < before.len() {
                        assert(all[j] == before[j]);
                    }
                }
                assert forall|k: int| 0 <= k < dense.len() implies has_path(
                    all,
                    (#[trigger] dense[k]).path@,
                ) by {
                    if k < front.len() {
                        assert(front[k] == dense[k]);
                        assert(has_path(before, front[k].path@));
                        let i = choose|i: int|
                            0 <= i < before.len() && (#[trigger] before[i]).path == front[k].path@;
                        assert(all[i].path == dense[k].path@);
                    } else {
                        assert(hit.path == dense[k].path@);
                    }
                }
            },
        }
    }
}

#[verifier::spinoff_prover]
#[verifier::rlimit(40)]
proof fn lemma_both_are_fused(dense: Seq<DenseHit>, sparse: Seq<SparseHit>)
    ensures
        are_fused(fuse(dense, sparse), dense, sparse),
    decreases sparse.len(),
{
    if sparse.len() == 0 {
        lemma_dense_is_fused(dense);
        assert(sparse =~= Seq::<SparseHit>::empty());
    } else {
        let front = sparse.drop_last();
        let before = fuse(dense, front);
        let all = fuse(dense, sparse);
        let last = sparse.last();
        let n = sparse.len();
        lemma_both_are_fused(dense, front);
        lemma_place_of(before, last.path@);
        assert forall|i: int| 0 <= i < before.len() && before[i].path != last.path@ implies
            follows_sparse(#[trigger] before[i], dense, sparse) by {
            let hit = before[i];
            assert(follows_dense(hit, dense) && follows_sparse(hit, dense, front));
            lemma_sparse_goes_on(hit, dense, sparse);
        }
        match place_of(before, last.path@) {
            Some(at) => {
                let old_hit = before[at];
                let hit = with_sparse(old_hit, last, n);
                assert(all == before.update(at, hit));
                assert(follows_dense(old_hit, dense) && follows_sparse(old_hit, dense, front));
                assert(follows_dense(hit, dense));
                assert(follows_sparse(hit, dense, sparse)) by {
                    match old_hit.sparse_rank {
                        Some(rank) => {
                            assert(front[rank - 1] == sparse[rank - 1]);
                            assert forall|k: int| 0 <= k < rank - 1 implies (
                            #[trigger] sparse[k]).path@ != hit.path by {
                                assert(front[k] == sparse[k]);
                            }
                        },
                        None => {
                            assert forall|k: int| 0 <= k < n - 1 implies (
                            #[trigger] sparse[k]).path@ != hit.path by {
                                assert(front[k] == sparse[k]);
                            }
                        },
                    }
                }
                assert forall|i: int| 0 <= i < all.len() implies follows_dense(
                    #[trigger] all[i],
                    dense,
                ) && follows_sparse(all[i], dense, sparse) && all[i].rerank_rank is None by {
                    if i != at {
                        assert(all[i] == before[i]);
                        if i < at {
                            assert(before[i].path != before[at].path);
                        } else {
                            assert(before[at].path != before[i].path);
                        }
                    }
                }
                assert forall|i: int, j: int| 0 <= i < j < all.len() implies (
                #[trigger] all[i]).path != (#[trigger] all[j]).path by {
                    assert(all[i].path == before[i].path);
                    assert(all[j].path == before[j].path);
                }
                assert forall|path: Seq<char>| has_path(before, path) implies #[trigger] has_path(
                    all,
                    path,
                ) by {
                    let i = choose|i: int|
                        0 <= i < before.len() && (#[trigger] before[i]).path == path;
                    assert(all[i].path == path);
                }
                assert(has_path(all, last.path@)) by {
                    assert(all[at].path == last.path@);
                }
            },
            None => {
                let hit = all[before.len() as int];
                assert(follows_dense(hit, dense)) by {
                    assert forall|k: int| 0 <= k < dense.len() implies (#[trigger] dense[k]).path@
                        != hit.path by {
                        assert(has_path(before, dense[k].path@));
                        let i = choose|i: int|
                            0 <= i < before.len() && (#[trigger] before[i]).path == dense[k].path@;
                        assert(before[i].path != last.path@);
                    }
                }
                assert(follows_sparse(hit, dense, sparse)) by {
                    assert forall|k: int| 0 <= k < n - 1 implies (#[trigger] sparse[k]).path@
                        != hit.path by {
                        assert(front[k] == sparse[k]);
                        assert(has_path(before, front[k].path@));
                        let i = choose|i: int|
                            0 <= i < before.len() && (#[trigger] before[i]).path == front[k].path@;
                        assert(before[i].path != last.path@);
                    }
                }
                assert forall|i: int| 0 <= i < all.len() implies follows_dense(
                    #[trigger] all[i],
                    dense,
                ) && follows_sparse(all[i], dense, sparse) && all[i].rerank_rank is None by {
                    if i < before.len() {
                        assert(all[i] == before[i]);
                        assert(before[i].path != last.path@);
                    }
                }
                assert forall|i: int, j: int| 0 <= i < j < all.len() implies (
                #[trigger] all[i]).path != (#[trigger] all[j]).path by {
                    assert(all[i] == before[i]);
                    if j < before.len() {
                        assert(all[j] == before[j]);
                    }
                }
                assert forall|path: Seq<char>| has_path(before, path) implies #[trigger] has_path(
                    all,
                    path,
                ) by {
                    let i = choose|i: int|
                        0 <= i < before.len() && (#[trigger] before[i]).path == path;
                    assert(all[i].path == path);
                }
                assert(has_path(all, last.path@)) by {
                    assert(hit.path == last.path@);
                }
            },
        }
        assert forall|k: int| 0 <= k < sparse.len() implies has_path(
            all,
            (#[trigger] sparse[k]).path@,
        ) by {
            if k < front.len() {
                assert(front[k] == sparse[k]);
                assert(has_path(before, front[k].path@));
            }
        }
        assert forall|k: int| 0 <= k < dense.len() implies has_path(
            all,
            (#[trigger] dense[k]).path@,
        ) by {
            assert(has_path(before, dense[k].path@));
        }
    }
}

proof fn lemma_sparse_goes_on(hit: Hit, dense: Seq<DenseHit>, sparse: Seq<SparseHit>)
    requires
        sparse.len() > 0,
        hit.path != sparse.last().path@,
        follows_sparse(hit, dense, sparse.drop_last()),
    ensures
        follows_sparse(hit, dense, sparse),
{
    let front = sparse.drop_last();
    assert forall|k: int| 0 <= k < sparse.len() && (#[trigger] sparse[k]).path@ == hit.path implies
        front[k] == sparse[k] && k < front.len() by {}
    match hit.sparse_rank {
        Some(rank) => {
            let shown = hit.sparse_shown->0;
            assert(front[rank - 1] == sparse[rank - 1]);
            assert(front[shown - 1] == sparse[shown - 1]);
            assert forall|k: int| 0 <= k < rank - 1 implies (#[trigger] sparse[k]).path@
                != hit.path by {
                assert(front[k] == sparse[k]);
            }
            assert forall|k: int| shown <= k < sparse.len() implies (#[trigger] sparse[k]).path@
                != hit.path by {
                if k < front.len() {
                    assert(front[k] == sparse[k]);
                }
            }
        },
        None => {
            assert forall|k: int| 0 <= k < sparse.len() implies (#[trigger] sparse[k]).path@
                != hit.path by {
                if k < front.len() {
                    assert(front[k] == sparse[k]);
                }
            }
        },
    }
}

// ---------------------------------------------------------------------------
// The ranking
// ---------------------------------------------------------------------------

/// The ranking has every note that a channel found, each once, and no other. Each has the
/// rank of the first result for it in either channel, the passage of the first dense result,
/// and shows what the last sparse result says.
pub proof fn lemma_ranking_has_every_note_once(dense: Seq<DenseHit>, sparse: Seq<SparseHit>)
    ensures
        ({
            let all = ranked(dense, sparse);
            &&& forall|i: int, j: int|
                0 <= i < all.len() && 0 <= j < all.len() && i != j ==> (#[trigger] all[i]).path != (
                #[trigger] all[j]).path
            &&& forall|i: int|
                0 <= i < all.len() ==> follows_dense(#[trigger] all[i], dense) && follows_sparse(
                    all[i],
                    dense,
                    sparse,
                ) && all[i].rerank_rank is None
            &&& forall|k: int| 0 <= k < dense.len() ==> has_path(all, (#[trigger] dense[k]).path@)
            &&& forall|k: int| 0 <= k < sparse.len() ==> has_path(all, (#[trigger] sparse[k]).path@)
        }),
{
    let found = fuse(dense, sparse);
    let all = ranked(dense, sparse);
    lemma_both_are_fused(dense, sparse);
    let places = lemma_sorting_is_stable(found, worth_order());
    assert forall|i: int, j: int|
        0 <= i < all.len() && 0 <= j < all.len() && i != j implies (#[trigger] all[i]).path != (
    #[trigger] all[j]).path by {
        assert(places[i] != places[j]);
        assert(all[i] == found[places[i]] && all[j] == found[places[j]]);
        if places[i] < places[j] {
            assert(found[places[i]].path != found[places[j]].path);
        } else {
            assert(found[places[j]].path != found[places[i]].path);
        }
    }
    assert forall|i: int| 0 <= i < all.len() implies follows_dense(#[trigger] all[i], dense)
        && follows_sparse(all[i], dense, sparse) && all[i].rerank_rank is None by {
        assert(all[i] == found[places[i]]);
    }
    assert forall|path: Seq<char>| has_path(found, path) implies #[trigger] has_path(all, path) by {
        let i = choose|i: int| 0 <= i < found.len() && (#[trigger] found[i]).path == path;
        lemma_onto(places, i);
        let k = choose|k: int| 0 <= k < places.len() && places[k] == i;
        assert(all[k].path == path);
    }
    assert forall|k: int| 0 <= k < dense.len() implies has_path(all, (#[trigger] dense[k]).path@) by {
        assert(has_path(found, dense[k].path@));
    }
    assert forall|k: int| 0 <= k < sparse.len() implies has_path(
        all,
        (#[trigger] sparse[k]).path@,
    ) by {
        assert(has_path(found, sparse[k].path@));
    }
}

/// As many different numbers below a bound as there are have each of them.
pub proof fn lemma_onto(places: Seq<int>, at: int)
    requires
        places.no_duplicates(),
        forall|k: int| 0 <= k < places.len() ==> 0 <= #[trigger] places[k] < places.len(),
        0 <= at < places.len(),
    ensures
        places.contains(at),
{
    let n = places.len() as int;
    let taken = places.to_set();
    let all = vstd::set_lib::set_int_range(0, n);
    vstd::set_lib::lemma_int_range(0, n);
    places.unique_seq_to_set();
    assert forall|x: int| taken.contains(x) implies all.contains(x) by {
        let k = choose|k: int| 0 <= k < places.len() && places[k] == x;
    }
    vstd::set_lib::lemma_subset_equality(taken, all);
    assert(all.contains(at));
    assert(taken.contains(at));
}

/// What a note is worth is `1 / (60 + rank)` for each channel that found it, added up.
pub proof fn lemma_worth_adds_up(dense: nat, sparse: nat)
    ensures
        ({
            let one = worth(Some(dense), None);
            let other = worth(None, Some(sparse));
            let both = worth(Some(dense), Some(sparse));
            &&& one.0 * (60 + dense) == one.1 && one.1 > 0
            &&& other.0 * (60 + sparse) == other.1 && other.1 > 0
            &&& both.0 * ((60 + dense) * (60 + sparse)) == both.1 * ((60 + dense) + (60 + sparse))
            &&& both.1 > 0
        }),
{
    let a: int = 60int + dense;
    let b: int = 60int + sparse;
    let one = worth(Some(dense), None);
    let other = worth(None, Some(sparse));
    let both = worth(Some(dense), Some(sparse));
    assert(one == (1int, a) && other == (1int, b));
    assert(both == (a + b, a * b));
    assert((a + b) * (a * b) == (a * b) * (a + b)) by (nonlinear_arith);
    assert(a * b > 0) by (nonlinear_arith)
        requires
            a > 0,
            b > 0,
    ;
    assert(both.0 * (a * b) == both.1 * (a + b));
}

/// A note that is worth more comes first, and of two that are worth the same the one that was
/// found first: all that the dense channel found in its order, and then what only the sparse
/// channel found.
pub proof fn lemma_ranking_goes_by_worth(
    dense: Seq<DenseHit>,
    sparse: Seq<SparseHit>,
    i: int,
    j: int,
)
    requires
        0 <= i < j < ranked(dense, sparse).len(),
    ensures
        ({
            let a = ranked(dense, sparse)[i];
            let b = ranked(dense, sparse)[j];
            &&& !is_larger(hit_worth(b), hit_worth(a))
            &&& is_larger(hit_worth(a), hit_worth(b)) || is_found_before(a, b)
        }),
{
    let found = fuse(dense, sparse);
    let all = ranked(dense, sparse);
    let places = lemma_sorting_is_stable(found, worth_order());
    lemma_ranked_in_order(dense, sparse);
    let a = all[i];
    let b = all[j];
    assert(!worth_order()(b, a));
    if places[i] < places[j] {
        lemma_found_in_order(dense, sparse, places[i], places[j]);
    } else {
        assert(places[i] != places[j]);
        assert(worth_order()(found[places[i]], found[places[j]]));
    }
}

/// Whether a note was found before another: by the dense channel at a better rank, or by the
/// dense channel at all, or else by the sparse channel at a better rank.
pub open spec fn is_found_before(a: Hit, b: Hit) -> bool {
    match (a.dense_rank, b.dense_rank) {
        (Some(x), Some(y)) => x < y,
        (Some(_), None) => true,
        (None, Some(_)) => false,
        (None, None) => a.sparse_rank is Some && b.sparse_rank is Some && a.sparse_rank->0
            < b.sparse_rank->0,
    }
}

proof fn lemma_dense_in_order(dense: Seq<DenseHit>)
    ensures
        forall|i: int|
            0 <= i < fuse_dense(dense).len() ==> ((#[trigger] fuse_dense(
                dense,
            )[i]).dense_rank is Some && fuse_dense(dense)[i].dense_rank->0 <= dense.len()),
        forall|i: int, j: int|
            0 <= i < j < fuse_dense(dense).len() ==> is_found_before(
                #[trigger] fuse_dense(dense)[i],
                #[trigger] fuse_dense(dense)[j],
            ),
    decreases dense.len(),
{
    if dense.len() > 0 {
        let before = fuse_dense(dense.drop_last());
        lemma_dense_in_order(dense.drop_last());
        let all = fuse_dense(dense);
        assert forall|i: int| 0 <= i < all.len() implies ((#[trigger] all[i]).dense_rank is Some
            && all[i].dense_rank->0 <= dense.len()) by {
            if i < before.len() {
                assert(all[i] == before[i]);
            }
        }
        assert forall|i: int, j: int| 0 <= i < j < all.len() implies is_found_before(
            #[trigger] all[i],
            #[trigger] all[j],
        ) by {
            assert(all[i] == before[i]);
            if j < before.len() {
                assert(all[j] == before[j]);
            }
        }
    }
}

proof fn lemma_found_in_order(dense: Seq<DenseHit>, sparse: Seq<SparseHit>, i: int, j: int)
    requires
        0 <= i < j < fuse(dense, sparse).len(),
    ensures
        is_found_before(fuse(dense, sparse)[i], fuse(dense, sparse)[j]),
    decreases sparse.len(),
{
    if sparse.len() == 0 {
        lemma_dense_in_order(dense);
    } else {
        let before = fuse(dense, sparse.drop_last());
        let all = fuse(dense, sparse);
        lemma_place_of(before, sparse.last().path@);
        lemma_both_are_fused(dense, sparse.drop_last());
        assert(follows_sparse(before[i], dense, sparse.drop_last()));
        if j < before.len() {
            lemma_found_in_order(dense, sparse.drop_last(), i, j);
            assert(follows_sparse(before[j], dense, sparse.drop_last()));
            assert(all[i].dense_rank == before[i].dense_rank);
            assert(all[j].dense_rank == before[j].dense_rank);
            if before[i].dense_rank is None && before[j].dense_rank is None {
                assert(before[i].sparse_rank is Some && before[j].sparse_rank is Some);
                assert(all[i].sparse_rank == before[i].sparse_rank);
                assert(all[j].sparse_rank == before[j].sparse_rank);
            }
        } else {
            assert(place_of(before, sparse.last().path@) is None);
            assert(all[i] == before[i]);
            assert(all[j].sparse_rank == Some(sparse.len()));
        }
    }
}

// ---------------------------------------------------------------------------
// Reranking
// ---------------------------------------------------------------------------

proof fn lemma_reranked(pool: Seq<Hit>, order: Seq<usize>)
    requires
        forall|k: int| 0 <= k < order.len() ==> #[trigger] order[k] < pool.len(),
    ensures
        reranked(pool, order).len() == order.len(),
        forall|k: int|
            0 <= k < order.len() ==> #[trigger] reranked(pool, order)[k] == (Hit {
                rerank_rank: Some((k + 1) as nat),
                ..pool[order[k] as int]
            }),
    decreases order.len(),
{
    if order.len() > 0 {
        let front = order.drop_last();
        assert forall|k: int| 0 <= k < front.len() implies #[trigger] front[k] < pool.len() by {
            assert(front[k] == order[k]);
        }
        lemma_reranked(pool, front);
        assert(order[order.len() - 1] < pool.len());
        assert forall|k: int| 0 <= k < order.len() implies #[trigger] reranked(pool, order)[k] == (
        Hit { rerank_rank: Some((k + 1) as nat), ..pool[order[k] as int] }) by {
            if k < front.len() {
                assert(reranked(pool, front)[k] == reranked(pool, order)[k]);
                assert(front[k] == order[k]);
            }
        }
    }
}

/// Reranking moves notes and nothing else: the place that the reranker gives a note of the
/// pool is its new place, all that is known of it stays, and what stands behind the pool
/// stays where it is. With no answer everything stays.
pub proof fn lemma_reranking_moves_the_pool(results: Seq<Hit>, pool: nat, order: Seq<usize>)
    requires
        pool <= results.len(),
        order.len() == 0 || order.len() == pool,
        forall|k: int| 0 <= k < order.len() ==> #[trigger] order[k] < pool,
    ensures
        ({
            let after = after_rerank(results, pool, order);
            &&& after.len() == results.len()
            &&& order.len() == 0 ==> after == results
            &&& forall|k: int|
                0 <= k < order.len() ==> {
                    let old_hit = results[order[k] as int];
                    &&& (#[trigger] after[k]).path == old_hit.path
                    &&& after[k].title == old_hit.title
                    &&& after[k].heading == old_hit.heading
                    &&& after[k].text == old_hit.text
                    &&& after[k].preview == old_hit.preview
                    &&& after[k].snippet == old_hit.snippet
                    &&& after[k].dense_rank == old_hit.dense_rank
                    &&& after[k].sparse_rank == old_hit.sparse_rank
                    &&& after[k].chunk_id == old_hit.chunk_id
                    &&& after[k].rerank_rank == Some((k + 1) as nat)
                }
            &&& forall|k: int| pool <= k < results.len() ==> #[trigger] after[k] == results[k]
        }),
{
    let front = results.take(pool as int);
    let after = after_rerank(results, pool, order);
    if order.len() > 0 {
        assert forall|k: int| 0 <= k < order.len() implies #[trigger] order[k] < front.len() by {}
        lemma_reranked(front, order);
        assert forall|k: int| 0 <= k < order.len() implies #[trigger] after[k] == (Hit {
            rerank_rank: Some((k + 1) as nat),
            ..results[order[k] as int]
        }) by {
            assert(after[k] == reranked(front, order)[k]);
            assert(front[order[k] as int] == results[order[k] as int]);
        }
        assert forall|k: int| pool <= k < results.len() implies #[trigger] after[k]
            == results[k] by {
            assert(after[k] == results.skip(pool as int)[k - pool]);
        }
    }
}

/// The pool that is reranked holds as many results as are asked for, and twelve at least, as
/// far as there are that many.
pub proof fn lemma_pool_is_large_enough(limit: nat, results: nat)
    ensures
        pool_of(limit, results) <= results,
        limit <= results ==> pool_of(limit, results) >= limit,
        12 <= results ==> pool_of(limit, results) >= 12,
        results <= limit || results <= 12 ==> pool_of(limit, results) == results,
        pool_of(limit, results) <= if limit <= 12 {
            12
        } else {
            limit
        },
{
}

/// What is sent to be reranked of a note holds its title and its heading, and ends with all
/// of its text.
pub proof fn lemma_rerank_text_holds_the_note(hit: Hit)
    ensures
        ({
            let sent = rerank_text(hit);
            let front = "Title: "@ + hit.title + "\n"@;
            let back = "Content:\n"@ + hit.text;
            let named = match hit.heading {
                Some(heading) => "Section: "@ + heading + "\n"@,
                None => Seq::empty(),
            };
            &&& sent.take(front.len() as int) == front
            &&& sent.skip(sent.len() - back.len()) == back
            &&& sent.subrange(front.len() as int, sent.len() - back.len()) == named
            &&& sent.skip(sent.len() - hit.text.len()) == hit.text
        }),
{
    let sent = rerank_text(hit);
    let front = "Title: "@ + hit.title + "\n"@;
    let back = "Content:\n"@ + hit.text;
    let named = match hit.heading {
        Some(heading) => "Section: "@ + heading + "\n"@,
        None => Seq::<char>::empty(),
    };
    assert(sent =~= front + named + back);
    assert(sent.take(front.len() as int) =~= front);
    assert(sent.skip(sent.len() - back.len()) =~= back);
    assert(sent.subrange(front.len() as int, sent.len() - back.len()) =~= named);
    assert(sent.skip(sent.len() - hit.text.len()) =~= hit.text);
}

/// Of several answers about one document the last one counts.
pub proof fn lemma_last_answer_counts(indices: Seq<usize>, document: int)
    ensures
        match last_about(indices, document) {
            Some(at) => 0 <= at < indices.len() && indices[at] == document && forall|k: int|
                at < k < indices.len() ==> #[trigger] indices[k] != document,
            None => forall|k: int| 0 <= k < indices.len() ==> #[trigger] indices[k] != document,
        },
    decreases indices.len(),
{
    if indices.len() > 0 && indices.last() != document {
        let front = indices.drop_last();
        lemma_last_answer_counts(front, document);
        let from = match last_about(front, document) {
            Some(at) => at + 1,
            None => 0,
        };
        assert forall|k: int| from <= k < indices.len() implies #[trigger] indices[k] != document by {
            if k < front.len() {
                assert(front[k] == indices[k]);
            }
        }
    }
}

// ---------------------------------------------------------------------------
// The channels
// ---------------------------------------------------------------------------

/// The sparse results that are fused are those whose source is not excluded, all of them, in
/// their order.
pub proof fn lemma_visible_results_keep_their_order(
    sparse: Seq<SparseHit>,
    subtrees: Seq<Seq<char>>,
) -> (places: Seq<int>)
    ensures
        places.len() == visible(sparse, subtrees).len(),
        forall|k: int|
            0 <= k < places.len() ==> 0 <= #[trigger] places[k] < sparse.len() && visible(
                sparse,
                subtrees,
            )[k] == sparse[places[k]],
        forall|a: int, b: int| 0 <= a < b < places.len() ==> places[a] < places[b],
        forall|i: int|
            0 <= i < sparse.len() ==> (places.contains(i) <==> !is_source_excluded(
                (#[trigger] sparse[i]).path@,
                subtrees,
            )),
    decreases sparse.len(),
{
    if sparse.len() == 0 {
        Seq::empty()
    } else {
        let front = sparse.drop_last();
        let before = lemma_visible_results_keep_their_order(front, subtrees);
        let last = sparse.len() - 1;
        let places = if is_source_excluded(sparse.last().path@, subtrees) {
            before
        } else {
            before.push(last)
        };
        assert forall|k: int| 0 <= k < places.len() implies 0 <= #[trigger] places[k]
            < sparse.len() && visible(sparse, subtrees)[k] == sparse[places[k]] by {
            if k < before.len() {
                assert(places[k] == before[k]);
                assert(front[before[k]] == sparse[before[k]]);
            }
        }
        assert forall|a: int, b: int| 0 <= a < b < places.len() implies places[a] < places[b] by {
            assert(places[a] == before[a]);
            if b < before.len() {
                assert(places[b] == before[b]);
            }
        }
        assert forall|i: int| 0 <= i < sparse.len() implies (places.contains(i) <==> !is_source_excluded(
            (#[trigger] sparse[i]).path@,
            subtrees,
        )) by {
            if i < last {
                assert(front[i] == sparse[i]);
                if before.contains(i) {
                    assert(places[before.index_of(i)] == i);
                }
                if places.contains(i) {
                    let k = places.index_of(i);
                    assert(before[k] == i);
                }
            } else {
                if places.contains(i) {
                    let k = places.index_of(i);
                    if k < before.len() {
                        assert(before[k] < front.len());
                    }
                }
                if !is_source_excluded(sparse.last().path@, subtrees) {
                    assert(places[before.len() as int] == i);
                }
            }
        }
        places
    }
}

/// A search fails only where nothing was found and a channel failed; the dense channel's
/// failure is the one that is told where both failed.
pub proof fn lemma_one_channel_is_enough(
    dense: Result<Vec<DenseHit>, ChannelFailure>,
    sparse: Result<Vec<SparseHit>, ChannelFailure>,
    subtrees: Seq<Seq<char>>,
)
    ensures
        dense matches Ok(found) ==> found@.len() > 0 ==> total_failure(dense, sparse, subtrees)
            is None,
        dense is Ok && sparse is Ok ==> total_failure(dense, sparse, subtrees) is None,
        dense is Err && sparse is Err ==> total_failure(dense, sparse, subtrees) == Some(
            dense->Err_0.error@,
        ),
        sparse matches Ok(found) ==> dense is Err ==> match total_failure(dense, sparse, subtrees) {
            Some(fault) => fault == dense->Err_0.error@ && visible(found@, subtrees).len() == 0,
            None => visible(found@, subtrees).len() > 0,
        },
        dense matches Ok(found) ==> sparse is Err ==> match total_failure(dense, sparse, subtrees) {
            Some(fault) => fault == sparse->Err_0.error@ && found@.len() == 0,
            None => found@.len() > 0,
        },
{
}

/// No more results are shown than were asked for; they are the first ones, and all of them
/// where there are no more.
pub proof fn lemma_first_results_are_shown(all: Seq<Hit>, limit: nat)
    ensures
        at_most(all, limit).len() <= limit,
        at_most(all, limit).len() == limit || at_most(all, limit) == all,
        forall|k: int| 0 <= k < at_most(all, limit).len() ==> #[trigger] at_most(all, limit)[k]
            == all[k],
{
}

} // verus!
