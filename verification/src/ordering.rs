//! Sorting, told by where each item comes from.
use crate::sorting::{insert_by, lemma_insert_at, sort_by, text_before};
use vstd::prelude::*;

verus! {

proof fn lemma_place_to_insert<T>(s: Seq<T>, x: T, lt: spec_fn(T, T) -> bool) -> (k: int)
    ensures
        0 <= k <= s.len(),
        k == 0 || !lt(x, s[k - 1]),
        forall|j: int| k <= j < s.len() ==> lt(x, #[trigger] s[j]),
        insert_by(s, x, lt) == s.insert(k, x),
    decreases s.len(),
{
    if s.len() == 0 || !lt(x, s.last()) {
        lemma_insert_at(s, x, lt, s.len() as int);
        s.len() as int
    } else {
        let front = s.drop_last();
        let k = lemma_place_to_insert(front, x, lt);
        assert forall|j: int| k <= j < s.len() implies lt(x, #[trigger] s[j]) by {
            if j < front.len() {
                assert(front[j] == s[j]);
            }
        }
        lemma_insert_at(s, x, lt, k);
        k
    }
}

/// Sorting puts each item of a sequence in one place, so that an item stands behind another
/// that came after it only where the other is less: what compares equal keeps its order.
pub proof fn lemma_sorting_is_stable<T>(s: Seq<T>, lt: spec_fn(T, T) -> bool) -> (places: Seq<int>)
    ensures
        places.len() == s.len(),
        sort_by(s, lt).len() == s.len(),
        places.no_duplicates(),
        forall|k: int|
            0 <= k < places.len() ==> 0 <= #[trigger] places[k] < s.len() && sort_by(s, lt)[k]
                == s[places[k]],
        forall|a: int, b: int|
            0 <= a < b < places.len() && #[trigger] places[a] > #[trigger] places[b] ==> lt(
                s[places[a]],
                s[places[b]],
            ),
    decreases s.len(),
{
    if s.len() == 0 {
        Seq::empty()
    } else {
        let front = s.drop_last();
        let before = lemma_sorting_is_stable(front, lt);
        let sorted = sort_by(front, lt);
        let x = s.last();
        let k = lemma_place_to_insert(sorted, x, lt);
        let last = s.len() - 1;
        let places = before.insert(k, last);
        let after = sort_by(s, lt);
        assert(after == sorted.insert(k, x));
        assert forall|m: int| 0 <= m < places.len() implies 0 <= #[trigger] places[m] < s.len()
            && after[m] == s[places[m]] by {
            if m < k {
                assert(places[m] == before[m] && after[m] == sorted[m]);
                assert(front[before[m]] == s[before[m]]);
            } else if m > k {
                assert(places[m] == before[m - 1] && after[m] == sorted[m - 1]);
                assert(front[before[m - 1]] == s[before[m - 1]]);
            }
        }
        assert forall|a: int, b: int|
            0 <= a < places.len() && 0 <= b < places.len() && a != b implies places[a]
            != places[b] by {
            let x0 = if a < k {
                a
            } else {
                a - 1
            };
            let y0 = if b < k {
                b
            } else {
                b - 1
            };
            if a == k {
                assert(places[b] == before[y0]);
            } else if b == k {
                assert(places[a] == before[x0]);
            } else {
                assert(places[a] == before[x0] && places[b] == before[y0]);
            }
        }
        assert forall|a: int, b: int|
            0 <= a < b < places.len() && #[trigger] places[a] > #[trigger] places[b] implies lt(
            s[places[a]],
            s[places[b]],
        ) by {
            if a == k {
                assert(places[b] == before[b - 1]);
                assert(lt(x, sorted[b - 1]));
                assert(sorted[b - 1] == front[before[b - 1]]);
            } else if b == k {
                assert(places[a] == before[a]);
            } else {
                let x0 = if a < k {
                    a
                } else {
                    a - 1
                };
                let y0 = if b < k {
                    b
                } else {
                    b - 1
                };
                assert(places[a] == before[x0] && places[b] == before[y0]);
                assert(front[before[x0]] == s[places[a]]);
                assert(front[before[y0]] == s[places[b]]);
            }
        }
        places
    }
}

/// One text comes before another where it is a proper beginning of it, or where the first
/// character in which they differ is the smaller one.
pub proof fn lemma_texts_compare_by_their_first_difference(a: Seq<char>, b: Seq<char>, n: int)
    requires
        0 <= n <= a.len(),
        n <= b.len(),
        a.take(n) == b.take(n),
    ensures
        n == a.len() ==> text_before(a, b) == (n < b.len()),
        n == b.len() ==> !text_before(a, b),
        n < a.len() && n < b.len() && a[n] != b[n] ==> text_before(a, b) == (a[n] < b[n]),
    decreases n,
{
    if n > 0 {
        assert(a.take(n)[0] == a[0] && b.take(n)[0] == b[0]);
        let x = a.drop_first();
        let y = b.drop_first();
        let xs = x.take(n - 1);
        let ys = y.take(n - 1);
        assert forall|i: int| 0 <= i < n - 1 implies #[trigger] xs[i] == ys[i] by {
            assert(a.take(n)[i + 1] == a[i + 1]);
            assert(b.take(n)[i + 1] == b[i + 1]);
        }
        assert(xs =~= ys);
        lemma_texts_compare_by_their_first_difference(x, y, n - 1);
        assert(n < a.len() ==> x[n - 1] == a[n]);
        assert(n < b.len() ==> y[n - 1] == b[n]);
    }
}

} // verus!
