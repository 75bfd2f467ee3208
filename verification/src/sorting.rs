//! Sorting that keeps the order of what compares equal, and the order of texts.
use crate::text::chars_of;
use vstd::prelude::*;

verus! {

/// A sorted sequence with one more item, put behind all that it need not precede.
pub open spec fn insert_by<T>(s: Seq<T>, x: T, lt: spec_fn(T, T) -> bool) -> Seq<T>
    decreases s.len(),
{
    if s.len() == 0 || !lt(x, s.last()) {
        s.push(x)
    } else {
        insert_by(s.drop_last(), x, lt).push(s.last())
    }
}

/// The sequence sorted, with the order kept among items of which neither is less.
pub open spec fn sort_by<T>(s: Seq<T>, lt: spec_fn(T, T) -> bool) -> Seq<T>
    decreases s.len(),
{
    if s.len() == 0 {
        s
    } else {
        insert_by(sort_by(s.drop_last(), lt), s.last(), lt)
    }
}

/// Whether no item is less than one before it.
pub open spec fn in_order<T>(s: Seq<T>, lt: spec_fn(T, T) -> bool) -> bool {
    forall|i: int, j: int| 0 <= i < j < s.len() ==> !lt(#[trigger] s[j], #[trigger] s[i])
}

/// Whether the relation orders: nothing precedes what precedes it, and not
/// preceding carries over.
pub open spec fn is_order<T>(lt: spec_fn(T, T) -> bool) -> bool {
    &&& forall|a: T, b: T| #[trigger] lt(a, b) ==> !lt(b, a)
    &&& forall|a: T, b: T, c: T|
        !#[trigger] lt(b, a) && !#[trigger] lt(c, b) ==> !lt(c, a)
}

/// Where the new item goes.
pub proof fn lemma_insert_at<T>(s: Seq<T>, x: T, lt: spec_fn(T, T) -> bool, k: int)
    requires
        0 <= k <= s.len(),
        k == 0 || !lt(x, s[k - 1]),
        forall|j: int| k <= j < s.len() ==> lt(x, #[trigger] s[j]),
    ensures
        insert_by(s, x, lt) == s.insert(k, x),
    decreases s.len(),
{
    if k == s.len() {
        assert(s.insert(k, x) =~= s.push(x));
    } else {
        assert(lt(x, s[s.len() - 1]));
        assert forall|j: int| k <= j < s.drop_last().len() implies lt(
            x,
            #[trigger] s.drop_last()[j],
        ) by {
            assert(lt(x, s[j]));
        }
        lemma_insert_at(s.drop_last(), x, lt, k);
        assert(s.drop_last().insert(k, x).push(s.last()) =~= s.insert(k, x));
    }
}

/// Inserting adds the item and nothing else.
pub proof fn lemma_insert_adds<T>(s: Seq<T>, x: T, lt: spec_fn(T, T) -> bool)
    ensures
        insert_by(s, x, lt).to_multiset() == s.to_multiset().insert(x),
        insert_by(s, x, lt).len() == s.len() + 1,
    decreases s.len(),
{
    broadcast use vstd::seq_lib::group_to_multiset_ensures;

    if s.len() == 0 || !lt(x, s.last()) {
    } else {
        lemma_insert_adds(s.drop_last(), x, lt);
        assert(s.drop_last().push(s.last()) =~= s);
        assert(s.to_multiset() =~= s.drop_last().to_multiset().insert(s.last()));
        assert(s.to_multiset().insert(x) =~= s.drop_last().to_multiset().insert(x).insert(
            s.last(),
        ));
    }
}

/// Sorting neither loses nor adds an item.
pub proof fn lemma_sort_permutes<T>(s: Seq<T>, lt: spec_fn(T, T) -> bool)
    ensures
        sort_by(s, lt).to_multiset() == s.to_multiset(),
        sort_by(s, lt).len() == s.len(),
    decreases s.len(),
{
    broadcast use vstd::seq_lib::group_to_multiset_ensures;

    if s.len() > 0 {
        lemma_sort_permutes(s.drop_last(), lt);
        lemma_insert_adds(sort_by(s.drop_last(), lt), s.last(), lt);
        assert(s.drop_last().push(s.last()) =~= s);
        assert(s.to_multiset() =~= s.drop_last().to_multiset().insert(s.last()));
    }
}

/// What is inserted lies somewhere in the result, and so does all that was there.
proof fn lemma_insert_members<T>(s: Seq<T>, x: T, lt: spec_fn(T, T) -> bool)
    ensures
        forall|i: int|
            0 <= i < insert_by(s, x, lt).len() ==> #[trigger] insert_by(s, x, lt)[i] == x
                || s.contains(insert_by(s, x, lt)[i]),
    decreases s.len(),
{
    let after = insert_by(s, x, lt);
    if s.len() == 0 || !lt(x, s.last()) {
        assert forall|i: int| 0 <= i < after.len() implies #[trigger] after[i] == x || s.contains(
            after[i],
        ) by {
            if i < s.len() {
                assert(s[i] == after[i]);
            }
        }
    } else {
        let front = s.drop_last();
        lemma_insert_members(front, x, lt);
        lemma_insert_adds(front, x, lt);
        assert forall|i: int| 0 <= i < after.len() implies #[trigger] after[i] == x || s.contains(
            after[i],
        ) by {
            if i < after.len() - 1 {
                let inner = insert_by(front, x, lt);
                assert(after[i] == inner[i]);
                if inner[i] != x {
                    let at = front.index_of(inner[i]);
                    assert(s[at] == inner[i]);
                }
            } else {
                assert(s[s.len() - 1] == after[i]);
            }
        }
    }
}

/// Inserting keeps the order.
pub proof fn lemma_insert_in_order<T>(s: Seq<T>, x: T, lt: spec_fn(T, T) -> bool)
    requires
        is_order(lt),
        in_order(s, lt),
    ensures
        in_order(insert_by(s, x, lt), lt),
    decreases s.len(),
{
    let after = insert_by(s, x, lt);
    if s.len() == 0 || !lt(x, s.last()) {
        assert forall|i: int, j: int| 0 <= i < j < after.len() implies !lt(
            #[trigger] after[j],
            #[trigger] after[i],
        ) by {
            if j < s.len() {
                assert(!lt(s[j], s[i]));
            } else if i < s.len() - 1 {
                assert(!lt(s[s.len() - 1], s[i]));
                assert(!lt(x, s[s.len() - 1]));
            }
        }
    } else {
        let front = s.drop_last();
        assert forall|i: int, j: int| 0 <= i < j < front.len() implies !lt(
            #[trigger] front[j],
            #[trigger] front[i],
        ) by {
            assert(!lt(s[j], s[i]));
        }
        lemma_insert_in_order(front, x, lt);
        lemma_insert_members(front, x, lt);
        lemma_insert_adds(front, x, lt);
        let inner = insert_by(front, x, lt);
        assert forall|i: int, j: int| 0 <= i < j < after.len() implies !lt(
            #[trigger] after[j],
            #[trigger] after[i],
        ) by {
            assert(after[i] == inner[i]);
            if j < inner.len() {
                assert(after[j] == inner[j]);
            } else if inner[i] == x {
                assert(lt(x, s.last()));
            } else {
                let at = front.index_of(inner[i]);
                assert(front[at] == s[at]);
                assert(!lt(s[s.len() - 1], s[at]));
            }
        }
    }
}

/// What comes out of sorting is in order.
pub proof fn lemma_sort_in_order<T>(s: Seq<T>, lt: spec_fn(T, T) -> bool)
    requires
        is_order(lt),
    ensures
        in_order(sort_by(s, lt), lt),
    decreases s.len(),
{
    if s.len() > 0 {
        lemma_sort_in_order(s.drop_last(), lt);
        lemma_insert_in_order(sort_by(s.drop_last(), lt), s.last(), lt);
    }
}

// ---------------------------------------------------------------------------
// Texts
// ---------------------------------------------------------------------------

/// Whether one text comes before another, character by character. This is also
/// the order of their UTF-8 bytes.
pub open spec fn text_before(a: Seq<char>, b: Seq<char>) -> bool
    decreases a.len(),
{
    if b.len() == 0 {
        false
    } else if a.len() == 0 {
        true
    } else if a[0] == b[0] {
        text_before(a.drop_first(), b.drop_first())
    } else {
        a[0] < b[0]
    }
}

/// Whether one text comes before another.
pub fn comes_before(a: &str, b: &str) -> (r: bool)
    ensures
        r == text_before(a@, b@),
{
    let left = chars_of(a);
    let right = chars_of(b);
    let mut i: usize = 0;
    assert(a@.skip(0) =~= a@);
    assert(b@.skip(0) =~= b@);
    while i < left.len() && i < right.len() && left[i] == right[i]
        invariant
            i <= left.len(),
            i <= right.len(),
            left@ == a@,
            right@ == b@,
            text_before(a@, b@) == text_before(a@.skip(i as int), b@.skip(i as int)),
        decreases left.len() - i,
    {
        assert(a@.skip(i as int).drop_first() =~= a@.skip(i + 1));
        assert(b@.skip(i as int).drop_first() =~= b@.skip(i + 1));
        i = i + 1;
    }
    if i >= right.len() {
        return false;
    }
    if i >= left.len() {
        return true;
    }
    left[i] < right[i]
}

/// A text that is neither before nor behind another is the same.
pub proof fn lemma_text_order_total(a: Seq<char>, b: Seq<char>)
    requires
        !text_before(a, b),
        !text_before(b, a),
    ensures
        a == b,
    decreases a.len(),
{
    if a.len() > 0 && b.len() > 0 {
        lemma_text_order_total(a.drop_first(), b.drop_first());
        assert(a =~= seq![a[0]] + a.drop_first());
        assert(b =~= seq![b[0]] + b.drop_first());
    } else {
        assert(a =~= b);
    }
}

/// Nothing precedes what precedes it.
pub proof fn lemma_text_order_asymmetric(a: Seq<char>, b: Seq<char>)
    requires
        text_before(a, b),
    ensures
        !text_before(b, a),
    decreases a.len(),
{
    if a.len() > 0 && a[0] == b[0] {
        lemma_text_order_asymmetric(a.drop_first(), b.drop_first());
    }
}

/// Not preceding carries over.
pub proof fn lemma_text_order_transitive(a: Seq<char>, b: Seq<char>, c: Seq<char>)
    requires
        !text_before(b, a),
        !text_before(c, b),
    ensures
        !text_before(c, a),
    decreases a.len(),
{
    if a.len() > 0 && b.len() > 0 && c.len() > 0 && a[0] == b[0] && b[0] == c[0] {
        lemma_text_order_transitive(a.drop_first(), b.drop_first(), c.drop_first());
    }
}

} // verus!
