//! Positions in the UTF-8 form of a text.
use vstd::prelude::*;

verus! {

/// The number of bytes that a character takes in UTF-8.
pub open spec fn width(c: char) -> nat {
    let n = c as u32;
    if n < 0x80 {
        1
    } else if n < 0x800 {
        2
    } else if n < 0x10000 {
        3
    } else {
        4
    }
}

/// The number of bytes that a text takes in UTF-8.
pub open spec fn byte_len(s: Seq<char>) -> nat
    decreases s.len(),
{
    if s.len() == 0 {
        0
    } else {
        byte_len(s.drop_last()) + width(s.last())
    }
}

/// The number of bytes that a character takes in UTF-8.
fn width_of(c: char) -> (n: u128)
    ensures
        n == width(c),
{
    let code: u32 = c as u32;
    if code < 0x80 {
        1
    } else if code < 0x800 {
        2
    } else if code < 0x10000 {
        3
    } else {
        4
    }
}

/// The number of bytes that the first `to` characters take in UTF-8.
pub fn byte_count(chars: &Vec<char>, to: usize) -> (n: u128)
    requires
        to <= chars.len(),
    ensures
        n == byte_len(chars@.take(to as int)),
        n <= 4 * to,
{
    let mut n: u128 = 0;
    let mut i: usize = 0;
    while i < to
        invariant
            i <= to <= chars.len(),
            n == byte_len(chars@.take(i as int)),
            n <= 4 * i,
        decreases to - i,
    {
        assert(chars@.take(i + 1).drop_last() =~= chars@.take(i as int));
        n = n + width_of(chars[i]);
        i = i + 1;
    }
    n
}

/// The number of characters before the last boundary that is not behind byte `at`.
pub open spec fn boundary_before(s: Seq<char>, at: int) -> nat
    decreases s.len(),
{
    if s.len() == 0 || byte_len(s) <= at {
        s.len()
    } else {
        boundary_before(s.drop_last(), at)
    }
}

/// The number of characters before the first boundary that is not in front of byte
/// `at`; the whole text where there is none.
pub open spec fn boundary_after(s: Seq<char>, at: int) -> nat
    decreases s.len(),
{
    if s.len() == 0 || byte_len(s.drop_last()) < at {
        s.len()
    } else {
        boundary_after(s.drop_last(), at)
    }
}

/// A longer text takes more bytes.
pub proof fn lemma_offsets_grow(s: Seq<char>, i: int, j: int)
    requires
        0 <= i < j <= s.len(),
    ensures
        byte_len(s.take(i)) < byte_len(s.take(j)),
    decreases j,
{
    assert(s.take(j).drop_last() =~= s.take(j - 1));
    if i < j - 1 {
        lemma_offsets_grow(s, i, j - 1);
    }
}

/// The last boundary that is not behind `at`.
pub proof fn lemma_boundary_before(s: Seq<char>, at: int)
    requires
        0 <= at,
    ensures
        boundary_before(s, at) <= s.len(),
        byte_len(s.take(boundary_before(s, at) as int)) <= at,
        forall|k: int|
            boundary_before(s, at) < k <= s.len() ==> at < #[trigger] byte_len(s.take(k)),
    decreases s.len(),
{
    assert(s.take(s.len() as int) =~= s);
    if s.len() > 0 && byte_len(s) > at {
        lemma_boundary_before(s.drop_last(), at);
        let b = boundary_before(s, at);
        assert(s.drop_last().take(b as int) =~= s.take(b as int));
        assert forall|k: int| b < k <= s.len() implies at < #[trigger] byte_len(s.take(k)) by {
            if k < s.len() {
                assert(s.drop_last().take(k) =~= s.take(k));
            }
        }
    }
}

/// The first boundary that is not in front of `at`.
pub proof fn lemma_boundary_after(s: Seq<char>, at: int)
    requires
        at <= byte_len(s),
    ensures
        boundary_after(s, at) <= s.len(),
        at <= byte_len(s.take(boundary_after(s, at) as int)),
        forall|k: int|
            0 <= k < boundary_after(s, at) ==> #[trigger] byte_len(s.take(k)) < at,
    decreases s.len(),
{
    assert(s.take(s.len() as int) =~= s);
    if s.len() > 0 && byte_len(s.drop_last()) >= at {
        lemma_boundary_after(s.drop_last(), at);
        let b = boundary_after(s, at);
        assert(s.drop_last().take(b as int) =~= s.take(b as int));
        assert forall|k: int| 0 <= k < b implies #[trigger] byte_len(s.take(k)) < at by {
            assert(s.drop_last().take(k) =~= s.take(k));
        }
    } else if s.len() > 0 {
        let last = s.len() - 1;
        assert(s.take(last) =~= s.drop_last());
        assert forall|k: int| 0 <= k < s.len() implies #[trigger] byte_len(s.take(k)) < at by {
            if k < last {
                lemma_offsets_grow(s, k, last);
            }
        }
    }
}

/// The number of characters before the last boundary that is not behind byte `at`.
pub fn floor_boundary(chars: &Vec<char>, at: u128) -> (k: usize)
    ensures
        k == boundary_before(chars@, at as int),
{
    let mut k: usize = chars.len();
    let mut bytes: u128 = byte_count(chars, k);
    assert(chars@.take(k as int) =~= chars@);
    while k > 0 && bytes > at
        invariant
            k <= chars.len(),
            bytes == byte_len(chars@.take(k as int)),
            boundary_before(chars@, at as int) == boundary_before(chars@.take(k as int), at as int),
        decreases k,
    {
        assert(chars@.take(k as int).drop_last() =~= chars@.take(k - 1));
        bytes = bytes - width_of(chars[k - 1]);
        k = k - 1;
    }
    k
}

/// The number of characters before the first boundary that is not in front of byte
/// `at`.
pub fn ceil_boundary(chars: &Vec<char>, at: u128) -> (k: usize)
    ensures
        k == boundary_after(chars@, at as int),
{
    let mut k: usize = chars.len();
    let mut bytes: u128 = byte_count(chars, k);
    assert(chars@.take(k as int) =~= chars@);
    while k > 0
        invariant
            k <= chars.len(),
            bytes == byte_len(chars@.take(k as int)),
            boundary_after(chars@, at as int) == boundary_after(chars@.take(k as int), at as int),
        decreases k,
    {
        assert(chars@.take(k as int).drop_last() =~= chars@.take(k - 1));
        let before: u128 = bytes - width_of(chars[k - 1]);
        if before < at {
            return k;
        }
        bytes = before;
        k = k - 1;
    }
    k
}

} // verus!
