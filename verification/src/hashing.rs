//! Digests and their hexadecimal form.
use crate::text::{chars_of, from_chars, slice_text};
use sha2::Digest;
use vstd::prelude::*;
use vstd::utf8::encode_utf8;

verus! {

/// The digest that `sha2::Sha256::digest` computes.
pub uninterp spec fn sha256(bytes: Seq<u8>) -> Seq<u8>;

/// `sha2::Sha256::digest`: 32 bytes that depend on the given bytes alone.
#[verifier::external_body]
fn digest(bytes: &[u8]) -> (out: Vec<u8>)
    ensures
        out@ == sha256(bytes@),
        out@.len() == 32,
{
    sha2::Sha256::digest(bytes).to_vec()
}

/// The lower-case hexadecimal digit of a value below 16.
pub open spec fn hex_digit(n: int) -> char {
    if n < 10 {
        (48 + n) as char
    } else {
        (87 + n) as char
    }
}

/// The bytes in lower-case hexadecimal, two digits each.
pub open spec fn hex(bytes: Seq<u8>) -> Seq<char>
    decreases bytes.len(),
{
    if bytes.len() == 0 {
        Seq::empty()
    } else {
        hex(bytes.drop_last()).push(hex_digit(bytes.last() as int / 16)).push(
            hex_digit(bytes.last() as int % 16),
        )
    }
}

/// The hexadecimal form has two digits for each byte.
pub proof fn lemma_hex_len(bytes: Seq<u8>)
    ensures
        hex(bytes).len() == 2 * bytes.len(),
    decreases bytes.len(),
{
    if bytes.len() > 0 {
        lemma_hex_len(bytes.drop_last());
    }
}

fn digit_of(n: u8) -> (c: char)
    requires
        n < 16,
    ensures
        c == hex_digit(n as int),
{
    if n < 10 {
        (48 + n) as char
    } else {
        (87 + n) as char
    }
}

fn hex_chars(bytes: &Vec<u8>, n: usize) -> (out: Vec<char>)
    requires
        n <= bytes.len(),
    ensures
        out@ == hex(bytes@.take(n as int)),
{
    let mut out: Vec<char> = Vec::new();
    let mut i: usize = 0;
    while i < n
        invariant
            i <= n <= bytes.len(),
            out@ == hex(bytes@.take(i as int)),
        decreases n - i,
    {
        assert(bytes@.take(i + 1).drop_last() =~= bytes@.take(i as int));
        out.push(digit_of(bytes[i] / 16));
        out.push(digit_of(bytes[i] % 16));
        i = i + 1;
    }
    out
}

/// The digest of some bytes, in hexadecimal.
pub open spec fn digest_text(bytes: Seq<u8>) -> Seq<char> {
    hex(sha256(bytes))
}

/// The digest of some bytes, in hexadecimal: 64 digits.
pub fn hex_hash(bytes: &[u8]) -> (out: String)
    ensures
        out@ == digest_text(bytes@),
        out@.len() == 64,
{
    let all = digest(bytes);
    let chars = hex_chars(&all, all.len());
    assert(all@.take(all.len() as int) =~= all@);
    proof {
        lemma_hex_len(all@);
    }
    from_chars(&chars)
}

/// The short name of a text: the first 12 bytes of its digest, in hexadecimal.
pub open spec fn slug(value: Seq<char>) -> Seq<char> {
    hex(sha256(encode_utf8(value)).take(12))
}

/// The short name of a text: 24 hexadecimal digits that depend on it alone.
pub fn stable_slug(value: &str) -> (out: String)
    ensures
        out@ == slug(value@),
        out@.len() == 24,
{
    let all = digest(value.as_bytes());
    let chars = hex_chars(&all, 12);
    proof {
        lemma_hex_len(all@.take(12));
    }
    from_chars(&chars)
}

/// The name of a path as an identifier: the first 16 hexadecimal digits of its
/// digest.
pub open spec fn path_id(path: Seq<char>) -> Seq<char> {
    digest_text(encode_utf8(path)).take(16)
}

/// The name of a path as an identifier: 16 hexadecimal digits that depend on it
/// alone.
pub fn hash_path(path: &str) -> (out: String)
    ensures
        out@ == path_id(path@),
        out@.len() == 16,
{
    let all = hex_hash(path.as_bytes());
    let chars = chars_of(all.as_str());
    let out = slice_text(&chars, 0, 16);
    assert(out@ =~= all@.take(16));
    out
}

} // verus!
