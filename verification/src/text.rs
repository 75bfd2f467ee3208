//! Text as sequences of characters: trimming, splitting, joining and searching.
//!
//! Every function here works on the characters of a string, which is also how
//! its contract speaks of it.
use vstd::prelude::*;

verus! {

// ---------------------------------------------------------------------------
// What the standard library does
// ---------------------------------------------------------------------------

/// `String::push` appends one character at the end.
pub assume_specification[ String::push ](s: &mut String, c: char)
    ensures
        final(s)@ == old(s)@.push(c),
;

/// The characters with the Unicode property `White_Space`.
pub open spec fn is_white_space(c: char) -> bool {
    let n = c as u32;
    ||| 0x9 <= n <= 0xd
    ||| n == 0x20
    ||| n == 0x85
    ||| n == 0xa0
    ||| n == 0x1680
    ||| 0x2000 <= n <= 0x200a
    ||| n == 0x2028
    ||| n == 0x2029
    ||| n == 0x202f
    ||| n == 0x205f
    ||| n == 0x3000
}

/// `char::is_whitespace` tells whether a character has the property
/// `White_Space`.
pub assume_specification[ char::is_whitespace ](c: char) -> (b: bool)
    ensures
        b == is_white_space(c),
;

/// An ASCII letter or digit.
pub open spec fn is_ascii_word(c: char) -> bool {
    ||| 'a' <= c <= 'z'
    ||| 'A' <= c <= 'Z'
    ||| '0' <= c <= '9'
}

/// What `char::is_alphanumeric` answers.
pub uninterp spec fn is_letter_or_digit(c: char) -> bool;

/// `char::is_alphanumeric`: a function of the character alone. Among the ASCII
/// characters it holds of exactly the letters and digits; of the others the
/// Unicode tables decide, and nothing is claimed.
pub assume_specification[ char::is_alphanumeric ](c: char) -> (b: bool)
    ensures
        b == is_letter_or_digit(c),
        (c as u32) < 128 ==> b == is_ascii_word(c),
;

/// The lower-case form of an ASCII letter, any other character unchanged.
pub open spec fn ascii_lower(c: char) -> char {
    if 'A' <= c <= 'Z' {
        (c as u32 + 32) as char
    } else {
        c
    }
}

/// The characters that `char::to_lowercase` yields.
pub uninterp spec fn lower_of_char(c: char) -> Seq<char>;

/// `char::to_lowercase`, collected: one or more characters that depend on the
/// given one alone. For an ASCII character it is its ASCII lower-case form.
#[verifier::external_body]
pub(crate) fn lower_char(c: char) -> (out: Vec<char>)
    ensures
        out@ == lower_of_char(c),
        (c as u32) < 128 ==> out@ == seq![ascii_lower(c)],
{
    c.to_lowercase().collect()
}

/// The text that `str::to_lowercase` returns.
pub uninterp spec fn lower_of_text(s: Seq<char>) -> Seq<char>;

/// `str::to_lowercase`: a function of the text alone. A text of ASCII
/// characters keeps its length and has each letter in ASCII lower case.
#[verifier::external_body]
pub(crate) fn to_lowercase(s: &str) -> (out: String)
    ensures
        out@ == lower_of_text(s@),
        (forall|i: int| 0 <= i < s@.len() ==> (#[trigger] s@[i] as u32) < 128) ==> out@
            == ascii_lowered(s@),
{
    s.to_lowercase()
}

/// The text that `{:?}` writes for a string.
pub uninterp spec fn quoted(s: Seq<char>) -> Seq<char>;

/// Whether a character is written as it is between quotes.
pub open spec fn is_plain(c: char) -> bool {
    ' ' <= c <= '~' && c != '"' && c != '\\'
}

/// The `Debug` form of a string, as `format!` writes it for `{:?}`: the text in
/// double quotes, with escapes for what needs them. A text of printable ASCII
/// characters without quotes and backslashes needs none; of other texts nothing is
/// claimed but that the form depends on the text alone.
#[verifier::external_body]
pub(crate) fn quote(s: &str) -> (out: String)
    ensures
        out@ == quoted(s@),
        (forall|i: int| 0 <= i < s@.len() ==> is_plain(#[trigger] s@[i])) ==> out@ == seq!['"'] + s@
            + seq!['"'],
{
    format!("{s:?}")
}

// ---------------------------------------------------------------------------
// Characters and strings
// ---------------------------------------------------------------------------

/// A vector of strings as a sequence of texts.
pub open spec fn texts(v: Seq<String>) -> Seq<Seq<char>> {
    v.map_values(|s: String| s@)
}

/// An optional string as an optional text.
pub open spec fn opt_text(o: Option<String>) -> Option<Seq<char>> {
    match o {
        Some(s) => Some(s@),
        None => None,
    }
}

/// An optional vector of strings as an optional sequence of texts.
pub open spec fn opt_texts(o: Option<Vec<String>>) -> Option<Seq<Seq<char>>> {
    match o {
        Some(v) => Some(texts(v@)),
        None => None,
    }
}

/// The characters of a string.
pub fn chars_of(s: &str) -> (out: Vec<char>)
    ensures
        out@ == s@,
{
    let mut out: Vec<char> = Vec::new();
    for c in it: s.chars()
        invariant
            out@ == s@.take(it.index() as int),
            it.seq() == s@,
    {
        out.push(c);
    }
    out
}

/// The string of the characters from `from` up to `to`.
pub fn slice_text(chars: &Vec<char>, from: usize, to: usize) -> (out: String)
    requires
        from <= to <= chars.len(),
    ensures
        out@ == chars@.subrange(from as int, to as int),
{
    let mut out: String = String::new();
    let mut i: usize = from;
    while i < to
        invariant
            from <= i <= to <= chars.len(),
            out@ == chars@.subrange(from as int, i as int),
        decreases to - i,
    {
        out.push(chars[i]);
        i = i + 1;
    }
    out
}

/// The string of these characters.
pub fn from_chars(chars: &Vec<char>) -> (out: String)
    ensures
        out@ == chars@,
{
    let out = slice_text(chars, 0, chars.len());
    assert(chars@.subrange(0, chars@.len() as int) == chars@);
    out
}

/// A copy of a string.
pub fn copy(s: &str) -> (out: String)
    ensures
        out@ == s@,
{
    s.to_owned()
}

/// A copy of an optional string.
pub fn copy_opt(o: &Option<String>) -> (out: Option<String>)
    ensures
        opt_text(out) == opt_text(*o),
{
    match o {
        Some(s) => Some(s.clone()),
        None => None,
    }
}

/// A copy of a vector of strings.
pub fn copy_texts(v: &Vec<String>) -> (out: Vec<String>)
    ensures
        texts(out@) == texts(v@),
{
    let mut out: Vec<String> = Vec::new();
    let mut i: usize = 0;
    while i < v.len()
        invariant
            i <= v.len(),
            out.len() == i,
            forall|k: int| 0 <= k < i ==> out@[k]@ == v@[k]@,
        decreases v.len() - i,
    {
        out.push(v[i].clone());
        i = i + 1;
    }
    assert(texts(out@) =~= texts(v@));
    out
}

/// A copy of an optional vector of strings.
pub fn copy_opt_texts(o: &Option<Vec<String>>) -> (out: Option<Vec<String>>)
    ensures
        opt_texts(out) == opt_texts(*o),
{
    match o {
        Some(v) => Some(copy_texts(v)),
        None => None,
    }
}

/// Whether two strings hold the same text.
pub fn same(a: &str, b: &str) -> (r: bool)
    ensures
        r == (a@ == b@),
{
    a.to_owned() == b.to_owned()
}

/// The number of characters.
pub fn char_count(s: &str) -> (n: usize)
    ensures
        n == s@.len(),
{
    s.unicode_len()
}

/// The text with each ASCII letter in lower case.
pub open spec fn ascii_lowered(s: Seq<char>) -> Seq<char> {
    s.map_values(|c: char| ascii_lower(c))
}

/// The ASCII lower-case form of one character.
pub fn ascii_lower_char(c: char) -> (r: char)
    ensures
        r == ascii_lower(c),
{
    if 'A' <= c && c <= 'Z' {
        let n: u8 = c as u8;
        (n + 32) as char
    } else {
        c
    }
}

/// The text with each ASCII letter in lower case.
pub fn ascii_lowercase(s: &str) -> (out: String)
    ensures
        out@ == ascii_lowered(s@),
{
    let chars = chars_of(s);
    let mut out: String = String::new();
    let mut i: usize = 0;
    while i < chars.len()
        invariant
            i <= chars.len(),
            chars@ == s@,
            out@ == ascii_lowered(s@.take(i as int)),
        decreases chars.len() - i,
    {
        out.push(ascii_lower_char(chars[i]));
        i = i + 1;
        assert(out@ =~= ascii_lowered(s@.take(i as int)));
    }
    assert(s@.take(i as int) =~= s@);
    out
}

// ---------------------------------------------------------------------------
// Prefix, suffix and search
// ---------------------------------------------------------------------------

/// Whether `s` reads `needle` from position `at` on.
pub open spec fn occurs_at(s: Seq<char>, needle: Seq<char>, at: int) -> bool {
    0 <= at && at + needle.len() <= s.len() && s.subrange(at, at + needle.len()) == needle
}

/// Whether `s` holds `needle` somewhere.
pub open spec fn contains(s: Seq<char>, needle: Seq<char>) -> bool {
    exists|at: int| occurs_at(s, needle, at)
}

/// Whether `s` begins with `prefix`.
pub open spec fn starts_with(s: Seq<char>, prefix: Seq<char>) -> bool {
    occurs_at(s, prefix, 0)
}

/// Whether `s` ends with `suffix`.
pub open spec fn ends_with(s: Seq<char>, suffix: Seq<char>) -> bool {
    occurs_at(s, suffix, s.len() - suffix.len())
}

/// The first position from `from` on at which `needle` occurs.
pub open spec fn position_of(s: Seq<char>, needle: Seq<char>, from: int) -> Option<int>
    decreases s.len() + 1 - from,
{
    if from > s.len() {
        None
    } else if occurs_at(s, needle, from) {
        Some(from)
    } else {
        position_of(s, needle, from + 1)
    }
}

/// The position that is found is the first one, and none is passed over.
pub proof fn lemma_position_of(s: Seq<char>, needle: Seq<char>, from: int)
    ensures
        match position_of(s, needle, from) {
            Some(at) => from <= at && occurs_at(s, needle, at) && forall|k: int|
                from <= k < at ==> !occurs_at(s, needle, k),
            None => forall|k: int| from <= k ==> !occurs_at(s, needle, k),
        },
    decreases s.len() + 1 - from,
{
    if from <= s.len() && !occurs_at(s, needle, from) {
        lemma_position_of(s, needle, from + 1);
    }
}

/// Whether the characters at position `at` read `needle`.
pub fn reads_at(s: &Vec<char>, needle: &Vec<char>, at: usize) -> (r: bool)
    ensures
        r == occurs_at(s@, needle@, at as int),
{
    if at > s.len() || needle.len() > s.len() - at {
        return false;
    }
    let mut i: usize = 0;
    while i < needle.len()
        invariant
            i <= needle.len(),
            at + needle.len() <= s.len(),
            forall|k: int| 0 <= k < i ==> s@[at + k] == needle@[k],
        decreases needle.len() - i,
    {
        if s[at + i] != needle[i] {
            assert(s@.subrange(at as int, at + needle.len())[i as int] != needle@[i as int]);
            return false;
        }
        i = i + 1;
    }
    assert(s@.subrange(at as int, at + needle.len()) =~= needle@);
    true
}

/// The first position from `from` on at which `needle` occurs.
pub fn find_from(s: &Vec<char>, needle: &Vec<char>, from: usize) -> (r: Option<usize>)
    ensures
        match r {
            Some(at) => position_of(s@, needle@, from as int) == Some(at as int),
            None => position_of(s@, needle@, from as int) is None,
        },
        r is Some ==> from <= r->0 && r->0 + needle.len() <= s.len(),
{
    let mut at: usize = from;
    while at <= s.len()
        invariant
            from <= at <= s.len() + 1 || at == from,
            position_of(s@, needle@, from as int) == position_of(s@, needle@, at as int),
        decreases s.len() + 1 - at,
    {
        if reads_at(s, needle, at) {
            return Some(at);
        }
        if at == s.len() {
            assert(position_of(s@, needle@, at + 1) is None);
            return None;
        }
        at = at + 1;
    }
    None
}

/// Whether `needle` occurs in `s`.
pub fn has(s: &str, needle: &str) -> (r: bool)
    ensures
        r == contains(s@, needle@),
{
    let chars = chars_of(s);
    let pattern = chars_of(needle);
    proof {
        lemma_position_of(s@, needle@, 0);
    }
    find_from(&chars, &pattern, 0).is_some()
}

/// Whether `s` begins with `prefix`.
pub fn has_prefix(s: &str, prefix: &str) -> (r: bool)
    ensures
        r == starts_with(s@, prefix@),
{
    reads_at(&chars_of(s), &chars_of(prefix), 0)
}

/// Whether `s` ends with `suffix`.
pub fn has_suffix(s: &str, suffix: &str) -> (r: bool)
    ensures
        r == ends_with(s@, suffix@),
{
    let chars = chars_of(s);
    let pattern = chars_of(suffix);
    if pattern.len() > chars.len() {
        return false;
    }
    reads_at(&chars, &pattern, chars.len() - pattern.len())
}

/// Whether the character occurs in `s`.
pub fn has_char(s: &str, c: char) -> (r: bool)
    ensures
        r == s@.contains(c),
{
    let chars = chars_of(s);
    let mut i: usize = 0;
    while i < chars.len()
        invariant
            i <= chars.len(),
            chars@ == s@,
            forall|k: int| 0 <= k < i ==> s@[k] != c,
        decreases chars.len() - i,
    {
        if chars[i] == c {
            assert(s@[i as int] == c);
            return true;
        }
        i = i + 1;
    }
    false
}

/// Whether `needle` is one of the texts.
pub fn has_text(v: &Vec<String>, needle: &str) -> (r: bool)
    ensures
        r == texts(v@).contains(needle@),
{
    let mut i: usize = 0;
    while i < v.len()
        invariant
            i <= v.len(),
            forall|k: int| 0 <= k < i ==> v@[k]@ != needle@,
        decreases v.len() - i,
    {
        if same(v[i].as_str(), needle) {
            assert(texts(v@)[i as int] == needle@);
            return true;
        }
        i = i + 1;
    }
    assert forall|k: int| 0 <= k < texts(v@).len() implies texts(v@)[k] != needle@ by {
        assert(v@[k]@ != needle@);
    }
    false
}

/// The texts without those that were there before.
pub open spec fn distinct(all: Seq<Seq<char>>) -> Seq<Seq<char>>
    decreases all.len(),
{
    if all.len() == 0 {
        Seq::empty()
    } else {
        let before = distinct(all.drop_last());
        if before.contains(all.last()) {
            before
        } else {
            before.push(all.last())
        }
    }
}

/// The texts without those that were there before: the same texts, and none of them twice.
pub proof fn lemma_distinct(all: Seq<Seq<char>>)
    ensures
        distinct(all).no_duplicates(),
        forall|text: Seq<char>| #[trigger] distinct(all).contains(text) <==> all.contains(text),
    decreases all.len(),
{
    if all.len() > 0 {
        let front = all.drop_last();
        let before = distinct(front);
        lemma_distinct(front);
        assert forall|text: Seq<char>| #[trigger] distinct(all).contains(text) <==> all.contains(
            text,
        ) by {
            assert(all =~= front.push(all.last()));
            if front.contains(text) {
                let k = choose|k: int| 0 <= k < front.len() && front[k] == text;
                assert(all[k] == text);
                assert(before.contains(text));
                let n = choose|n: int| 0 <= n < before.len() && before[n] == text;
                assert(distinct(all)[n] == text);
            }
            if text == all.last() {
                assert(all[all.len() - 1] == text);
                if !before.contains(text) {
                    assert(distinct(all)[before.len() as int] == text);
                }
            }
            if distinct(all).contains(text) && text != all.last() {
                let n = choose|n: int| 0 <= n < distinct(all).len() && distinct(all)[n] == text;
                assert(before[n] == text);
                assert(before.contains(text));
                let k = choose|k: int| 0 <= k < front.len() && front[k] == text;
                assert(all[k] == text);
            }
            if all.contains(text) && text != all.last() {
                let k = choose|k: int| 0 <= k < all.len() && all[k] == text;
                assert(front[k] == text);
            }
        }
    }
}

/// The texts without those that were there before.
pub fn without_repeats(all: &Vec<String>) -> (out: Vec<String>)
    ensures
        texts(out@) == distinct(texts(all@)),
{
    let ghost model = texts(all@);
    let mut out: Vec<String> = Vec::new();
    let mut i: usize = 0;
    assert(texts(out@) =~= distinct(model.take(0)));
    while i < all.len()
        invariant
            i <= all.len(),
            model == texts(all@),
            texts(out@) == distinct(model.take(i as int)),
        decreases all.len() - i,
    {
        assert(model.take(i + 1).drop_last() =~= model.take(i as int));
        if !has_text(&out, all[i].as_str()) {
            let ghost before = texts(out@);
            out.push(all[i].clone());
            assert(texts(out@) =~= before.push(model[i as int]));
        }
        i = i + 1;
    }
    assert(model.take(i as int) =~= model);
    out
}

} // verus!
