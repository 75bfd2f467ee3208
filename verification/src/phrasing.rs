//! What a query searches for, which keywords stand for a text, and what a snippet shows of it.
use crate::error::Fault;
use crate::search::{
    first_line, is_query_syntax, is_stop, keywords, next_parse, resolved_query, sanitized, snippet,
    NextParse, QUERY_SYNTAX_CHARS, STOPWORDS,
};
use crate::lines::trim;
use crate::text::{contains, lemma_position_of, lower_of_text, occurs_at, position_of};
use crate::utf8::{
    boundary_after, boundary_before, byte_len, lemma_boundary_after, lemma_boundary_before,
    lemma_offsets_grow, width,
};
use vstd::prelude::*;
use vstd::utf8::{encode_scalar, encode_utf8};

verus! {

// ---------------------------------------------------------------------------
// Bytes
// ---------------------------------------------------------------------------

proof fn lemma_encoding_of_both(a: Seq<char>, b: Seq<char>)
    ensures
        encode_utf8(a + b) == encode_utf8(a) + encode_utf8(b),
    decreases a.len(),
{
    if a.len() == 0 {
        assert(a + b =~= b);
        assert(encode_utf8(a) + encode_utf8(b) =~= encode_utf8(b));
    } else {
        assert((a + b).drop_first() =~= a.drop_first() + b);
        assert((a + b)[0] == a[0]);
        lemma_encoding_of_both(a.drop_first(), b);
        assert(encode_utf8(a + b) =~= encode_utf8(a) + encode_utf8(b));
    }
}

proof fn lemma_one_character(c: char)
    ensures
        encode_utf8(seq![c]).len() == width(c),
{
    let one = seq![c];
    let rest = one.drop_first();
    assert(rest.len() == 0);
    assert(encode_utf8(rest) =~= Seq::<u8>::empty());
    assert(one[0] == c);
    let code = c as u32;
    assert(encode_utf8(one) == encode_scalar(code) + encode_utf8(rest));
    assert(encode_utf8(one).len() == encode_scalar(code).len());
}

/// The bytes that a text is counted to take are those of its UTF-8 form.
pub proof fn lemma_bytes_are_those_of_utf8(s: Seq<char>)
    ensures
        byte_len(s) == encode_utf8(s).len(),
    decreases s.len(),
{
    if s.len() > 0 {
        let last = seq![s.last()];
        lemma_bytes_are_those_of_utf8(s.drop_last());
        assert(s =~= s.drop_last() + last);
        lemma_encoding_of_both(s.drop_last(), last);
        lemma_one_character(s.last());
    }
}

// ---------------------------------------------------------------------------
// Queries
// ---------------------------------------------------------------------------

/// These fifteen characters are what the grammar of queries reserves.
pub proof fn lemma_reserved_characters(c: char)
    ensures
        is_query_syntax(c) <==> {
            ||| c == '+'
            ||| c == '^'
            ||| c == '`'
            ||| c == ':'
            ||| c == '{'
            ||| c == '}'
            ||| c == '"'
            ||| c == '\''
            ||| c == '['
            ||| c == ']'
            ||| c == '('
            ||| c == ')'
            ||| c == '!'
            ||| c == '\\'
            ||| c == '*'
        },
{
    let all = QUERY_SYNTAX_CHARS@;
    assert(all.len() == 15);
    assert(all[0] == '+' && all[1] == '^' && all[2] == '`' && all[3] == ':' && all[4] == '{');
    assert(all[5] == '}' && all[6] == '"' && all[7] == '\'' && all[8] == '[' && all[9] == ']');
    assert(all[10] == '(' && all[11] == ')' && all[12] == '!' && all[13] == '\\' && all[14] == '*');
    if is_query_syntax(c) {
        let i = all.index_of(c);
        assert(0 <= i < 15 && all[i] == c);
    }
}

/// A query that can be read is searched for as it is written, and one that cannot is searched
/// for as its plain terms. One without terms finds nothing, and one that cannot be read either
/// way is refused with the first reason.
pub proof fn lemma_queries_are_read_twice_at_most(
    raw: Seq<char>,
    first: Option<Seq<char>>,
    second: Option<Seq<char>>,
)
    ensures
        ({
            let read = resolved_query(raw, first, second);
            &&& first is None ==> read == Ok::<Option<Seq<char>>, Fault>(Some(raw))
            &&& first is Some && sanitized(raw) is None ==> read == Ok::<Option<Seq<char>>, Fault>(
                None,
            )
            &&& first is Some && sanitized(raw) is Some && second is None ==> read == Ok::<
                Option<Seq<char>>,
                Fault,
            >(sanitized(raw))
            &&& first is Some && sanitized(raw) is Some && second is Some ==> read == Err::<
                Option<Seq<char>>,
                Fault,
            >(Fault::Config("Failed to parse query: "@ + first->0))
            &&& next_parse(raw, false) == NextParse::Search(raw)
            &&& sanitized(raw) is None ==> next_parse(raw, true) is Nothing
            &&& sanitized(raw) matches Some(text) ==> next_parse(raw, true) == NextParse::Retry(
                text,
            )
        }),
{
}

// ---------------------------------------------------------------------------
// Keywords
// ---------------------------------------------------------------------------

/// These words say nothing about a text, however they are capitalised.
pub proof fn lemma_stopwords(word: Seq<char>)
    ensures
        is_stop(word) <==> {
            ||| lower_of_text(word) == "the"@
            ||| lower_of_text(word) == "a"@
            ||| lower_of_text(word) == "an"@
            ||| lower_of_text(word) == "and"@
            ||| lower_of_text(word) == "or"@
            ||| lower_of_text(word) == "but"@
            ||| lower_of_text(word) == "in"@
            ||| lower_of_text(word) == "on"@
            ||| lower_of_text(word) == "at"@
            ||| lower_of_text(word) == "to"@
            ||| lower_of_text(word) == "for"@
            ||| lower_of_text(word) == "of"@
            ||| lower_of_text(word) == "with"@
            ||| lower_of_text(word) == "from"@
            ||| lower_of_text(word) == "by"@
            ||| lower_of_text(word) == "about"@
            ||| lower_of_text(word) == "is"@
            ||| lower_of_text(word) == "are"@
            ||| lower_of_text(word) == "was"@
            ||| lower_of_text(word) == "were"@
            ||| lower_of_text(word) == "be"@
            ||| lower_of_text(word) == "been"@
            ||| lower_of_text(word) == "being"@
            ||| lower_of_text(word) == "have"@
            ||| lower_of_text(word) == "has"@
            ||| lower_of_text(word) == "had"@
            ||| lower_of_text(word) == "do"@
            ||| lower_of_text(word) == "does"@
            ||| lower_of_text(word) == "did"@
            ||| lower_of_text(word) == "will"@
            ||| lower_of_text(word) == "would"@
            ||| lower_of_text(word) == "could"@
            ||| lower_of_text(word) == "should"@
            ||| lower_of_text(word) == "may"@
            ||| lower_of_text(word) == "might"@
            ||| lower_of_text(word) == "must"@
            ||| lower_of_text(word) == "can"@
        },
{
    let all = STOPWORDS@;
    assert(all.len() == 37);
    assert(all[0] == "the");
    assert(all[1] == "a");
    assert(all[2] == "an");
    assert(all[3] == "and");
    assert(all[4] == "or");
    assert(all[5] == "but");
    assert(all[6] == "in");
    assert(all[7] == "on");
    assert(all[8] == "at");
    assert(all[9] == "to");
    assert(all[10] == "for");
    assert(all[11] == "of");
    assert(all[12] == "with");
    assert(all[13] == "from");
    assert(all[14] == "by");
    assert(all[15] == "about");
    assert(all[16] == "is");
    assert(all[17] == "are");
    assert(all[18] == "was");
    assert(all[19] == "were");
    assert(all[20] == "be");
    assert(all[21] == "been");
    assert(all[22] == "being");
    assert(all[23] == "have");
    assert(all[24] == "has");
    assert(all[25] == "had");
    assert(all[26] == "do");
    assert(all[27] == "does");
    assert(all[28] == "did");
    assert(all[29] == "will");
    assert(all[30] == "would");
    assert(all[31] == "could");
    assert(all[32] == "should");
    assert(all[33] == "may");
    assert(all[34] == "might");
    assert(all[35] == "must");
    assert(all[36] == "can");
}

/// The keywords of a text are those of its words that take more than three bytes and are no
/// stopwords, in lower case and in their order, and none is passed over before there are ten.
pub proof fn lemma_keywords_are_the_first_that_say_something(all: Seq<Seq<char>>) -> (places: Seq<
    int,
>)
    ensures
        places.len() == keywords(all).len(),
        places.len() <= 10,
        forall|a: int, b: int| 0 <= a < b < places.len() ==> places[a] < places[b],
        forall|k: int|
            0 <= k < places.len() ==> 0 <= #[trigger] places[k] < all.len() && keywords(all)[k]
                == lower_of_text(all[places[k]]) && byte_len(all[places[k]]) > 3 && !is_stop(
                all[places[k]],
            ),
        forall|i: int|
            0 <= i < all.len() && byte_len(#[trigger] all[i]) > 3 && !is_stop(all[i])
                ==> places.contains(i) || (places.len() == 10 && places.last() < i),
    decreases all.len(),
{
    if all.len() == 0 {
        Seq::empty()
    } else {
        let front = all.drop_last();
        let before = lemma_keywords_are_the_first_that_say_something(front);
        let last = all.len() - 1;
        let takes = before.len() < 10 && byte_len(all.last()) > 3 && !is_stop(all.last());
        let places = if takes {
            before.push(last)
        } else {
            before
        };
        assert forall|k: int| 0 <= k < places.len() implies 0 <= #[trigger] places[k] < all.len()
            && keywords(all)[k] == lower_of_text(all[places[k]]) && byte_len(all[places[k]]) > 3
            && !is_stop(all[places[k]]) by {
            if k < before.len() {
                assert(places[k] == before[k]);
                assert(front[before[k]] == all[before[k]]);
                assert(keywords(all)[k] == keywords(front)[k]);
            }
        }
        assert forall|a: int, b: int| 0 <= a < b < places.len() implies places[a] < places[b] by {
            assert(places[a] == before[a]);
            if b < before.len() {
                assert(places[b] == before[b]);
            }
        }
        assert forall|i: int|
            0 <= i < all.len() && byte_len(#[trigger] all[i]) > 3 && !is_stop(
                all[i],
            ) implies places.contains(i) || (places.len() == 10 && places.last() < i) by {
            if i < last {
                assert(front[i] == all[i]);
                if before.contains(i) {
                    assert(places[before.index_of(i)] == i);
                }
            } else if takes {
                assert(places[before.len() as int] == i);
            } else {
                assert(before[before.len() - 1] < last);
            }
        }
        places
    }
}

// ---------------------------------------------------------------------------
// Snippets
// ---------------------------------------------------------------------------

/// Where a query occurs in a text, case aside, a snippet shows the text around its first
/// occurrence: fifty bytes on each side as far as there are any, rounded outwards to whole
/// characters, and three dots at both ends. Otherwise, and for a query of nothing or of a
/// single star, it shows the first line.
pub proof fn lemma_snippets_show_the_first_match(
    content: Seq<char>,
    query: Seq<char>,
    at: int,
) -> (ends: (int, int))
    ensures
        ({
            let lower = lower_of_text(content);
            let needle = lower_of_text(query);
            let plain = query.len() == 0 || query == "*"@;
            let pos = byte_len(lower.take(at)) as int;
            let len = byte_len(needle) as int;
            let total = byte_len(content) as int;
            let low = if pos < 50 {
                0
            } else {
                pos - 50
            };
            let high = if pos + len + 50 <= total {
                pos + len + 50
            } else {
                total
            };
            &&& plain ==> snippet(content, query) == first_line(content)
            &&& (forall|k: int| 0 <= k ==> !occurs_at(lower, needle, k)) ==> snippet(content, query)
                == first_line(content)
            &&& !plain && 0 <= at && occurs_at(lower, needle, at) && (forall|k: int|
                0 <= k < at ==> !occurs_at(lower, needle, k)) ==> {
                &&& 0 <= ends.0 <= ends.1 <= content.len()
                &&& snippet(content, query) == "..."@ + trim(content.subrange(ends.0, ends.1))
                    + "..."@
                &&& byte_len(content.take(ends.0)) <= low
                &&& forall|k: int| ends.0 < k <= content.len() ==> low < #[trigger] byte_len(
                    content.take(k),
                )
                &&& high <= byte_len(content.take(ends.1))
                &&& forall|k: int| 0 <= k < ends.1 ==> #[trigger] byte_len(content.take(k)) < high
            }
        }),
{
    let lower = lower_of_text(content);
    let needle = lower_of_text(query);
    lemma_position_of(lower, needle, 0);
    let pos = byte_len(lower.take(at)) as int;
    let len = byte_len(needle) as int;
    let total = byte_len(content) as int;
    let low = if pos < 50 {
        0
    } else {
        pos - 50
    };
    let high = if pos + len + 50 <= total {
        pos + len + 50
    } else {
        total
    };
    let start = boundary_before(content, low) as int;
    let end = boundary_after(content, high) as int;
    lemma_boundary_before(content, low);
    lemma_boundary_after(content, high);
    assert(content.take(content.len() as int) =~= content);
    if end < start {
        lemma_offsets_grow(content, end, start);
        if start < content.len() {
            lemma_offsets_grow(content, start, content.len() as int);
        }
    }
    if 0 <= at && occurs_at(lower, needle, at) && (forall|k: int|
        0 <= k < at ==> !occurs_at(lower, needle, k)) {
        let found = position_of(lower, needle, 0)->0;
        if found < at {
            assert(!occurs_at(lower, needle, found));
        }
        assert(found == at);
    }
    (start, end)
}

} // verus!
