//! Full-text search: queries, the documents of the index and the results.
use crate::error::{wrap, Error, Fault};
use crate::lines::{join, joined, lines, lines_of, trim, trimmed, words, words_of};
use crate::text::{
    chars_of, copy, find_from, is_white_space, lower_of_text, opt_text, position_of, same,
    slice_text, texts, to_lowercase,
};
use crate::utf8::{
    boundary_after, boundary_before, byte_count, byte_len, ceil_boundary, floor_boundary,
    lemma_boundary_after, lemma_boundary_before, lemma_offsets_grow,
};
use vstd::prelude::*;

verus! {

// ---------------------------------------------------------------------------
// Query text
// ---------------------------------------------------------------------------

/// The characters that the query grammar reserves. Any of them in plain prose can make
/// a query unreadable; an apostrophe opens a quoted phrase.
pub const QUERY_SYNTAX_CHARS: [char; 15] = [
    '+',
    '^',
    '`',
    ':',
    '{',
    '}',
    '"',
    '\'',
    '[',
    ']',
    '(',
    ')',
    '!',
    '\\',
    '*',
];

/// Whether the query grammar reserves the character.
pub open spec fn is_query_syntax(c: char) -> bool {
    QUERY_SYNTAX_CHARS@.contains(c)
}

/// The text with a space in place of each character that the grammar reserves.
pub open spec fn without_syntax(raw: Seq<char>) -> Seq<char> {
    raw.map_values(
        |c: char|
            if is_query_syntax(c) {
                ' '
            } else {
                c
            },
    )
}

/// The terms of a text as a query without syntax: reserved characters separate terms,
/// and one space stands between each two. `None` where no term is left.
pub open spec fn sanitized(raw: Seq<char>) -> Option<Seq<char>> {
    let terms = join(words(without_syntax(raw)), " "@);
    if terms.len() == 0 {
        None
    } else {
        Some(terms)
    }
}

fn is_syntax(c: char) -> (r: bool)
    ensures
        r == is_query_syntax(c),
{
    let mut i: usize = 0;
    while i < 15
        invariant
            i <= 15,
            forall|k: int| 0 <= k < i ==> QUERY_SYNTAX_CHARS@[k] != c,
        decreases 15 - i,
    {
        if QUERY_SYNTAX_CHARS[i] == c {
            assert(QUERY_SYNTAX_CHARS@[i as int] == c);
            return true;
        }
        i = i + 1;
    }
    false
}

/// Rewrites query text into plain terms. `None` where nothing searchable is left.
pub fn sanitize_query_text(raw: &str) -> (r: Option<String>)
    ensures
        match r {
            Some(text) => sanitized(raw@) == Some(text@),
            None => sanitized(raw@) is None,
        },
{
    let chars = chars_of(raw);
    let mut cleaned: String = String::new();
    let mut i: usize = 0;
    while i < chars.len()
        invariant
            i <= chars.len(),
            chars@ == raw@,
            cleaned@ == without_syntax(raw@.take(i as int)),
        decreases chars.len() - i,
    {
        let c: char = chars[i];
        if is_syntax(c) {
            cleaned.push(' ');
        } else {
            cleaned.push(c);
        }
        i = i + 1;
        assert(cleaned@ =~= without_syntax(raw@.take(i as int)));
    }
    assert(raw@.take(i as int) =~= raw@);
    let terms = joined(&words_of(cleaned.as_str()), " ");
    if terms.as_str().is_empty() {
        None
    } else {
        Some(terms)
    }
}

// ---------------------------------------------------------------------------
// Keywords
// ---------------------------------------------------------------------------

/// Words that say nothing about a text.
pub const STOPWORDS: [&'static str; 37] = [
    "the",
    "a",
    "an",
    "and",
    "or",
    "but",
    "in",
    "on",
    "at",
    "to",
    "for",
    "of",
    "with",
    "from",
    "by",
    "about",
    "is",
    "are",
    "was",
    "were",
    "be",
    "been",
    "being",
    "have",
    "has",
    "had",
    "do",
    "does",
    "did",
    "will",
    "would",
    "could",
    "should",
    "may",
    "might",
    "must",
    "can",
];

/// Whether the word says nothing about a text, however it is capitalised.
pub open spec fn is_stop(word: Seq<char>) -> bool {
    exists|i: int| 0 <= i < 37 && (#[trigger] STOPWORDS@[i])@ == lower_of_text(word)
}

/// Whether the word is a common stopword.
pub fn is_stopword(word: &str) -> (r: bool)
    ensures
        r == is_stop(word@),
{
    let lower = to_lowercase(word);
    let mut i: usize = 0;
    while i < 37
        invariant
            i <= 37,
            lower@ == lower_of_text(word@),
            forall|k: int| 0 <= k < i ==> (#[trigger] STOPWORDS@[k])@ != lower@,
        decreases 37 - i,
    {
        if same(STOPWORDS[i], lower.as_str()) {
            assert(STOPWORDS@[i as int]@ == lower@);
            return true;
        }
        i = i + 1;
    }
    false
}

/// How many keywords stand for a text.
pub const MAX_KEYWORDS: usize = 10;

/// The first of the words that are longer than three bytes and no stopwords, in lower
/// case.
pub open spec fn keywords(all: Seq<Seq<char>>) -> Seq<Seq<char>>
    decreases all.len(),
{
    if all.len() == 0 {
        Seq::empty()
    } else {
        let before = keywords(all.drop_last());
        if before.len() < MAX_KEYWORDS && byte_len(all.last()) > 3 && !is_stop(all.last()) {
            before.push(lower_of_text(all.last()))
        } else {
            before
        }
    }
}

/// The keywords of a text, by which related texts are searched for.
pub fn extract_keywords(content: &str) -> (out: Vec<String>)
    ensures
        texts(out@) == keywords(words(content@)),
{
    let all = words_of(content);
    let mut out: Vec<String> = Vec::new();
    let mut i: usize = 0;
    let ghost seen = texts(all@);
    while i < all.len()
        invariant
            i <= all.len(),
            seen == texts(all@),
            texts(out@) == keywords(seen.take(i as int)),
        decreases all.len() - i,
    {
        assert(seen.take(i + 1).drop_last() =~= seen.take(i as int));
        let word = all[i].as_str();
        let chars = chars_of(word);
        let size: u128 = byte_count(&chars, chars.len());
        assert(chars@.take(chars@.len() as int) =~= word@);
        if out.len() < MAX_KEYWORDS && size > 3 && !is_stopword(word) {
            let ghost before = texts(out@);
            let lower = to_lowercase(word);
            out.push(lower);
            assert(texts(out@) =~= before.push(lower@));
        }
        i = i + 1;
    }
    assert(seen.take(i as int) =~= seen);
    out
}

// ---------------------------------------------------------------------------
// Previews and snippets
// ---------------------------------------------------------------------------

/// How many characters a preview holds.
pub const PREVIEW_CHARS: usize = 200;

/// The first characters of a text.
pub open spec fn preview(plain: Seq<char>) -> Seq<char> {
    if plain.len() <= PREVIEW_CHARS {
        plain
    } else {
        plain.take(PREVIEW_CHARS as int)
    }
}

/// The first characters of a text.
pub fn preview_of(plain: &str) -> (out: String)
    ensures
        out@ == preview(plain@),
{
    let chars = chars_of(plain);
    let end: usize = if chars.len() <= PREVIEW_CHARS {
        chars.len()
    } else {
        PREVIEW_CHARS
    };
    assert(plain@.subrange(0, end as int) =~= preview(plain@));
    slice_text(&chars, 0, end)
}

/// The first line of a text.
pub open spec fn first_line(content: Seq<char>) -> Seq<char> {
    if lines(content).len() == 0 {
        Seq::empty()
    } else {
        lines(content)[0]
    }
}

fn first_line_of(content: &str) -> (out: String)
    ensures
        out@ == first_line(content@),
{
    let all = lines_of(content);
    if all.len() == 0 {
        assert(texts(all@).len() == 0);
        String::new()
    } else {
        assert(texts(all@)[0] == all@[0]@);
        all[0].clone()
    }
}

/// How many bytes of context stand on each side of a match.
pub const SNIPPET_CONTEXT: u128 = 50;

/// The byte at which the context in front of a match at byte `pos` begins.
pub open spec fn context_start(pos: nat) -> int {
    if pos < SNIPPET_CONTEXT {
        0
    } else {
        pos - SNIPPET_CONTEXT
    }
}

/// The byte at which the context behind a match of `len` bytes ends, in a text of
/// `total` bytes.
pub open spec fn context_end(pos: nat, len: nat, total: nat) -> int {
    if pos + len + SNIPPET_CONTEXT <= total {
        pos + len + SNIPPET_CONTEXT
    } else {
        total as int
    }
}

/// The text around a match that begins at byte `pos` and takes `len` bytes: fifty bytes
/// on each side, up to the next boundary between characters, without white space at the
/// ends.
pub open spec fn snippet_around(content: Seq<char>, pos: nat, len: nat) -> Seq<char> {
    let start = boundary_before(content, context_start(pos));
    let end = boundary_after(content, context_end(pos, len, byte_len(content)));
    "..."@ + trim(content.subrange(start as int, end as int)) + "..."@
}

/// A part of the text that shows where it matches: what surrounds the first place at
/// which the lower-case text holds the lower-case query, or else the first line. A
/// position in the lower-case text counts as the same byte of the text.
pub open spec fn snippet(content: Seq<char>, query: Seq<char>) -> Seq<char> {
    let lower = lower_of_text(content);
    let needle = lower_of_text(query);
    if query.len() == 0 || query == "*"@ {
        first_line(content)
    } else {
        match position_of(lower, needle, 0) {
            Some(at) => snippet_around(content, byte_len(lower.take(at)), byte_len(needle)),
            None => first_line(content),
        }
    }
}

/// A snippet starts before it ends.
proof fn lemma_snippet_bounds(content: Seq<char>, pos: nat, len: nat)
    ensures
        boundary_before(content, context_start(pos)) <= boundary_after(
            content,
            context_end(pos, len, byte_len(content)),
        ) <= content.len(),
{
    let from = context_start(pos);
    let to = context_end(pos, len, byte_len(content));
    lemma_boundary_before(content, from);
    lemma_boundary_after(content, to);
    let b = boundary_before(content, from);
    let e = boundary_after(content, to);
    if e < b {
        lemma_offsets_grow(content, e as int, b as int);
        assert(content.take(content.len() as int) =~= content);
        if b < content.len() {
            lemma_offsets_grow(content, b as int, content.len() as int);
        }
    }
}

/// A part of the text that shows where it matches the query.
pub fn extract_snippet(content: &str, query: &str) -> (out: String)
    ensures
        out@ == snippet(content@, query@),
{
    proof {
        reveal_strlit("*");
    }
    if query.is_empty() || same(query, "*") {
        return first_line_of(content);
    }
    let lower = chars_of(to_lowercase(content).as_str());
    let needle = chars_of(to_lowercase(query).as_str());
    match find_from(&lower, &needle, 0) {
        Some(at) => {
            assert(needle@.take(needle@.len() as int) =~= needle@);
            let chars = chars_of(content);
            let total: u128 = byte_count(&chars, chars.len());
            assert(chars@.take(chars@.len() as int) =~= content@);
            let pos: u128 = byte_count(&lower, at);
            let len: u128 = byte_count(&needle, needle.len());
            let from: u128 = if pos < SNIPPET_CONTEXT {
                0
            } else {
                pos - SNIPPET_CONTEXT
            };
            let to: u128 = if pos + len + SNIPPET_CONTEXT <= total {
                pos + len + SNIPPET_CONTEXT
            } else {
                total
            };
            let start: usize = floor_boundary(&chars, from);
            let end: usize = ceil_boundary(&chars, to);
            proof {
                lemma_snippet_bounds(content@, pos as nat, len as nat);
            }
            let part = slice_text(&chars, start, end);
            wrap("...", trimmed(part.as_str()).as_str(), "...")
        },
        None => first_line_of(content),
    }
}

// ---------------------------------------------------------------------------
// Parsing a query
// ---------------------------------------------------------------------------

/// `tantivy::query::QueryParser`: what reads queries for an index. The tokenizers that the
/// index knows are part of it.
#[verifier::external_type_specification]
#[verifier::external_body]
pub struct ExQueryParser(tantivy::query::QueryParser);

/// The message of the error with which a query parser rejects a text, if it does.
pub uninterp spec fn query_error(
    parser: tantivy::query::QueryParser,
    text: Seq<char>,
) -> Option<Seq<char>>;

/// `tantivy::query::QueryParser::parse_query`, of which only the outcome is kept: the
/// message of the error, or `None` where the text can be searched for. It depends on the
/// parser and the text alone.
#[verifier::external_body]
fn query_rejection(parser: &tantivy::query::QueryParser, text: &str) -> (r: Option<String>)
    ensures
        opt_text(r) == query_error(*parser, text@),
{
    parser.parse_query(text).err().map(|error| error.to_string())
}

/// What follows the first attempt to parse a query.
pub enum QueryStep {
    /// This text can be searched for.
    Search(String),
    /// There is nothing to search for: nothing is found.
    Nothing,
    /// This text is to be parsed instead.
    Retry(String),
}

/// What follows the first attempt to parse a query, as texts.
pub enum NextParse {
    Search(Seq<char>),
    Nothing,
    Retry(Seq<char>),
}

impl View for QueryStep {
    type V = NextParse;

    open spec fn view(&self) -> NextParse {
        match self {
            QueryStep::Search(text) => NextParse::Search(text@),
            QueryStep::Nothing => NextParse::Nothing,
            QueryStep::Retry(text) => NextParse::Retry(text@),
        }
    }
}

/// A text that the parser accepts is searched for as it is; one that it rejects is parsed
/// again without syntax, if a term is left of it.
pub open spec fn next_parse(raw: Seq<char>, rejected: bool) -> NextParse {
    if !rejected {
        NextParse::Search(raw)
    } else {
        match sanitized(raw) {
            Some(text) => NextParse::Retry(text),
            None => NextParse::Nothing,
        }
    }
}

/// What follows the first attempt to parse a query.
pub fn after_first_parse(raw: &str, rejected: bool) -> (r: QueryStep)
    ensures
        r@ == next_parse(raw@, rejected),
{
    if !rejected {
        QueryStep::Search(copy(raw))
    } else {
        match sanitize_query_text(raw) {
            Some(text) => QueryStep::Retry(text),
            None => QueryStep::Nothing,
        }
    }
}

/// The text that a query searches for, given the error for its text and the one for its
/// text without syntax: `None` where there is nothing to search for. Only a query that
/// fails both ways is an error, and the first one is reported.
pub open spec fn resolved_query(
    raw: Seq<char>,
    first: Option<Seq<char>>,
    second: Option<Seq<char>>,
) -> Result<Option<Seq<char>>, Fault> {
    match first {
        None => Ok(Some(raw)),
        Some(message) => match sanitized(raw) {
            None => Ok(None),
            Some(text) => if second is None {
                Ok(Some(text))
            } else {
                Err(Fault::Config("Failed to parse query: "@ + message))
            },
        },
    }
}

/// A query's result as texts.
pub open spec fn resolution(r: Result<Option<String>, Error>) -> Result<Option<Seq<char>>, Fault> {
    match r {
        Ok(text) => Ok(opt_text(text)),
        Err(error) => Err(error@),
    }
}

/// The text that a query searches for, after an attempt with its text without syntax.
pub fn after_retry(text: String, first: &str, second: &Option<String>) -> (r: Result<
    Option<String>,
    Error,
>)
    ensures
        resolution(r) == if *second is None {
            Ok(Some(text@))
        } else {
            Err(Fault::Config("Failed to parse query: "@ + first@))
        },
{
    match second {
        None => Ok(Some(text)),
        Some(_) => {
            let mut message: String = copy("Failed to parse query: ");
            message.append(first);
            Err(Error::Config(message))
        },
    }
}

/// The text that a query searches for. A text that the parser rejects is tried once more
/// as plain terms, all of which are kept; `None` stands for a query that finds nothing.
pub fn parse_query_resilient(parser: &tantivy::query::QueryParser, raw: &str) -> (r: Result<
    Option<String>,
    Error,
>)
    ensures
        resolution(r) == resolved_query(
            raw@,
            query_error(*parser, raw@),
            match sanitized(raw@) {
                Some(text) => query_error(*parser, text),
                None => None,
            },
        ),
{
    let first = query_rejection(parser, raw);
    match after_first_parse(raw, first.is_some()) {
        QueryStep::Search(text) => Ok(Some(text)),
        QueryStep::Nothing => Ok(None),
        QueryStep::Retry(text) => {
            let second = query_rejection(parser, text.as_str());
            match first {
                Some(message) => after_retry(text, message.as_str(), &second),
                None => Ok(Some(text)),
            }
        },
    }
}

// ---------------------------------------------------------------------------
// What a rewritten query promises
// ---------------------------------------------------------------------------

/// Whether the text is a word: it is not empty, and holds no white space.
pub open spec fn is_word(w: Seq<char>) -> bool {
    w.len() > 0 && forall|i: int| 0 <= i < w.len() ==> !is_white_space(#[trigger] w[i])
}

/// The words of a text are words, made of its characters.
proof fn lemma_words_are_words(s: Seq<char>)
    ensures
        forall|k: int| 0 <= k < words(s).len() ==> is_word(#[trigger] words(s)[k]),
        forall|k: int, i: int|
            0 <= k < words(s).len() && 0 <= i < words(s)[k].len() ==> s.contains(
                #[trigger] words(s)[k][i],
            ),
        s.len() > 0 && !is_white_space(s.last()) ==> words(s).len() > 0,
    decreases s.len(),
{
    if s.len() > 0 {
        let front = s.drop_last();
        lemma_words_are_words(front);
        assert forall|k: int, i: int|
            0 <= k < words(s).len() && 0 <= i < words(s)[k].len() implies s.contains(
            #[trigger] words(s)[k][i],
        ) by {
            let c = words(s)[k][i];
            if c == s.last() {
                assert(s[s.len() - 1] == c);
            } else {
                assert(k < words(front).len());
                assert(words(front)[k][i] == c);
                assert(front.contains(c));
                let at = choose|j: int| 0 <= j < front.len() && front[j] == c;
                assert(s[at] == c);
            }
        }
    }
}

/// A word behind a space is one more word.
proof fn lemma_one_more_word(a: Seq<char>, w: Seq<char>)
    requires
        is_word(w),
        a.len() == 0 || is_white_space(a.last()),
    ensures
        words(a + w) == words(a).push(w),
    decreases w.len(),
{
    let s = a + w;
    assert(s.last() == w[w.len() - 1]);
    if w.len() == 1 {
        assert(s.drop_last() =~= a);
        assert(w =~= seq![s.last()]);
        assert(is_white_space(' '));
        if a.len() > 0 {
            assert(s[s.len() - 2] == a.last());
        }
    } else {
        let v = w.drop_last();
        assert forall|i: int| 0 <= i < v.len() implies !is_white_space(#[trigger] v[i]) by {
            assert(v[i] == w[i]);
        }
        lemma_one_more_word(a, v);
        assert(s.drop_last() =~= a + v);
        assert(s[s.len() - 2] == w[w.len() - 2]);
        assert(v.push(w.last()) =~= w);
        assert(words(s) =~= words(a).push(w));
    }
}

/// Words with a space between each two are these words.
proof fn lemma_words_of_joined(all: Seq<Seq<char>>)
    requires
        forall|k: int| 0 <= k < all.len() ==> is_word(#[trigger] all[k]),
    ensures
        words(join(all, " "@)) == all,
    decreases all.len(),
{
    reveal_strlit(" ");
    if all.len() == 1 {
        lemma_one_more_word(Seq::empty(), all[0]);
        assert(Seq::<char>::empty() + all[0] =~= all[0]);
        assert(Seq::<Seq<char>>::empty().push(all[0]) =~= all);
    } else if all.len() > 1 {
        let front = all.drop_last();
        assert forall|k: int| 0 <= k < front.len() implies is_word(#[trigger] front[k]) by {
            assert(front[k] == all[k]);
        }
        lemma_words_of_joined(front);
        let a = join(front, " "@) + " "@;
        assert(is_word(all[all.len() - 1]));
        lemma_one_more_word(a, all.last());
        assert(a.drop_last() =~= join(front, " "@));
        assert(words(a) == front);
        assert(front.push(all.last()) =~= all);
    } else {
        assert(words(join(all, " "@)) =~= all);
    }
}

/// The characters of joined words are theirs and the space.
proof fn lemma_chars_of_joined(all: Seq<Seq<char>>, i: int)
    requires
        0 <= i < join(all, " "@).len(),
    ensures
        ({
            let c = join(all, " "@)[i];
            c == ' ' || exists|k: int, j: int|
                0 <= k < all.len() && 0 <= j < all[k].len() && #[trigger] all[k][j] == c
        }),
    decreases all.len(),
{
    reveal_strlit(" ");
    if all.len() == 1 {
        assert(all[0][i] == join(all, " "@)[i]);
    } else if all.len() > 1 {
        let front = all.drop_last();
        let n = join(front, " "@).len();
        if i < n {
            lemma_chars_of_joined(front, i);
            let c = join(front, " "@)[i];
            if c != ' ' {
                let (k, j) = choose|k: int, j: int|
                    0 <= k < front.len() && 0 <= j < front[k].len() && #[trigger] front[k][j] == c;
                assert(all[k][j] == c);
            }
        } else if i > n {
            assert(all[all.len() - 1][i - n - 1] == join(all, " "@)[i]);
        }
    }
}

/// A rewritten query keeps every term and holds no syntax: its words are those of the text
/// with its reserved characters read as spaces. It is `None` only where there is no term.
pub proof fn lemma_sanitized_keeps_every_term(raw: Seq<char>)
    ensures
        match sanitized(raw) {
            Some(text) => {
                &&& words(text) == words(without_syntax(raw))
                &&& forall|i: int| 0 <= i < text.len() ==> !is_query_syntax(#[trigger] text[i])
            },
            None => words(without_syntax(raw)).len() == 0,
        },
{
    reveal_strlit(" ");
    let plain = without_syntax(raw);
    let all = words(plain);
    lemma_words_are_words(plain);
    lemma_words_of_joined(all);
    let text = join(all, " "@);
    if text.len() > 0 {
        assert forall|i: int| 0 <= i < text.len() implies !is_query_syntax(#[trigger] text[i]) by {
            lemma_chars_of_joined(all, i);
            lemma_space_is_no_syntax();
            if text[i] != ' ' {
                let (k, j) = choose|k: int, j: int|
                    0 <= k < all.len() && 0 <= j < all[k].len() && #[trigger] all[k][j] == text[i];
                assert(plain.contains(all[k][j]));
                let at = choose|a: int| 0 <= a < plain.len() && plain[a] == text[i];
                assert(plain[at] == if is_query_syntax(raw[at]) {
                    ' '
                } else {
                    raw[at]
                });
            }
        }
    } else {
        assert(words(text).len() == 0);
    }
}

proof fn lemma_space_is_no_syntax()
    ensures
        !is_query_syntax(' '),
{
    assert forall|i: int| 0 <= i < QUERY_SYNTAX_CHARS@.len() implies QUERY_SYNTAX_CHARS@[i] != ' ' by {
    }
}

/// Rewriting a rewritten query changes nothing.
pub proof fn lemma_sanitizing_twice(raw: Seq<char>)
    requires
        sanitized(raw) is Some,
    ensures
        sanitized(sanitized(raw)->0) == sanitized(raw),
{
    let text = sanitized(raw)->0;
    lemma_sanitized_keeps_every_term(raw);
    assert(without_syntax(text) =~= text);
}

/// There are at most ten keywords.
pub proof fn lemma_few_keywords(all: Seq<Seq<char>>)
    ensures
        keywords(all).len() <= MAX_KEYWORDS,
    decreases all.len(),
{
    if all.len() > 0 {
        lemma_few_keywords(all.drop_last());
    }
}

/// Each keyword is a word of the text in lower case, longer than three bytes and no stopword.
pub proof fn lemma_keywords_are_words(all: Seq<Seq<char>>, i: int)
    requires
        0 <= i < keywords(all).len(),
    ensures
        exists|k: int|
            0 <= k < all.len() && keywords(all)[i] == lower_of_text(#[trigger] all[k]) && byte_len(
                all[k],
            ) > 3 && !is_stop(all[k]),
    decreases all.len(),
{
    let front = all.drop_last();
    if i < keywords(front).len() {
        lemma_keywords_are_words(front, i);
        let k = choose|k: int|
            0 <= k < front.len() && keywords(front)[i] == lower_of_text(#[trigger] front[k])
                && byte_len(front[k]) > 3 && !is_stop(front[k]);
        assert(all[k] == front[k]);
    } else {
        assert(all[all.len() - 1] == all.last());
    }
}

} // verus!
