//! How the lines of a note are read: which of them are headings or fences, and to which
//! section each line of text goes.
use crate::coverage::{has_ink, lemma_trim};
use crate::headings::{
    fence_after, heading_of, indent_bytes, lemma_run_of, run_of, Heading, OpenFence,
};
use crate::lines::{join, lines, trim, trim_end, trim_end_of, trim_start};
use crate::sections::{
    add_block, lemma_enclosing, lemma_read_lines_ok, open_section, read_lines, section_tree,
    Reading,
};
use crate::text::is_white_space;
use crate::wording::lemma_trimming_cuts_white_space_at_the_ends;
use vstd::prelude::*;

verus! {

// ---------------------------------------------------------------------------
// Heading lines and fences
// ---------------------------------------------------------------------------

proof fn lemma_run_is(s: Seq<char>, c: char, n: int)
    requires
        0 <= n <= s.len(),
        forall|i: int| 0 <= i < n ==> #[trigger] s[i] == c,
        n < s.len() ==> s[n] != c,
    ensures
        run_of(s, c) == n,
{
    lemma_run_of(s, c);
    let m = run_of(s, c) as int;
    if m < n {
        assert(s[m] == c);
    } else if n < m {
        assert(s[n] == c);
    }
}

proof fn lemma_trimmed_stays(s: Seq<char>)
    requires
        s.len() > 0 ==> !is_white_space(s[0]) && !is_white_space(s.last()),
    ensures
        trim(s) == s,
{
}

proof fn lemma_space_before(s: Seq<char>)
    ensures
        trim(seq![' '] + s) == trim(s),
{
    let line = seq![' '] + s;
    assert(line[0] == ' ' && is_white_space(' '));
    assert(line.drop_first() =~= s);
}

/// A line that begins with hash signs is a heading where there are one to six of them and a
/// space behind them, and its level is their number. Its text is what follows, without white
/// space at the ends and without hash signs that close it.
pub proof fn lemma_hash_signs_and_a_space_make_a_heading(n: nat, rest: Seq<char>)
    requires
        n > 0,
        rest.len() == 0 || rest[0] != '#',
    ensures
        ({
            let line = Seq::new(n, |i: int| '#') + rest;
            &&& heading_of(line) is Some <==> n <= 6 && rest.len() > 0 && rest[0] == ' '
            &&& heading_of(line) matches Some(heading) ==> heading.level == n
            &&& n <= 6 && rest.len() > 0 && rest[0] == ' ' && trim(rest).len() > 0 && trim(
                rest,
            ).last() != '#' ==> heading_of(line) == Some(Heading { level: n, text: trim(rest) })
        }),
{
    let line = Seq::new(n, |i: int| '#') + rest;
    assert(line[0] == '#' && !is_white_space('#'));
    assert(trim_start(line) == line);
    if rest.len() > 0 {
        assert(line[n as int] == rest[0]);
    }
    lemma_run_is(line, '#', n as int);
    assert(indent_bytes(line) == 0);
    assert(line.skip(n as int) =~= rest);
    let said = trim(rest);
    if said.len() > 0 && said.last() != '#' {
        let ends = lemma_trimming_cuts_white_space_at_the_ends(rest);
        assert(trim_end_of(said, '#') == said);
        lemma_trimmed_stays(said);
    }
}

/// A line that is not indented and does not begin with a hash sign is no heading.
pub proof fn lemma_other_lines_are_no_headings(line: Seq<char>)
    requires
        line.len() == 0 || (!is_white_space(line[0]) && line[0] != '#'),
    ensures
        heading_of(line) is None,
{
    if line.len() > 0 {
        assert(trim_start(line) == line);
        lemma_run_is(line, '#', 0);
    }
}

/// Hash signs that close a heading do not count, nor does white space around its text.
pub proof fn lemma_closing_hash_signs_do_not_count(n: nat, said: Seq<char>, m: nat)
    requires
        1 <= n <= 6,
        said.len() > 0,
        !is_white_space(said[0]),
        !is_white_space(said.last()),
        said.last() != '#',
    ensures
        heading_of(
            Seq::new(n, |i: int| '#') + seq![' '] + said + seq![' '] + Seq::new(m, |i: int| '#'),
        ) == Some(Heading { level: n, text: said }),
{
    let closing = Seq::new(m, |i: int| '#');
    let rest = seq![' '] + said + seq![' '] + closing;
    let line = Seq::new(n, |i: int| '#') + rest;
    assert(Seq::new(n, |i: int| '#') + seq![' '] + said + seq![' '] + closing =~= line);
    lemma_hash_signs_and_a_space_make_a_heading(n, rest);
    assert(line[0] == '#' && !is_white_space('#'));
    assert(trim_start(line) == line);
    assert(line[n as int] == ' ');
    lemma_run_is(line, '#', n as int);
    assert(line.skip(n as int) =~= rest);
    let tail = said + seq![' '] + closing;
    assert(rest =~= seq![' '] + tail);
    lemma_space_before(tail);
    assert(tail[0] == said[0]);
    assert(trim_start(tail) == tail);
    if m == 0 {
        assert(tail =~= said.push(' '));
        assert(is_white_space(' '));
        assert(tail.drop_last() =~= said);
        assert(trim(tail) == said) by {
            assert(trim_end(tail) == trim_end(said));
        }
        assert(trim_end_of(said, '#') == said);
        lemma_trimmed_stays(said);
    } else {
        assert(tail.last() == '#');
        assert(trim(tail) == tail);
        lemma_end_of(said + seq![' '], m);
        let left = said + seq![' '];
        assert(trim_end_of(tail, '#') == left);
        assert(left =~= said.push(' '));
        assert(left.drop_last() =~= said);
        assert(is_white_space(' '));
        assert(left[0] == said[0]);
        assert(trim_end(left) == trim_end(said));
        assert(trim(left) == said);
    }
}

proof fn lemma_end_of(s: Seq<char>, m: nat)
    requires
        s.len() > 0,
        s.last() != '#',
    ensures
        trim_end_of(s + Seq::new(m, |i: int| '#'), '#') == s,
    decreases m,
{
    let all = s + Seq::new(m, |i: int| '#');
    if m == 0 {
        assert(all =~= s);
    } else {
        let less = (m - 1) as nat;
        assert(all.last() == '#');
        assert(all.drop_last() =~= s + Seq::new(less, |i: int| '#'));
        lemma_end_of(s, less);
    }
}

/// Three or more backticks or tildes at the beginning of a line open a fence, unless backticks
/// follow backticks. An open fence is closed by a line of at least as many of the same and
/// nothing else but white space, and by no other.
pub proof fn lemma_fences_open_and_close(
    mark: char,
    n: nat,
    rest: Seq<char>,
    open: Option<OpenFence>,
)
    requires
        mark == '`' || mark == '~',
        0 < n <= usize::MAX,
        rest.len() == 0 || rest[0] != mark,
    ensures
        ({
            let line = Seq::new(n, |i: int| mark) + rest;
            let after = fence_after(line, open);
            &&& n < 3 ==> after == open
            &&& n >= 3 && open is None ==> match after {
                Some(fence) => fence.delimiter == mark && fence.length == n && !(mark == '`'
                    && rest.contains('`')),
                None => mark == '`' && rest.contains('`'),
            }
            &&& n >= 3 && open is Some ==> match after {
                Some(fence) => open == Some(fence) && !(mark == open->0.delimiter && n
                    >= open->0.length && !has_ink(rest)),
                None => mark == open->0.delimiter && n >= open->0.length && !has_ink(rest),
            }
        }),
{
    let line = Seq::new(n, |i: int| mark) + rest;
    assert(line[0] == mark);
    assert(!is_white_space('`') && !is_white_space('~'));
    assert(trim_start(line) == line);
    if rest.len() > 0 {
        assert(line[n as int] == rest[0]);
    }
    lemma_run_is(line, mark, n as int);
    assert(line.skip(n as int) =~= rest);
    let ends = lemma_trim(rest);
}

/// A line that is not indented and begins with neither backtick nor tilde leaves fences as
/// they are.
pub proof fn lemma_other_lines_keep_fences(line: Seq<char>, open: Option<OpenFence>)
    requires
        line.len() == 0 || (!is_white_space(line[0]) && line[0] != '`' && line[0] != '~'),
    ensures
        fence_after(line, open) == open,
{
    if line.len() > 0 {
        assert(trim_start(line) == line);
    }
}

// ---------------------------------------------------------------------------
// Lines and their sections
// ---------------------------------------------------------------------------

/// The fence that is open before a line.
pub open spec fn fence_at(all: Seq<Seq<char>>, i: int) -> Option<OpenFence>
    decreases i,
{
    if i <= 0 {
        None
    } else {
        fence_after(all[i - 1], fence_at(all, i - 1))
    }
}

/// Whether a line opens a section: it is a heading, and neither stands in a fence nor opens
/// one.
pub open spec fn opens_section(all: Seq<Seq<char>>, i: int) -> bool {
    fence_at(all, i) is None && fence_after(all[i], None) is None && heading_of(all[i]) is Some
}

/// How many sections the lines before this one have opened.
pub open spec fn opened_before(all: Seq<Seq<char>>, i: int) -> nat
    decreases i,
{
    if i <= 0 {
        0
    } else if opens_section(all, i - 1) {
        opened_before(all, i - 1) + 1
    } else {
        opened_before(all, i - 1)
    }
}

/// The number of the section that a line opens, if it opens one.
pub open spec fn opened_by(all: Seq<Seq<char>>, i: int) -> int {
    opened_before(all, i) as int + 1
}

/// Whether these lines belong to one section and none of them opens one.
spec fn are_of(all: Seq<Seq<char>>, section: int, from: int, to: int) -> bool {
    forall|i: int|
        from <= i < to ==> #[trigger] opened_before(all, i) == section && !opens_section(all, i)
}

/// Whether a section's blocks are these stretches of lines.
spec fn has_blocks(
    all: Seq<Seq<char>>,
    section: int,
    blocks: Seq<Seq<char>>,
    places: Seq<(int, int)>,
    end: int,
) -> bool {
    &&& blocks.len() == places.len()
    &&& forall|b: int|
        0 <= b < places.len() ==> 0 <= (#[trigger] places[b]).0 < places[b].1 <= end && blocks[b]
            == trim(join(all.subrange(places[b].0, places[b].1), "\n"@)) && are_of(
            all,
            section,
            places[b].0,
            places[b].1,
        )
    &&& forall|a: int, b: int|
        0 <= a < b < places.len() ==> (#[trigger] places[a]).1 <= (#[trigger] places[b]).0
}

/// Where the blocks stand that were read from the first lines, and where the lines begin that
/// are still gathered.
spec fn is_read(
    all: Seq<Seq<char>>,
    n: int,
    state: Reading,
    places: Seq<Seq<(int, int)>>,
    from: int,
) -> bool {
    &&& state.fence == fence_at(all, n)
    &&& state.nodes.len() == opened_before(all, n) + 1
    &&& places.len() == state.nodes.len()
    &&& 0 <= from <= n
    &&& state.gathered == all.subrange(from, n)
    &&& are_of(all, state.nodes.len() - 1, from, n)
    &&& forall|s: int|
        0 <= s < places.len() ==> has_blocks(
            all,
            s,
            state.nodes[s].blocks,
            #[trigger] places[s],
            from,
        )
    &&& forall|i: int|
        0 <= i < n && #[trigger] opens_section(all, i) ==> 1 <= opened_by(all, i)
            < state.nodes.len() && state.nodes[opened_by(all, i)].heading == heading_of(
            all[i],
        )
    &&& forall|i: int|
        0 <= i < n && has_ink(#[trigger] all[i]) && !opens_section(all, i) ==> from <= i
            || is_placed(places, opened_before(all, i) as int, i)
}

/// Whether a line stands in one of the blocks of its section.
pub open spec fn is_placed(places: Seq<Seq<(int, int)>>, section: int, line: int) -> bool {
    exists|b: int|
        0 <= b < places[section].len() && (#[trigger] places[section][b]).0 <= line
            < places[section][b].1
}

proof fn lemma_opened_grows(all: Seq<Seq<char>>, i: int, j: int)
    requires
        0 <= i <= j,
    ensures
        opened_before(all, i) <= opened_before(all, j),
        i < j && opens_section(all, i) ==> opened_before(all, i) < opened_before(all, j),
    decreases j,
{
    if i < j {
        lemma_opened_grows(all, i, j - 1);
    }
}

#[verifier::spinoff_prover]
proof fn lemma_flushed(
    all: Seq<Seq<char>>,
    n: int,
    state: Reading,
    places: Seq<Seq<(int, int)>>,
    from: int,
) -> (more: Seq<Seq<(int, int)>>)
    requires
        0 <= n <= all.len(),
        is_read(all, n, state, places, from),
    ensures
        ({
            let flushed = Reading {
                nodes: add_block(state.nodes, state.gathered),
                gathered: Seq::empty(),
                fence: state.fence,
            };
            is_read(all, n, flushed, more, n)
        }),
{
    let text = trim(join(state.gathered, "\n"@));
    let nodes = add_block(state.nodes, state.gathered);
    let last = state.nodes.len() - 1;
    assert(all.subrange(n, n) =~= Seq::<Seq<char>>::empty());
    let ends = lemma_trim(join(state.gathered, "\n"@));
    if text.len() == 0 {
        assert forall|i: int|
            0 <= i < n && has_ink(#[trigger] all[i]) && !opens_section(all, i) implies n <= i
            || is_placed(places, opened_before(all, i) as int, i) by {
            if from <= i {
                assert(state.gathered[i - from] == all[i]);
                crate::coverage::lemma_join_contains(state.gathered, "\n"@, i - from);
                crate::coverage::lemma_contains_ink(join(state.gathered, "\n"@), all[i]);
            }
        }
        assert forall|s: int| 0 <= s < places.len() implies has_blocks(
            all,
            s,
            nodes[s].blocks,
            #[trigger] places[s],
            n,
        ) by {
            assert(has_blocks(all, s, state.nodes[s].blocks, places[s], from));
        }
        places
    } else {
        if from == n {
            assert(state.gathered.len() == 0);
            assert(join(state.gathered, "\n"@) =~= Seq::<char>::empty());
        }
        let grown = places[last].push((from, n));
        let more = places.update(last, grown);
        assert forall|s: int| 0 <= s < more.len() implies has_blocks(
            all,
            s,
            nodes[s].blocks,
            #[trigger] more[s],
            n,
        ) by {
            assert(has_blocks(all, s, state.nodes[s].blocks, places[s], from));
            if s == last {
                let blocks = nodes[s].blocks;
                assert forall|b: int| 0 <= b < grown.len() implies 0 <= (#[trigger] grown[b]).0
                    < grown[b].1 <= n && blocks[b] == trim(
                    join(all.subrange(grown[b].0, grown[b].1), "\n"@),
                ) && are_of(all, s, grown[b].0, grown[b].1) by {
                    if b < places[last].len() {
                        assert(grown[b] == places[last][b]);
                    }
                }
                assert forall|a: int, b: int| 0 <= a < b < grown.len() implies (
                #[trigger] grown[a]).1 <= (#[trigger] grown[b]).0 by {
                    assert(grown[a] == places[last][a]);
                    if b < places[last].len() {
                        assert(grown[b] == places[last][b]);
                    }
                }
            } else {
                assert(more[s] == places[s]);
                assert(nodes[s] == state.nodes[s]);
            }
        }
        assert forall|i: int|
            0 <= i < n && has_ink(#[trigger] all[i]) && !opens_section(all, i) implies n <= i
            || is_placed(more, opened_before(all, i) as int, i) by {
            let s = opened_before(all, i) as int;
            if from <= i {
                assert(s == last);
                assert(more[last][places[last].len() as int] == (from, n));
            } else {
                assert(is_placed(places, s, i));
                let b = choose|b: int|
                    0 <= b < places[s].len() && (#[trigger] places[s][b]).0 <= i < places[s][b].1;
                lemma_opened_grows(all, i, n);
                assert(more[s][b] == places[s][b]);
            }
        }
        assert forall|i: int| 0 <= i < n && #[trigger] opens_section(all, i) implies 1
            <= opened_by(all, i) < nodes.len() && nodes[opened_by(all, i)].heading
            == heading_of(all[i]) by {
            assert(nodes[opened_by(all, i)].heading == state.nodes[opened_by(all, i)].heading);
        }
        more
    }
}

#[verifier::spinoff_prover]
#[verifier::rlimit(40)]
proof fn lemma_lines_are_read(all: Seq<Seq<char>>, n: int) -> (r: (Seq<Seq<(int, int)>>, int))
    requires
        0 <= n <= all.len(),
    ensures
        is_read(all, n, read_lines(all.take(n)), r.0, r.1),
    decreases n,
{
    if n == 0 {
        assert(all.take(0) =~= Seq::<Seq<char>>::empty());
        assert(all.subrange(0, 0) =~= Seq::<Seq<char>>::empty());
        (seq![Seq::empty()], 0)
    } else {
        let m = n - 1;
        let (places, from) = lemma_lines_are_read(all, m);
        assert(all.take(n).drop_last() =~= all.take(m));
        let before = read_lines(all.take(m));
        let after = read_lines(all.take(n));
        let line = all[m];
        assert(all.take(n).last() == line);
        lemma_read_lines_ok(all.take(m));
        let fence = fence_after(line, before.fence);
        assert(fence == fence_at(all, n));
        if before.fence is Some || fence != before.fence {
            assert(!opens_section(all, m));
            lemma_gathered_one_more(all, n, before, after, places, from);
            (places, from)
        } else {
            let more = lemma_flushed(all, m, before, places, from);
            match heading_of(line) {
                Some(heading) => {
                    assert(opens_section(all, m));
                    let flushed = add_block(before.nodes, before.gathered);
                    lemma_enclosing(flushed, heading.level);
                    let opened = open_section(flushed, heading);
                    assert(after.nodes == opened);
                    let grown = more.push(Seq::empty());
                    assert(all.subrange(n, n) =~= Seq::<Seq<char>>::empty());
                    assert forall|s: int| 0 <= s < grown.len() implies has_blocks(
                        all,
                        s,
                        opened[s].blocks,
                        #[trigger] grown[s],
                        n,
                    ) by {
                        if s < more.len() {
                            assert(grown[s] == more[s]);
                            assert(has_blocks(all, s, flushed[s].blocks, more[s], m));
                            assert(opened[s].blocks == flushed[s].blocks);
                        }
                    }
                    assert forall|i: int| 0 <= i < n && #[trigger] opens_section(all, i) implies 1
                        <= opened_by(all, i) < opened.len() && opened[opened_by(all, i)].heading == heading_of(all[i]) by {
                        if i < m {
                            lemma_opened_grows(all, i, m);
                            let s = opened_by(all, i);
                            assert(opened[s].heading == flushed[s].heading);
                        } else {
                            assert(opened[flushed.len() as int].heading == Some(heading));
                        }
                    }
                    assert forall|i: int|
                        0 <= i < n && has_ink(#[trigger] all[i]) && !opens_section(all, i) implies n
                        <= i || is_placed(grown, opened_before(all, i) as int, i) by {
                        let s = opened_before(all, i) as int;
                        assert(is_placed(more, s, i));
                        lemma_opened_grows(all, i, m);
                        assert(grown[s] == more[s]);
                        let b = choose|b: int|
                            0 <= b < more[s].len() && (#[trigger] more[s][b]).0 <= i < more[s][b].1;
                        assert(grown[s][b] == more[s][b]);
                    }
                    (grown, n)
                },
                None => {
                    assert(!opens_section(all, m));
                    if trim(line).len() == 0 {
                        let ends = lemma_trim(line);
                        let state = Reading {
                            nodes: add_block(before.nodes, before.gathered),
                            gathered: Seq::empty(),
                            fence: before.fence,
                        };
                        assert(after.nodes == state.nodes);
                        assert(all.subrange(n, n) =~= Seq::<Seq<char>>::empty());
                        assert forall|s: int| 0 <= s < more.len() implies has_blocks(
                            all,
                            s,
                            after.nodes[s].blocks,
                            #[trigger] more[s],
                            n,
                        ) by {
                            assert(has_blocks(all, s, state.nodes[s].blocks, more[s], m));
                        }
                        assert forall|i: int| 0 <= i < n && #[trigger] opens_section(all, i) implies
                            1 <= opened_by(all, i) < after.nodes.len()
                            && after.nodes[opened_by(all, i)].heading == heading_of(
                            all[i],
                        ) by {
                            assert(i < m);
                        }
                        assert forall|i: int|
                            0 <= i < n && has_ink(#[trigger] all[i]) && !opens_section(
                                all,
                                i,
                            ) implies n <= i || is_placed(more, opened_before(all, i) as int, i) by {
                            assert(i != m);
                        }
                        (more, n)
                    } else {
                        lemma_gathered_one_more(all, n, before, after, places, from);
                        (places, from)
                    }
                },
            }
        }
    }
}

proof fn lemma_gathered_one_more(
    all: Seq<Seq<char>>,
    n: int,
    before: Reading,
    after: Reading,
    places: Seq<Seq<(int, int)>>,
    from: int,
)
    requires
        0 < n <= all.len(),
        is_read(all, n - 1, before, places, from),
        !opens_section(all, n - 1),
        after.nodes == before.nodes,
        after.gathered == before.gathered.push(all[n - 1]),
        after.fence == fence_at(all, n),
    ensures
        is_read(all, n, after, places, from),
{
    assert(after.gathered =~= all.subrange(from, n));
    assert forall|i: int| from <= i < n implies #[trigger] opened_before(all, i)
        == after.nodes.len() - 1 && !opens_section(all, i) by {
        assert(i < n - 1 || i == n - 1);
    }
    assert forall|i: int| 0 <= i < n && #[trigger] opens_section(all, i) implies 1 <= opened_by(all, i) < after.nodes.len() && after.nodes[opened_by(all, i)].heading == heading_of(
        all[i],
    ) by {
        assert(i < n - 1);
    }
    assert forall|i: int|
        0 <= i < n && has_ink(#[trigger] all[i]) && !opens_section(all, i) implies from <= i
        || is_placed(places, opened_before(all, i) as int, i) by {
        if i < n - 1 {
            assert(has_ink(all[i]));
        }
    }
}

/// The sections of a note are the text before the first heading and one for each line that
/// opens a section, in their order and with its heading. The blocks of each are stretches of
/// the lines between its heading and the next one, in their order, and every line that is not
/// blank and opens no section stands in one of them.
pub proof fn lemma_sections_hold_the_lines_behind_their_heading(markdown: Seq<char>) -> (places:
    Seq<Seq<(int, int)>>)
    ensures
        ({
            let all = lines(markdown);
            let nodes = section_tree(markdown);
            let end = all.len() as int;
            &&& nodes.len() == opened_before(all, end) + 1
            &&& places.len() == nodes.len()
            &&& forall|i: int|
                0 <= i < end && #[trigger] opens_section(all, i) ==> opened_by(all, i)
                    < nodes.len() && nodes[opened_by(all, i)].heading == heading_of(all[i])
            &&& forall|s: int|
                0 <= s < nodes.len() ==> (#[trigger] places[s]).len() == nodes[s].blocks.len()
            &&& forall|s: int, b: int|
                0 <= s < nodes.len() && 0 <= b < places[s].len() ==> {
                    let place = #[trigger] places[s][b];
                    &&& 0 <= place.0 < place.1 <= end
                    &&& nodes[s].blocks[b] == trim(
                        join(all.subrange(place.0, place.1), "\n"@),
                    )
                    &&& forall|i: int|
                        place.0 <= i < place.1 ==> #[trigger] opened_before(all, i) == s
                            && !opens_section(all, i)
                    &&& forall|c: int|
                        0 <= c < b ==> (#[trigger] places[s][c]).1 <= place.0
                }
            &&& forall|i: int|
                0 <= i < end && has_ink(#[trigger] all[i]) && !opens_section(all, i) ==> is_placed(
                    places,
                    opened_before(all, i) as int,
                    i,
                )
        }),
{
    let all = lines(markdown);
    let end = all.len() as int;
    let (first, from) = lemma_lines_are_read(all, end);
    assert(all.take(end) =~= all);
    let state = read_lines(all);
    let places = lemma_flushed(all, end, state, first, from);
    let nodes = section_tree(markdown);
    assert forall|s: int| 0 <= s < nodes.len() implies (#[trigger] places[s]).len()
        == nodes[s].blocks.len() by {
        assert(has_blocks(all, s, nodes[s].blocks, places[s], end));
    }
    assert forall|s: int, b: int| 0 <= s < nodes.len() && 0 <= b < places[s].len() implies {
        let place = #[trigger] places[s][b];
        &&& 0 <= place.0 < place.1 <= end
        &&& nodes[s].blocks[b] == trim(join(all.subrange(place.0, place.1), "\n"@))
        &&& forall|i: int|
            place.0 <= i < place.1 ==> #[trigger] opened_before(all, i) == s && !opens_section(
                all,
                i,
            )
        &&& forall|c: int| 0 <= c < b ==> (#[trigger] places[s][c]).1 <= place.0
    } by {
        assert(has_blocks(all, s, nodes[s].blocks, places[s], end));
        let place = places[s][b];
        assert(are_of(all, s, place.0, place.1));
    }
    places
}

} // verus!
