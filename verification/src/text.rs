//! Text as sequences of characters: prefix tests, trimming of leading white
//! space, splitting into lines and joining lines again.

use vstd::prelude::*;
use vstd::std_specs::iter::IteratorSpec;
use vstd::string::StrSliceExecFns;
use vstd::string::StringExecFns;

verus! {

/// `token` is an initial segment of `line`.
pub open spec fn starts_with(line: Seq<char>, token: Seq<char>) -> bool {
    token.len() <= line.len() && line.subrange(0, token.len() as int) == token
}

/// `c` is white space, as Unicode lists it.
pub open spec fn is_white_space(c: char) -> bool {
    let code = c as u32;
    ||| 0x09 <= code <= 0x0d
    ||| code == 0x20
    ||| code == 0x85
    ||| code == 0xa0
    ||| code == 0x1680
    ||| 0x2000 <= code <= 0x200a
    ||| code == 0x2028
    ||| code == 0x2029
    ||| code == 0x202f
    ||| code == 0x205f
    ||| code == 0x3000
}

/// How many characters of white space `line` begins with.
pub open spec fn indent(line: Seq<char>) -> int
    decreases line.len(),
{
    if line.len() == 0 || !is_white_space(line[0]) {
        0
    } else {
        1 + indent(line.drop_first())
    }
}

/// `line` without the white space that it begins with.
pub open spec fn trimmed_start(line: Seq<char>) -> Seq<char> {
    line.subrange(indent(line), line.len() as int)
}

/// No position of `text` holds a line feed.
pub open spec fn single_line(text: Seq<char>) -> bool {
    forall|i: int| 0 <= i < text.len() ==> text[i] != '\n'
}

/// Position of the first line feed of `text`, or its length where it has none.
pub open spec fn line_end(text: Seq<char>) -> int
    decreases text.len(),
{
    if text.len() == 0 || text[0] == '\n' {
        0
    } else {
        1 + line_end(text.drop_first())
    }
}

/// `line` without one trailing carriage return.
pub open spec fn without_cr(line: Seq<char>) -> Seq<char> {
    if line.len() > 0 && line.last() == '\r' {
        line.drop_last()
    } else {
        line
    }
}

/// The lines of `text`. A line ends at a line feed, or at a carriage return
/// directly followed by a line feed; neither belongs to the line. The last
/// line needs no ending, and an ending at the very end of the text opens no
/// further line.
pub open spec fn lines_of(text: Seq<char>) -> Seq<Seq<char>>
    decreases text.len(),
    via lines_of_decreases
{
    if text.len() == 0 {
        Seq::empty()
    } else {
        let end = line_end(text);
        if end == text.len() {
            seq![text]
        } else {
            seq![without_cr(text.subrange(0, end))] + lines_of(
                text.subrange(end + 1, text.len() as int),
            )
        }
    }
}

#[via_fn]
proof fn lines_of_decreases(text: Seq<char>) {
    lemma_line_end_bounds(text);
}

/// `lines` with one line feed between each two neighbours.
pub open spec fn joined(lines: Seq<Seq<char>>) -> Seq<char>
    decreases lines.len(),
{
    if lines.len() == 0 {
        Seq::empty()
    } else if lines.len() == 1 {
        lines[0]
    } else {
        lines[0] + seq!['\n'] + joined(lines.drop_first())
    }
}

/// What reading `lines` back from their joined text gives: every line but
/// the last has lost one trailing carriage return, and a last line that is
/// empty is gone.
pub open spec fn reread(lines: Seq<Seq<char>>) -> Seq<Seq<char>> {
    let kept = if lines.len() > 0 && lines.last().len() == 0 {
        lines.len() - 1
    } else {
        lines.len() as int
    };
    Seq::new(
        kept as nat,
        |i: int|
            if i + 1 < lines.len() {
                without_cr(lines[i])
            } else {
                lines[i]
            },
    )
}

/// The indent lies inside the line, covers white space only and ends
/// before the first character that is none.
pub proof fn lemma_indent_bounds(line: Seq<char>)
    ensures
        0 <= indent(line) <= line.len(),
        indent(line) < line.len() ==> !is_white_space(line[indent(line)]),
        forall|i: int| 0 <= i < indent(line) ==> is_white_space(#[trigger] line[i]),
    decreases line.len(),
{
    if line.len() == 0 || !is_white_space(line[0]) {
    } else {
        let rest = line.drop_first();
        lemma_indent_bounds(rest);
        assert forall|i: int| 0 <= i < indent(line) implies is_white_space(#[trigger] line[i]) by {
            if i > 0 {
                assert(line[i] == rest[i - 1]);
            }
        }
    }
}

/// White space up to the first character that is none is the indent.
pub proof fn lemma_indent_is(line: Seq<char>, width: int)
    requires
        0 <= width <= line.len(),
        forall|i: int| 0 <= i < width ==> is_white_space(#[trigger] line[i]),
        width < line.len() ==> !is_white_space(line[width]),
    ensures
        indent(line) == width,
    decreases line.len(),
{
    if line.len() == 0 {
    } else if !is_white_space(line[0]) {
    } else {
        let rest = line.drop_first();
        assert forall|i: int| 0 <= i < width - 1 implies is_white_space(#[trigger] rest[i]) by {
            assert(rest[i] == line[i + 1]);
        }
        lemma_indent_is(rest, width - 1);
    }
}

/// The end of the first line lies inside the text, at a line feed unless it
/// is the text's end, and no line feed comes before it.
pub proof fn lemma_line_end_bounds(text: Seq<char>)
    ensures
        0 <= line_end(text) <= text.len(),
        line_end(text) < text.len() ==> text[line_end(text)] == '\n',
        single_line(text.subrange(0, line_end(text))),
    decreases text.len(),
{
    if text.len() == 0 || text[0] == '\n' {
    } else {
        let rest = text.drop_first();
        lemma_line_end_bounds(rest);
        let head = text.subrange(0, line_end(rest) + 1);
        let inner = rest.subrange(0, line_end(rest));
        assert forall|i: int| 0 <= i < head.len() implies head[i] != '\n' by {
            if i > 0 {
                assert(head[i] == inner[i - 1]);
            }
        }
    }
}

/// The first position that holds a line feed is the end of the first line.
pub proof fn lemma_line_end_is(text: Seq<char>, end: int)
    requires
        0 <= end <= text.len(),
        single_line(text.subrange(0, end)),
        end < text.len() ==> text[end] == '\n',
    ensures
        line_end(text) == end,
    decreases text.len(),
{
    if text.len() == 0 {
    } else if text[0] == '\n' {
        if end > 0 {
            assert(text.subrange(0, end)[0] == '\n');
        }
    } else {
        let rest = text.drop_first();
        let head = text.subrange(0, end);
        let inner = rest.subrange(0, end - 1);
        assert forall|i: int| 0 <= i < inner.len() implies inner[i] != '\n' by {
            assert(inner[i] == head[i + 1]);
        }
        lemma_line_end_is(rest, end - 1);
    }
}

/// No line of a text holds a line feed.
pub proof fn lemma_lines_are_single(text: Seq<char>)
    ensures
        forall|i: int| 0 <= i < lines_of(text).len() ==> single_line(#[trigger] lines_of(text)[i]),
    decreases text.len(),
{
    lemma_line_end_bounds(text);
    let end = line_end(text);
    if text.len() == 0 {
    } else if end == text.len() {
        assert(text.subrange(0, end) == text);
    } else {
        let first = text.subrange(0, end);
        let rest = text.subrange(end + 1, text.len() as int);
        lemma_lines_are_single(rest);
        assert forall|i: int| 0 <= i < lines_of(text).len() implies single_line(
            #[trigger] lines_of(text)[i],
        ) by {
            if i == 0 {
                let line = without_cr(first);
                assert forall|k: int| 0 <= k < line.len() implies line[k] != '\n' by {
                    assert(line[k] == first[k]);
                }
            } else {
                assert(lines_of(text)[i] == lines_of(rest)[i - 1]);
            }
        }
    }
}

/// Splitting the joined text of lines that hold no line feed gives the
/// lines back as `reread` describes them.
pub proof fn lemma_lines_of_joined(lines: Seq<Seq<char>>)
    requires
        forall|i: int| 0 <= i < lines.len() ==> single_line(#[trigger] lines[i]),
    ensures
        lines_of(joined(lines)) == reread(lines),
    decreases lines.len(),
{
    if lines.len() == 0 {
        assert(lines_of(joined(lines)) =~= reread(lines));
    } else if lines.len() == 1 {
        let only = lines[0];
        assert(single_line(only));
        if only.len() > 0 {
            assert(only.subrange(0, only.len() as int) == only);
            lemma_line_end_is(only, only.len() as int);
        }
        assert(lines_of(joined(lines)) =~= reread(lines));
    } else {
        let first = lines[0];
        let rest = lines.drop_first();
        let text = joined(lines);
        assert(single_line(first));
        assert(text.subrange(0, first.len() as int) == first);
        lemma_line_end_is(text, first.len() as int);
        assert(text.subrange(first.len() as int + 1, text.len() as int) == joined(rest));
        assert forall|i: int| 0 <= i < rest.len() implies single_line(#[trigger] rest[i]) by {
            assert(rest[i] == lines[i + 1]);
        }
        lemma_lines_of_joined(rest);
        assert(rest.last() == lines.last());
        assert(seq![without_cr(first)] + reread(rest) =~= reread(lines));
    }
}

/// Joining one line more puts a line feed before it, unless it is the first.
pub proof fn lemma_joined_push(lines: Seq<Seq<char>>, line: Seq<char>)
    ensures
        joined(lines.push(line)) == if lines.len() == 0 {
            line
        } else {
            joined(lines) + seq!['\n'] + line
        },
    decreases lines.len(),
{
    let grown = lines.push(line);
    if lines.len() == 0 {
    } else {
        assert(grown.drop_first() == lines.drop_first().push(line));
        lemma_joined_push(lines.drop_first(), line);
        if lines.len() == 1 {
            assert(joined(lines.drop_first()) == Seq::<char>::empty());
        } else {
            assert(lines[0] + seq!['\n'] + (joined(lines.drop_first()) + seq!['\n'] + line)
                == lines[0] + seq!['\n'] + joined(lines.drop_first()) + seq!['\n'] + line);
        }
    }
}

/// Tests whether `c` is white space.
pub fn is_space(c: char) -> (yes: bool)
    ensures
        yes == is_white_space(c),
{
    let code: u32 = c as u32;
    (0x09 <= code && code <= 0x0d) || code == 0x20 || code == 0x85 || code == 0xa0 || code
        == 0x1680 || (0x2000 <= code && code <= 0x200a) || code == 0x2028 || code == 0x2029 || code
        == 0x202f || code == 0x205f || code == 0x3000
}

/// Drops the white space that `line` begins with.
pub fn trim_start(line: &str) -> (rest: &str)
    ensures
        rest@ == trimmed_start(line@),
{
    let total: usize = line.unicode_len();
    let mut chars = line.chars();
    let mut width: usize = 0;
    while width < total
        invariant_except_break
            chars.remaining() == line@.subrange(width as int, total as int),
        invariant
            total == line@.len(),
            width <= total,
            forall|i: int| 0 <= i < width ==> is_white_space(#[trigger] line@[i]),
        ensures
            width <= total,
            forall|i: int| 0 <= i < width ==> is_white_space(#[trigger] line@[i]),
            width < total ==> !is_white_space(line@[width as int]),
        decreases total - width,
    {
        match chars.next() {
            None => {
                // not reached: characters are left while `width < total`
                break ;
            },
            Some(c) => {
                assert(c == line@[width as int]);
                assert(chars.remaining() =~= line@.subrange(width + 1, total as int));
                if !is_space(c) {
                    break ;
                }
                width = width + 1;
            },
        }
    }
    proof {
        lemma_indent_is(line@, width as int);
    }
    line.substring_char(width, total)
}

/// Tests whether `line` begins with `token`, character by character.
pub fn has_prefix(line: &str, token: &str) -> (found: bool)
    ensures
        found == starts_with(line@, token@),
{
    let mut rest = line.chars();
    let mut want = token.chars();
    let ghost mut n: int = 0;
    loop
        invariant
            0 <= n <= line@.len(),
            n <= token@.len(),
            rest.remaining() == line@.subrange(n, line@.len() as int),
            want.remaining() == token@.subrange(n, token@.len() as int),
            line@.subrange(0, n) == token@.subrange(0, n),
        decreases token@.len() - n,
    {
        match want.next() {
            None => {
                assert(token@.subrange(0, n) == token@);
                return true;
            },
            Some(w) => {
                match rest.next() {
                    None => {
                        return false;
                    },
                    Some(c) => {
                        if c != w {
                            assert(!starts_with(line@, token@)) by {
                                if starts_with(line@, token@) {
                                    assert(line@.subrange(0, token@.len() as int)[n] == token@[n]);
                                }
                            }
                            return false;
                        }
                        assert(line@.subrange(0, n + 1) == token@.subrange(0, n + 1)) by {
                            assert(line@.subrange(0, n + 1) =~= line@.subrange(0, n).push(c));
                            assert(token@.subrange(0, n + 1) =~= token@.subrange(0, n).push(w));
                        }
                        assert(rest.remaining() =~= line@.subrange(n + 1, line@.len() as int));
                        assert(want.remaining() =~= token@.subrange(n + 1, token@.len() as int));
                    },
                }
            },
        }
        proof {
            n = n + 1;
        }
    }
}

/// Splits `text` into its lines, each borrowed from `text`. Every line is
/// cut out by a walk from the start of the text, so the time taken grows
/// with the length of the text times the number of its lines.
pub fn split_lines(text: &str) -> (lines: Vec<&str>)
    ensures
        lines.deep_view() == lines_of(text@),
{
    let total: usize = text.unicode_len();
    let mut lines: Vec<&str> = Vec::new();
    let mut chars = text.chars();
    let mut start: usize = 0;
    let mut at: usize = 0;
    let mut after_cr: bool = false;
    assert(text@.subrange(0, total as int) == text@);
    assert(lines.deep_view() + lines_of(text@) == lines_of(text@));
    while at < total
        invariant
            total == text@.len(),
            start <= at <= total,
            chars.remaining() == text@.subrange(at as int, total as int),
            single_line(text@.subrange(start as int, at as int)),
            after_cr == (start < at && text@[at - 1] == '\r'),
            lines_of(text@) == lines.deep_view() + lines_of(
                text@.subrange(start as int, total as int),
            ),
        decreases total - at,
    {
        let ghost tail = text@.subrange(start as int, total as int);
        let ghost done = lines.deep_view();
        match chars.next() {
            None => {
                // not reached: characters are left while `at < total`
                return lines;
            },
            Some(c) => {
                assert(c == text@[at as int]);
                assert(chars.remaining() =~= text@.subrange(at + 1, total as int));
                if c == '\n' {
                    let end: usize = if after_cr {
                        at - 1
                    } else {
                        at
                    };
                    let line = text.substring_char(start, end);
                    proof {
                        let len = at - start;
                        assert(tail.subrange(0, len) == text@.subrange(start as int, at as int));
                        lemma_line_end_is(tail, len);
                        assert(without_cr(tail.subrange(0, len)) == line@);
                        assert(tail.subrange(len + 1, tail.len() as int) == text@.subrange(
                            at + 1,
                            total as int,
                        ));
                    }
                    lines.push(line);
                    proof {
                        assert(lines.deep_view() == done.push(line@));
                        assert(done + (seq![line@] + lines_of(
                            text@.subrange(at + 1, total as int),
                        )) == done.push(line@) + lines_of(text@.subrange(at + 1, total as int)));
                    }
                    start = at + 1;
                    after_cr = false;
                    assert(text@.subrange(start as int, start as int) == Seq::<char>::empty());
                } else {
                    after_cr = c == '\r';
                    proof {
                        let seen = text@.subrange(start as int, at as int);
                        let grown = text@.subrange(start as int, at + 1);
                        assert forall|i: int| 0 <= i < grown.len() implies grown[i] != '\n' by {
                            if i < seen.len() {
                                assert(grown[i] == seen[i]);
                            }
                        }
                    }
                }
                at = at + 1;
            },
        }
    }
    if start < total {
        let line = text.substring_char(start, total);
        proof {
            lemma_line_end_is(line@, line@.len() as int);
            assert(lines.deep_view().push(line@) == lines.deep_view() + seq![line@]);
        }
        let ghost done = lines.deep_view();
        lines.push(line);
        assert(lines.deep_view() == done.push(line@));
    } else {
        assert(lines.deep_view() + Seq::<Seq<char>>::empty() == lines.deep_view());
    }
    lines
}

/// Joins `lines` into one text, with a line feed between each two lines and
/// none after the last.
pub fn join_lines(lines: &[&str]) -> (text: String)
    ensures
        text@ == joined(lines.deep_view()),
{
    let mut text = String::new();
    let mut at: usize = 0;
    while at < lines.len()
        invariant
            at <= lines.len(),
            text@ == joined(lines.deep_view().take(at as int)),
        decreases lines.len() - at,
    {
        proof {
            let all = lines.deep_view();
            assert(all.take(at + 1) == all.take(at as int).push(lines[at as int]@));
            lemma_joined_push(all.take(at as int), lines[at as int]@);
            reveal_strlit("\n");
            assert("\n"@ == seq!['\n']);
        }
        if at > 0 {
            text.append("\n");
        }
        text.append(lines[at]);
        at = at + 1;
    }
    assert(lines.deep_view().take(at as int) == lines.deep_view());
    text
}

} // verus!
