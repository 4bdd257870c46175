//! Finding the `routes!` block in the lines of a routing file.

use crate::text::{
    has_prefix, indent, is_white_space, lemma_indent_bounds, lemma_indent_is, reread,
    starts_with, trim_start, trimmed_start, without_cr,
};
use vstd::prelude::*;
use vstd::string::StringExecFns;

verus! {

/// Why a routing file cannot be edited.
#[derive(Clone, Copy, Debug, PartialEq, Eq, Structural)]
pub enum EditError {
    /// The lines hold no `routes!` line that a later line closes.
    MissingBlock,
}

impl EditError {
    /// The diagnostic shown to the user.
    pub fn message(&self) -> (text: String)
        ensures
            text@ == "No routes macro in routing.rs"@,
    {
        String::from_str("No routes macro in routing.rs")
    }
}

/// `line` opens the block: after the white space that it may begin with
/// comes `routes!`.
pub open spec fn opens_block(line: Seq<char>) -> bool {
    starts_with(trimmed_start(line), "routes!"@)
}

/// `line` closes a block: it begins with `}`, in its first column. The
/// closing lines of the entries in the body are indented, and so close
/// nothing.
pub open spec fn closes_block(line: Seq<char>) -> bool {
    starts_with(line, "}"@)
}

/// `open` is the first line that opens the block, and `close` the first
/// line after it that closes one. The block's body lies between the two.
pub open spec fn is_block_range(lines: Seq<Seq<char>>, open: int, close: int) -> bool {
    &&& 0 <= open < close < lines.len()
    &&& opens_block(lines[open])
    &&& forall|i: int| 0 <= i < open ==> !opens_block(#[trigger] lines[i])
    &&& closes_block(lines[close])
    &&& forall|i: int| open < i < close ==> !closes_block(#[trigger] lines[i])
}

/// The lines hold a block.
pub open spec fn has_block(lines: Seq<Seq<char>>) -> bool {
    exists|open: int, close: int| is_block_range(lines, open, close)
}

/// The block of `lines`, as the positions of its opening and closing line.
pub open spec fn block_range(lines: Seq<Seq<char>>) -> Option<(int, int)> {
    if has_block(lines) {
        Some(choose|range: (int, int)| is_block_range(lines, range.0, range.1))
    } else {
        None
    }
}

/// Lines hold at most one block range.
pub proof fn lemma_block_range_unique(
    lines: Seq<Seq<char>>,
    open: int,
    close: int,
    other_open: int,
    other_close: int,
)
    requires
        is_block_range(lines, open, close),
        is_block_range(lines, other_open, other_close),
    ensures
        open == other_open,
        close == other_close,
{
    if open < other_open {
        assert(!opens_block(lines[open]));
    }
    if other_open < open {
        assert(!opens_block(lines[other_open]));
    }
    if close < other_close {
        assert(!closes_block(lines[close]));
    }
    if other_close < close {
        assert(!closes_block(lines[other_close]));
    }
}

/// A block range of `lines` is the block of `lines`.
pub proof fn lemma_block_range_is(lines: Seq<Seq<char>>, open: int, close: int)
    requires
        is_block_range(lines, open, close),
    ensures
        block_range(lines) == Some((open, close)),
{
    let witness = (open, close);
    assert(is_block_range(lines, witness.0, witness.1));
    let range = choose|range: (int, int)| is_block_range(lines, range.0, range.1);
    lemma_block_range_unique(lines, open, close, range.0, range.1);
}

/// Lines of which none opens the block hold no block.
pub proof fn lemma_unopened_has_no_block(lines: Seq<Seq<char>>)
    requires
        forall|i: int| 0 <= i < lines.len() ==> !opens_block(#[trigger] lines[i]),
    ensures
        block_range(lines) is None,
{
    if has_block(lines) {
        let (open, close) = choose|open: int, close: int| is_block_range(lines, open, close);
        assert(!opens_block(lines[open]));
    }
}

/// A trailing carriage return decides nothing about how a line begins,
/// where the token looked for holds none.
pub proof fn lemma_prefix_without_cr(line: Seq<char>, token: Seq<char>)
    requires
        forall|k: int| 0 <= k < token.len() ==> token[k] != '\r',
    ensures
        starts_with(without_cr(line), token) == starts_with(line, token),
{
    let cut = without_cr(line);
    let n = token.len() as int;
    if cut != line {
        if starts_with(line, token) {
            if n == line.len() {
                assert(line.subrange(0, n)[n - 1] == line.last());
            }
            assert(cut.subrange(0, n) =~= line.subrange(0, n));
        }
        if starts_with(cut, token) {
            assert(line.subrange(0, n) =~= cut.subrange(0, n));
        }
    }
}

/// Whether a line opens or closes the block does not depend on a trailing
/// carriage return.
pub proof fn lemma_marks_without_cr(line: Seq<char>)
    ensures
        opens_block(without_cr(line)) == opens_block(line),
        closes_block(without_cr(line)) == closes_block(line),
{
    reveal_strlit("routes!");
    reveal_strlit("}");
    lemma_prefix_without_cr(line, "}"@);
    let cut = without_cr(line);
    if cut != line {
        let width = indent(line);
        lemma_indent_bounds(line);
        if width == line.len() {
            assert forall|i: int| 0 <= i < cut.len() implies is_white_space(#[trigger] cut[i]) by {
                assert(cut[i] == line[i]);
            }
            lemma_indent_is(cut, cut.len() as int);
            assert(trimmed_start(cut) =~= trimmed_start(line));
        } else {
            assert(width < line.len() - 1) by {
                if width == line.len() - 1 {
                    assert(line[width] == '\r');
                }
            }
            assert forall|i: int| 0 <= i < width implies is_white_space(#[trigger] cut[i]) by {
                assert(cut[i] == line[i]);
            }
            assert(cut[width] == line[width]);
            lemma_indent_is(cut, width);
            assert(trimmed_start(line).last() == '\r');
            assert(trimmed_start(cut) =~= without_cr(trimmed_start(line)));
            lemma_prefix_without_cr(trimmed_start(line), "routes!"@);
        }
    }
}

/// The block of lines is still their block when the lines are read back
/// from their joined text.
pub proof fn lemma_reread_keeps_block(lines: Seq<Seq<char>>, open: int, close: int)
    requires
        is_block_range(lines, open, close),
    ensures
        is_block_range(reread(lines), open, close),
{
    let back = reread(lines);
    reveal_strlit("}");
    assert(lines[close].len() > 0);
    assert(close < back.len());
    assert forall|i: int| 0 <= i < back.len() implies opens_block(#[trigger] back[i])
        == opens_block(lines[i]) && closes_block(back[i]) == closes_block(lines[i]) by {
        lemma_marks_without_cr(lines[i]);
    }
}

/// Finds the block: the first line that begins with `routes!`, after white
/// space or none, and the first line after it that begins with `}`.
pub fn get_pos(lines: &[&str]) -> (found: Result<(usize, usize), EditError>)
    ensures
        match found {
            Ok((open, close)) => {
                &&& is_block_range(lines.deep_view(), open as int, close as int)
                &&& block_range(lines.deep_view()) == Some((open as int, close as int))
            },
            Err(e) => e == EditError::MissingBlock && block_range(lines.deep_view()) is None,
        },
{
    let ghost all = lines.deep_view();
    let mut routes: usize = 0;
    let mut ctr: usize = 0;
    let mut in_routes: bool = false;
    while ctr < lines.len()
        invariant
            ctr <= lines.len(),
            all == lines.deep_view(),
            !in_routes ==> forall|i: int| 0 <= i < ctr ==> !opens_block(#[trigger] all[i]),
            in_routes ==> {
                &&& routes < ctr
                &&& opens_block(all[routes as int])
                &&& forall|i: int| 0 <= i < routes ==> !opens_block(#[trigger] all[i])
                &&& forall|i: int| routes < i < ctr ==> !closes_block(#[trigger] all[i])
            },
        decreases lines.len() - ctr,
    {
        let line: &str = lines[ctr];
        assert(all[ctr as int] == line@);
        if in_routes {
            if has_prefix(line, "}") {
                proof {
                    lemma_block_range_is(all, routes as int, ctr as int);
                }
                return Ok((routes, ctr));
            }
        } else if has_prefix(trim_start(line), "routes!") {
            in_routes = true;
            routes = ctr;
        }
        ctr = ctr + 1;
    }
    proof {
        if has_block(all) {
            let (open, close) = choose|open: int, close: int| is_block_range(all, open, close);
            if in_routes {
                if open < routes {
                    assert(!opens_block(all[open]));
                }
                if routes < open {
                    assert(!opens_block(all[routes as int]));
                }
                assert(!closes_block(all[close]));
            } else {
                assert(!opens_block(all[open]));
            }
        }
    }
    Err(EditError::MissingBlock)
}

} // verus!
