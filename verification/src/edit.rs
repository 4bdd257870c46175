//! Placing a new entry in the block of a routing file.

use crate::locate::{
    block_range, closes_block, get_pos, is_block_range, lemma_block_range_is,
    lemma_reread_keeps_block, lemma_unopened_has_no_block, opens_block, EditError,
};
use crate::template::{entry_close_text, entry_open, entry_open_text};
use crate::text::{
    join_lines, joined, lemma_lines_are_single, lemma_lines_of_joined, lines_of, reread,
    single_line, split_lines, without_cr,
};
use vstd::prelude::*;

verus! {

/// The lines that an entry adds. In a block whose body is empty they are the
/// entry's two lines; elsewhere an empty line comes first.
pub open spec fn entry_lines(open: int, close: int, header: Seq<char>) -> Seq<Seq<char>> {
    if open + 1 == close {
        seq![header, entry_close_text()]
    } else {
        seq![Seq::<char>::empty(), header, entry_close_text()]
    }
}

/// `lines` with the entry that `header` begins placed directly before line
/// `close`, at the end of the block's body.
pub open spec fn with_entry(lines: Seq<Seq<char>>, open: int, close: int, header: Seq<char>) -> Seq<
    Seq<char>,
> {
    lines.subrange(0, close) + entry_lines(open, close, header) + lines.subrange(
        close,
        lines.len() as int,
    )
}

/// The routing text `routing` with an entry for resource `name` as the last
/// of its block, or nothing where the text has no block.
pub open spec fn routed(routing: Seq<char>, name: Seq<char>) -> Option<Seq<char>> {
    let lines = lines_of(routing);
    match block_range(lines) {
        Some((open, close)) => Some(joined(with_entry(lines, open, close, entry_open_text(name)))),
        None => None,
    }
}

/// `line` can stand in a block's body and is read back as it is: it closes
/// no block and ends in no carriage return.
pub open spec fn is_body_line(line: Seq<char>) -> bool {
    &&& !closes_block(line)
    &&& without_cr(line) == line
}

/// An entry placed in a block whose body is empty directly follows the
/// block's opening line, with no empty line between the two; every line
/// that was there stays, in its order.
pub proof fn lemma_entry_in_empty_block(
    lines: Seq<Seq<char>>,
    open: int,
    close: int,
    header: Seq<char>,
)
    requires
        0 <= open,
        open + 1 == close,
        close <= lines.len(),
    ensures
        ({
            let edited = with_entry(lines, open, close, header);
            &&& edited.len() == lines.len() + 2
            &&& edited.subrange(0, close) == lines.subrange(0, close)
            &&& edited[open + 1] == header
            &&& edited[open + 2] == entry_close_text()
            &&& edited.subrange(close + 2, edited.len() as int) == lines.subrange(
                close,
                lines.len() as int,
            )
        }),
{
    let edited = with_entry(lines, open, close, header);
    assert(edited.subrange(0, close) =~= lines.subrange(0, close));
    assert(edited.subrange(close + 2, edited.len() as int) =~= lines.subrange(
        close,
        lines.len() as int,
    ));
}

/// An entry placed in a block whose body is not empty follows exactly one
/// empty line, at the end of the body; every line that was there stays, in
/// its order.
pub proof fn lemma_entry_in_filled_block(
    lines: Seq<Seq<char>>,
    open: int,
    close: int,
    header: Seq<char>,
)
    requires
        0 <= open,
        open + 1 < close,
        close <= lines.len(),
    ensures
        ({
            let edited = with_entry(lines, open, close, header);
            &&& edited.len() == lines.len() + 3
            &&& edited.subrange(0, close) == lines.subrange(0, close)
            &&& edited[close] == Seq::<char>::empty()
            &&& edited[close + 1] == header
            &&& edited[close + 2] == entry_close_text()
            &&& edited.subrange(close + 3, edited.len() as int) == lines.subrange(
                close,
                lines.len() as int,
            )
        }),
{
    let edited = with_entry(lines, open, close, header);
    assert(edited.subrange(0, close) =~= lines.subrange(0, close));
    assert(edited.subrange(close + 3, edited.len() as int) =~= lines.subrange(
        close,
        lines.len() as int,
    ));
}

/// Whatever the resource is called, the lines that its entry adds are body
/// lines; and they hold no line feed where the name holds none.
pub proof fn lemma_entry_lines_are_body(open: int, close: int, name: Seq<char>)
    ensures
        forall|i: int|
            0 <= i < entry_lines(open, close, entry_open_text(name)).len() ==> {
                let line = #[trigger] entry_lines(open, close, entry_open_text(name))[i];
                is_body_line(line) && (single_line(name) ==> single_line(line))
            },
{
    reveal_strlit("}");
    reveal_strlit("    resource ");
    reveal_strlit(" {");
    reveal_strlit("    }");
    let header = entry_open_text(name);
    let footer = entry_close_text();
    let blank = Seq::<char>::empty();
    assert(header[0] == ' ');
    assert(header.last() == '{');
    assert(footer[0] == ' ');
    assert(footer.last() == '}');
    assert(is_body_line(header)) by {
        if closes_block(header) {
            assert(header.subrange(0, 1)[0] == '}');
        }
    }
    assert(is_body_line(footer)) by {
        if closes_block(footer) {
            assert(footer.subrange(0, 1)[0] == '}');
        }
    }
    assert(is_body_line(blank));
    assert(single_line(footer));
    assert(single_line(blank));
    if single_line(name) {
        assert forall|k: int| 0 <= k < header.len() implies header[k] != '\n' by {
            if 13 <= k < 13 + name.len() {
                assert(header[k] == name[k - 13]);
            }
        }
    }
}

/// Placing an entry moves the block's closing line down by the lines added
/// and leaves the block otherwise where it was.
pub proof fn lemma_with_entry_range(lines: Seq<Seq<char>>, open: int, close: int, name: Seq<char>)
    requires
        is_block_range(lines, open, close),
    ensures
        is_block_range(
            with_entry(lines, open, close, entry_open_text(name)),
            open,
            close + entry_lines(open, close, entry_open_text(name)).len(),
        ),
{
    let added = entry_lines(open, close, entry_open_text(name));
    let edited = with_entry(lines, open, close, entry_open_text(name));
    lemma_entry_lines_are_body(open, close, name);
    assert forall|i: int| 0 <= i < edited.len() implies #[trigger] edited[i] == (if i < close {
        lines[i]
    } else if i < close + added.len() {
        added[i - close]
    } else {
        lines[i - added.len()]
    }) by {}
    assert forall|i: int| open < i < close + added.len() implies !closes_block(
        #[trigger] edited[i],
    ) by {
        if i >= close {
            assert(is_body_line(added[i - close]));
        }
    }
}

/// A routing text of whose lines none opens the block is refused.
pub proof fn lemma_unopened_is_refused(routing: Seq<char>, name: Seq<char>)
    requires
        forall|i: int|
            0 <= i < lines_of(routing).len() ==> !opens_block(#[trigger] lines_of(routing)[i]),
    ensures
        routed(routing, name) is None,
{
    lemma_unopened_has_no_block(lines_of(routing));
}

/// Reading the edited text back finds the block where it was, with its
/// closing line moved down by the lines that the entry added: two in a
/// block whose body was empty, three elsewhere. The resource's name must
/// hold no line feed.
pub proof fn lemma_routed_block(routing: Seq<char>, name: Seq<char>, open: int, close: int)
    requires
        is_block_range(lines_of(routing), open, close),
        single_line(name),
    ensures
        routed(routing, name) is Some,
        is_block_range(
            lines_of(routed(routing, name)->0),
            open,
            close + if open + 1 == close {
                2int
            } else {
                3int
            },
        ),
        block_range(lines_of(routed(routing, name)->0)) == Some(
            (
                open,
                close + if open + 1 == close {
                    2int
                } else {
                    3int
                },
            ),
        ),
        lines_of(routed(routing, name)->0) == reread(
            with_entry(lines_of(routing), open, close, entry_open_text(name)),
        ),
{
    let lines = lines_of(routing);
    let header = entry_open_text(name);
    let added = entry_lines(open, close, header);
    let edited = with_entry(lines, open, close, header);
    lemma_block_range_is(lines, open, close);
    lemma_lines_are_single(routing);
    lemma_entry_lines_are_body(open, close, name);
    assert forall|i: int| 0 <= i < edited.len() implies single_line(#[trigger] edited[i]) by {
        if i < close {
            assert(edited[i] == lines[i]);
        } else if i < close + added.len() {
            assert(edited[i] == added[i - close]);
        } else {
            assert(edited[i] == lines[i - added.len()]);
        }
    }
    lemma_lines_of_joined(edited);
    lemma_with_entry_range(lines, open, close, name);
    lemma_reread_keeps_block(edited, open, close + added.len());
    lemma_block_range_is(reread(edited), open, close + added.len());
}

/// Places an entry at the end of the body of the block that `open` and
/// `close` delimit: `header` and the entry's closing line, after an empty
/// line unless the body was empty.
pub fn insert_entry<'a>(lines: &mut Vec<&'a str>, open: usize, close: usize, header: &'a str)
    requires
        open < close <= old(lines).len(),
    ensures
        final(lines).deep_view() == with_entry(
            old(lines).deep_view(),
            open as int,
            close as int,
            header@,
        ),
{
    proof {
        reveal_strlit("");
    }
    let ghost before = lines.deep_view();
    let ghost was = lines@;
    if open + 1 == close {
        lines.insert(close, header);
        assert(close < lines.len());
        lines.insert(close + 1, "    }");
    } else {
        lines.insert(close, "");
        assert(close < lines.len());
        lines.insert(close + 1, header);
        assert(close + 1 < lines.len());
        lines.insert(close + 2, "    }");
    }
    proof {
        let now = lines.deep_view();
        let added = entry_lines(open as int, close as int, header@);
        let goal = with_entry(before, open as int, close as int, header@);
        assert(now.len() == goal.len());
        assert forall|i: int| 0 <= i < now.len() implies now[i] == goal[i] by {
            if i < close {
                assert(lines@[i] == was[i]);
                assert(goal[i] == before[i]);
            } else if i < close + added.len() {
                assert(goal[i] == added[i - close]);
            } else {
                assert(lines@[i] == was[i - added.len()]);
                assert(goal[i] == before[i - added.len()]);
            }
        }
        assert(now =~= goal);
    }
}

/// Adds an entry for resource `name` to the routing text `routing`: splits
/// the text into lines, finds the block, places the entry and joins the
/// lines again. A text without a block is refused.
pub fn add_route(routing: &str, name: &str) -> (edited: Result<String, EditError>)
    ensures
        match edited {
            Ok(text) => routed(routing@, name@) == Some(text@),
            Err(e) => e == EditError::MissingBlock && routed(routing@, name@) is None,
        },
{
    let header = entry_open(name);
    let mut lines = split_lines(routing);
    match get_pos(lines.as_slice()) {
        Ok((open, close)) => {
            insert_entry(&mut lines, open, close, header.as_str());
            Ok(join_lines(lines.as_slice()))
        },
        Err(e) => Err(e),
    }
}

} // verus!
