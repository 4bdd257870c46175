//! Adding several entries to one routing file, one after another.

use crate::edit::{
    entry_lines, is_body_line, lemma_entry_lines_are_body, lemma_routed_block, routed, with_entry,
};
use crate::locate::is_block_range;
use crate::template::{entry_close_text, entry_open_text};
use crate::text::{lines_of, reread, single_line, without_cr};
use vstd::prelude::*;

verus! {

/// The routing text after an entry was added for each of `names`, in their
/// order, each to the text that the one before left; nothing where one of
/// the texts has no block.
pub open spec fn routed_all(routing: Seq<char>, names: Seq<Seq<char>>) -> Option<Seq<char>>
    decreases names.len(),
{
    if names.len() == 0 {
        Some(routing)
    } else {
        match routed(routing, names[0]) {
            Some(next) => routed_all(next, names.drop_first()),
            None => None,
        }
    }
}

/// The lines that entries for `names` add to the block between `open` and
/// `close`, in the order of `names`: the entries' lines, with one empty
/// line before each entry that does not start the body.
pub open spec fn entries(open: int, close: int, names: Seq<Seq<char>>) -> Seq<Seq<char>>
    decreases names.len(),
{
    if names.len() == 0 {
        Seq::empty()
    } else {
        let first = entry_lines(open, close, entry_open_text(names[0]));
        first + entries(open, close + first.len(), names.drop_first())
    }
}

/// Where among `entries` the entry of the name at `index` begins.
pub open spec fn entry_start(open: int, close: int, index: int) -> int {
    if open + 1 == close {
        3 * index
    } else {
        3 * index + 1
    }
}

/// How `entries` is laid out: three lines for each name, but two for the
/// first in a body that was empty; each entry is its opening line and its
/// closing line, and an empty line stands before each but one that starts
/// the body.
pub proof fn lemma_entries_layout(open: int, close: int, names: Seq<Seq<char>>)
    requires
        open < close,
    ensures
        entries(open, close, names).len() == if names.len() == 0 {
            0
        } else {
            entry_start(open, close, names.len() as int) - 1
        },
        forall|k: int|
            0 <= k < names.len() ==> {
                let at = #[trigger] entry_start(open, close, k);
                let all = entries(open, close, names);
                &&& 0 <= at
                &&& at + 1 < all.len()
                &&& all[at] == entry_open_text(names[k])
                &&& all[at + 1] == entry_close_text()
                &&& at > 0 ==> all[at - 1] == Seq::<char>::empty()
            },
    decreases names.len(),
{
    if names.len() > 0 {
        let first = entry_lines(open, close, entry_open_text(names[0]));
        let rest = names.drop_first();
        let later = entries(open, close + first.len(), rest);
        let all = entries(open, close, names);
        lemma_entries_layout(open, close + first.len(), rest);
        assert forall|k: int| 0 <= k < names.len() implies {
            let at = #[trigger] entry_start(open, close, k);
            &&& 0 <= at
            &&& at + 1 < all.len()
            &&& all[at] == entry_open_text(names[k])
            &&& all[at + 1] == entry_close_text()
            &&& at > 0 ==> all[at - 1] == Seq::<char>::empty()
        } by {
            let at = entry_start(open, close, k);
            if k > 0 {
                let inner = entry_start(open, close + first.len(), k - 1);
                assert(at == first.len() + inner);
                assert(rest[k - 1] == names[k]);
                assert(all[at] == later[inner]);
                assert(all[at + 1] == later[inner + 1]);
                assert(all[at - 1] == later[inner - 1]);
            }
        }
    }
}

/// Entries added one after another to the same routing file all stand in
/// its block afterwards, after the lines that the body held, in the order
/// in which they were added, one empty line between each two, none missing
/// and none twice. The block's closing line has moved down by the lines
/// added. Each line above it that ended in no carriage return reads as
/// before, and so does, further down by the lines added, each line from it
/// on that was not empty and ended in no carriage return. The names must
/// hold no line feed.
pub proof fn lemma_routed_all(routing: Seq<char>, names: Seq<Seq<char>>, open: int, close: int)
    requires
        is_block_range(lines_of(routing), open, close),
        forall|k: int| 0 <= k < names.len() ==> single_line(#[trigger] names[k]),
    ensures
        routed_all(routing, names) is Some,
        ({
            let before = lines_of(routing);
            let after = lines_of(routed_all(routing, names)->0);
            let added = entries(open, close, names);
            &&& is_block_range(after, open, close + added.len())
            &&& after.subrange(close, close + added.len()) == added
            &&& forall|i: int|
                0 <= i < close && without_cr(#[trigger] before[i]) == before[i] ==> after[i]
                    == before[i]
            &&& forall|i: int|
                close <= i < before.len() && (#[trigger] before[i]).len() > 0 && without_cr(
                    before[i],
                ) == before[i] ==> i + added.len() < after.len() && after[i + added.len()]
                    == before[i]
        }),
    decreases names.len(),
{
    let before = lines_of(routing);
    if names.len() == 0 {
        assert(before.subrange(close, close) =~= entries(open, close, names));
    } else {
        let name = names[0];
        let rest = names.drop_first();
        let first = entry_lines(open, close, entry_open_text(name));
        let edited = with_entry(before, open, close, entry_open_text(name));
        let moved = close + first.len();
        lemma_routed_block(routing, name, open, close);
        lemma_entry_lines_are_body(open, close, name);
        let next = routed(routing, name)->0;
        let between = lines_of(next);
        assert(between == reread(edited));
        assert forall|k: int| 0 <= k < rest.len() implies single_line(#[trigger] rest[k]) by {
            assert(rest[k] == names[k + 1]);
        }
        lemma_routed_all(next, rest, open, moved);
        let after = lines_of(routed_all(routing, names)->0);
        let later = entries(open, moved, rest);
        let added = entries(open, close, names);
        assert(added == first + later);
        assert forall|i: int| 0 <= i < moved implies #[trigger] between[i] == without_cr(
            edited[i],
        ) by {}
        assert forall|i: int| 0 <= i < close && without_cr(#[trigger] before[i])
            == before[i] implies after[i] == before[i] by {
            assert(edited[i] == before[i]);
            assert(between[i] == before[i]);
        }
        assert forall|i: int|
            close <= i < before.len() && (#[trigger] before[i]).len() > 0 && without_cr(before[i])
                == before[i] implies i + added.len() < after.len() && after[i + added.len()]
            == before[i] by {
            let at = i + first.len();
            assert(edited[at] == before[i]);
            assert(at < between.len());
            assert(between[at] == before[i]);
            assert(between[at].len() > 0 && without_cr(between[at]) == between[at]);
        }
        assert forall|j: int| 0 <= j < added.len() implies after.subrange(
            close,
            close + added.len(),
        )[j] == added[j] by {
            if j < first.len() {
                assert(edited[close + j] == first[j]);
                assert(is_body_line(first[j]));
                assert(between[close + j] == first[j]);
            } else {
                assert(after.subrange(moved, moved + later.len())[j - first.len()] == later[j
                    - first.len()]);
            }
        }
        assert(after.subrange(close, close + added.len()) =~= added);
    }
}

} // verus!
