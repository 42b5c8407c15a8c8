//! Text that the collection writes besides its entries: decimal numbers, and
//! lines joined into the body of a file.

use vstd::prelude::*;
use vstd::string::*;

verus! {

/// The ten digits, in order.
pub open spec fn digits() -> Seq<char> {
    seq!['0', '1', '2', '3', '4', '5', '6', '7', '8', '9']
}

/// The decimal numeral of `n`, without leading zeros.
pub open spec fn decimal(n: nat) -> Seq<char>
    decreases n,
{
    if n < 10 {
        seq![digits()[n as int]]
    } else {
        decimal(n / 10).push(digits()[(n % 10) as int])
    }
}

/// The lines with a line feed between each two of them, and none at the end.
pub open spec fn join_lines(lines: Seq<Seq<char>>) -> Seq<char>
    decreases lines.len(),
{
    if lines.len() == 0 {
        Seq::empty()
    } else if lines.len() == 1 {
        lines[0]
    } else {
        join_lines(lines.drop_last()) + seq!['\n'] + lines.last()
    }
}

/// How many line feeds `text` holds.
pub open spec fn line_feeds(text: Seq<char>) -> nat
    decreases text.len(),
{
    if text.len() == 0 {
        0
    } else if text.last() == '\n' {
        line_feeds(text.drop_last()) + 1
    } else {
        line_feeds(text.drop_last())
    }
}

/// The line feeds of two texts, one after the other, are those of both.
pub proof fn lemma_line_feeds_add(head: Seq<char>, tail: Seq<char>)
    ensures
        line_feeds(head + tail) == line_feeds(head) + line_feeds(tail),
    decreases tail.len(),
{
    if tail.len() == 0 {
        assert(head + tail =~= head);
    } else {
        lemma_line_feeds_add(head, tail.drop_last());
        assert((head + tail).drop_last() =~= head + tail.drop_last());
    }
}

/// Lines that hold no line feed are joined into a text of as many lines: it
/// holds one line feed fewer than there are lines, and so none at its end
/// that would start another.
pub proof fn lemma_join_lines_line_feeds(lines: Seq<Seq<char>>)
    requires
        lines.len() > 0,
        forall|i: int| 0 <= i < lines.len() ==> line_feeds(#[trigger] lines[i]) == 0,
    ensures
        line_feeds(join_lines(lines)) == lines.len() - 1,
    decreases lines.len(),
{
    if lines.len() > 1 {
        let head = lines.drop_last();
        assert forall|i: int| 0 <= i < head.len() implies line_feeds(#[trigger] head[i]) == 0 by {
            assert(head[i] == lines[i]);
        }
        lemma_join_lines_line_feeds(head);
        lemma_line_feeds_add(join_lines(head), seq!['\n']);
        lemma_line_feeds_add(join_lines(head) + seq!['\n'], lines.last());
        assert(line_feeds(seq!['\n']) == 1) by {
            let feed = seq!['\n'];
            assert(feed.last() == '\n');
            assert(feed.drop_last().len() == 0);
            assert(line_feeds(feed.drop_last()) == 0);
        }
    }
}

/// The one-character text of the digit `d`.
fn digit_str(d: usize) -> (s: &'static str)
    requires
        d < 10,
    ensures
        s@ == seq![digits()[d as int]],
{
    proof {
        reveal_strlit("0");
        reveal_strlit("1");
        reveal_strlit("2");
        reveal_strlit("3");
        reveal_strlit("4");
        reveal_strlit("5");
        reveal_strlit("6");
        reveal_strlit("7");
        reveal_strlit("8");
        reveal_strlit("9");
    }
    let s = if d == 0 {
        "0"
    } else if d == 1 {
        "1"
    } else if d == 2 {
        "2"
    } else if d == 3 {
        "3"
    } else if d == 4 {
        "4"
    } else if d == 5 {
        "5"
    } else if d == 6 {
        "6"
    } else if d == 7 {
        "7"
    } else if d == 8 {
        "8"
    } else {
        "9"
    };
    assert(s@ =~= seq![digits()[d as int]]);
    s
}

/// Writes `n` in decimal.
pub fn decimal_string(n: usize) -> (numeral: String)
    ensures
        numeral@ == decimal(n as nat),
    decreases n,
{
    if n < 10 {
        String::from_str(digit_str(n))
    } else {
        let mut numeral = decimal_string(n / 10);
        numeral.append(digit_str(n % 10));
        assert(numeral@ =~= decimal(n as nat));
        numeral
    }
}

} // verus!
