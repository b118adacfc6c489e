//! Spec-level model of the textual grid encoding.
//!
//! A grid is written as one line per row, rows separated by `'\n'`, with a
//! final newline closing the last row rather than opening an empty one.
//! `#` and `1` stand for live cells on input; output uses `#` and `.`.

use vstd::prelude::*;

verus! {

/// Position of the first newline in `t`, or `t.len()` when there is none.
pub open spec fn first_newline(t: Seq<char>) -> nat
    decreases t.len(),
{
    if t.len() == 0 {
        0
    } else if t[0] == '\n' {
        0
    } else {
        1 + first_newline(t.drop_first())
    }
}

/// The rows encoded by `t`: the text split at each newline, where a final
/// newline terminates the last row instead of starting an empty one.
pub open spec fn lines_of(t: Seq<char>) -> Seq<Seq<char>>
    decreases t.len(),
{
    if t.len() == 0 {
        Seq::empty()
    } else if first_newline(t) >= t.len() {
        seq![t]
    } else {
        seq![t.subrange(0, first_newline(t) as int)] + lines_of(
            t.subrange(first_newline(t) as int + 1, t.len() as int),
        )
    }
}

/// Every row has the same length as the first.
pub open spec fn uniform_lines(ls: Seq<Seq<char>>) -> bool {
    forall|i: int| 0 <= i < ls.len() ==> (#[trigger] ls[i]).len() == ls[0].len()
}

/// A text describes a grid when it has at least one row and all rows have
/// equal length.
pub open spec fn parses(t: Seq<char>) -> bool {
    lines_of(t).len() > 0 && uniform_lines(lines_of(t))
}

/// Characters that decode to a live cell; every other character is dead.
pub open spec fn is_alive_char(c: char) -> bool {
    c == '#' || c == '1'
}

/// The character a cell is rendered as.
pub open spec fn cell_char(alive: bool) -> char {
    if alive {
        '#'
    } else {
        '.'
    }
}

/// `first_newline` points at a newline (or past the end when there is none),
/// and nothing before it is a newline.
pub proof fn lemma_first_newline_bounds(t: Seq<char>)
    ensures
        first_newline(t) <= t.len(),
        forall|i: int| 0 <= i < first_newline(t) ==> t[i] != '\n',
        first_newline(t) < t.len() ==> t[first_newline(t) as int] == '\n',
    decreases t.len(),
{
    if t.len() == 0 {
    } else if t[0] == '\n' {
    } else {
        lemma_first_newline_bounds(t.drop_first());
        assert forall|i: int| 0 <= i < first_newline(t) implies t[i] != '\n' by {
            if i > 0 {
                assert(t.drop_first()[i - 1] == t[i]);
            }
        }
        if first_newline(t) < t.len() {
            assert(t.drop_first()[first_newline(t.drop_first()) as int] == t[first_newline(
                t,
            ) as int]);
        }
    }
}

/// Converse: a position with no newline before it, holding a newline itself
/// (or equal to the length when the text has none), is `first_newline`.
pub proof fn lemma_first_newline_at(t: Seq<char>, k: int)
    requires
        0 <= k <= t.len(),
        forall|i: int| 0 <= i < k ==> t[i] != '\n',
        k < t.len() ==> t[k] == '\n',
    ensures
        first_newline(t) == k,
    decreases t.len(),
{
    if t.len() == 0 {
    } else if k == 0 {
    } else {
        assert(t[0] != '\n');
        assert forall|i: int| 0 <= i < k - 1 implies t.drop_first()[i] != '\n' by {
            assert(t.drop_first()[i] == t[i + 1]);
        }
        if k - 1 < t.drop_first().len() {
            assert(t.drop_first()[k - 1] == t[k]);
        }
        lemma_first_newline_at(t.drop_first(), k - 1);
    }
}

/// Splitting off a newline-terminated first row: the rows of
/// `row + "\n" + rest` are `row` followed by the rows of `rest`.
pub proof fn lemma_lines_of_prepend(row: Seq<char>, rest: Seq<char>)
    requires
        forall|i: int| 0 <= i < row.len() ==> row[i] != '\n',
    ensures
        lines_of(row + seq!['\n'] + rest) == seq![row] + lines_of(rest),
{
    let t = row + seq!['\n'] + rest;
    assert forall|i: int| 0 <= i < row.len() implies t[i] != '\n' by {
        assert(t[i] == row[i]);
    }
    assert(t[row.len() as int] == '\n');
    lemma_first_newline_at(t, row.len() as int);
    assert(t.subrange(0, row.len() as int) =~= row);
    assert(t.subrange(row.len() as int + 1, t.len() as int) =~= rest);
}

/// A nonempty text without any newline is one single row.
pub proof fn lemma_lines_of_no_newline(row: Seq<char>)
    requires
        row.len() > 0,
        forall|i: int| 0 <= i < row.len() ==> row[i] != '\n',
    ensures
        lines_of(row) == seq![row],
{
    lemma_first_newline_at(row, row.len() as int);
}

} // verus!
