//! Which counters a report row shows, in what order, and when a total row is due.

use vstd::prelude::*;
use crate::counts::{Counts, Tally, combine, empty_tally};

verus! {

/// One column of a report row.
#[derive(Clone, Copy, Debug, PartialEq, Eq, Structural)]
pub enum Field {
    Lines,
    Words,
    Chars,
    Bytes,
    MaxLineLength,
}

/// The counter that a column shows.
pub open spec fn value_of(t: Tally, f: Field) -> nat {
    match f {
        Field::Lines => t.lines,
        Field::Words => t.words,
        Field::Chars => t.chars,
        Field::Bytes => t.bytes,
        Field::MaxLineLength => t.max_line_length,
    }
}

/// The flags that select the columns of a report row.
#[derive(Clone, Copy, Debug, PartialEq, Eq, Structural)]
pub struct Selection {
    pub lines: bool,
    pub words: bool,
    pub chars: bool,
    pub bytes: bool,
    pub maxln: bool,
}

/// A column if its flag is set, else nothing.
pub open spec fn column_if(on: bool, f: Field) -> Seq<Field> {
    if on {
        seq![f]
    } else {
        Seq::empty()
    }
}

/// The selected columns, in the fixed order lines, words, chars, bytes,
/// longest line.
pub open spec fn columns(s: Selection) -> Seq<Field> {
    column_if(s.lines, Field::Lines) + column_if(s.words, Field::Words) + column_if(
        s.chars,
        Field::Chars,
    ) + column_if(s.bytes, Field::Bytes) + column_if(s.maxln, Field::MaxLineLength)
}

/// The values a report row shows for the counters `t`.
pub open spec fn row(s: Selection, t: Tally) -> Seq<nat> {
    columns(s).map_values(|f: Field| value_of(t, f))
}

/// No flag is set.
pub open spec fn no_flag(s: Selection) -> bool {
    !s.lines && !s.words && !s.chars && !s.bytes && !s.maxln
}

/// The selection in force: the flags as given, or lines, words and chars
/// when none is given.
pub open spec fn effective(s: Selection) -> Selection {
    if no_flag(s) {
        Selection { lines: true, words: true, chars: true, bytes: false, maxln: false }
    } else {
        s
    }
}

impl Selection {
    /// The selection in force for the flags given on the command line.
    pub fn from_flags(lines: bool, words: bool, chars: bool, bytes: bool, maxln: bool) -> (r:
        Selection)
        ensures
            r == effective(Selection { lines, words, chars, bytes, maxln }),
    {
        if !(lines || words || chars || bytes || maxln) {
            Selection { lines: true, words: true, chars: true, bytes: false, maxln: false }
        } else {
            Selection { lines, words, chars, bytes, maxln }
        }
    }

    /// The values of the selected columns of `c`, in column order.
    pub fn row_values(&self, c: &Counts) -> (r: Vec<usize>)
        ensures
            r@.len() == row(*self, c@).len(),
            forall|i: int| 0 <= i < r@.len() ==> r@[i] as nat == #[trigger] row(*self, c@)[i],
    {
        let mut r: Vec<usize> = Vec::new();
        if self.lines {
            r.push(c.lines);
        }
        if self.words {
            r.push(c.words);
        }
        if self.chars {
            r.push(c.chars);
        }
        if self.bytes {
            r.push(c.bytes);
        }
        if self.maxln {
            r.push(c.maxln);
        }
        proof {
            let ghost cols = columns(*self);
            assert(row(*self, c@).len() == cols.len());
            assert forall|i: int| 0 <= i < r@.len() implies r@[i] as nat == #[trigger] row(
                *self,
                c@,
            )[i] by {
                assert(row(*self, c@)[i] == value_of(c@, cols[i]));
            }
        }
        r
    }
}

/// Whichever flags are set, a column shows the counter it names: two rows of
/// the same counters agree on every column they share, so a flag changes
/// which columns appear and never what they hold.
pub proof fn lemma_selection_keeps_values(s1: Selection, s2: Selection, t: Tally)
    ensures
        row(s1, t).len() == columns(s1).len(),
        forall|i: int, j: int|
            0 <= i < columns(s1).len() && 0 <= j < columns(s2).len() && columns(s1)[i]
                == columns(s2)[j] ==> #[trigger] row(s1, t)[i] == #[trigger] row(s2, t)[j],
{
}

/// With no flag given, a row shows exactly lines, words and chars.
pub proof fn lemma_default_columns(s: Selection)
    requires
        no_flag(s),
    ensures
        columns(effective(s)) == seq![Field::Lines, Field::Words, Field::Chars],
{
    assert(columns(effective(s)) =~= seq![Field::Lines, Field::Words, Field::Chars]);
}

/// The running total over per-input counters, folded in order from zero.
pub open spec fn total_of(cs: Seq<Tally>) -> Tally
    decreases cs.len(),
{
    if cs.len() == 0 {
        empty_tally(0)
    } else {
        combine(total_of(cs.drop_last()), cs.last())
    }
}

/// Over scan results (one input each), the total counts the inputs, so a
/// total row is due exactly when there are two or more; its longest line is
/// the longest of any input, and every other counter is the sum.
pub proof fn lemma_total_row(cs: Seq<Tally>)
    requires
        forall|i: int| 0 <= i < cs.len() ==> (#[trigger] cs[i]).inputs == 1,
    ensures
        total_of(cs).inputs == cs.len(),
        (total_of(cs).inputs > 1) <==> cs.len() >= 2,
        forall|i: int|
            0 <= i < cs.len() ==> (#[trigger] cs[i]).max_line_length <= total_of(
                cs,
            ).max_line_length,
        cs.len() > 0 ==> exists|i: int|
            0 <= i < cs.len() && (#[trigger] cs[i]).max_line_length == total_of(
                cs,
            ).max_line_length,
        cs.len() > 0 ==> {
            let t = total_of(cs);
            let p = total_of(cs.drop_last());
            &&& t.bytes == p.bytes + cs.last().bytes
            &&& t.chars == p.chars + cs.last().chars
            &&& t.words == p.words + cs.last().words
            &&& t.lines == p.lines + cs.last().lines
        },
    decreases cs.len(),
{
    if cs.len() > 0 {
        let init = cs.drop_last();
        assert forall|i: int| 0 <= i < init.len() implies (#[trigger] init[i]).inputs == 1 by {
            assert(init[i] == cs[i]);
        }
        lemma_total_row(init);
        assert forall|i: int| 0 <= i < cs.len() implies (#[trigger] cs[i]).max_line_length
            <= total_of(cs).max_line_length by {
            if i < init.len() {
                assert(init[i] == cs[i]);
            }
        }
        if init.len() == 0 {
            assert(cs[0].max_line_length == total_of(cs).max_line_length);
        } else if total_of(cs).max_line_length == cs.last().max_line_length {
            assert(cs[cs.len() - 1].max_line_length == total_of(cs).max_line_length);
        } else {
            let i = choose|i: int|
                0 <= i < init.len() && (#[trigger] init[i]).max_line_length == total_of(
                    init,
                ).max_line_length;
            assert(init[i] == cs[i]);
            assert(cs[i].max_line_length == total_of(cs).max_line_length);
        }
    }
}

} // verus!
