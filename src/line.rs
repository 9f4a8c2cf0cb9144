use vstd::prelude::*;

use crate::ascii_line::column_widths;

verus! {

/// How many characters, from index `start` on, fit one after the other in
/// `budget` screen columns, when character `i` takes `ws[i]` columns. A
/// character that does not fit whole ends the run.
pub open spec fn fit_count(ws: Seq<nat>, start: nat, budget: nat) -> nat
    decreases ws.len() - start,
{
    if start >= ws.len() || ws[start as int] > budget {
        0
    } else {
        1 + fit_count(ws, start + 1, (budget - ws[start as int]) as nat)
    }
}

/// The text that `render(start, budget)` shows of a line with characters `cs`
/// and column widths `ws`.
pub open spec fn rendered(cs: Seq<char>, ws: Seq<nat>, start: nat, budget: nat) -> Seq<char> {
    if start >= cs.len() {
        Seq::empty()
    } else {
        cs.subrange(start as int, (start + fit_count(ws, start, budget)) as int)
    }
}

/// Sum of the column widths of the characters in `[from, to)`.
pub open spec fn width_sum(ws: Seq<nat>, from: int, to: int) -> nat
    decreases to - from,
{
    if to <= from {
        0
    } else {
        width_sum(ws, from, to - 1) + ws[to - 1]
    }
}

/// Every character of the line takes at least one column.
pub open spec fn widths_positive(ws: Seq<nat>) -> bool {
    forall|i: int| 0 <= i < ws.len() ==> #[trigger] ws[i] >= 1
}

/// A line that a view can show: a run of characters, each of which takes one
/// or more screen columns.
pub trait Line: Sized {
    /// Whether the line's internal state is consistent.
    spec fn inv(&self) -> bool;

    /// The characters of the line.
    spec fn chars(&self) -> Seq<char>;

    /// The number of screen columns that each character takes.
    spec fn widths(&self) -> Seq<nat>;

    proof fn lemma_widths(&self)
        requires
            self.inv(),
        ensures
            self.widths().len() == self.chars().len(),
            widths_positive(self.widths()),
    ;

    /// The characters from index `start` on whose widths, added up, fit in
    /// `width` columns; a character that would not fit whole is left out,
    /// and so is everything after it.
    fn render(&self, start: usize, width: usize) -> (r: String)
        requires
            self.inv(),
        ensures
            r@ == rendered(self.chars(), self.widths(), start as nat, width as nat),
    ;

    /// The number of characters (not screen columns).
    fn chars_count(&self) -> (r: usize)
        requires
            self.inv(),
        ensures
            r == self.chars().len(),
    ;

    /// The number of screen columns that character `idx` takes.
    fn char_width(&self, idx: usize) -> (r: u16)
        requires
            self.inv(),
            idx < self.chars().len(),
        ensures
            r as nat == self.widths()[idx as int],
    ;

    /// Recompute the widths for a line whose first character stands at
    /// screen column `first_col` (tab stops depend on it).
    fn indent(&mut self, first_col: usize)
        requires
            old(self).inv(),
        ensures
            final(self).inv(),
            final(self).chars() == old(self).chars(),
            final(self).widths() == column_widths(final(self).chars(), first_col as nat),
    ;
}

} // verus!
