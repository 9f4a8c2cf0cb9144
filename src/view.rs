use vstd::prelude::*;

use vstd::view::View as _;

use crate::line::{Line, rendered, width_sum, widths_positive};
use crate::ascii_line::column_widths;
use crate::text::decimal_text;

verus! {

/// The index of the last character of a line of `len` characters (0 for an
/// empty line).
pub open spec fn last_ix(len: nat) -> nat {
    if len == 0 {
        0
    } else {
        (len - 1) as nat
    }
}

/// The smaller of two numbers.
pub open spec fn min_nat(a: nat, b: nat) -> nat {
    if a <= b {
        a
    } else {
        b
    }
}

/// Walk left from character `f` towards `stop`, adding up widths into `w`,
/// while the total stays under `budget`: where the walk ends, and the total.
pub open spec fn scan(ws: Seq<nat>, f: nat, stop: nat, budget: nat, w: nat) -> (nat, nat)
    decreases f,
{
    if f > stop && f < ws.len() && w + ws[f as int] < budget {
        scan(ws, (f - 1) as nat, stop, budget, w + ws[f as int])
    } else {
        (f, w)
    }
}

/// The first visible character and the cursor's screen column after
/// centering on character `c` of a line with widths `ws`, when the first
/// visible character was `left`, the view is `width` columns wide and
/// `budget` of them show text. The walk goes no further left than `left`
/// when `c` is still within `width` characters of it.
pub open spec fn center_frame(ws: Seq<nat>, c: nat, left: nat, width: nat, budget: nat) -> (
    nat,
    nat,
) {
    let stop = if c < left + width {
        left
    } else {
        0
    };
    let (f, w) = scan(ws, c, stop, budget, 0);
    (
        f,
        if f < ws.len() {
            (w + ws[f as int] - 1) as nat
        } else {
            w
        },
    )
}

/// Whether a frame that starts at character `left` shows the cursor on
/// character `ix` at screen column `col`: the characters after `left` up to
/// `ix` fit in `budget` columns, and the cursor sits on the last column of
/// character `ix`.
pub open spec fn frame_shows(ws: Seq<nat>, ix: nat, left: nat, col: nat, budget: nat) -> bool {
    if ws.len() == 0 {
        left == 0 && ix == 0 && col == 0
    } else {
        &&& left <= ix < ws.len()
        &&& (left == ix || width_sum(ws, (left + 1) as int, (ix + 1) as int) < budget)
        &&& col + 1 == width_sum(ws, left as int, (ix + 1) as int)
    }
}

/// A front step of a width sum.
pub proof fn lemma_width_sum_front(ws: Seq<nat>, from: int, to: int)
    requires
        from < to,
    ensures
        width_sum(ws, (from) as int, (to) as int) == ws[from] + width_sum(ws, (from + 1) as int, (to) as int),
    decreases to - from,
{
    if from + 1 < to {
        lemma_width_sum_front(ws, (from) as int, (to - 1) as int);
        assert(width_sum(ws, from + 1, to) == width_sum(ws, from + 1, to - 1) + ws[to - 1]);
    } else {
        assert(width_sum(ws, from, from) == 0);
        assert(width_sum(ws, from + 1, to) == 0);
    }
}

/// A width sum over a shorter range is no larger; over `n` characters of
/// width at least one it is at least `n`.
pub proof fn lemma_width_sum_bounds(ws: Seq<nat>, from: int, mid: int, to: int)
    requires
        0 <= from <= mid <= to <= ws.len(),
        widths_positive(ws),
    ensures
        width_sum(ws, (mid) as int, (to) as int) <= width_sum(ws, (from) as int, (to) as int),
        width_sum(ws, (from) as int, (to) as int) >= to - from,
    decreases mid - from,
{
    if from < mid {
        lemma_width_sum_front(ws, (from) as int, (to) as int);
        lemma_width_sum_bounds(ws, (from + 1) as int, (mid) as int, (to) as int);
    } else {
        lemma_width_sum_count(ws, from, to);
    }
}

proof fn lemma_width_sum_count(ws: Seq<nat>, from: int, to: int)
    requires
        0 <= from <= to <= ws.len(),
        widths_positive(ws),
    ensures
        width_sum(ws, (from) as int, (to) as int) >= to - from,
    decreases to - from,
{
    if from < to {
        lemma_width_sum_count(ws, from, to - 1);
        assert(ws[to - 1] >= 1);
    }
}

/// What the walk leaves: it stops at or left of where it began, the total
/// is the width of the characters it passed, and it stays under the budget
/// once it has moved.
pub proof fn lemma_scan(ws: Seq<nat>, c: nat, f: nat, stop: nat, budget: nat, w: nat)
    requires
        f <= c,
        c < ws.len() || f == c,
        w == width_sum(ws, (f + 1) as int, (c + 1) as int),
        f == c || w < budget,
    ensures
        scan(ws, f, stop, budget, w).0 <= c,
        scan(ws, f, stop, budget, w).1 == width_sum(ws, (scan(ws, f, stop, budget, w).0 + 1) as int, (c + 1) as int),
        scan(ws, f, stop, budget, w).0 == c || scan(ws, f, stop, budget, w).1 < budget,
        scan(ws, f, stop, budget, w).0 >= stop || scan(ws, f, stop, budget, w).0 == f,
    decreases f,
{
    if f > stop && f < ws.len() && w + ws[f as int] < budget {
        lemma_width_sum_front(ws, f as int, (c + 1) as int);
        lemma_scan(ws, c, (f - 1) as nat, stop, budget, w + ws[f as int]);
    }
}

/// From a frame that already shows the cursor, the walk comes back to the
/// frame's first character.
proof fn lemma_scan_back(ws: Seq<nat>, ix: nat, left: nat, f: nat, budget: nat)
    requires
        left <= f <= ix < ws.len(),
        widths_positive(ws),
        left == ix || width_sum(ws, (left + 1) as int, (ix + 1) as int) < budget,
    ensures
        scan(ws, f, left, budget, width_sum(ws, (f + 1) as int, (ix + 1) as int)) == (
            left,
            width_sum(ws, (left + 1) as int, (ix + 1) as int),
        ),
    decreases f,
{
    if f > left {
        lemma_width_sum_front(ws, f as int, (ix + 1) as int);
        lemma_width_sum_bounds(ws, (left + 1) as int, f as int, (ix + 1) as int);
        lemma_scan_back(ws, ix, left, (f - 1) as nat, budget);
    }
}

/// Centering a frame that already shows the cursor changes nothing.
pub proof fn lemma_center_fixed(ws: Seq<nat>, ix: nat, left: nat, col: nat, width: nat, budget: nat)
    requires
        widths_positive(ws),
        budget <= width,
        frame_shows(ws, ix, left, col, budget),
    ensures
        center_frame(ws, ix, left, width, budget) == (left, col),
{
    if ws.len() > 0 {
        assert(width_sum(ws, (ix + 1) as int, (ix + 1) as int) == 0);
        if left < ix {
            lemma_width_sum_bounds(ws, (left + 1) as int, (left + 1) as int, (ix + 1) as int);
            assert(ix < left + width);
        }
        if ix < left + width {
            lemma_scan_back(ws, ix, left, ix, budget);
        } else {
            assert(left == ix);
        }
        lemma_width_sum_front(ws, left as int, (ix + 1) as int);
    }
}

/// Centering leaves a frame that shows the cursor.
pub proof fn lemma_center_shows(ws: Seq<nat>, ix: nat, left: nat, width: nat, budget: nat)
    requires
        ix == last_ix(ws.len()) || ix < ws.len(),
        widths_positive(ws),
    ensures
        frame_shows(
            ws,
            ix,
            center_frame(ws, ix, left, width, budget).0,
            center_frame(ws, ix, left, width, budget).1,
            budget,
        ),
{
    let stop = if ix < left + width {
        left
    } else {
        0
    };
    assert(width_sum(ws, (ix + 1) as int, (ix + 1) as int) == 0);
    lemma_scan(ws, ix, ix, stop, budget, 0);
    let (f, w) = scan(ws, ix, stop, budget, 0);
    if ws.len() > 0 {
        lemma_width_sum_front(ws, f as int, (ix + 1) as int);
    }
}

/// The number of decimal digits of `n`.
fn decimal_len(n: usize) -> (r: usize)
    ensures
        r == decimal_text(n as nat).len(),
        r <= n / 10 + 1,
    decreases n,
{
    if n < 10 {
        1
    } else {
        let k = decimal_len(n / 10);
        k + 1
    }
}

/// A scrollable window over a sequence of lines, with a cursor.
///
/// The cursor stands on a character of the current line; the view remembers
/// the column it would rather be on (the sticky column) across lines too
/// short to hold it. Each row of the window starts with a gutter for the
/// line number.
pub struct View<L> {
    lines: Vec<L>,
    width: u16,
    height: u16,
    num_lines_padding: usize,
    line_char_ix: usize,
    max_line_char_ix: usize,
    frame_start_row: usize,
    frame_start_char_ix: usize,
    cursor_row: usize,
    cursor_col: usize,
}

impl<L: Line> View<L> {
    /// The lines of the document.
    pub closed spec fn doc(&self) -> Seq<L> {
        self.lines@
    }

    /// Rows of the window.
    pub closed spec fn rows(&self) -> nat {
        self.height as nat
    }

    /// Columns of the window, gutter included.
    pub closed spec fn cols(&self) -> nat {
        self.width as nat
    }

    /// Columns taken by the line-number gutter.
    pub closed spec fn gutter(&self) -> nat {
        if self.num_lines_padding <= usize::MAX - 3 {
            (self.num_lines_padding + 3) as nat
        } else {
            usize::MAX as nat
        }
    }

    /// The document row shown on the first row of the window.
    pub closed spec fn top(&self) -> nat {
        self.frame_start_row as nat
    }

    /// The window row of the cursor.
    pub closed spec fn screen_row(&self) -> nat {
        self.cursor_row as nat
    }

    /// The index of the character under the cursor.
    pub closed spec fn ix(&self) -> nat {
        self.line_char_ix as nat
    }

    /// The sticky column: the character index the cursor would rather be on.
    pub closed spec fn sticky(&self) -> nat {
        self.max_line_char_ix as nat
    }

    /// The first character shown on each row.
    pub closed spec fn left(&self) -> nat {
        self.frame_start_char_ix as nat
    }

    /// The window column of the cursor, gutter left out.
    pub closed spec fn screen_col(&self) -> nat {
        self.cursor_col as nat
    }

    /// Columns left for text beside the gutter.
    pub open spec fn text_cols(&self) -> nat {
        if self.cols() >= self.gutter() {
            (self.cols() - self.gutter()) as nat
        } else {
            0
        }
    }

    /// The document row of the cursor.
    pub open spec fn row(&self) -> nat {
        self.top() + self.screen_row()
    }

    /// The number of characters of document row `r`.
    pub open spec fn line_len(&self, r: nat) -> nat {
        self.doc()[r as int].chars().len()
    }

    /// The column widths of the cursor's row.
    pub open spec fn row_widths(&self) -> Seq<nat> {
        self.doc()[self.row() as int].widths()
    }

    /// Every line is consistent.
    pub open spec fn lines_ok(&self) -> bool {
        forall|r: int| 0 <= r < self.doc().len() ==> (#[trigger] self.doc()[r]).inv()
    }

    /// The cursor stands on the document: within the window, on a line, on
    /// the sticky column or the line's last character, whichever comes first.
    /// An empty document keeps everything at zero.
    pub open spec fn cursor_ok(&self) -> bool {
        &&& self.lines_ok()
        &&& self.rows() >= 1
        &&& if self.doc().len() == 0 {
            &&& self.top() == 0
            &&& self.screen_row() == 0
            &&& self.ix() == 0
            &&& self.sticky() == 0
            &&& self.left() == 0
            &&& self.screen_col() == 0
        } else {
            &&& self.screen_row() < self.rows()
            &&& self.row() < self.doc().len()
            &&& self.ix() == min_nat(self.sticky(), last_ix(self.line_len(self.row())))
        }
    }

    /// The view's invariant: the cursor stands on the document and the
    /// frame shows it.
    pub open spec fn wf(&self) -> bool {
        &&& self.cursor_ok()
        &&& self.doc().len() > 0 ==> frame_shows(
            self.row_widths(),
            self.ix(),
            self.left(),
            self.screen_col(),
            self.text_cols(),
        )
    }
}

/// `b` is `a` with the cursor moved to window row `screen_row` of a frame
/// whose first row is `top`, with sticky column `sticky`, the cursor on the
/// sticky column or the line's end, and the frame centered again.
pub open spec fn moved<L: Line>(a: View<L>, b: View<L>, top: nat, screen_row: nat, sticky: nat) -> bool {
    &&& b.doc() == a.doc()
    &&& b.rows() == a.rows()
    &&& b.cols() == a.cols()
    &&& b.gutter() == a.gutter()
    &&& b.top() == top
    &&& b.screen_row() == screen_row
    &&& b.sticky() == sticky
    &&& b.ix() == min_nat(sticky, last_ix(b.line_len(b.row())))
    &&& (b.left(), b.screen_col()) == center_frame(
        b.row_widths(),
        b.ix(),
        a.left(),
        a.cols(),
        a.text_cols(),
    )
}

impl<L: Line> View<L> {
    /// Columns taken by the line-number gutter: the digits of the number of
    /// lines, then ` | `.
    pub fn num_column_width(&self) -> (r: usize)
        ensures
            r == self.gutter(),
    {
        if self.num_lines_padding <= usize::MAX - 3 {
            self.num_lines_padding + 3
        } else {
            usize::MAX
        }
    }

    fn text_width_exec(&self) -> (r: usize)
        ensures
            r == self.text_cols(),
    {
        let g = self.num_column_width();
        let w = self.width as usize;
        if w >= g {
            w - g
        } else {
            0
        }
    }

    /// Put the cursor on the sticky column, or on the last character of a
    /// line too short for it.
    fn snap(&mut self)
        requires
            old(self).lines_ok(),
            old(self).doc().len() > 0,
            old(self).row() < old(self).doc().len(),
        ensures
            final(self).ix() == min_nat(
                old(self).sticky(),
                last_ix(old(self).line_len(old(self).row())),
            ),
            final(self).lines == old(self).lines,
            final(self).width == old(self).width,
            final(self).height == old(self).height,
            final(self).num_lines_padding == old(self).num_lines_padding,
            final(self).max_line_char_ix == old(self).max_line_char_ix,
            final(self).frame_start_row == old(self).frame_start_row,
            final(self).frame_start_char_ix == old(self).frame_start_char_ix,
            final(self).cursor_row == old(self).cursor_row,
            final(self).cursor_col == old(self).cursor_col,
    {
        assert(self.lines@.len() == self.lines.len());
        let r = self.frame_start_row + self.cursor_row;
        assert(self.doc()[r as int].inv());
        let len = self.lines[r].chars_count();
        let last = if len == 0 {
            0
        } else {
            len - 1
        };
        self.line_char_ix = if self.max_line_char_ix <= last {
            self.max_line_char_ix
        } else {
            last
        };
    }

    /// Choose the first visible character again so that the cursor shows:
    /// walk left from the cursor's character, adding up widths, until the
    /// text width would be reached or the frame's current first character
    /// (when the cursor is still near it) is met. The cursor's screen column
    /// is then the last column of its character.
    pub fn center_horizontally(&mut self)
        requires
            old(self).cursor_ok(),
        ensures
            final(self).wf(),
            final(self).doc() == old(self).doc(),
            final(self).rows() == old(self).rows(),
            final(self).cols() == old(self).cols(),
            final(self).gutter() == old(self).gutter(),
            final(self).top() == old(self).top(),
            final(self).screen_row() == old(self).screen_row(),
            final(self).ix() == old(self).ix(),
            final(self).sticky() == old(self).sticky(),
            old(self).doc().len() > 0 ==> (final(self).left(), final(self).screen_col())
                == center_frame(
                old(self).row_widths(),
                old(self).ix(),
                old(self).left(),
                old(self).cols(),
                old(self).text_cols(),
            ),
            old(self).doc().len() == 0 ==> *final(self) == *old(self),
    {
        if self.lines.len() == 0 {
            return;
        }
        let tw = self.text_width_exec();
        let r = self.frame_start_row + self.cursor_row;
        let ghost ws = self.row_widths();
        assert(self.doc()[r as int].inv());
        proof {
            self.doc()[r as int].lemma_widths();
        }
        let len = self.lines[r].chars_count();
        let c = self.line_char_ix;
        let left = self.frame_start_char_ix;
        let stop = if c < left || c - left < self.width as usize {
            left
        } else {
            0
        };
        assert(stop == (if c < left + self.width {
            left
        } else {
            0
        }));
        let mut f = c;
        let mut w: usize = 0;
        let mut done = false;
        while !done && f > stop && f < len
            invariant
                self.lines_ok(),
                r < self.lines@.len(),
                self.lines@[r as int].inv(),
                ws == self.lines@[r as int].widths(),
                ws.len() == len,
                len == self.lines@[r as int].chars().len(),
                tw <= u16::MAX,
                w <= tw,
                scan(ws, c as nat, stop as nat, tw as nat, 0) == if done {
                    (f as nat, w as nat)
                } else {
                    scan(ws, f as nat, stop as nat, tw as nat, w as nat)
                },
            decreases f + (if done {
                0int
            } else {
                1int
            }),
        {
            let cw = self.lines[r].char_width(f) as usize;
            if w + cw >= tw {
                done = true;
            } else {
                w = w + cw;
                f = f - 1;
            }
        }
        let last_w = if f < len {
            self.lines[r].char_width(f) as usize
        } else {
            1
        };
        proof {
            if f < len {
                assert(ws[f as int] >= 1);
            }
        }
        self.frame_start_char_ix = f;
        self.cursor_col = w + last_w - 1;
        proof {
            lemma_center_shows(ws, c as nat, left as nat, self.width as nat, tw as nat);
        }
    }

    /// Move the cursor one character right, unless it is on the line's last
    /// character; the sticky column follows it.
    pub fn move_right(&mut self)
        requires
            old(self).wf(),
        ensures
            final(self).wf(),
            if old(self).doc().len() > 0 && old(self).ix() + 1 < old(self).line_len(old(self).row()) {
                moved(*old(self), *final(self), old(self).top(), old(self).screen_row(), old(self).ix() + 1)
            } else {
                *final(self) == *old(self)
            },
    {
        if self.lines.len() == 0 {
            return;
        }
        let r = self.frame_start_row + self.cursor_row;
        assert(self.doc()[r as int].inv());
        let len = self.lines[r].chars_count();
        if len == 0 || self.line_char_ix >= len - 1 {
            return;
        }
        self.line_char_ix = self.line_char_ix + 1;
        self.max_line_char_ix = self.line_char_ix;
        self.center_horizontally();
    }

    /// Move the cursor one character left, unless it is on the line's first
    /// character; the sticky column follows it.
    pub fn move_left(&mut self)
        requires
            old(self).wf(),
        ensures
            final(self).wf(),
            if old(self).doc().len() > 0 && old(self).ix() > 0 {
                moved(*old(self), *final(self), old(self).top(), old(self).screen_row(), (old(self).ix() - 1) as nat)
            } else {
                *final(self) == *old(self)
            },
    {
        if self.lines.len() == 0 {
            return;
        }
        if self.line_char_ix == 0 {
            return;
        }
        self.line_char_ix = self.line_char_ix - 1;
        self.max_line_char_ix = self.line_char_ix;
        self.center_horizontally();
    }

    /// Move the cursor one row up, scrolling when it is on the window's top
    /// row; at the document's first row it stays. The cursor goes to the
    /// sticky column, or to the end of a shorter line.
    pub fn move_up(&mut self)
        requires
            old(self).wf(),
        ensures
            final(self).wf(),
            if old(self).doc().len() > 0 {
                moved(
                    *old(self),
                    *final(self),
                    if old(self).screen_row() == 0 && old(self).top() > 0 {
                        (old(self).top() - 1) as nat
                    } else {
                        old(self).top()
                    },
                    if old(self).screen_row() == 0 {
                        0
                    } else {
                        (old(self).screen_row() - 1) as nat
                    },
                    old(self).sticky(),
                )
            } else {
                *final(self) == *old(self)
            },
    {
        if self.lines.len() == 0 {
            return;
        }
        if self.cursor_row == 0 {
            if self.frame_start_row > 0 {
                self.frame_start_row = self.frame_start_row - 1;
            }
        } else {
            self.cursor_row = self.cursor_row - 1;
        }
        self.snap();
        self.center_horizontally();
    }

    /// Move the cursor one row down, scrolling when it is on the window's
    /// bottom row; at the document's last row nothing changes. The cursor
    /// goes to the sticky column, or to the end of a shorter line.
    pub fn move_down(&mut self)
        requires
            old(self).wf(),
        ensures
            final(self).wf(),
            if old(self).row() + 1 < old(self).doc().len() {
                moved(
                    *old(self),
                    *final(self),
                    if old(self).screen_row() + 1 >= old(self).rows() {
                        old(self).top() + 1
                    } else {
                        old(self).top()
                    },
                    if old(self).screen_row() + 1 >= old(self).rows() {
                        old(self).screen_row()
                    } else {
                        old(self).screen_row() + 1
                    },
                    old(self).sticky(),
                )
            } else {
                *final(self) == *old(self)
            },
    {
        let n = self.lines.len();
        if n == 0 || self.frame_start_row + self.cursor_row + 1 >= n {
            return;
        }
        if self.cursor_row + 1 >= self.height as usize {
            self.frame_start_row = self.frame_start_row + 1;
        } else {
            self.cursor_row = self.cursor_row + 1;
        }
        self.snap();
        self.center_horizontally();
    }

    /// Move the cursor to the first character of its line.
    pub fn move_to_sol(&mut self)
        requires
            old(self).wf(),
        ensures
            final(self).wf(),
            if old(self).doc().len() > 0 {
                moved(*old(self), *final(self), old(self).top(), old(self).screen_row(), 0)
            } else {
                *final(self) == *old(self)
            },
    {
        if self.lines.len() == 0 {
            return;
        }
        self.max_line_char_ix = 0;
        self.snap();
        self.center_horizontally();
    }

    /// Move the cursor to the last character of its line.
    pub fn move_to_eol(&mut self)
        requires
            old(self).wf(),
        ensures
            final(self).wf(),
            if old(self).doc().len() > 0 {
                moved(
                    *old(self),
                    *final(self),
                    old(self).top(),
                    old(self).screen_row(),
                    last_ix(old(self).line_len(old(self).row())),
                )
            } else {
                *final(self) == *old(self)
            },
    {
        if self.lines.len() == 0 {
            return;
        }
        let r = self.frame_start_row + self.cursor_row;
        assert(self.doc()[r as int].inv());
        let len = self.lines[r].chars_count();
        self.max_line_char_ix = if len == 0 {
            0
        } else {
            len - 1
        };
        self.snap();
        self.center_horizontally();
    }

    /// Scroll one window up; on the document's first window, move the cursor
    /// to the window's first row instead.
    pub fn page_up(&mut self)
        requires
            old(self).wf(),
        ensures
            final(self).wf(),
            if old(self).doc().len() > 0 {
                moved(
                    *old(self),
                    *final(self),
                    if old(self).top() >= old(self).rows() {
                        (old(self).top() - old(self).rows()) as nat
                    } else {
                        0
                    },
                    if old(self).top() == 0 {
                        0
                    } else {
                        old(self).screen_row()
                    },
                    old(self).sticky(),
                )
            } else {
                *final(self) == *old(self)
            },
    {
        if self.lines.len() == 0 {
            return;
        }
        if self.frame_start_row == 0 {
            self.cursor_row = 0;
        } else {
            let h = self.height as usize;
            self.frame_start_row = if self.frame_start_row >= h {
                self.frame_start_row - h
            } else {
                0
            };
        }
        self.snap();
        self.center_horizontally();
    }

    /// Scroll one window down; when that would leave the cursor past the
    /// document's end, show the last line on the window's first row, with
    /// the cursor on it.
    pub fn page_down(&mut self)
        requires
            old(self).wf(),
        ensures
            final(self).wf(),
            if old(self).doc().len() > 0 {
                if old(self).row() + old(self).rows() >= old(self).doc().len() {
                    moved(*old(self), *final(self), (old(self).doc().len() - 1) as nat, 0, old(self).sticky())
                } else {
                    moved(
                        *old(self),
                        *final(self),
                        old(self).top() + old(self).rows(),
                        old(self).screen_row(),
                        old(self).sticky(),
                    )
                }
            } else {
                *final(self) == *old(self)
            },
    {
        let n = self.lines.len();
        if n == 0 {
            return;
        }
        let h = self.height as usize;
        let r = self.frame_start_row + self.cursor_row;
        if h >= n - r {
            self.frame_start_row = n - 1;
            self.cursor_row = 0;
        } else {
            self.frame_start_row = self.frame_start_row + h;
        }
        self.snap();
        self.center_horizontally();
    }

    /// Move the cursor to row `r`, character `c` (both from 0), each clamped
    /// to what the document holds. When row `r` is outside the window, the
    /// window moves so that it shows `r` half a window below its first row
    /// (or from the document's start). The sticky column becomes the
    /// clamped `c`.
    pub fn goto(&mut self, r: usize, c: usize)
        requires
            old(self).cursor_ok(),
        ensures
            final(self).wf(),
            old(self).doc().len() > 0 ==> final(self).row() == min_nat(
                r as nat,
                (old(self).doc().len() - 1) as nat,
            ) && final(self).ix() == min_nat(c as nat, last_ix(final(self).line_len(final(self).row()))),
            if old(self).doc().len() > 0 {
                let target = min_nat(r as nat, (old(self).doc().len() - 1) as nat);
                let half = old(self).rows() / 2;
                let top = if target < old(self).top() || target >= old(self).top() + old(self).rows() {
                    if target >= half {
                        (target - half) as nat
                    } else {
                        0
                    }
                } else {
                    old(self).top()
                };
                moved(
                    *old(self),
                    *final(self),
                    top,
                    (target - top) as nat,
                    min_nat(c as nat, last_ix(old(self).line_len(target))),
                )
            } else {
                *final(self) == *old(self)
            },
    {
        let n = self.lines.len();
        if n == 0 {
            return;
        }
        let target = if r <= n - 1 {
            r
        } else {
            n - 1
        };
        let h = self.height as usize;
        if target < self.frame_start_row || target - self.frame_start_row >= h {
            let half = h / 2;
            self.frame_start_row = if target >= half {
                target - half
            } else {
                0
            };
        }
        self.cursor_row = target - self.frame_start_row;
        assert(self.doc()[target as int].inv());
        let len = self.lines[target].chars_count();
        let last = if len == 0 {
            0
        } else {
            len - 1
        };
        self.max_line_char_ix = if c <= last {
            c
        } else {
            last
        };
        self.snap();
        self.center_horizontally();
    }
}

impl<L: Line> View<L> {
    /// A view of `size.0` columns and `size.1` rows over `lines`, whose
    /// widths are taken again for text that starts after the gutter; the
    /// cursor starts on the first character of the first line.
    pub fn new(size: (u16, u16), lines: Vec<L>) -> (v: View<L>)
        requires
            size.1 >= 1,
            forall|i: int| 0 <= i < lines@.len() ==> (#[trigger] lines@[i]).inv(),
        ensures
            v.wf(),
            v.doc().len() == lines@.len(),
            forall|i: int| 0 <= i < lines@.len() ==> (#[trigger] v.doc()[i]).chars() == lines@[i].chars(),
            forall|i: int|
                0 <= i < lines@.len() ==> (#[trigger] v.doc()[i]).widths() == column_widths(
                    lines@[i].chars(),
                    v.gutter(),
                ),
            v.cols() == size.0,
            v.rows() == size.1,
            v.gutter() == decimal_text(lines@.len()).len() + 3,
            v.top() == 0,
            v.screen_row() == 0,
            v.ix() == 0,
            v.sticky() == 0,
    {
        let n = lines.len();
        let pad = decimal_len(n);
        let ghost given = lines@;
        let mut view = View {
            lines,
            width: size.0,
            height: size.1,
            num_lines_padding: pad,
            line_char_ix: 0,
            max_line_char_ix: 0,
            frame_start_row: 0,
            frame_start_char_ix: 0,
            cursor_row: 0,
            cursor_col: 0,
        };
        let g = view.num_column_width();
        let mut k: usize = 0;
        while k < n
            invariant
                n == view.lines@.len(),
                n == given.len(),
                k <= n,
                forall|i: int| 0 <= i < n ==> (#[trigger] view.lines@[i]).inv(),
                forall|i: int| 0 <= i < n ==> (#[trigger] view.lines@[i]).chars() == given[i].chars(),
                forall|i: int|
                    0 <= i < k ==> (#[trigger] view.lines@[i]).widths() == column_widths(
                        given[i].chars(),
                        g as nat,
                    ),
                g == view.gutter(),
                view.width == size.0,
                view.height == size.1,
                view.num_lines_padding == pad,
                view.line_char_ix == 0,
                view.max_line_char_ix == 0,
                view.frame_start_row == 0,
                view.frame_start_char_ix == 0,
                view.cursor_row == 0,
                view.cursor_col == 0,
            decreases n - k,
        {
            view.lines[k].indent(g);
            k = k + 1;
        }
        assert(view.lines_ok());
        view.goto(0, 0);
        view
    }

    /// Carry out a goto command: row `r` and character `c` (from 0), where
    /// a side left out keeps the cursor's current row or character.
    pub fn goto_command(&mut self, r: Option<usize>, c: Option<usize>)
        requires
            old(self).wf(),
        ensures
            final(self).wf(),
            final(self).doc() == old(self).doc(),
            old(self).doc().len() > 0 ==> {
                let row = match r {
                    Some(x) => x as nat,
                    None => old(self).row(),
                };
                let col = match c {
                    Some(x) => x as nat,
                    None => old(self).ix(),
                };
                &&& final(self).row() == min_nat(row, (old(self).doc().len() - 1) as nat)
                &&& final(self).ix() == min_nat(col, last_ix(final(self).line_len(final(self).row())))
            },
            old(self).doc().len() == 0 ==> *final(self) == *old(self),
    {
        let row = match r {
            Some(x) => x,
            None => self.current_row(),
        };
        let col = match c {
            Some(x) => x,
            None => self.line_char_ix,
        };
        self.goto(row, col);
    }

    /// The line under the cursor, if the document has any.
    pub fn current_line(&self) -> (r: Option<&L>)
        requires
            self.wf(),
        ensures
            r matches Some(l) ==> self.row() < self.doc().len() && *l == self.doc()[self.row() as int],
            r is None <==> self.doc().len() == 0,
    {
        let n = self.lines.len();
        if n == 0 {
            None
        } else {
            Some(&self.lines[self.frame_start_row + self.cursor_row])
        }
    }

    /// The document row of the cursor.
    pub fn current_row(&self) -> (r: usize)
        requires
            self.wf(),
        ensures
            r == self.row(),
    {
        assert(self.lines@.len() == self.lines.len());
        self.frame_start_row + self.cursor_row
    }

    /// The index of the character under the cursor.
    pub fn col(&self) -> (r: usize)
        ensures
            r == self.ix(),
    {
        self.line_char_ix
    }

    /// The document row shown on the window's first row.
    pub fn frame_start_row(&self) -> (r: usize)
        ensures
            r == self.top(),
    {
        self.frame_start_row
    }

    /// The first character shown on each row.
    pub fn frame_start_char_ix(&self) -> (r: usize)
        ensures
            r == self.left(),
    {
        self.frame_start_char_ix
    }

    /// The window row of the cursor.
    pub fn cursor_row(&self) -> (r: usize)
        ensures
            r == self.screen_row(),
    {
        self.cursor_row
    }

    /// The window column of the cursor, gutter left out.
    pub fn cursor_col(&self) -> (r: usize)
        ensures
            r == self.screen_col(),
    {
        self.cursor_col
    }

    /// The number of window rows.
    pub fn height(&self) -> (r: u16)
        ensures
            r as nat == self.rows(),
    {
        self.height
    }

    /// The number of digits the gutter gives line numbers.
    pub fn num_lines_padding(&self) -> (r: usize)
        ensures
            r + 3 == self.gutter() || r > usize::MAX - 3,
    {
        self.num_lines_padding
    }

    /// Columns left for text beside the gutter.
    pub fn text_width(&self) -> (r: usize)
        ensures
            r == self.text_cols(),
    {
        self.text_width_exec()
    }

    /// The line shown on window row `i`, if the document reaches that far.
    pub fn line_at(&self, i: usize) -> (r: Option<&L>)
        requires
            self.wf(),
        ensures
            r is Some <==> self.top() + i < self.doc().len(),
            r matches Some(l) ==> *l == self.doc()[self.top() + i],
    {
        let n = self.lines.len();
        if i >= n || self.frame_start_row >= n - i {
            return None;
        }
        Some(&self.lines[self.frame_start_row + i])
    }

    /// The text of window row `i`: the line there, from the frame's first
    /// character, as much as the text width holds; `None` past the
    /// document's end.
    pub fn render_row(&self, i: usize) -> (r: Option<String>)
        requires
            self.wf(),
        ensures
            r is Some <==> self.top() + i < self.doc().len(),
            r matches Some(t) ==> t@ == rendered(
                self.doc()[self.top() + i].chars(),
                self.doc()[self.top() + i].widths(),
                self.left(),
                self.text_cols(),
            ),
    {
        let n = self.lines.len();
        if i >= n || self.frame_start_row >= n - i {
            return None;
        }
        let r = self.frame_start_row + i;
        assert(self.doc()[r as int].inv());
        let tw = self.text_width_exec();
        Some(self.lines[r].render(self.frame_start_char_ix, tw))
    }
}

/// Centering a view that satisfies its invariant, as every operation leaves
/// it, keeps the frame where it is: centering twice in a row moves the frame
/// no more than centering once.
pub proof fn lemma_center_idempotent<L: Line>(v: View<L>)
    requires
        v.wf(),
        v.doc().len() > 0,
    ensures
        center_frame(v.row_widths(), v.ix(), v.left(), v.cols(), v.text_cols()) == (
            v.left(),
            v.screen_col(),
        ),
{
    assert(v.doc()[v.row() as int].inv());
    v.doc()[v.row() as int].lemma_widths();
    lemma_center_fixed(v.row_widths(), v.ix(), v.left(), v.screen_col(), v.cols(), v.text_cols());
}

} // verus!
