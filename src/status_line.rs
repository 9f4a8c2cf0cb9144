use vstd::prelude::*;

use crate::ascii_line::AsciiLine;
use crate::line::{Line, rendered};

verus! {

/// What the status line is being used for.
#[derive(Debug, Clone, Copy, PartialEq, Eq, Structural)]
pub enum StatusLineMode {
    Query,
    Command,
}

impl StatusLineMode {
    /// The character the status line shows before what is typed.
    pub open spec fn prompt(self) -> char {
        match self {
            StatusLineMode::Query => '#',
            StatusLineMode::Command => ':',
        }
    }

    /// Which history list belongs to the mode.
    pub open spec fn slot(self) -> nat {
        match self {
            StatusLineMode::Query => 0,
            StatusLineMode::Command => 1,
        }
    }

    fn id(self) -> (r: usize)
        ensures
            r == self.slot(),
    {
        match self {
            StatusLineMode::Query => 0,
            StatusLineMode::Command => 1,
        }
    }
}

/// The one-line text entry under the view, for commands and queries, with a
/// history per mode.
pub struct StatusLine {
    frame_start_col: usize,
    col_char_ix: usize,
    cursor_row: u16,
    cursor_col: usize,
    width: u16,
    buffer: AsciiLine,
    mode: StatusLineMode,
    error: Option<AsciiLine>,
    history: Vec<Vec<AsciiLine>>,
    history_t: Option<usize>,
}

impl StatusLine {
    /// The text typed so far, prompt included.
    pub closed spec fn typed(&self) -> Seq<char> {
        self.buffer@
    }

    /// The index of the character before which the next one is typed.
    pub closed spec fn cursor(&self) -> nat {
        self.col_char_ix as nat
    }

    /// The current mode.
    pub closed spec fn current_mode(&self) -> StatusLineMode {
        self.mode
    }

    /// The entries saved for the mode with history slot `m`, oldest first.
    pub closed spec fn saved(&self, m: nat) -> Seq<Seq<char>> {
        self.history@[m as int]@.map_values(|l: AsciiLine| l@)
    }

    /// Where a walk through the history stands, if one is going on.
    pub closed spec fn history_pos(&self) -> Option<usize> {
        self.history_t
    }

    /// The error shown instead of the text, if any.
    pub closed spec fn shown_error(&self) -> Option<Seq<char>> {
        match self.error {
            Some(e) => Some(e@),
            None => None,
        }
    }

    /// The column widths of the typed characters.
    pub closed spec fn typed_widths(&self) -> Seq<nat> {
        self.buffer.widths()
    }

    /// The width of the line, in columns.
    pub closed spec fn columns(&self) -> nat {
        self.width as nat
    }

    /// The screen column of the cursor: the last column of the character
    /// before which the next one is typed.
    pub closed spec fn screen_col(&self) -> usize {
        self.cursor_col
    }

    /// The screen row the line is drawn on.
    pub closed spec fn screen_row(&self) -> u16 {
        self.cursor_row
    }

    /// The first character shown.
    pub closed spec fn first_shown(&self) -> nat {
        self.frame_start_col as nat
    }

    /// The status line's invariant.
    pub closed spec fn wf(&self) -> bool {
        &&& self.buffer.inv()
        &&& self.col_char_ix <= self.buffer@.len()
        &&& self.frame_start_col <= self.col_char_ix
        &&& self.history@.len() == 2
        &&& forall|m: int, i: int|
            0 <= m < 2 && 0 <= i < self.history@[m]@.len() ==> (#[trigger] self.history@[m]@[i]).inv()
        &&& self.error matches Some(e) ==> e.inv()
    }

    /// An empty status line in command mode, drawn on row `cursor_row`,
    /// `width` columns wide.
    pub fn new(cursor_row: u16, width: u16) -> (r: StatusLine)
        ensures
            r.wf(),
            r.typed() == Seq::<char>::empty(),
            r.cursor() == 0,
            r.current_mode() == StatusLineMode::Command,
            r.shown_error() is None,
            r.history_pos() is None,
            r.saved(0) == Seq::<Seq<char>>::empty(),
            r.saved(1) == Seq::<Seq<char>>::empty(),
            r.screen_row() == cursor_row,
            r.columns() == width,
            r.first_shown() == 0,
            r.screen_col() == 0,
    {
        let buffer = AsciiLine::from_ascii(String::new());
        let r = StatusLine {
            cursor_row,
            cursor_col: 0,
            frame_start_col: 0,
            col_char_ix: 0,
            mode: StatusLineMode::Command,
            width,
            error: None,
            buffer,
            history: vec![Vec::new(), Vec::new()],
            history_t: None,
        };
        assert(r.saved(0) =~= Seq::<Seq<char>>::empty());
        assert(r.saved(1) =~= Seq::<Seq<char>>::empty());
        r
    }

    /// What was typed after the prompt.
    pub fn text(&self) -> (r: &str)
        requires
            self.wf(),
        ensures
            r@ == if self.typed().len() > 0 {
                self.typed().drop_first()
            } else {
                Seq::empty()
            },
    {
        let n = self.buffer.len();
        let s = self.buffer.line();
        proof {
            self.buffer.lemma_ascii();
        }
        if n == 0 {
            let r = s.substring_ascii(0, 0);
            assert(r@ =~= Seq::<char>::empty());
            r
        } else {
            let r = s.substring_ascii(1, n);
            assert(r@ =~= self.typed().drop_first());
            r
        }
    }

    /// The current mode.
    pub fn mode(&self) -> (r: StatusLineMode)
        ensures
            r == self.current_mode(),
    {
        self.mode
    }

    /// Start typing in mode `mode`: the line is cleared and shows the mode's
    /// prompt.
    pub fn activate(&mut self, mode: StatusLineMode)
        requires
            old(self).wf(),
        ensures
            final(self).wf(),
            final(self).typed() == seq![mode.prompt()],
            final(self).cursor() == 1,
            final(self).current_mode() == mode,
            final(self).shown_error() is None,
            final(self).history_pos() is None,
            forall|m: nat| m < 2 ==> #[trigger] final(self).saved(m) == old(self).saved(m),
    {
        let ghost s0 = *self;
        self.clear();
        let ghost sc = *self;
        self.mode = mode;
        let ghost s1 = *self;
        assert forall|m: nat| m < 2 implies #[trigger] s1.saved(m) == s0.saved(m) by {
            assert(sc.saved(m) == s0.saved(m));
            assert(s1.history == sc.history);
        }
        match mode {
            StatusLineMode::Command => self.insert(':'),
            StatusLineMode::Query => self.insert('#'),
        }
        assert(self.typed() =~= seq![mode.prompt()]);
        assert forall|m: nat| m < 2 implies #[trigger] self.saved(m) == s0.saved(m) by {
            assert(self.saved(m) == s1.saved(m));
        }
    }

    /// Type `c` at the cursor, which moves past it; anything but ASCII is
    /// ignored.
    pub fn insert(&mut self, c: char)
        requires
            old(self).wf(),
        ensures
            final(self).wf(),
            final(self).current_mode() == old(self).current_mode(),
            final(self).history_pos() == old(self).history_pos(),
            final(self).shown_error() == old(self).shown_error(),
            forall|m: nat| m < 2 ==> #[trigger] final(self).saved(m) == old(self).saved(m),
            if c <= '\u{7f}' {
                &&& final(self).typed() == old(self).typed().insert(old(self).cursor() as int, c)
                &&& final(self).cursor() == old(self).cursor() + 1
            } else {
                *final(self) == *old(self)
            },
    {
        if !(c <= '\u{7f}') {
            return;
        }
        self.buffer.insert(self.col_char_ix, c);
        self.right();
    }

    /// Delete the character before the cursor, which moves back one (but not
    /// onto the prompt, nor past the end).
    pub fn remove(&mut self)
        requires
            old(self).wf(),
        ensures
            final(self).wf(),
            final(self).current_mode() == old(self).current_mode(),
            final(self).history_pos() == old(self).history_pos(),
            final(self).shown_error() == old(self).shown_error(),
            forall|m: nat| m < 2 ==> #[trigger] final(self).saved(m) == old(self).saved(m),
            if old(self).cursor() > 0 {
                &&& final(self).typed() == old(self).typed().remove(old(self).cursor() - 1)
                &&& final(self).cursor() == if old(self).cursor() > 1 {
                    (old(self).cursor() - 1) as nat
                } else {
                    min_len(old(self).cursor(), final(self).typed().len())
                }
            } else {
                &&& final(self).typed() == old(self).typed()
                &&& final(self).cursor() == old(self).cursor()
            },
    {
        if self.col_char_ix == 0 {
            return;
        }
        self.buffer.remove(self.col_char_ix - 1);
        if self.col_char_ix > 1 {
            self.col_char_ix = self.col_char_ix - 1;
        } else {
            let n = self.buffer.len();
            if self.col_char_ix > n {
                self.col_char_ix = n;
            }
        }
        if self.frame_start_col > self.col_char_ix {
            self.frame_start_col = self.col_char_ix;
        }
        self.center_horizontally();
    }

    /// Empty the line: no text, no error, no history walk, command mode.
    pub fn clear(&mut self)
        requires
            old(self).wf(),
        ensures
            final(self).wf(),
            final(self).typed() == Seq::<char>::empty(),
            final(self).cursor() == 0,
            final(self).first_shown() == 0,
            final(self).screen_col() == 0,
            final(self).current_mode() == StatusLineMode::Command,
            final(self).shown_error() is None,
            final(self).history_pos() is None,
            forall|m: nat| m < 2 ==> #[trigger] final(self).saved(m) == old(self).saved(m),
            final(self).screen_row() == old(self).screen_row(),
            final(self).columns() == old(self).columns(),
    {
        self.buffer.clear();
        self.cursor_col = 0;
        self.frame_start_col = 0;
        self.col_char_ix = 0;
        self.error = None;
        self.history_t = None;
        self.mode = StatusLineMode::Command;
    }

    /// Show `error` instead of the text.
    pub fn set_error(&mut self, error: AsciiLine)
        requires
            old(self).wf(),
            error.inv(),
        ensures
            final(self).wf(),
            final(self).shown_error() == Some(error@),
            final(self).typed() == old(self).typed(),
            final(self).cursor() == old(self).cursor(),
            final(self).current_mode() == old(self).current_mode(),
            final(self).history_pos() == old(self).history_pos(),
            forall|m: nat| m < 2 ==> #[trigger] final(self).saved(m) == old(self).saved(m),
    {
        self.error = Some(error);
    }

    /// Show the text again instead of an error.
    pub fn no_error(&mut self)
        requires
            old(self).wf(),
        ensures
            final(self).wf(),
            final(self).shown_error() is None,
            final(self).typed() == old(self).typed(),
            final(self).cursor() == old(self).cursor(),
            final(self).current_mode() == old(self).current_mode(),
            final(self).history_pos() == old(self).history_pos(),
            forall|m: nat| m < 2 ==> #[trigger] final(self).saved(m) == old(self).saved(m),
    {
        self.error = None;
    }

    /// Whether nothing is typed, not even the prompt.
    pub fn is_empty(&self) -> (r: bool)
        requires
            self.wf(),
        ensures
            r == (self.typed().len() == 0),
    {
        self.buffer.chars_count() == 0
    }

    /// Keep the current text in the current mode's history.
    pub fn save_history(&mut self)
        requires
            old(self).wf(),
        ensures
            final(self).wf(),
            final(self).typed() == old(self).typed(),
            final(self).cursor() == old(self).cursor(),
            final(self).current_mode() == old(self).current_mode(),
            final(self).history_pos() == old(self).history_pos(),
            final(self).shown_error() == old(self).shown_error(),
            final(self).saved(old(self).current_mode().slot()) == old(self).saved(
                old(self).current_mode().slot(),
            ).push(old(self).typed()),
            final(self).saved((1 - old(self).current_mode().slot()) as nat) == old(self).saved(
                (1 - old(self).current_mode().slot()) as nat,
            ),
    {
        let m = self.mode.id();
        let copy = self.buffer.duplicate();
        self.history[m].push(copy);
        assert(self.saved(m as nat) =~= old(self).saved(m as nat).push(old(self).typed()));
        assert(self.saved((1 - m) as nat) =~= old(self).saved((1 - m) as nat));
    }

    /// Show the previous entry of the current mode's history (the last one,
    /// when no walk is going on); at the oldest entry nothing changes.
    pub fn history_up(&mut self)
        requires
            old(self).wf(),
        ensures
            final(self).wf(),
            final(self).current_mode() == old(self).current_mode(),
            forall|m: nat| m < 2 ==> #[trigger] final(self).saved(m) == old(self).saved(m),
            old(self).history_pos() == Some(0usize) ==> *final(self) == *old(self),
            old(self).history_pos() != Some(0usize) ==> {
                let h = old(self).saved(old(self).current_mode().slot());
                let pos: usize = match old(self).history_pos() {
                    Some(i) => (i - 1) as usize,
                    None => if h.len() > 0 {
                        (h.len() - 1) as usize
                    } else {
                        0usize
                    },
                };
                &&& final(self).history_pos() == Some(pos)
                &&& pos < h.len() ==> final(self).typed() == h[pos as int] && final(self).cursor()
                    == h[pos as int].len()
                &&& pos >= h.len() ==> final(self).typed() == old(self).typed()
                    && final(self).cursor() == old(self).cursor()
            },
    {
        let m = self.mode.id();
        let n = self.history[m].len();
        let pos = match self.history_t {
            None => if n > 0 {
                n - 1
            } else {
                0
            },
            Some(0) => {
                return;
            },
            Some(i) => i - 1,
        };
        self.history_t = Some(pos);
        self.copy_buffer_from_history();
    }

    /// Show the next entry of the current mode's history; past the newest,
    /// start afresh with just the prompt. Without a walk going on, nothing
    /// changes.
    pub fn history_down(&mut self)
        requires
            old(self).wf(),
        ensures
            final(self).wf(),
            final(self).current_mode() == old(self).current_mode(),
            forall|m: nat| m < 2 ==> #[trigger] final(self).saved(m) == old(self).saved(m),
            match old(self).history_pos() {
                None => *final(self) == *old(self),
                Some(i) => {
                    let h = old(self).saved(old(self).current_mode().slot());
                    if i >= h.len() {
                        *final(self) == *old(self)
                    } else if i + 1 >= h.len() {
                        &&& final(self).typed() == seq![old(self).current_mode().prompt()]
                        &&& final(self).cursor() == 1
                        &&& final(self).history_pos() is None
                        &&& final(self).shown_error() is None
                    } else {
                        &&& final(self).history_pos() == Some((i + 1) as usize)
                        &&& final(self).typed() == h[i + 1]
                        &&& final(self).cursor() == h[i + 1].len()
                    }
                },
            },
    {
        let m = self.mode.id();
        let n = self.history[m].len();
        match self.history_t {
            None => {},
            Some(i) => {
                if i >= n {
                } else if i + 1 >= n {
                    let mode = self.mode;
                    self.activate(mode);
                } else {
                    self.history_t = Some(i + 1);
                    self.copy_buffer_from_history();
                }
            },
        }
    }

    /// Show the history entry the walk stands on, with the cursor at its
    /// end.
    fn copy_buffer_from_history(&mut self)
        requires
            old(self).wf(),
            old(self).history_pos() is Some,
        ensures
            final(self).wf(),
            final(self).current_mode() == old(self).current_mode(),
            final(self).history_pos() == old(self).history_pos(),
            forall|m: nat| m < 2 ==> #[trigger] final(self).saved(m) == old(self).saved(m),
            ({
                let h = old(self).saved(old(self).current_mode().slot());
                let i = old(self).history_pos()->0;
                if i < h.len() {
                    final(self).typed() == h[i as int] && final(self).cursor() == h[i as int].len()
                } else {
                    final(self).typed() == old(self).typed() && final(self).cursor() == old(self).cursor()
                }
            }),
    {
        let i = match self.history_t {
            Some(i) => i,
            None => 0,
        };
        let m = self.mode.id();
        if i < self.history[m].len() {
            assert(self.history@[m as int]@[i as int].inv());
            let copy = self.history[m][i].duplicate();
            self.buffer = copy;
            self.col_char_ix = self.buffer.chars_count();
            self.frame_start_col = 0;
            self.center_horizontally();
        }
    }

    /// Move the cursor one character left, but not onto the prompt.
    pub fn left(&mut self)
        requires
            old(self).wf(),
        ensures
            final(self).wf(),
            final(self).typed() == old(self).typed(),
            final(self).cursor() == if old(self).cursor() <= 1 {
                old(self).cursor()
            } else {
                (old(self).cursor() - 1) as nat
            },
            final(self).current_mode() == old(self).current_mode(),
            final(self).history_pos() == old(self).history_pos(),
            final(self).shown_error() == old(self).shown_error(),
            forall|m: nat| m < 2 ==> #[trigger] final(self).saved(m) == old(self).saved(m),
    {
        if self.col_char_ix <= 1 {
            return;
        }
        self.col_char_ix = self.col_char_ix - 1;
        if self.frame_start_col > self.col_char_ix {
            self.frame_start_col = self.col_char_ix;
        }
        self.center_horizontally();
    }

    /// Move the cursor one character right, but not past the end.
    pub fn right(&mut self)
        requires
            old(self).wf(),
        ensures
            final(self).wf(),
            final(self).typed() == old(self).typed(),
            final(self).cursor() == if old(self).cursor() >= old(self).typed().len() {
                old(self).cursor()
            } else {
                old(self).cursor() + 1
            },
            final(self).current_mode() == old(self).current_mode(),
            final(self).history_pos() == old(self).history_pos(),
            final(self).shown_error() == old(self).shown_error(),
            forall|m: nat| m < 2 ==> #[trigger] final(self).saved(m) == old(self).saved(m),
    {
        let n = self.buffer.chars_count();
        if self.col_char_ix >= n {
            return;
        }
        self.col_char_ix = self.col_char_ix + 1;
        self.center_horizontally();
    }

    /// The typed text as shown: from the first character shown, as much as
    /// the width holds.
    pub fn visible_text(&self) -> (r: String)
        requires
            self.wf(),
        ensures
            r@ == rendered(self.typed(), self.typed_widths(), self.first_shown(), self.columns()),
    {
        self.buffer.render(self.frame_start_col, self.width as usize)
    }

    /// The error shown instead of the text, if any.
    pub fn error(&self) -> (r: Option<&AsciiLine>)
        ensures
            r matches Some(e) ==> self.shown_error() == Some(e@),
            r is None <==> self.shown_error() is None,
    {
        match &self.error {
            Some(e) => Some(e),
            None => None,
        }
    }

    /// The screen column of the cursor within the line.
    pub fn cursor_col(&self) -> (r: usize)
        ensures
            r == self.screen_col(),
    {
        self.cursor_col
    }

    /// The screen row of the line.
    pub fn cursor_row(&self) -> (r: u16)
        ensures
            r == self.screen_row(),
    {
        self.cursor_row
    }

    /// The width of the line, in columns.
    pub fn width(&self) -> (r: u16)
        ensures
            r as nat == self.columns(),
    {
        self.width
    }

    /// Choose the first character shown so that the cursor shows: walk left
    /// from the cursor, adding up widths, while they stay under the width.
    fn center_horizontally(&mut self)
        requires
            old(self).wf(),
        ensures
            final(self).wf(),
            final(self).typed() == old(self).typed(),
            final(self).cursor() == old(self).cursor(),
            final(self).current_mode() == old(self).current_mode(),
            final(self).history_pos() == old(self).history_pos(),
            final(self).shown_error() == old(self).shown_error(),
            forall|m: nat| m < 2 ==> #[trigger] final(self).saved(m) == old(self).saved(m),
    {
        let width = self.width as usize;
        let mut f = self.col_char_ix;
        let mut w: usize = 0;
        let mut done = false;
        while !done && f > 0
            invariant
                self.wf(),
                self.buffer.inv(),
                f <= self.col_char_ix,
                width <= u16::MAX,
                w <= width,
            decreases f + (if done {
                0int
            } else {
                1int
            }),
        {
            let cw = self.buffer.width_at(f) as usize;
            if w + cw >= width {
                done = true;
            } else {
                w = w + cw;
                f = f - 1;
            }
        }
        self.frame_start_col = f;
        let last = self.buffer.width_at(f) as usize;
        self.cursor_col = if w + last >= 1 {
            w + last - 1
        } else {
            0
        };
    }
}

/// The smaller of two numbers.
pub open spec fn min_len(a: nat, b: nat) -> nat {
    if a <= b {
        a
    } else {
        b
    }
}

} // verus!
