use vstd::prelude::*;
use std::collections::BTreeMap;
use vstd::utf8::is_ascii_chars;

use crate::line::{Line, fit_count, rendered, widths_positive};
use crate::text::{ascii_char_at, ascii_len, insert_char, push_char, remove_char};

verus! {

/// Tab stops stand every `TAB_STOP` screen columns.
pub const TAB_STOP: usize = 8;

/// Columns that a tab takes when it starts at screen column `col`: up to the
/// next tab stop.
pub open spec fn tab_width(col: nat) -> nat {
    (TAB_STOP - col % (TAB_STOP as nat)) as nat
}

/// Column widths of the characters `cs` when the first one stands at screen
/// column `col`: a tab reaches the next tab stop, anything else takes one.
pub open spec fn column_widths(cs: Seq<char>, col: nat) -> Seq<nat>
    decreases cs.len(),
{
    if cs.len() == 0 {
        Seq::empty()
    } else {
        let w = if cs[0] == '\t' {
            tab_width(col)
        } else {
            1
        };
        seq![w].add(column_widths(cs.drop_first(), col + w))
    }
}

/// Each width is between 1 and a tab stop, and 1 for anything but a tab.
pub proof fn lemma_column_widths(cs: Seq<char>, col: nat)
    ensures
        column_widths(cs, col).len() == cs.len(),
        forall|i: int|
            0 <= i < cs.len() ==> 1 <= #[trigger] column_widths(cs, col)[i] <= TAB_STOP,
        forall|i: int|
            0 <= i < cs.len() && cs[i] != '\t' ==> #[trigger] column_widths(cs, col)[i] == 1,
    decreases cs.len(),
{
    if cs.len() > 0 {
        let w = if cs[0] == '\t' {
            tab_width(col)
        } else {
            1
        };
        lemma_column_widths(cs.drop_first(), col + w);
        assert forall|i: int| 0 < i < cs.len() implies column_widths(cs, col)[i]
            == column_widths(cs.drop_first(), col + w)[i - 1] && cs[i] == cs.drop_first()[i - 1] by {}
    }
}

/// The screen columns that characters of widths `ws` take together.
pub open spec fn columns_taken(ws: Seq<nat>) -> nat
    decreases ws.len(),
{
    if ws.len() == 0 {
        0
    } else {
        ws[0] + columns_taken(ws.drop_first())
    }
}

/// Columns taken add up over a concatenation.
pub proof fn lemma_columns_taken_concat(a: Seq<nat>, b: Seq<nat>)
    ensures
        columns_taken(a + b) == columns_taken(a) + columns_taken(b),
    decreases a.len(),
{
    if a.len() == 0 {
        assert(a + b =~= b);
    } else {
        assert((a + b).drop_first() =~= a.drop_first() + b);
        lemma_columns_taken_concat(a.drop_first(), b);
    }
}

/// Widths depend on the starting column only through its place between two
/// tab stops.
pub proof fn lemma_column_widths_phase(cs: Seq<char>, a: nat, b: nat)
    requires
        a % (TAB_STOP as nat) == b % (TAB_STOP as nat),
    ensures
        column_widths(cs, a) == column_widths(cs, b),
    decreases cs.len(),
{
    if cs.len() > 0 {
        let w = if cs[0] == '\t' {
            tab_width(a)
        } else {
            1
        };
        assert((a + w) % 8 == (b + w) % 8);
        lemma_column_widths_phase(cs.drop_first(), a + w, b + w);
    }
}

/// The widths of two texts one after the other: the second starts where
/// the first ends.
pub proof fn lemma_column_widths_append(x: Seq<char>, y: Seq<char>, col: nat)
    ensures
        column_widths(x + y, col) == column_widths(x, col) + column_widths(
            y,
            col + columns_taken(column_widths(x, col)),
        ),
    decreases x.len(),
{
    if x.len() == 0 {
        assert(x + y =~= y);
        assert(column_widths(x, col) =~= Seq::<nat>::empty());
        assert(column_widths(x + y, col) =~= column_widths(x, col) + column_widths(
            y,
            col + columns_taken(column_widths(x, col)),
        ));
    } else {
        let w = if x[0] == '\t' {
            tab_width(col)
        } else {
            1
        };
        assert((x + y)[0] == x[0]);
        assert((x + y).drop_first() =~= x.drop_first() + y);
        lemma_column_widths_append(x.drop_first(), y, col + w);
        assert(column_widths(x, col).drop_first() =~= column_widths(x.drop_first(), col + w));
        assert(column_widths(x + y, col) =~= column_widths(x, col) + column_widths(
            y,
            col + columns_taken(column_widths(x, col)),
        ));
    }
}

/// Whether the sparse width table `m` holds exactly the tabs of `cs`, each
/// with its width in `ws`.
pub open spec fn table_matches(m: Map<usize, u8>, cs: Seq<char>, ws: Seq<nat>) -> bool {
    forall|j: usize|
        (#[trigger] m.contains_key(j) <==> (j < cs.len() && cs[j as int] == '\t')) && (
        m.contains_key(j) ==> m[j] as nat == ws[j as int])
}

/// A line of ASCII text that knows how many screen columns each of its
/// characters takes.
#[derive(Debug, Clone, PartialEq, Eq)]
pub struct AsciiLine {
    l: String,
    char_widths: BTreeMap<usize, u8>,
    first_col: usize,
}

impl View for AsciiLine {
    type V = Seq<char>;

    closed spec fn view(&self) -> Seq<char> {
        self.l@
    }
}

impl AsciiLine {
    /// The screen column at which the first character stands.
    pub closed spec fn start_col(&self) -> nat {
        self.first_col as nat
    }

    closed spec fn table_ok(&self) -> bool {
        &&& self.l@.len() <= usize::MAX
        &&& table_matches(self.char_widths@, self.l@, column_widths(self.l@, self.first_col as nat))
    }

    /// Fill the width table again for a first column `first_col`.
    fn recompute(&mut self, first_col: usize)
        requires
            is_ascii_chars(old(self).l@),
        ensures
            final(self).l@ == old(self).l@,
            final(self).first_col == first_col,
            final(self).table_ok(),
    {
        self.char_widths.clear();
        self.first_col = first_col;
        let n = ascii_len(&self.l);
        let ghost cs = self.l@;
        let ghost mut col: nat = first_col as nat;
        let ghost mut prefix: Seq<nat> = Seq::empty();
        let mut phase: usize = first_col % TAB_STOP;
        let mut i: usize = 0;
        assert(cs.subrange(0, n as int) =~= cs);
        while i < n
            invariant
                n == cs.len(),
                self.l@ == cs,
                self.first_col == first_col,
                is_ascii_chars(cs),
                i <= n,
                phase == col % (TAB_STOP as nat),
                prefix.len() == i,
                column_widths(cs, first_col as nat) =~= prefix + column_widths(
                    cs.subrange(i as int, n as int),
                    col,
                ),
                forall|j: usize|
                    (#[trigger] self.char_widths@.contains_key(j) <==> (j < i && cs[j as int]
                        == '\t')) && (self.char_widths@.contains_key(j)
                        ==> self.char_widths@[j] as nat == prefix[j as int]),
            decreases n - i,
        {
            let c = ascii_char_at(&self.l, i);
            let ghost rest = cs.subrange(i as int, n as int);
            assert(rest.drop_first() =~= cs.subrange(i + 1, n as int));
            let w: usize = if c == '\t' {
                TAB_STOP - phase
            } else {
                1
            };
            if c == '\t' {
                self.char_widths.insert(i, w as u8);
            }
            proof {
                assert(rest[0] == c);
                assert(column_widths(rest, col) =~= seq![w as nat] + column_widths(
                    rest.drop_first(),
                    (col + w) as nat,
                ));
                prefix = prefix.push(w as nat);
                col = (col + w) as nat;
            }
            phase = (phase + w) % TAB_STOP;
            i = i + 1;
        }
        proof {
            lemma_column_widths(cs, first_col as nat);
        }
    }
}

impl AsciiLine {
    /// Build a line from `l`. Fails, handing `l` back untouched, when it
    /// holds anything but ASCII.
    pub fn new(l: String) -> (r: Result<AsciiLine, String>)
        ensures
            is_ascii_chars(l@) <==> r is Ok,
            r matches Ok(line) ==> line.inv() && line@ == l@ && line.start_col() == 0,
            r matches Err(e) ==> e == l,
    {
        if l.is_ascii() {
            Ok(AsciiLine::from_ascii(l))
        } else {
            Err(l)
        }
    }

    /// Build a line from text already known to be ASCII.
    pub(crate) fn from_ascii(l: String) -> (line: AsciiLine)
        requires
            is_ascii_chars(l@),
        ensures
            line.inv(),
            line@ == l@,
            line.start_col() == 0,
    {
        let mut line = AsciiLine { l, char_widths: BTreeMap::new(), first_col: 0 };
        line.recompute(0);
        line
    }

    /// A consistent line holds ASCII text.
    pub proof fn lemma_ascii(&self)
        requires
            self.inv(),
        ensures
            is_ascii_chars(self@),
    {
    }

    /// A copy of the line.
    pub fn duplicate(&self) -> (r: AsciiLine)
        requires
            self.inv(),
        ensures
            r.inv(),
            r@ == self@,
            r.start_col() == self.start_col(),
    {
        AsciiLine { l: self.l.clone(), char_widths: self.char_widths.clone(), first_col: self.first_col }
    }

    /// The number of columns that character `idx` takes; 1 past the end.
    pub fn width_at(&self, idx: usize) -> (r: u16)
        requires
            self.inv(),
        ensures
            r as nat == if idx < self@.len() {
                self.widths()[idx as int]
            } else {
                1
            },
    {
        proof {
            lemma_column_widths(self@, self.start_col());
        }
        match self.char_widths.get(&idx) {
            Some(w) => *w as u16,
            None => 1,
        }
    }

    /// The character at index `i`.
    pub(crate) fn char_at(&self, i: usize) -> (c: char)
        requires
            self.inv(),
            i < self@.len(),
        ensures
            c == self@[i as int],
    {
        ascii_char_at(&self.l, i)
    }

    /// The text of the line.
    pub fn line(&self) -> (r: &str)
        ensures
            r@ == self@,
    {
        self.l.as_str()
    }

    /// The number of characters.
    pub fn len(&self) -> (r: usize)
        requires
            self.inv(),
        ensures
            r == self@.len(),
    {
        ascii_len(&self.l)
    }

    /// Whether the line holds no character.
    pub fn is_empty(&self) -> (r: bool)
        requires
            self.inv(),
        ensures
            r == (self@.len() == 0),
    {
        ascii_len(&self.l) == 0
    }

    /// Remove every character; the first column stays.
    pub fn clear(&mut self)
        requires
            old(self).inv(),
        ensures
            final(self).inv(),
            final(self)@ == Seq::<char>::empty(),
            final(self).start_col() == old(self).start_col(),
    {
        self.l = String::new();
        self.char_widths.clear();
        proof {
            assert(column_widths(self.l@, self.first_col as nat) =~= Seq::<nat>::empty());
        }
    }

    /// Insert the ASCII character `c` before index `ix` (at the end when `ix`
    /// is the length). The widths are filled again only when a tab is
    /// inserted or the line already holds one.
    pub fn insert(&mut self, ix: usize, c: char)
        requires
            old(self).inv(),
            ix <= old(self)@.len(),
            c <= '\u{7f}',
        ensures
            final(self).inv(),
            final(self)@ == old(self)@.insert(ix as int, c),
            final(self).start_col() == old(self).start_col(),
    {
        proof {
            self.lemma_table_empty();
        }
        insert_char(&mut self.l, ix, c);
        if c == '\t' || !self.char_widths.is_empty() {
            let first_col = self.first_col;
            self.recompute(first_col);
        } else {
            // the length is a usize, which the table's invariant records
            let n = ascii_len(&self.l);
            assert(n == self.l@.len());
            proof {
                assert forall|j: int| 0 <= j < self.l@.len() implies self.l@[j] != '\t' by {
                    if j > ix {
                        assert(self.l@[j] == old(self).l@[j - 1]);
                    } else if j < ix {
                        assert(self.l@[j] == old(self).l@[j]);
                    }
                }
                lemma_column_widths(self.l@, self.first_col as nat);
            }
        }
    }

    /// Remove the character at index `ix`. The widths are filled again only
    /// when the line holds a tab.
    pub fn remove(&mut self, ix: usize)
        requires
            old(self).inv(),
            ix < old(self)@.len(),
        ensures
            final(self).inv(),
            final(self)@ == old(self)@.remove(ix as int),
            final(self).start_col() == old(self).start_col(),
    {
        proof {
            self.lemma_table_empty();
        }
        remove_char(&mut self.l, ix);
        if !self.char_widths.is_empty() {
            let first_col = self.first_col;
            self.recompute(first_col);
        } else {
            proof {
                assert forall|j: int| 0 <= j < self.l@.len() implies self.l@[j] != '\t' by {
                    if j >= ix {
                        assert(self.l@[j] == old(self).l@[j + 1]);
                    } else {
                        assert(self.l@[j] == old(self).l@[j]);
                    }
                }
                lemma_column_widths(self.l@, self.first_col as nat);
            }
        }
    }

    /// An empty width table means a line without tabs.
    proof fn lemma_table_empty(&self)
        requires
            self.inv(),
        ensures
            self.char_widths@.is_empty() ==> forall|j: int|
                0 <= j < self.l@.len() ==> self.l@[j] != '\t',
    {
        if self.char_widths@.is_empty() {
            assert forall|j: int| 0 <= j < self.l@.len() implies self.l@[j] != '\t' by {
                if self.l@[j] == '\t' {
                    assert(self.char_widths@.contains_key(j as usize));
                    assert(self.char_widths@.dom().contains(j as usize));
                }
            }
        }
    }
}

impl Line for AsciiLine {
    closed spec fn inv(&self) -> bool {
        &&& is_ascii_chars(self.l@)
        &&& self.table_ok()
    }

    open spec fn chars(&self) -> Seq<char> {
        self@
    }

    open spec fn widths(&self) -> Seq<nat> {
        column_widths(self@, self.start_col())
    }

    proof fn lemma_widths(&self) {
        lemma_column_widths(self@, self.start_col());
    }

    fn render(&self, start: usize, width: usize) -> (r: String) {
        let n = ascii_len(&self.l);
        let ghost ws = self.widths();
        proof {
            lemma_column_widths(self@, self.start_col());
        }
        let mut rendered_text = String::new();
        if start >= n {
            return rendered_text;
        }
        let mut w: usize = 0;
        let mut i: usize = start;
        while i < n
            invariant
                n == self@.len(),
                self.inv(),
                ws == self.widths(),
                ws.len() == n,
                start <= i <= n,
                w <= width,
                rendered_text@ =~= self@.subrange(start as int, i as int),
                fit_count(ws, start as nat, width as nat) == (i - start) + fit_count(
                    ws,
                    i as nat,
                    (width - w) as nat,
                ),
            decreases n - i,
        {
            let cw = self.char_width(i) as usize;
            if cw > width - w {
                assert(fit_count(ws, i as nat, (width - w) as nat) == 0);
                assert(rendered_text@ =~= rendered(self@, ws, start as nat, width as nat));
                return rendered_text;
            }
            w = w + cw;
            let c = ascii_char_at(&self.l, i);
            push_char(&mut rendered_text, c);
            i = i + 1;
        }
        assert(fit_count(ws, i as nat, (width - w) as nat) == 0);
        assert(rendered_text@ =~= rendered(self@, ws, start as nat, width as nat));
        rendered_text
    }

    fn chars_count(&self) -> (r: usize) {
        ascii_len(&self.l)
    }

    fn char_width(&self, idx: usize) -> (r: u16) {
        proof {
            lemma_column_widths(self@, self.start_col());
        }
        match self.char_widths.get(&idx) {
            Some(w) => *w as u16,
            None => 1,
        }
    }

    fn indent(&mut self, first_col: usize)
        ensures
            final(self).start_col() == first_col,
    {
        self.recompute(first_col);
    }
}

} // verus!
