use vstd::prelude::*;
use vstd::arithmetic::div_mod::lemma_add_mod_noop;
use vstd::string::*;
use vstd::utf8::is_ascii_chars;

use crate::ascii_line::{
    AsciiLine,
    TAB_STOP,
    column_widths,
    columns_taken,
    lemma_column_widths_append,
    lemma_column_widths_phase,
    lemma_columns_taken_concat,
};
use crate::line::{Line, fit_count, rendered, widths_positive};
use crate::text::push_char;

verus! {

/// What a token of a pretty-printed JSON document stands for.
#[derive(Debug, Clone, Copy, PartialEq, Eq, Structural)]
pub enum JsonTokenTag {
    ObjectStart,
    ObjectEnd,
    ArrayStart,
    ArrayEnd,
    Colon,
    Comma,
    Null,
    Bool,
    Number,
    String,
    ObjectKey,
    Whitespace,
    Ref,
}

/// A piece of a pretty-printed JSON line: its kind and its ASCII text.
#[derive(Debug, Clone, PartialEq, Eq)]
pub struct JsonToken {
    tag: JsonTokenTag,
    text: AsciiLine,
}

/// One line of a pretty-printed JSON document, as a run of tokens.
#[derive(Debug, Clone, PartialEq, Eq)]
pub struct JsonLine {
    tokens: Vec<JsonToken>,
}

/// The characters of `s` between double quotes.
pub open spec fn quoted(s: Seq<char>) -> Seq<char> {
    seq!['"'] + s + seq!['"']
}

/// Whether a string value reads as a path into the document (`#/...`).
pub open spec fn is_ref_text(s: Seq<char>) -> bool {
    s.len() >= 2 && s[0] == '#' && s[1] == '/'
}

/// `n` spaces.
pub open spec fn spaces(n: nat) -> Seq<char> {
    Seq::new(n, |i: int| ' ')
}

impl View for JsonToken {
    type V = Seq<char>;

    closed spec fn view(&self) -> Seq<char> {
        self.text@
    }
}

/// Build a `String` with the characters of a short literal.
fn string_of(s: &str) -> (r: String)
    ensures
        r@ == s@,
{
    s.to_string()
}

impl JsonToken {
    /// The kind of the token.
    pub closed spec fn kind(&self) -> JsonTokenTag {
        self.tag
    }

    fn from_ascii(tag: JsonTokenTag, s: String) -> (t: JsonToken)
        requires
            is_ascii_chars(s@),
        ensures
            t.inv(),
            t.kind() == tag,
            t@ == s@,
    {
        JsonToken { tag, text: AsciiLine::from_ascii(s) }
    }

    /// `s` spaces.
    pub fn ws(s: usize) -> (t: JsonToken)
        ensures
            t.inv(),
            t.kind() == JsonTokenTag::Whitespace,
            t@ == spaces(s as nat),
    {
        let mut text = String::new();
        let mut i: usize = 0;
        while i < s
            invariant
                i <= s,
                text@ =~= spaces(i as nat),
            decreases s - i,
        {
            push_char(&mut text, ' ');
            i = i + 1;
        }
        JsonToken::from_ascii(JsonTokenTag::Whitespace, text)
    }

    /// `true` or `false`.
    pub fn bool(b: bool) -> (t: JsonToken)
        ensures
            t.inv(),
            t.kind() == JsonTokenTag::Bool,
            t@ == (if b {
                seq!['t', 'r', 'u', 'e']
            } else {
                seq!['f', 'a', 'l', 's', 'e']
            }),
    {
        proof {
            reveal_strlit("true");
            reveal_strlit("false");
        }
        let text = if b {
            string_of("true")
        } else {
            string_of("false")
        };
        assert(text@ =~= (if b {
            seq!['t', 'r', 'u', 'e']
        } else {
            seq!['f', 'a', 'l', 's', 'e']
        }));
        JsonToken::from_ascii(JsonTokenTag::Bool, text)
    }

    /// `null`.
    pub fn null() -> (t: JsonToken)
        ensures
            t.inv(),
            t.kind() == JsonTokenTag::Null,
            t@ == seq!['n', 'u', 'l', 'l'],
    {
        proof {
            reveal_strlit("null");
        }
        let text = string_of("null");
        assert(text@ =~= seq!['n', 'u', 'l', 'l']);
        JsonToken::from_ascii(JsonTokenTag::Null, text)
    }

    /// A number, written as `n`. Fails, handing `n` back, when `n` is not
    /// ASCII.
    pub fn number(n: String) -> (r: Result<JsonToken, String>)
        ensures
            r is Ok <==> is_ascii_chars(n@),
            r matches Ok(t) ==> t.inv() && t.kind() == JsonTokenTag::Number && t@ == n@,
            r matches Err(e) ==> e == n,
    {
        match AsciiLine::new(n) {
            Ok(text) => Ok(JsonToken { tag: JsonTokenTag::Number, text }),
            Err(e) => Err(e),
        }
    }

    /// Put `s` between double quotes and keep it as the text of a token of
    /// kind `tag`, or hand the quoted text back when it is not ASCII.
    fn quoted_token(s: &str, ref_tag: JsonTokenTag, plain_tag: JsonTokenTag) -> (r: Result<
        JsonToken,
        String,
    >)
        ensures
            r is Ok <==> is_ascii_chars(s@),
            r matches Ok(t) ==> t.inv() && t@ == quoted(s@) && t.kind() == (if is_ref_text(s@) {
                ref_tag
            } else {
                plain_tag
            }),
            r matches Err(e) ==> e@ == quoted(s@),
    {
        let mut q = String::new();
        push_char(&mut q, '"');
        q.append(s);
        push_char(&mut q, '"');
        assert(q@ =~= quoted(s@));
        proof {
            if is_ascii_chars(s@) {
                assert(is_ascii_chars(q@)) by {
                    assert forall|i: int| 0 <= i < q@.len() implies '\0' <= #[trigger] q@[i] <= '\u{7f}' by {
                        if 0 < i < q@.len() - 1 {
                            assert(q@[i] == s@[i - 1]);
                        }
                    }
                }
            } else {
                let i = choose|i: int| 0 <= i < s@.len() && !('\0' <= #[trigger] s@[i] <= '\u{7f}');
                assert(q@[i + 1] == s@[i]);
            }
        }
        match AsciiLine::new(q) {
            Ok(text) => {
                let n = text.len();
                let is_ref = n >= 4 && text.char_at(1) == '#' && text.char_at(2) == '/';
                assert(is_ref == is_ref_text(s@)) by {
                    if n >= 4 {
                        assert(text@[1] == s@[0] && text@[2] == s@[1]);
                    }
                }
                let tag = if is_ref {
                    ref_tag
                } else {
                    plain_tag
                };
                Ok(JsonToken { tag, text })
            },
            Err(e) => Err(e),
        }
    }

    /// A string value between double quotes; of kind `Ref` when it starts
    /// with `#/`. Fails, handing the quoted text back, when `s` is not ASCII.
    pub fn string(s: String) -> (r: Result<JsonToken, String>)
        ensures
            r is Ok <==> is_ascii_chars(s@),
            r matches Ok(t) ==> t.inv() && t@ == quoted(s@) && t.kind() == (if is_ref_text(s@) {
                JsonTokenTag::Ref
            } else {
                JsonTokenTag::String
            }),
            r matches Err(e) ==> e@ == quoted(s@),
    {
        JsonToken::quoted_token(s.as_str(), JsonTokenTag::Ref, JsonTokenTag::String)
    }

    /// An object key between double quotes. Fails, handing the quoted text
    /// back, when `s` is not ASCII.
    pub fn object_key(s: String) -> (r: Result<JsonToken, String>)
        ensures
            r is Ok <==> is_ascii_chars(s@),
            r matches Ok(t) ==> t.inv() && t@ == quoted(s@) && t.kind() == JsonTokenTag::ObjectKey,
            r matches Err(e) ==> e@ == quoted(s@),
    {
        JsonToken::quoted_token(s.as_str(), JsonTokenTag::ObjectKey, JsonTokenTag::ObjectKey)
    }

    fn single(tag: JsonTokenTag, c: char) -> (t: JsonToken)
        requires
            c <= '\u{7f}',
        ensures
            t.inv(),
            t.kind() == tag,
            t@ == seq![c],
    {
        let mut text = String::new();
        push_char(&mut text, c);
        assert(text@ =~= seq![c]);
        JsonToken::from_ascii(tag, text)
    }

    /// `[`.
    pub fn array_start() -> (t: JsonToken)
        ensures
            t.inv(),
            t.kind() == JsonTokenTag::ArrayStart,
            t@ == seq!['['],
    {
        JsonToken::single(JsonTokenTag::ArrayStart, '[')
    }

    /// `]`.
    pub fn array_end() -> (t: JsonToken)
        ensures
            t.inv(),
            t.kind() == JsonTokenTag::ArrayEnd,
            t@ == seq![']'],
    {
        JsonToken::single(JsonTokenTag::ArrayEnd, ']')
    }

    /// `{`.
    pub fn object_start() -> (t: JsonToken)
        ensures
            t.inv(),
            t.kind() == JsonTokenTag::ObjectStart,
            t@ == seq!['{'],
    {
        JsonToken::single(JsonTokenTag::ObjectStart, '{')
    }

    /// `}`.
    pub fn object_end() -> (t: JsonToken)
        ensures
            t.inv(),
            t.kind() == JsonTokenTag::ObjectEnd,
            t@ == seq!['}'],
    {
        JsonToken::single(JsonTokenTag::ObjectEnd, '}')
    }

    /// `,`.
    pub fn comma() -> (t: JsonToken)
        ensures
            t.inv(),
            t.kind() == JsonTokenTag::Comma,
            t@ == seq![','],
    {
        JsonToken::single(JsonTokenTag::Comma, ',')
    }

    /// `:`.
    pub fn colon() -> (t: JsonToken)
        ensures
            t.inv(),
            t.kind() == JsonTokenTag::Colon,
            t@ == seq![':'],
    {
        JsonToken::single(JsonTokenTag::Colon, ':')
    }

    /// The character at index `i` of the token's text.
    pub(crate) fn char_at(&self, i: usize) -> (c: char)
        requires
            self.inv(),
            i < self@.len(),
        ensures
            c == self@[i as int],
    {
        self.text.char_at(i)
    }

    /// The kind of the token.
    pub fn tag(&self) -> (r: JsonTokenTag)
        ensures
            r == self.kind(),
    {
        self.tag
    }

    /// The text of the token, quotes included.
    pub fn text(&self) -> (r: &str)
        ensures
            r@ == self@,
    {
        self.text.line()
    }
}

impl Line for JsonToken {
    closed spec fn inv(&self) -> bool {
        self.text.inv()
    }

    open spec fn chars(&self) -> Seq<char> {
        self@
    }

    closed spec fn widths(&self) -> Seq<nat> {
        self.text.widths()
    }

    proof fn lemma_widths(&self) {
        self.text.lemma_widths();
    }

    fn render(&self, start: usize, width: usize) -> (r: String) {
        self.text.render(start, width)
    }

    fn chars_count(&self) -> (r: usize) {
        self.text.chars_count()
    }

    fn char_width(&self, idx: usize) -> (r: u16) {
        self.text.char_width(idx)
    }

    fn indent(&mut self, first_col: usize) {
        self.text.indent(first_col);
    }
}

/// The characters of a run of tokens, one token after the other.
pub open spec fn all_chars(ts: Seq<JsonToken>) -> Seq<char>
    decreases ts.len(),
{
    if ts.len() == 0 {
        Seq::empty()
    } else {
        ts[0]@ + all_chars(ts.drop_first())
    }
}

/// The column widths of a run of tokens, one token after the other.
pub open spec fn all_widths(ts: Seq<JsonToken>) -> Seq<nat>
    decreases ts.len(),
{
    if ts.len() == 0 {
        Seq::empty()
    } else {
        ts[0].widths() + all_widths(ts.drop_first())
    }
}

/// Whether some token of `ts` is of kind `tag`.
pub open spec fn is_token_kind(ts: Seq<JsonToken>, tag: JsonTokenTag) -> bool {
    exists|k: int| 0 <= k < ts.len() && ts[k].kind() == tag
}

/// The texts of styled pieces, one after the other.
pub open spec fn segment_texts(segs: Seq<(JsonTokenTag, String)>) -> Seq<char>
    decreases segs.len(),
{
    if segs.len() == 0 {
        Seq::empty()
    } else {
        segment_texts(segs.drop_last()) + segs.last().1@
    }
}

/// The pieces of the tokens `ts`, the first of which starts at character
/// `off` of its line, that fall within characters `[s, e)`: one for each
/// token with characters there, holding its kind and those characters.
pub open spec fn pieces(ts: Seq<JsonToken>, off: nat, s: nat, e: nat) -> Seq<
    (JsonTokenTag, Seq<char>),
>
    decreases ts.len(),
{
    if ts.len() == 0 {
        Seq::empty()
    } else {
        let t = ts[0];
        let end = off + t@.len();
        let lo = if s > off {
            s
        } else {
            off
        };
        let hi = if e < end {
            e
        } else {
            end
        };
        let rest = pieces(ts.drop_first(), end, s, e);
        if lo < hi {
            seq![(t.kind(), t@.subrange(lo - off, hi - off))] + rest
        } else {
            rest
        }
    }
}

/// Styled pieces as the contracts see them.
pub open spec fn pieces_model(r: Seq<(JsonTokenTag, String)>) -> Seq<(JsonTokenTag, Seq<char>)> {
    r.map_values(|p: (JsonTokenTag, String)| (p.0, p.1@))
}

/// `x` brought within `[s, e]`.
pub open spec fn clamp(x: int, s: int, e: int) -> int {
    if x < s {
        s
    } else if x > e {
        e
    } else {
        x
    }
}

proof fn lemma_pieces_none(ts: Seq<JsonToken>, off: nat, s: nat, e: nat)
    requires
        e <= s,
    ensures
        pieces(ts, off, s, e) == Seq::<(JsonTokenTag, Seq<char>)>::empty(),
    decreases ts.len(),
{
    if ts.len() > 0 {
        lemma_pieces_none(ts.drop_first(), off + ts[0]@.len(), s, e);
    }
}

proof fn lemma_fit_count_bound(ws: Seq<nat>, start: nat, budget: nat)
    requires
        start <= ws.len(),
    ensures
        start + fit_count(ws, start, budget) <= ws.len(),
    decreases ws.len() - start,
{
    if start < ws.len() && ws[start as int] <= budget {
        lemma_fit_count_bound(ws, start + 1, (budget - ws[start as int]) as nat);
    }
}

/// Index of the first character of token `k` within its line.
pub open spec fn token_start(ts: Seq<JsonToken>, k: int) -> nat {
    all_chars(ts.take(k)).len()
}

/// Whether every token of the run is consistent.
pub open spec fn tokens_ok(ts: Seq<JsonToken>) -> bool {
    forall|k: int| 0 <= k < ts.len() ==> #[trigger] ts[k].inv()
}

/// Cutting a run of tokens in two cuts its characters and widths in two.
pub proof fn lemma_split(ts: Seq<JsonToken>, k: int)
    requires
        0 <= k <= ts.len(),
    ensures
        all_chars(ts) == all_chars(ts.take(k)) + all_chars(ts.skip(k)),
        all_widths(ts) == all_widths(ts.take(k)) + all_widths(ts.skip(k)),
    decreases ts.len(),
{
    if k == 0 {
        assert(ts.take(0) =~= Seq::<JsonToken>::empty());
        assert(ts.skip(0) =~= ts);
        assert(all_chars(ts) =~= all_chars(ts.take(k)) + all_chars(ts.skip(k)));
        assert(all_widths(ts) =~= all_widths(ts.take(k)) + all_widths(ts.skip(k)));
    } else {
        let df = ts.drop_first();
        lemma_split(df, k - 1);
        assert(ts.take(k).drop_first() =~= df.take(k - 1));
        assert(ts.skip(k) =~= df.skip(k - 1));
        assert(ts.take(k)[0] == ts[0]);
        assert(all_chars(ts) =~= all_chars(ts.take(k)) + all_chars(ts.skip(k)));
        assert(all_widths(ts) =~= all_widths(ts.take(k)) + all_widths(ts.skip(k)));
    }
}

/// Widths and characters of consistent tokens match one for one.
pub proof fn lemma_all_widths(ts: Seq<JsonToken>)
    requires
        tokens_ok(ts),
    ensures
        all_widths(ts).len() == all_chars(ts).len(),
        widths_positive(all_widths(ts)),
    decreases ts.len(),
{
    if ts.len() > 0 {
        let df = ts.drop_first();
        assert(ts[0].inv());
        ts[0].lemma_widths();
        assert(tokens_ok(df)) by {
            assert forall|k: int| 0 <= k < df.len() implies #[trigger] df[k].inv() by {
                assert(df[k] == ts[k + 1]);
            }
        }
        lemma_all_widths(df);
        let w = all_widths(ts);
        assert forall|i: int| 0 <= i < w.len() implies #[trigger] w[i] >= 1 by {
            if i < ts[0].widths().len() {
                assert(w[i] == ts[0].widths()[i]);
            } else {
                assert(w[i] == all_widths(df)[i - ts[0].widths().len()]);
            }
        }
    }
}

/// A run of one token has that token's characters and widths.
pub proof fn lemma_single(t: JsonToken)
    ensures
        all_chars(seq![t]) == t@,
        all_widths(seq![t]) == t.widths(),
{
    let s = seq![t];
    assert(s.drop_first() =~= Seq::<JsonToken>::empty());
    assert(all_chars(s) =~= t@ + all_chars(s.drop_first()));
    assert(all_widths(s) =~= t.widths() + all_widths(s.drop_first()));
}

/// One more token, indented where the previous ones end, keeps the widths of
/// the run those of its text from the first column.
proof fn lemma_indent_step(ts: Seq<JsonToken>, k: int, fc: nat, col: nat)
    requires
        0 <= k < ts.len(),
        all_widths(ts.take(k)) == column_widths(all_chars(ts.take(k)), fc),
        col % (TAB_STOP as nat) == (fc + columns_taken(all_widths(ts.take(k)))) % (TAB_STOP as nat),
        ts[k].widths() == column_widths(ts[k]@, col),
    ensures
        all_widths(ts.take(k + 1)) == column_widths(all_chars(ts.take(k + 1)), fc),
        (col + columns_taken(ts[k].widths())) % (TAB_STOP as nat) == (fc + columns_taken(
            all_widths(ts.take(k + 1)),
        )) % (TAB_STOP as nat),
{
    let a = ts.take(k);
    let t = ts[k];
    lemma_split(ts.take(k + 1), k);
    assert(ts.take(k + 1).take(k) =~= a);
    assert(ts.take(k + 1).skip(k) =~= seq![t]);
    lemma_single(t);
    let taken = columns_taken(all_widths(a));
    lemma_column_widths_append(all_chars(a), t@, fc);
    lemma_column_widths_phase(t@, (fc + taken) as nat, col);
    lemma_columns_taken_concat(all_widths(a), t.widths());
    lemma_add_mod_noop(col as int, columns_taken(t.widths()) as int, 8);
    lemma_add_mod_noop((fc + taken) as int, columns_taken(t.widths()) as int, 8);
}

/// Runs of tokens with the same texts have the same characters.
pub proof fn lemma_same_chars(a: Seq<JsonToken>, b: Seq<JsonToken>)
    requires
        a.len() == b.len(),
        forall|j: int| 0 <= j < a.len() ==> #[trigger] a[j]@ == b[j]@,
    ensures
        all_chars(a) == all_chars(b),
    decreases a.len(),
{
    if a.len() > 0 {
        lemma_same_chars(a.drop_first(), b.drop_first());
    }
}

impl JsonLine {
    /// The tokens of the line.
    pub closed spec fn parts(&self) -> Seq<JsonToken> {
        self.tokens@
    }

    /// A line made of `tokens`.
    pub fn new(tokens: Vec<JsonToken>) -> (l: JsonLine)
        ensures
            l.parts() == tokens@,
    {
        JsonLine { tokens }
    }

    /// Put `prefix` before the tokens of the line.
    pub(crate) fn prepend(&mut self, prefix: Vec<JsonToken>)
        ensures
            final(self).parts() == prefix@ + old(self).parts(),
    {
        let mut toks = prefix;
        toks.append(&mut self.tokens);
        self.tokens = toks;
    }

    /// Put `t` after the tokens of the line.
    pub(crate) fn push(&mut self, t: JsonToken)
        ensures
            final(self).parts() == old(self).parts().push(t),
    {
        self.tokens.push(t);
    }

    /// Whether the tokens' texts, put together, have a length that a `usize`
    /// holds.
    pub(crate) fn fits(&self) -> (r: bool)
        requires
            tokens_ok(self.parts()),
        ensures
            r == (all_chars(self.parts()).len() <= usize::MAX),
            r ==> self.inv(),
    {
        let ghost ts = self.tokens@;
        let n = self.tokens.len();
        let mut total: usize = 0;
        let mut k: usize = 0;
        while k < n
            invariant
                n == ts.len(),
                ts == self.tokens@,
                tokens_ok(ts),
                k <= n,
                total == token_start(ts, k as int),
            decreases n - k,
        {
            proof {
                lemma_split(ts, k as int);
                lemma_split(ts, k + 1);
                lemma_split(ts.take(k + 1), k as int);
                assert(ts.take(k + 1).take(k as int) =~= ts.take(k as int));
                assert(ts.take(k + 1).skip(k as int) =~= seq![ts[k as int]]);
                lemma_single(ts[k as int]);
                assert(ts[k as int].inv());
            }
            let c = self.tokens[k].chars_count();
            if c > usize::MAX - total {
                return false;
            }
            total = total + c;
            k = k + 1;
        }
        proof {
            assert(ts.take(n as int) =~= ts);
        }
        true
    }

    /// The characters that `render(start, width)` shows, cut where one token
    /// ends and the next begins: one piece per token with characters on
    /// show, holding the token's kind and those characters. The kind tells
    /// how the piece is styled.
    pub fn render_tokens(&self, start: usize, width: usize) -> (r: Vec<(JsonTokenTag, String)>)
        requires
            self.inv(),
        ensures
            segment_texts(r@) == rendered(self.chars(), self.widths(), start as nat, width as nat),
            pieces_model(r@) == pieces(
                self.parts(),
                0,
                start as nat,
                (start + rendered(self.chars(), self.widths(), start as nat, width as nat).len()) as nat,
            ),
    {
        let ghost ts = self.tokens@;
        let ghost cs = self.chars();
        let ghost shown_spec = rendered(cs, self.widths(), start as nat, width as nat);
        let n = self.chars_count();
        let mut out: Vec<(JsonTokenTag, String)> = Vec::new();
        if start >= n {
            proof {
                lemma_pieces_none(ts, 0, start as nat, start as nat);
            }
            assert(segment_texts(out@) =~= shown_spec);
            assert(pieces_model(out@) =~= Seq::<(JsonTokenTag, Seq<char>)>::empty());
            return out;
        }
        let shown = self.render(start, width);
        proof {
            self.lemma_widths();
            lemma_fit_count_bound(self.widths(), start as nat, width as nat);
        }
        let e = start + shown.as_str().unicode_len();
        assert(shown_spec =~= cs.subrange(start as int, e as int));
        let m = self.tokens.len();
        let mut off: usize = 0;
        let mut k: usize = 0;
        proof {
            assert(ts.take(0) =~= Seq::<JsonToken>::empty());
            assert(ts.skip(0) =~= ts);
        }
        while k < m
            invariant
                m == ts.len(),
                ts == self.tokens@,
                cs == self.chars(),
                self.inv(),
                n == cs.len(),
                start < n,
                start <= e <= n,
                k <= m,
                off == token_start(ts, k as int),
                off <= n,
                pieces(ts, 0, start as nat, e as nat) == pieces_model(out@) + pieces(
                    ts.skip(k as int),
                    off as nat,
                    start as nat,
                    e as nat,
                ),
                segment_texts(out@) == cs.subrange(start as int, clamp(off as int, start as int, e as int)),
            decreases m - k,
        {
            let ghost t = ts[k as int];
            proof {
                self.lemma_token_inv(k as int);
                self.lemma_unique_token(off as int);
                lemma_split(ts.take(k + 1), k as int);
                assert(ts.take(k + 1).take(k as int) =~= ts.take(k as int));
                assert(ts.take(k + 1).skip(k as int) =~= seq![t]);
                lemma_single(t);
                lemma_split(ts, k as int);
                lemma_split(ts, k + 1);
                assert(ts.skip(k as int)[0] == t);
                assert(ts.skip(k as int).drop_first() =~= ts.skip(k + 1));
                assert forall|j: int| 0 <= j < t@.len() implies cs[off + j] == t@[j] by {
                    self.lemma_at(k as int, j);
                }
            }
            let c = self.tokens[k].chars_count();
            let lo = if start > off {
                start
            } else {
                off
            };
            let hi = if e < off + c {
                e
            } else {
                off + c
            };
            let ghost before = out@;
            if lo < hi {
                let mut text = String::new();
                let mut j: usize = lo - off;
                while j < hi - off
                    invariant
                        self.inv(),
                        k < m,
                        m == ts.len(),
                        ts == self.tokens@,
                        t == ts[k as int],
                        t.inv(),
                        c == t@.len(),
                        off <= lo < hi <= off + c,
                        lo - off <= j <= hi - off,
                        hi - off <= c,
                        text@ =~= t@.subrange(lo - off, j as int),
                    decreases hi - off - j,
                {
                    let ch = self.tokens[k].char_at(j);
                    push_char(&mut text, ch);
                    j = j + 1;
                }
                let tag = self.tokens[k].tag;
                out.push((tag, text));
                proof {
                    assert(out@.drop_last() =~= before);
                    assert(pieces_model(out@) =~= pieces_model(before).push((t.kind(), t@.subrange(lo - off, hi - off))));
                    assert(cs.subrange(start as int, hi as int) =~= cs.subrange(start as int, lo as int)
                        + t@.subrange(lo - off, hi - off));
                }
            }
            proof {
                assert(pieces(ts, 0, start as nat, e as nat) =~= pieces_model(out@) + pieces(
                    ts.skip(k + 1),
                    (off + c) as nat,
                    start as nat,
                    e as nat,
                ));
                assert(segment_texts(out@) =~= cs.subrange(start as int, clamp(off + c, start as int, e as int)));
            }
            off = off + c;
            k = k + 1;
        }
        proof {
            assert(ts.take(m as int) =~= ts);
            assert(ts.skip(m as int) =~= Seq::<JsonToken>::empty());
            assert(pieces_model(out@) =~= pieces(ts, 0, start as nat, e as nat));
        }
        out
    }

    /// The tokens of the line.
    pub fn tokens(&self) -> (r: &Vec<JsonToken>)
        ensures
            r@ == self.parts(),
    {
        &self.tokens
    }

    /// Find the token that holds character `idx`: its index and the
    /// character's offset within it.
    fn locate(&self, idx: usize) -> (r: (usize, usize))
        requires
            self.inv(),
            idx < self.chars().len(),
        ensures
            r.0 < self.parts().len(),
            token_start(self.parts(), r.0 as int) + r.1 == idx,
            r.1 < self.parts()[r.0 as int]@.len(),
    {
        let ghost ts = self.tokens@;
        let n = self.tokens.len();
        let mut col: usize = 0;
        let mut k: usize = 0;
        while k < n
            invariant
                n == ts.len(),
                ts == self.tokens@,
                self.inv(),
                k <= n,
                col == token_start(ts, k as int),
                col <= idx,
            decreases n - k,
        {
            proof {
                lemma_split(ts, k as int);
                lemma_split(ts.take(k + 1), k as int);
                assert(ts.take(k + 1).take(k as int) =~= ts.take(k as int));
                assert(ts.take(k + 1).skip(k as int) =~= seq![ts[k as int]]);
                lemma_single(ts[k as int]);
                assert(ts[k as int].inv());
            }
            let c = self.tokens[k].chars_count();
            if idx < col + c {
                return (k, idx - col);
            }
            col = col + c;
            k = k + 1;
        }
        proof {
            assert(ts.take(n as int) =~= ts);
        }
        (0, 0)
    }

    /// The token under character `idx`, if the line is that long.
    pub fn token_at(&self, idx: usize) -> (r: Option<&JsonToken>)
        requires
            self.inv(),
        ensures
            r is Some <==> idx < self.chars().len(),
            r matches Some(t) ==> exists|k: int|
                0 <= k < self.parts().len() && *t == self.parts()[k] && token_start(self.parts(), k)
                    <= idx < token_start(self.parts(), k) + self.parts()[k]@.len(),
    {
        let n = self.chars_count();
        if idx < n {
            let (k, _) = self.locate(idx);
            Some(&self.tokens[k])
        } else {
            None
        }
    }

    /// Each token of a consistent line is consistent.
    pub(crate) proof fn lemma_token_inv(&self, k: int)
        requires
            self.inv(),
            0 <= k < self.parts().len(),
        ensures
            self.parts()[k].inv(),
    {
    }

    /// At most one token covers a character index, and none covers one past
    /// the line's end.
    pub(crate) proof fn lemma_unique_token(&self, idx: int)
        requires
            self.inv(),
        ensures
            forall|k1: int, k2: int|
                0 <= k1 < self.parts().len() && 0 <= k2 < self.parts().len() && #[trigger] token_start(
                    self.parts(),
                    k1,
                ) <= idx < token_start(self.parts(), k1) + self.parts()[k1]@.len() && token_start(
                    self.parts(),
                    k2,
                ) <= idx < #[trigger] token_start(self.parts(), k2) + self.parts()[k2]@.len() ==> k1 == k2,
            forall|k: int|
                0 <= k < self.parts().len() && #[trigger] token_start(self.parts(), k) <= idx
                    < token_start(self.parts(), k) + self.parts()[k]@.len() ==> idx < self.chars().len(),
    {
        let ts = self.parts();
        assert forall|k: int| 0 <= k < ts.len() implies #[trigger] token_start(ts, k) + ts[k]@.len()
            <= all_chars(ts).len() && token_start(ts, k + 1) == token_start(ts, k) + ts[k]@.len() by {
            lemma_split(ts, k);
            lemma_split(ts.take(k + 1), k);
            assert(ts.take(k + 1).take(k) =~= ts.take(k));
            assert(ts.take(k + 1).skip(k) =~= seq![ts[k]]);
            lemma_single(ts[k]);
            lemma_split(ts, k + 1);
        }
        assert forall|k1: int, k2: int| 0 <= k1 < k2 < ts.len() implies #[trigger] token_start(ts, k1)
            + ts[k1]@.len() <= #[trigger] token_start(ts, k2) by {
            lemma_split(ts.take(k2), k1 + 1);
            assert(ts.take(k2).take(k1 + 1) =~= ts.take(k1 + 1));
        }
    }

    /// The characters of a consistent line can be counted in a `usize`.
    pub(crate) proof fn lemma_chars_fit(&self)
        requires
            self.inv(),
        ensures
            self.chars().len() <= usize::MAX,
    {
    }

    /// The character at index `idx`.
    fn char_at(&self, idx: usize) -> (c: char)
        requires
            self.inv(),
            idx < self.chars().len(),
        ensures
            c == self.chars()[idx as int],
    {
        let (k, off) = self.locate(idx);
        proof {
            self.lemma_at(k as int, off as int);
        }
        self.tokens[k].text.char_at(off)
    }

    proof fn lemma_at(&self, k: int, off: int)
        requires
            self.inv(),
            0 <= k < self.parts().len(),
            0 <= off < self.parts()[k]@.len(),
        ensures
            self.parts()[k].inv(),
            self.parts()[k].widths().len() == self.parts()[k]@.len(),
            token_start(self.parts(), k) + off < self.chars().len(),
            self.chars()[token_start(self.parts(), k) + off] == self.parts()[k]@[off],
            self.widths()[token_start(self.parts(), k) + off] == self.parts()[k].widths()[off],
    {
        let ts = self.tokens@;
        lemma_split(ts, k);
        assert(ts[k].inv());
        ts[k].lemma_widths();
        assert(tokens_ok(ts.take(k))) by {
            assert forall|j: int| 0 <= j < ts.take(k).len() implies #[trigger] ts.take(k)[j].inv() by {
                assert(ts.take(k)[j] == ts[j]);
            }
        }
        lemma_all_widths(ts.take(k));
        let rest = ts.skip(k);
        assert(rest[0] == ts[k]);
        let start = token_start(ts, k) as int;
        assert(self.chars()[start + off] == all_chars(rest)[off]);
        assert(self.widths()[start + off] == all_widths(rest)[off]);
    }
}

impl Line for JsonLine {
    closed spec fn inv(&self) -> bool {
        &&& tokens_ok(self.tokens@)
        &&& all_chars(self.tokens@).len() <= usize::MAX
    }

    open spec fn chars(&self) -> Seq<char> {
        all_chars(self.parts())
    }

    open spec fn widths(&self) -> Seq<nat> {
        all_widths(self.parts())
    }

    proof fn lemma_widths(&self) {
        lemma_all_widths(self.tokens@);
    }

    fn render(&self, start: usize, width: usize) -> (r: String) {
        let n = self.chars_count();
        let ghost ws = self.widths();
        proof {
            self.lemma_widths();
        }
        let mut out = String::new();
        if start >= n {
            return out;
        }
        let mut w: usize = 0;
        let mut i: usize = start;
        while i < n
            invariant
                n == self.chars().len(),
                self.inv(),
                ws == self.widths(),
                ws.len() == n,
                start <= i <= n,
                w <= width,
                out@ =~= self.chars().subrange(start as int, i as int),
                fit_count(ws, start as nat, width as nat) == (i - start) + fit_count(
                    ws,
                    i as nat,
                    (width - w) as nat,
                ),
            decreases n - i,
        {
            let cw = self.char_width(i) as usize;
            if cw > width - w {
                assert(fit_count(ws, i as nat, (width - w) as nat) == 0);
                assert(out@ =~= rendered(self.chars(), ws, start as nat, width as nat));
                return out;
            }
            w = w + cw;
            let c = self.char_at(i);
            push_char(&mut out, c);
            i = i + 1;
        }
        assert(fit_count(ws, i as nat, (width - w) as nat) == 0);
        assert(out@ =~= rendered(self.chars(), ws, start as nat, width as nat));
        out
    }

    fn chars_count(&self) -> (r: usize) {
        let ghost ts = self.tokens@;
        let n = self.tokens.len();
        let mut total: usize = 0;
        let mut k: usize = 0;
        while k < n
            invariant
                n == ts.len(),
                ts == self.tokens@,
                self.inv(),
                k <= n,
                total == token_start(ts, k as int),
            decreases n - k,
        {
            proof {
                lemma_split(ts, k as int);
                lemma_split(ts, k + 1);
                lemma_split(ts.take(k + 1), k as int);
                assert(ts.take(k + 1).take(k as int) =~= ts.take(k as int));
                assert(ts.take(k + 1).skip(k as int) =~= seq![ts[k as int]]);
                lemma_single(ts[k as int]);
                assert(ts[k as int].inv());
            }
            total = total + self.tokens[k].chars_count();
            k = k + 1;
        }
        proof {
            assert(ts.take(n as int) =~= ts);
        }
        total
    }

    fn char_width(&self, idx: usize) -> (r: u16) {
        let (k, off) = self.locate(idx);
        proof {
            self.lemma_at(k as int, off as int);
        }
        self.tokens[k].char_width(off)
    }

    fn indent(&mut self, first_col: usize) {
        let ghost ts = self.tokens@;
        let ghost fc = first_col as nat;
        let n = self.tokens.len();
        let mut col: usize = first_col;
        let mut k: usize = 0;
        proof {
            assert(self.tokens@.take(0) =~= Seq::<JsonToken>::empty());
            assert(column_widths(Seq::<char>::empty(), fc) =~= Seq::<nat>::empty());
        }
        while k < n
            invariant
                n == ts.len(),
                n == self.tokens@.len(),
                tokens_ok(self.tokens@),
                all_chars(ts).len() <= usize::MAX,
                forall|j: int| 0 <= j < n ==> #[trigger] self.tokens@[j]@ == ts[j]@,
                k <= n,
                all_widths(self.tokens@.take(k as int)) == column_widths(
                    all_chars(self.tokens@.take(k as int)),
                    fc,
                ),
                col % TAB_STOP == (fc + columns_taken(all_widths(self.tokens@.take(k as int))))
                    % (TAB_STOP as nat),
            decreases n - k,
        {
            let ghost before = self.tokens@;
            self.tokens[k].indent(col);
            let ghost now = self.tokens@;
            assert(now.take(k as int) =~= before.take(k as int));
            let c = self.tokens[k].chars_count();
            let ghost wk = now[k as int].widths();
            proof {
                now[k as int].lemma_widths();
            }
            let mut phase: usize = col % TAB_STOP;
            let mut i: usize = 0;
            assert(wk.take(0) =~= Seq::<nat>::empty());
            while i < c
                invariant
                    k < n,
                    n == self.tokens@.len(),
                    self.tokens@ == now,
                    now[k as int].inv(),
                    wk == now[k as int].widths(),
                    wk.len() == c,
                    c == now[k as int]@.len(),
                    i <= c,
                    phase < TAB_STOP,
                    phase == (col + columns_taken(wk.take(i as int))) % (TAB_STOP as int),
                decreases c - i,
            {
                let w = self.tokens[k].char_width(i) as usize;
                proof {
                    assert(wk.take(i + 1) =~= wk.take(i as int) + seq![wk[i as int]]);
                    lemma_columns_taken_concat(wk.take(i as int), seq![wk[i as int]]);
                    assert(seq![wk[i as int]].drop_first() =~= Seq::<nat>::empty());
                    let before_i = col + columns_taken(wk.take(i as int));
                    lemma_add_mod_noop(before_i, w as int, 8);
                    let one = seq![wk[i as int]];
                    assert(one.drop_first() =~= Seq::<nat>::empty());
                    assert(columns_taken(one.drop_first()) == 0);
                    assert(columns_taken(one) == wk[i as int]);
                    assert(w == wk[i as int]);
                    assert(columns_taken(wk.take(i + 1)) == columns_taken(wk.take(i as int)) + w);
                }
                phase = (phase + w % TAB_STOP) % TAB_STOP;
                i = i + 1;
            }
            proof {
                assert(wk.take(c as int) =~= wk);
                lemma_indent_step(now, k as int, fc, col as nat);
            }
            col = phase;
            k = k + 1;
        }
        proof {
            assert(self.tokens@.take(n as int) =~= self.tokens@);
            lemma_same_chars(self.tokens@, ts);
        }
    }
}

} // verus!
