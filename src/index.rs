use vstd::prelude::*;

use crate::json::{JsonLine, JsonToken, JsonTokenTag, all_chars, token_start, lemma_split, lemma_single};
use crate::line::Line;
use crate::tokenize::{JsonValue, line_model, lines_model, pretty, token_model};
use crate::text::{decimal_text, push_decimal, push_char};

verus! {

/// Where a path of the document points: row and column on screen.
pub type Position = (usize, usize);

/// The state of a walk over the tokens of a document: the segments of the
/// current path, one frame per open container (the next array index, for an
/// array, and whether an entry was seen), and the paths found so far, each
/// with the row and column of its token.
pub struct Walk {
    pub path: Seq<Seq<char>>,
    pub frames: Seq<(Option<usize>, bool)>,
    pub found: Seq<(Seq<char>, usize, usize)>,
}

/// The walk before the first token: the path holds the root sentinel `#`.
pub open spec fn walk_start() -> Walk {
    Walk { path: seq![seq!['#']], frames: Seq::empty(), found: Seq::empty() }
}

/// `s` without its last element, if it has one.
pub open spec fn pop_last<A>(s: Seq<A>) -> Seq<A> {
    if s.len() > 0 {
        s.drop_last()
    } else {
        s
    }
}

/// The key that an object-key token's text names: the text without its
/// surrounding quotes.
pub open spec fn unquoted(text: Seq<char>) -> Seq<char> {
    if text.len() >= 2 {
        text.subrange(1, text.len() - 1)
    } else {
        Seq::empty()
    }
}

/// Whether a token of this kind stands for a value: a container's start, or
/// a leaf.
pub open spec fn is_value_start(tag: JsonTokenTag) -> bool {
    match tag {
        JsonTokenTag::ObjectStart | JsonTokenTag::ArrayStart | JsonTokenTag::Null
        | JsonTokenTag::Bool | JsonTokenTag::Number | JsonTokenTag::String
        | JsonTokenTag::Ref => true,
        _ => false,
    }
}

/// The path with, inside an array, the current index as one more segment.
pub open spec fn with_index(w: Walk) -> Seq<Seq<char>> {
    if w.frames.len() > 0 && w.frames.last().0 is Some {
        w.path.push(decimal_text(w.frames.last().0->0 as nat))
    } else {
        w.path
    }
}

/// The frames with the innermost container marked as having an entry.
pub open spec fn mark_entry(frames: Seq<(Option<usize>, bool)>) -> Seq<(Option<usize>, bool)> {
    if frames.len() > 0 {
        frames.update(frames.len() - 1, (frames.last().0, true))
    } else {
        frames
    }
}

/// One more array index (it stays put at the largest `usize`).
pub open spec fn next_index(ix: Option<usize>) -> Option<usize> {
    match ix {
        Some(i) => Some(if i < usize::MAX {
            (i + 1) as usize
        } else {
            i
        }),
        None => None,
    }
}

/// The walk after a token of kind `tag` and text `text` at `(row, col)`.
pub open spec fn step(w: Walk, tag: JsonTokenTag, text: Seq<char>, row: usize, col: usize) -> Walk {
    match tag {
        JsonTokenTag::ObjectStart | JsonTokenTag::ArrayStart => {
            let p = with_index(w);
            Walk {
                path: p.push(seq!['/']),
                frames: mark_entry(w.frames).push(
                    (
                        if tag is ArrayStart {
                            Some(0usize)
                        } else {
                            None
                        },
                        false,
                    ),
                ),
                found: w.found.push((p.flatten(), row, col)),
            }
        },
        JsonTokenTag::ObjectEnd | JsonTokenTag::ArrayEnd => {
            let had_entry = w.frames.len() > 0 && w.frames.last().1;
            let p = if had_entry {
                pop_last(w.path)
            } else {
                w.path
            };
            Walk { path: pop_last(p), frames: pop_last(w.frames), found: w.found }
        },
        JsonTokenTag::Comma => Walk {
            path: pop_last(w.path),
            frames: if w.frames.len() > 0 {
                w.frames.update(w.frames.len() - 1, (next_index(w.frames.last().0), true))
            } else {
                w.frames
            },
            found: w.found,
        },
        JsonTokenTag::ObjectKey => Walk {
            path: w.path.push(unquoted(text)),
            frames: w.frames,
            found: w.found,
        },
        JsonTokenTag::Null | JsonTokenTag::Bool | JsonTokenTag::Number | JsonTokenTag::String
        | JsonTokenTag::Ref => {
            let p = with_index(w);
            Walk { path: p, frames: mark_entry(w.frames), found: w.found.push((p.flatten(), row, col)) }
        },
        _ => w,
    }
}

/// The walk after the tokens `ts` of row `row`, from `w`.
pub open spec fn walk_tokens(w: Walk, ts: Seq<JsonToken>, row: usize) -> Walk
    decreases ts.len(),
{
    if ts.len() == 0 {
        w
    } else {
        let prev = ts.drop_last();
        step(
            walk_tokens(w, prev, row),
            ts.last().kind(),
            ts.last()@,
            row,
            all_chars(prev).len() as usize,
        )
    }
}

/// The walk after the lines `ls`.
pub open spec fn walk_lines(ls: Seq<JsonLine>) -> Walk
    decreases ls.len(),
{
    if ls.len() == 0 {
        walk_start()
    } else {
        walk_tokens(walk_lines(ls.drop_last()), ls.last().parts(), (ls.len() - 1) as usize)
    }
}

/// The first position recorded for `path`, if any.
pub open spec fn first_match(found: Seq<(Seq<char>, usize, usize)>, path: Seq<char>) -> Option<
    Position,
>
    decreases found.len(),
{
    if found.len() == 0 {
        None
    } else if found[0].0 == path {
        Some((found[0].1, found[0].2))
    } else {
        first_match(found.drop_first(), path)
    }
}

/// The paths of a document, each with where its value starts on screen.
#[derive(Debug)]
pub struct Index {
    entries: Vec<(String, usize, usize)>,
}

impl View for Index {
    type V = Seq<(Seq<char>, usize, usize)>;

    closed spec fn view(&self) -> Seq<(Seq<char>, usize, usize)> {
        self.entries@.map_values(|e: (String, usize, usize)| (e.0@, e.1, e.2))
    }
}

impl Index {
    /// An index without entries.
    pub fn new() -> (r: Index)
        ensures
            r@ == Seq::<(Seq<char>, usize, usize)>::empty(),
    {
        let r = Index { entries: Vec::new() };
        assert(r@ =~= Seq::<(Seq<char>, usize, usize)>::empty());
        r
    }

    /// The number of entries.
    pub fn len(&self) -> (r: usize)
        ensures
            r == self@.len(),
    {
        self.entries.len()
    }

    /// Where `path` points: the first entry recorded for it.
    pub fn get(&self, path: &str) -> (r: Option<Position>)
        ensures
            r == first_match(self@, path@),
    {
        let n = self.entries.len();
        let mut i: usize = 0;
        assert(self@.skip(0) =~= self@);
        while i < n
            invariant
                n == self@.len(),
                i <= n,
                first_match(self@, path@) == first_match(self@.skip(i as int), path@),
            decreases n - i,
        {
            assert(self@.skip(i as int)[0] == self@[i as int]);
            if string_eq(&self.entries[i].0, path) {
                return Some((self.entries[i].1, self.entries[i].2));
            }
            assert(self@.skip(i as int).drop_first() =~= self@.skip(i + 1));
            i = i + 1;
        }
        assert(self@.skip(i as int).len() == 0);
        None
    }
}

/// Whether `a` and `b` hold the same characters.
fn string_eq(a: &String, b: &str) -> (r: bool)
    ensures
        r == (a@ == b@),
{
    let b2 = b.to_string();
    *a == b2
}

/// The texts of a run of strings.
pub open spec fn texts(ss: Seq<String>) -> Seq<Seq<char>> {
    ss.map_values(|s: String| s@)
}

/// The segments of `path` put together.
fn join(path: &Vec<String>) -> (r: String)
    ensures
        r@ == texts(path@).flatten(),
{
    let mut out = String::new();
    let mut k: usize = 0;
    assert(texts(path@).take(0) =~= Seq::<Seq<char>>::empty());
    while k < path.len()
        invariant
            k <= path.len(),
            out@ == texts(path@).take(k as int).flatten(),
        decreases path.len() - k,
    {
        proof {
            assert(texts(path@).take(k + 1) =~= texts(path@).take(k as int).push(path@[k as int]@));
            texts(path@).take(k as int).lemma_flatten_push(path@[k as int]@);
        }
        out.append(path[k].as_str());
        k = k + 1;
    }
    assert(texts(path@).take(k as int) =~= texts(path@));
    out
}

/// The walk in progress, with the executable path, frames and entries.
struct Walker {
    path: Vec<String>,
    frames: Vec<(Option<usize>, bool)>,
    entries: Vec<(String, usize, usize)>,
}

impl Walker {
    spec fn model(&self) -> Walk {
        Walk {
            path: texts(self.path@),
            frames: self.frames@,
            found: self.entries@.map_values(|e: (String, usize, usize)| (e.0@, e.1, e.2)),
        }
    }

    /// Mark the innermost open container as having an entry.
    fn mark_entry(&mut self)
        ensures
            final(self).frames@ == mark_entry(old(self).frames@),
            final(self).path@ == old(self).path@,
            final(self).entries@ == old(self).entries@,
    {
        let n = self.frames.len();
        if n > 0 {
            let ix = self.frames[n - 1].0;
            self.frames.set(n - 1, (ix, true));
        }
        assert(self.frames@ =~= mark_entry(old(self).frames@));
    }

    /// Inside an array, push the current index onto the path.
    fn push_index(&mut self)
        ensures
            final(self).frames@ == old(self).frames@,
            final(self).entries@ == old(self).entries@,
            texts(final(self).path@) == with_index(old(self).model()),
    {
        let n = self.frames.len();
        if n > 0 {
            match self.frames[n - 1].0 {
                Some(ix) => {
                    let mut seg = String::new();
                    push_decimal(&mut seg, ix);
                    assert(seg@ =~= decimal_text(ix as nat));
                    self.path.push(seg);
                    assert(texts(self.path@) =~= with_index(old(self).model()));
                },
                None => {},
            }
        }
    }

    fn pop_path(&mut self)
        ensures
            final(self).frames@ == old(self).frames@,
            final(self).entries@ == old(self).entries@,
            texts(final(self).path@) == pop_last(texts(old(self).path@)),
    {
        if self.path.len() > 0 {
            self.path.pop();
            assert(texts(self.path@) =~= pop_last(texts(old(self).path@)));
        }
    }

    fn record(&mut self, row: usize, col: usize)
        ensures
            final(self).frames@ == old(self).frames@,
            final(self).path@ == old(self).path@,
            final(self).model().found == old(self).model().found.push(
                (texts(old(self).path@).flatten(), row, col),
            ),
    {
        let p = join(&self.path);
        self.entries.push((p, row, col));
        assert(self.model().found =~= old(self).model().found.push(
            (texts(old(self).path@).flatten(), row, col),
        ));
    }

    /// Take in token `t`, found at `(row, col)`.
    fn step(&mut self, t: &JsonToken, row: usize, col: usize)
        requires
            t.inv(),
        ensures
            final(self).model() == step(old(self).model(), t.kind(), t@, row, col),
    {
        let ghost w = self.model();
        match t.tag() {
            JsonTokenTag::ObjectStart | JsonTokenTag::ArrayStart => {
                self.mark_entry();
                assert(with_index(self.model()) == with_index(w));
                self.push_index();
                self.record(row, col);
                let mut slash = String::new();
                push_char(&mut slash, '/');
                self.path.push(slash);
                let ix = if t.tag() == JsonTokenTag::ArrayStart {
                    Some(0usize)
                } else {
                    None
                };
                self.frames.push((ix, false));
                assert(texts(self.path@) =~= with_index(w).push(seq!['/']));
            },
            JsonTokenTag::ObjectEnd | JsonTokenTag::ArrayEnd => {
                let had_entry = match self.frames.pop() {
                    Some(f) => f.1,
                    None => false,
                };
                assert(self.frames@ == pop_last(w.frames));
                if had_entry {
                    self.pop_path();
                }
                self.pop_path();
            },
            JsonTokenTag::Comma => {
                let n = self.frames.len();
                if n > 0 {
                    let ix = self.frames[n - 1].0;
                    let next = match ix {
                        Some(i) => Some(if i < usize::MAX {
                            i + 1
                        } else {
                            i
                        }),
                        None => None,
                    };
                    self.frames.set(n - 1, (next, true));
                }
                self.pop_path();
            },
            JsonTokenTag::ObjectKey => {
                let len = t.chars_count();
                let mut key = String::new();
                if len >= 2 {
                    let mut i: usize = 1;
                    while i < len - 1
                        invariant
                            t.inv(),
                            len == t@.len(),
                            len >= 2,
                            1 <= i <= len - 1,
                            key@ =~= t@.subrange(1, i as int),
                        decreases len - i,
                    {
                        let c = t.char_at(i);
                        push_char(&mut key, c);
                        i = i + 1;
                    }
                }
                assert(key@ =~= unquoted(t@));
                self.path.push(key);
                assert(texts(self.path@) =~= w.path.push(unquoted(t@)));
            },
            JsonTokenTag::Null | JsonTokenTag::Bool | JsonTokenTag::Number | JsonTokenTag::String
            | JsonTokenTag::Ref => {
                self.mark_entry();
                assert(with_index(self.model()) == with_index(w));
                self.push_index();
                self.record(row, col);
            },
            JsonTokenTag::Whitespace | JsonTokenTag::Colon => {},
        }
    }
}

/// Build the index of a pretty-printed document: walk its tokens in reading
/// order and record, for each container start and each leaf, the path that
/// leads to it and where it stands on screen.
pub fn index(lines: &[JsonLine]) -> (r: Index)
    requires
        forall|i: int| 0 <= i < lines@.len() ==> (#[trigger] lines@[i]).inv(),
    ensures
        r@ == walk_lines(lines@).found,
{
    let mut w = Walker { path: Vec::new(), frames: Vec::new(), entries: Vec::new() };
    let mut root = String::new();
    push_char(&mut root, '#');
    w.path.push(root);
    assert(w.model().path =~= walk_start().path);
    assert(w.model().found =~= walk_start().found);
    assert(walk_lines(lines@.take(0)) == walk_start());
    let n = lines.len();
    let mut r: usize = 0;
    while r < n
        invariant
            n == lines@.len(),
            forall|i: int| 0 <= i < lines@.len() ==> (#[trigger] lines@[i]).inv(),
            r <= n,
            w.model() == walk_lines(lines@.take(r as int)),
        decreases n - r,
    {
        let line = &lines[r];
        let tokens = line.tokens();
        let ghost ts = line.parts();
        let ghost start = w.model();
        assert(line.inv());
        let mut col: usize = 0;
        let mut k: usize = 0;
        assert(ts.take(0) =~= Seq::<JsonToken>::empty());
        while k < tokens.len()
            invariant
                tokens@ == ts,
                ts == lines@[r as int].parts(),
                lines@[r as int].inv(),
                r < n,
                n == lines@.len(),
                k <= tokens.len(),
                col == all_chars(ts.take(k as int)).len(),
                w.model() == walk_tokens(start, ts.take(k as int), r),
            decreases tokens.len() - k,
        {
            proof {
                lines@[r as int].lemma_token_inv(k as int);
                lemma_split(ts, k as int);
                lemma_split(ts, k + 1);
                lemma_split(ts.take(k + 1), k as int);
                assert(ts.take(k + 1).take(k as int) =~= ts.take(k as int));
                assert(ts.take(k + 1).skip(k as int) =~= seq![ts[k as int]]);
                lemma_single(ts[k as int]);
                assert(ts.take(k + 1).drop_last() =~= ts.take(k as int));
                assert(ts.take(k + 1).last() == ts[k as int]);
                lines@[r as int].lemma_chars_fit();
            }
            let t = &tokens[k];
            w.step(t, r, col);
            let c = t.chars_count();
            col = col + c;
            k = k + 1;
        }
        proof {
            assert(ts.take(k as int) =~= ts);
            assert(lines@.take(r + 1).drop_last() =~= lines@.take(r as int));
            assert(lines@.take(r + 1).last() == lines@[r as int]);
        }
        r = r + 1;
    }
    assert(lines@.take(n as int) =~= lines@);
    let index = Index { entries: w.entries };
    index
}

/// A query with one trailing `/` taken off.
pub open spec fn trim_query(q: Seq<char>) -> Seq<char> {
    if q.len() > 0 && q.last() == '/' {
        q.drop_last()
    } else {
        q
    }
}

/// Where the query `q` (`#/key/0/...`) leads, after one trailing `/` is
/// taken off; `None` when the index has no such path.
pub fn resolve_query(index: &Index, q: &str) -> (r: Option<Position>)
    ensures
        r == first_match(index@, trim_query(q@)),
{
    let n = q.unicode_len();
    if n > 0 && q.get_char(n - 1) == '/' {
        let t = q.substring_char(0, n - 1);
        assert(t@ =~= trim_query(q@));
        index.get(t)
    } else {
        index.get(q)
    }
}

/// The query that the token under character `col` of `line` holds, when it
/// is a reference (`"#/..."`): its text without the quotes.
pub fn ref_query(line: &JsonLine, col: usize) -> (r: Option<String>)
    requires
        line.inv(),
    ensures
        r matches Some(q) ==> exists|k: int|
            0 <= k < line.parts().len() && line.parts()[k].kind() == JsonTokenTag::Ref
                && token_start(line.parts(), k) <= col < token_start(line.parts(), k)
                + line.parts()[k]@.len() && q@ == unquoted(line.parts()[k]@),
        r is None ==> forall|k: int|
            0 <= k < line.parts().len() && token_start(line.parts(), k) <= col < token_start(
                line.parts(),
                k,
            ) + line.parts()[k]@.len() ==> line.parts()[k].kind() != JsonTokenTag::Ref,
{
    match line.token_at(col) {
        Some(t) => {
            if t.tag() == JsonTokenTag::Ref {
                let ghost k = choose|k: int|
                    0 <= k < line.parts().len() && *t == line.parts()[k] && token_start(
                        line.parts(),
                        k,
                    ) <= col < token_start(line.parts(), k) + line.parts()[k]@.len();
                proof {
                    line.lemma_token_inv(k);
                }
                let len = t.chars_count();
                let mut q = String::new();
                if len >= 2 {
                    let mut i: usize = 1;
                    while i < len - 1
                        invariant
                            t.inv(),
                            len == t@.len(),
                            len >= 2,
                            1 <= i <= len - 1,
                            q@ =~= t@.subrange(1, i as int),
                        decreases len - i,
                    {
                        let c = t.char_at(i);
                        push_char(&mut q, c);
                        i = i + 1;
                    }
                }
                assert(q@ =~= unquoted(t@));
                Some(q)
            } else {
                proof {
                    line.lemma_unique_token(col as int);
                }
                None
            }
        },
        None => {
            proof {
                line.lemma_unique_token(col as int);
            }
            None
        },
    }
}

/// Row and column of each container start and each leaf among the tokens
/// `ts` of row `row`, in reading order.
pub open spec fn token_positions(ts: Seq<JsonToken>, row: usize) -> Seq<Position>
    decreases ts.len(),
{
    if ts.len() == 0 {
        Seq::empty()
    } else {
        let prev = ts.drop_last();
        let p = token_positions(prev, row);
        if is_value_start(ts.last().kind()) {
            p.push((row, all_chars(prev).len() as usize))
        } else {
            p
        }
    }
}

/// Row and column of each container start and each leaf of the lines `ls`,
/// in reading order.
pub open spec fn value_positions(ls: Seq<JsonLine>) -> Seq<Position>
    decreases ls.len(),
{
    if ls.len() == 0 {
        Seq::empty()
    } else {
        value_positions(ls.drop_last()) + token_positions(ls.last().parts(), (ls.len() - 1) as usize)
    }
}

/// The positions of the entries found.
pub open spec fn found_positions(found: Seq<(Seq<char>, usize, usize)>) -> Seq<Position> {
    found.map_values(|e: (Seq<char>, usize, usize)| (e.1, e.2))
}

proof fn lemma_step_found(w: Walk, tag: JsonTokenTag, text: Seq<char>, row: usize, col: usize)
    ensures
        found_positions(step(w, tag, text, row, col).found) == if is_value_start(tag) {
            found_positions(w.found).push((row, col))
        } else {
            found_positions(w.found)
        },
        step(w, tag, text, row, col).found.take(w.found.len() as int) == w.found,
{
    let f = step(w, tag, text, row, col).found;
    assert(f.take(w.found.len() as int) =~= w.found);
    if is_value_start(tag) {
        assert(found_positions(f) =~= found_positions(w.found).push((row, col)));
    } else {
        assert(found_positions(f) =~= found_positions(w.found));
    }
}

proof fn lemma_walk_tokens_found(w: Walk, ts: Seq<JsonToken>, row: usize)
    ensures
        found_positions(walk_tokens(w, ts, row).found) == found_positions(w.found)
            + token_positions(ts, row),
        walk_tokens(w, ts, row).found.take(w.found.len() as int) == w.found,
        walk_tokens(w, ts, row).found.len() >= w.found.len(),
    decreases ts.len(),
{
    if ts.len() == 0 {
        assert(found_positions(w.found) + token_positions(ts, row) =~= found_positions(w.found));
        assert(w.found.take(w.found.len() as int) =~= w.found);
    } else {
        let prev = ts.drop_last();
        let mid = walk_tokens(w, prev, row);
        lemma_walk_tokens_found(w, prev, row);
        lemma_step_found(mid, ts.last().kind(), ts.last()@, row, all_chars(prev).len() as usize);
        let f = walk_tokens(w, ts, row).found;
        assert(f.take(w.found.len() as int) =~= mid.found.take(w.found.len() as int));
        if is_value_start(ts.last().kind()) {
            assert(found_positions(f) =~= found_positions(w.found) + token_positions(ts, row));
        } else {
            assert(found_positions(f) =~= found_positions(w.found) + token_positions(ts, row));
        }
    }
}

/// The index of any lines has one entry for each container start and each
/// leaf token, in reading order, each at that token's row and column.
pub proof fn lemma_index_positions(ls: Seq<JsonLine>)
    ensures
        found_positions(walk_lines(ls).found) == value_positions(ls),
    decreases ls.len(),
{
    if ls.len() == 0 {
        assert(found_positions(walk_lines(ls).found) =~= value_positions(ls));
    } else {
        lemma_index_positions(ls.drop_last());
        lemma_walk_tokens_found(
            walk_lines(ls.drop_last()),
            ls.last().parts(),
            (ls.len() - 1) as usize,
        );
    }
}

proof fn lemma_walk_lines_prefix(ls: Seq<JsonLine>, j: int)
    requires
        1 <= j <= ls.len(),
    ensures
        walk_lines(ls).found.len() >= walk_lines(ls.take(j)).found.len(),
        walk_lines(ls).found.take(walk_lines(ls.take(j)).found.len() as int) == walk_lines(
            ls.take(j),
        ).found,
    decreases ls.len(),
{
    if j == ls.len() {
        assert(ls.take(j) =~= ls);
        assert(walk_lines(ls).found.take(walk_lines(ls).found.len() as int) =~= walk_lines(
            ls,
        ).found);
    } else {
        let prev = ls.drop_last();
        assert(prev.take(j) =~= ls.take(j));
        lemma_walk_lines_prefix(prev, j);
        lemma_walk_tokens_found(walk_lines(prev), ls.last().parts(), (ls.len() - 1) as usize);
        let a = walk_lines(ls.take(j)).found;
        let b = walk_lines(prev).found;
        let c = walk_lines(ls).found;
        assert(c.take(a.len() as int) =~= b.take(a.len() as int));
    }
}

/// Index completeness for a pretty-printed document: every container start
/// and every leaf has exactly one entry, in reading order and at its
/// token's row and column; and the root, path `#`, which the query `#/`
/// names, stands at row 0, column 0.
pub proof fn lemma_index_complete(v: JsonValue, lines: Seq<JsonLine>)
    requires
        lines_model(lines) == pretty(v, 0),
    ensures
        found_positions(walk_lines(lines).found) == value_positions(lines),
        first_match(walk_lines(lines).found, trim_query(seq!['#', '/'])) == Some((0usize, 0usize)),
{
    lemma_index_positions(lines);
    let m = pretty(v, 0);
    assert(m.len() >= 1 && m[0].len() >= 1 && is_value_start(m[0][0].0)) by {
        match v {
            JsonValue::Array(a) => {
                if a.len() > 0 {
                    assert(m[0] == seq![(JsonTokenTag::ArrayStart, seq!['['])]);
                }
            },
            JsonValue::Object(ms) => {
                if ms.len() > 0 {
                    assert(m[0] == seq![(JsonTokenTag::ObjectStart, seq!['{'])]);
                }
            },
            _ => {},
        }
    }
    assert(lines.len() >= 1);
    let l0 = lines[0];
    assert(line_model(l0) == m[0]);
    let ts = l0.parts();
    assert(ts.len() >= 1);
    assert(token_model(ts[0]) == m[0][0]);
    let t0 = ts[0];
    lemma_walk_lines_prefix(lines, 1);
    let first = lines.take(1);
    assert(first.drop_last() =~= Seq::<JsonLine>::empty());
    assert(first.last() == l0);
    assert(first.len() == 1);
    assert(walk_lines(first.drop_last()) == walk_start());
    assert(walk_lines(first) == walk_tokens(walk_start(), ts, 0));
    lemma_walk_tokens_found(walk_tokens(walk_start(), ts.take(1), 0), ts.skip(1), 0);
    assert(ts.take(1).drop_last() =~= Seq::<JsonToken>::empty());
    assert(ts.take(1).last() == t0);
    assert(all_chars(Seq::<JsonToken>::empty()).len() == 0);
    let w1 = walk_tokens(walk_start(), ts.take(1), 0);
    assert(walk_tokens(walk_start(), ts.take(1).drop_last(), 0) == walk_start());
    assert(w1 == step(walk_start(), t0.kind(), t0@, 0, 0));
    assert(seq![seq!['#']].flatten() =~= seq!['#']) by {
        seq![seq!['#']].lemma_flatten_one_element();
    }
    assert(w1.found == seq![(seq!['#'], 0usize, 0usize)]);
    lemma_walk_tokens_prefix(walk_start(), ts, 1);
    let found = walk_lines(lines).found;
    let ff = walk_lines(first).found;
    assert(ff.take(1) == w1.found);
    assert(ff[0] == w1.found[0]);
    assert(found.take(ff.len() as int) == ff);
    assert(found[0] == ff[0]);
    assert(found[0] == (seq!['#'], 0usize, 0usize));
    assert(trim_query(seq!['#', '/']) =~= seq!['#']);
}

proof fn lemma_walk_tokens_prefix(w: Walk, ts: Seq<JsonToken>, j: int)
    requires
        0 <= j <= ts.len(),
    ensures
        walk_tokens(w, ts, 0).found.len() >= walk_tokens(w, ts.take(j), 0).found.len(),
        walk_tokens(w, ts, 0).found.take(walk_tokens(w, ts.take(j), 0).found.len() as int)
            == walk_tokens(w, ts.take(j), 0).found,
    decreases ts.len(),
{
    if j == ts.len() {
        assert(ts.take(j) =~= ts);
        assert(walk_tokens(w, ts, 0).found.take(walk_tokens(w, ts, 0).found.len() as int)
            =~= walk_tokens(w, ts, 0).found);
    } else {
        let prev = ts.drop_last();
        assert(prev.take(j) =~= ts.take(j));
        lemma_walk_tokens_prefix(w, prev, j);
        let mid = walk_tokens(w, prev, 0);
        lemma_step_found(mid, ts.last().kind(), ts.last()@, 0, all_chars(prev).len() as usize);
        let a = walk_tokens(w, ts.take(j), 0).found;
        let c = walk_tokens(w, ts, 0).found;
        assert(c.take(a.len() as int) =~= mid.found.take(a.len() as int));
    }
}

} // verus!
