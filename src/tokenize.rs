use vstd::prelude::*;
use vstd::utf8::is_ascii_chars;

use crate::json::{
    JsonLine,
    JsonToken,
    JsonTokenTag,
    all_chars,
    is_ref_text,
    quoted,
    spaces,
    tokens_ok,
};
use crate::line::Line;
use crate::text::{ascii_char_at, ascii_len};

verus! {

/// A JSON document, as a tree.
#[derive(Debug)]
pub enum JsonValue {
    Null,
    Bool(bool),
    /// A number, kept as the text that writes it.
    Number(String),
    String(String),
    Array(Vec<JsonValue>),
    /// The members of an object, in the order they were given.
    Object(Vec<(String, JsonValue)>),
}

/// Whether every string, key and number text of `v` is ASCII.
pub open spec fn ascii_texts(v: JsonValue) -> bool
    decreases v,
{
    match v {
        JsonValue::Number(n) => is_ascii_chars(n@),
        JsonValue::String(s) => is_ascii_chars(s@),
        JsonValue::Array(a) => forall|i: int| 0 <= i < a.len() ==> ascii_texts(#[trigger] a[i]),
        JsonValue::Object(ms) => forall|i: int|
            0 <= i < ms.len() ==> is_ascii_chars(#[trigger] ms[i].0@) && ascii_texts(ms[i].1),
        _ => true,
    }
}

/// Whether `e` is how the tokens report a text of `v` that is not ASCII:
/// a string or key between quotes, a number as it stands.
pub open spec fn reports_bad_text(v: JsonValue, e: Seq<char>) -> bool
    decreases v,
{
    match v {
        JsonValue::Number(n) => !is_ascii_chars(n@) && e == n@,
        JsonValue::String(s) => !is_ascii_chars(s@) && e == quoted(s@),
        JsonValue::Array(a) => exists|i: int| 0 <= i < a.len() && reports_bad_text(#[trigger] a[i], e),
        JsonValue::Object(ms) => exists|i: int|
            0 <= i < ms.len() && ((!is_ascii_chars(#[trigger] ms[i].0@) && e == quoted(ms[i].0@))
                || reports_bad_text(ms[i].1, e)),
        _ => false,
    }
}

proof fn lemma_ascii_array(a: Vec<JsonValue>)
    ensures
        ascii_texts(JsonValue::Array(a)) == (forall|i: int|
            0 <= i < a.len() ==> ascii_texts(#[trigger] a[i])),
{
    let v = JsonValue::Array(a);
    assert(v matches JsonValue::Array(b) && b == a);
}

proof fn lemma_ascii_object(ms: Vec<(String, JsonValue)>)
    ensures
        ascii_texts(JsonValue::Object(ms)) == (forall|i: int|
            0 <= i < ms.len() ==> is_ascii_chars(#[trigger] ms[i].0@) && ascii_texts(ms[i].1)),
{
    let v = JsonValue::Object(ms);
    assert(v matches JsonValue::Object(b) && b == ms);
}

proof fn lemma_ascii_member(ms: Vec<(String, JsonValue)>, q: int)
    requires
        ascii_texts(JsonValue::Object(ms)),
        0 <= q < ms.len(),
    ensures
        is_ascii_chars(ms[q].0@) && ascii_texts(ms[q].1),
{
    lemma_ascii_object(ms);
}

/// Check that every text of `v` is ASCII, or report one that is not.
fn check_ascii(v: &JsonValue) -> (r: Result<(), String>)
    ensures
        r is Ok <==> ascii_texts(*v),
        r matches Err(e) ==> reports_bad_text(*v, e@),
    decreases v,
{
    match v {
        JsonValue::Number(n) => {
            assert(ascii_texts(*v) == is_ascii_chars(n@));
            if n.is_ascii() {
                Ok(())
            } else {
                Err(n.clone())
            }
        },
        JsonValue::String(s) => {
            assert(ascii_texts(*v) == is_ascii_chars(s@));
            match JsonToken::string(s.clone()) {
                Ok(_) => Ok(()),
                Err(e) => Err(e),
            }
        },
        JsonValue::Array(a) => {
            let mut i: usize = 0;
            while i < a.len()
                invariant
                    *v == JsonValue::Array(*a),
                    i <= a.len(),
                    forall|j: int| 0 <= j < i ==> ascii_texts(#[trigger] a[j]),
                decreases a.len() - i,
            {
                proof {
                    vstd::std_specs::vec::axiom_vec_index_decreases(*a, i as int);
                    assert(decreases_to!(*v => (*v)->Array_0));
                }
                match check_ascii(&a[i]) {
                    Ok(()) => {},
                    Err(e) => {
                        assert(reports_bad_text(a[i as int], e@));
                        assert(!ascii_texts(a[i as int]));
                        proof {
                            lemma_ascii_array(*a);
                        }
                        return Err(e);
                    },
                }
                i = i + 1;
            }
            proof {
                lemma_ascii_array(*a);
            }
            assert(ascii_texts(*v));
            Ok(())
        },
        JsonValue::Object(ms) => {
            let mut i: usize = 0;
            while i < ms.len()
                invariant
                    *v == JsonValue::Object(*ms),
                    i <= ms.len(),
                    forall|j: int|
                        0 <= j < i ==> is_ascii_chars(#[trigger] ms[j].0@) && ascii_texts(ms[j].1),
                decreases ms.len() - i,
            {
                let key = ms[i].0.clone();
                assert(key@ == ms[i as int].0@);
                match JsonToken::object_key(key) {
                    Ok(_) => {},
                    Err(e) => {
                        assert(!is_ascii_chars(ms[i as int].0@) && e@ == quoted(ms[i as int].0@));
                        proof {
                            lemma_ascii_object(*ms);
                        }
                        return Err(e);
                    },
                }
                proof {
                    vstd::std_specs::vec::axiom_vec_index_decreases(*ms, i as int);
                    assert(decreases_to!(*v => (*v)->Object_0));
                    assert(decreases_to!(ms[i as int] => ms[i as int].1));
                }
                match check_ascii(&ms[i].1) {
                    Ok(()) => {},
                    Err(e) => {
                        assert(reports_bad_text(ms[i as int].1, e@));
                        assert(!ascii_texts(ms[i as int].1));
                        proof {
                            lemma_ascii_object(*ms);
                        }
                        return Err(e);
                    },
                }
                assert forall|j: int| 0 <= j < i + 1 implies is_ascii_chars(#[trigger] ms[j].0@)
                    && ascii_texts(ms[j].1) by {
                    if j == i {
                        assert(is_ascii_chars(ms[i as int].0@));
                    }
                }
                i = i + 1;
            }
            proof {
                lemma_ascii_object(*ms);
                assert forall|j: int| 0 <= j < ms.len() implies is_ascii_chars(#[trigger] ms[j].0@)
                    && ascii_texts(ms[j].1) by {}
            }
            Ok(())
        },
        JsonValue::Null => {
            assert(ascii_texts(*v));
            Ok(())
        },
        JsonValue::Bool(_) => {
            assert(ascii_texts(*v));
            Ok(())
        },
    }
}

/// A token as the contracts see it: its kind and its text.
pub open spec fn token_model(t: JsonToken) -> (JsonTokenTag, Seq<char>) {
    (t.kind(), t@)
}

/// A line as the contracts see it.
pub open spec fn line_model(l: JsonLine) -> Seq<(JsonTokenTag, Seq<char>)> {
    l.parts().map_values(|t: JsonToken| token_model(t))
}

/// Lines as the contracts see them.
pub open spec fn lines_model(ls: Seq<JsonLine>) -> Seq<Seq<(JsonTokenTag, Seq<char>)>> {
    ls.map_values(|l: JsonLine| line_model(l))
}

/// The indentation of the children of a container indented by `indent`.
pub open spec fn deeper(indent: nat) -> nat {
    if indent + 4 <= usize::MAX {
        indent + 4
    } else {
        usize::MAX as nat
    }
}

/// The line that closes a container: its indentation, then `c`.
pub open spec fn closing_line(indent: nat, tag: JsonTokenTag, c: char) -> Seq<
    (JsonTokenTag, Seq<char>),
> {
    if indent > 0 {
        seq![(JsonTokenTag::Whitespace, spaces(indent)), (tag, seq![c])]
    } else {
        seq![(tag, seq![c])]
    }
}

/// The lines `c` of a child, with `prefix` put before its first line and, if
/// `comma`, a comma after its last.
pub open spec fn member_lines(
    c: Seq<Seq<(JsonTokenTag, Seq<char>)>>,
    prefix: Seq<(JsonTokenTag, Seq<char>)>,
    comma: bool,
) -> Seq<Seq<(JsonTokenTag, Seq<char>)>> {
    let first = c.update(0, prefix + c[0]);
    if comma {
        first.update(first.len() - 1, first[first.len() - 1].push((JsonTokenTag::Comma, seq![','])))
    } else {
        first
    }
}

/// What goes before the first line of an object member: indentation, the
/// key, a colon and a space.
pub open spec fn key_prefix(key: Seq<char>, indent: nat) -> Seq<(JsonTokenTag, Seq<char>)> {
    seq![
        (JsonTokenTag::Whitespace, spaces(indent)),
        (JsonTokenTag::ObjectKey, quoted(key)),
        (JsonTokenTag::Colon, seq![':']),
        (JsonTokenTag::Whitespace, spaces(1)),
    ]
}

/// Lexicographic order of texts, character by character.
pub open spec fn key_le(a: Seq<char>, b: Seq<char>) -> bool
    decreases a.len(),
{
    if a.len() == 0 {
        true
    } else if b.len() == 0 {
        false
    } else if (a[0] as u32) != (b[0] as u32) {
        (a[0] as u32) < (b[0] as u32)
    } else {
        key_le(a.drop_first(), b.drop_first())
    }
}

/// The keys of an object's members.
pub open spec fn keys_of(ms: Seq<(String, JsonValue)>) -> Seq<Seq<char>> {
    ms.map_values(|m: (String, JsonValue)| m.0@)
}

/// Put index `x` into `s`, after every index whose key is not greater.
pub open spec fn insert_in_order(keys: Seq<Seq<char>>, x: usize, s: Seq<usize>) -> Seq<usize>
    decreases s.len(),
{
    if s.len() == 0 {
        seq![x]
    } else if key_le(keys[s.last() as int], keys[x as int]) {
        s.push(x)
    } else {
        insert_in_order(keys, x, s.drop_last()).push(s.last())
    }
}

/// The indices `0 .. n` ordered by key; members with equal keys keep their
/// order.
pub open spec fn key_order(keys: Seq<Seq<char>>, n: nat) -> Seq<usize>
    decreases n,
{
    if n == 0 {
        Seq::empty()
    } else {
        insert_in_order(keys, (n - 1) as usize, key_order(keys, (n - 1) as nat))
    }
}

/// The lines of a JSON value pretty-printed at indentation `indent`.
pub open spec fn pretty(v: JsonValue, indent: nat) -> Seq<Seq<(JsonTokenTag, Seq<char>)>>
    decreases v, 0nat,
{
    match v {
        JsonValue::Null => seq![seq![(JsonTokenTag::Null, seq!['n', 'u', 'l', 'l'])]],
        JsonValue::Bool(b) => seq![
            seq![
                (JsonTokenTag::Bool, if b {
                    seq!['t', 'r', 'u', 'e']
                } else {
                    seq!['f', 'a', 'l', 's', 'e']
                }),
            ],
        ],
        JsonValue::Number(n) => seq![seq![(JsonTokenTag::Number, n@)]],
        JsonValue::String(s) => seq![
            seq![
                (if is_ref_text(s@) {
                    JsonTokenTag::Ref
                } else {
                    JsonTokenTag::String
                }, quoted(s@)),
            ],
        ],
        JsonValue::Array(a) => if a.len() == 0 {
            seq![seq![(JsonTokenTag::ArrayStart, seq!['[']), (JsonTokenTag::ArrayEnd, seq![']'])]]
        } else {
            seq![seq![(JsonTokenTag::ArrayStart, seq!['['])]] + array_body(a, indent, 0) + seq![
                closing_line(indent, JsonTokenTag::ArrayEnd, ']'),
            ]
        },
        JsonValue::Object(ms) => if ms.len() == 0 {
            seq![seq![(JsonTokenTag::ObjectStart, seq!['{']), (JsonTokenTag::ObjectEnd, seq!['}'])]]
        } else {
            seq![seq![(JsonTokenTag::ObjectStart, seq!['{'])]] + object_body(
                ms,
                key_order(keys_of(ms@), ms.len() as nat),
                indent,
                0,
            ) + seq![closing_line(indent, JsonTokenTag::ObjectEnd, '}')]
        },
    }
}

/// The lines of the elements `i ..` of an array indented by `indent`.
pub open spec fn array_body(a: Vec<JsonValue>, indent: nat, i: nat) -> Seq<
    Seq<(JsonTokenTag, Seq<char>)>,
>
    decreases a, a.len() - i,
{
    if i >= a.len() {
        Seq::empty()
    } else {
        member_lines(
            pretty(a[i as int], deeper(indent)),
            seq![(JsonTokenTag::Whitespace, spaces(deeper(indent)))],
            i + 1 < a.len(),
        ) + array_body(a, indent, i + 1)
    }
}

/// The lines of the members `order[j] ..` of an object indented by `indent`.
pub open spec fn object_body(
    ms: Vec<(String, JsonValue)>,
    order: Seq<usize>,
    indent: nat,
    j: nat,
) -> Seq<Seq<(JsonTokenTag, Seq<char>)>>
    decreases ms, order.len() - j,
{
    if j >= order.len() || order[j as int] >= ms.len() {
        Seq::empty()
    } else {
        let m = ms[order[j as int] as int];
        member_lines(
            pretty(m.1, deeper(indent)),
            key_prefix(m.0@, deeper(indent)),
            j + 1 < order.len(),
        ) + object_body(ms, order, indent, j + 1)
    }
}

/// Any two texts are ordered one way or the other.
pub proof fn lemma_key_le_total(a: Seq<char>, b: Seq<char>)
    ensures
        key_le(a, b) || key_le(b, a),
    decreases a.len(),
{
    if a.len() > 0 && b.len() > 0 && (a[0] as u32) == (b[0] as u32) {
        lemma_key_le_total(a.drop_first(), b.drop_first());
    }
}

/// Key order is transitive.
pub proof fn lemma_key_le_trans(a: Seq<char>, b: Seq<char>, c: Seq<char>)
    requires
        key_le(a, b),
        key_le(b, c),
    ensures
        key_le(a, c),
    decreases a.len(),
{
    if a.len() > 0 && b.len() > 0 && c.len() > 0 && (a[0] as u32) == (b[0] as u32) && (b[0] as u32)
        == (c[0] as u32) {
        lemma_key_le_trans(a.drop_first(), b.drop_first(), c.drop_first());
    }
}

/// Whether the indices `s` are in key order.
pub open spec fn in_key_order(keys: Seq<Seq<char>>, s: Seq<usize>) -> bool {
    forall|i: int, j: int|
        0 <= i < j < s.len() ==> key_le(#[trigger] keys[s[i] as int], #[trigger] keys[s[j] as int])
}

proof fn lemma_insert_in_order_sorted(keys: Seq<Seq<char>>, x: usize, s: Seq<usize>)
    requires
        in_key_order(keys, s),
    ensures
        in_key_order(keys, insert_in_order(keys, x, s)),
        forall|e: usize| #[trigger] insert_in_order(keys, x, s).contains(e) <==> (e == x || s.contains(e)),
    decreases s.len(),
{
    let r = insert_in_order(keys, x, s);
    if s.len() == 0 {
        assert(r == seq![x]);
        assert forall|e: usize| r.contains(e) <==> (e == x || s.contains(e)) by {
            if r.contains(e) {
                assert(r[0] == x);
            }
            if e == x {
                assert(r[0] == e);
            }
        }
    } else if key_le(keys[s.last() as int], keys[x as int]) {
        assert(r == s.push(x));
        assert forall|i: int, j: int| 0 <= i < j < r.len() implies key_le(
            #[trigger] keys[r[i] as int],
            #[trigger] keys[r[j] as int],
        ) by {
            if j == s.len() {
                if i < s.len() - 1 {
                    assert(key_le(keys[s[i] as int], keys[s[s.len() - 1] as int]));
                    lemma_key_le_trans(keys[s[i] as int], keys[s.last() as int], keys[x as int]);
                }
            } else {
                assert(r[i] == s[i] && r[j] == s[j]);
            }
        }
        assert forall|e: usize| r.contains(e) <==> (e == x || s.contains(e)) by {
            if r.contains(e) {
                let k = choose|k: int| 0 <= k < r.len() && r[k] == e;
                if k < s.len() {
                    assert(s[k] == e);
                }
            }
            if e == x {
                assert(r[s.len() as int] == e);
            }
            if s.contains(e) {
                let k = choose|k: int| 0 <= k < s.len() && s[k] == e;
                assert(r[k] == e);
            }
        }
    } else {
        let p = s.drop_last();
        let last = s.last();
        assert(in_key_order(keys, p)) by {
            assert forall|i: int, j: int| 0 <= i < j < p.len() implies key_le(
                #[trigger] keys[p[i] as int],
                #[trigger] keys[p[j] as int],
            ) by {
                assert(p[i] == s[i] && p[j] == s[j]);
            }
        }
        lemma_insert_in_order_sorted(keys, x, p);
        let q = insert_in_order(keys, x, p);
        assert(r == q.push(last));
        lemma_key_le_total(keys[last as int], keys[x as int]);
        assert forall|i: int, j: int| 0 <= i < j < r.len() implies key_le(
            #[trigger] keys[r[i] as int],
            #[trigger] keys[r[j] as int],
        ) by {
            if j == q.len() {
                assert(r[j] == last);
                assert(q.contains(r[i])) by {
                    assert(q[i] == r[i]);
                }
                if r[i] != x {
                    assert(p.contains(r[i]));
                    let k = choose|k: int| 0 <= k < p.len() && p[k] == r[i];
                    assert(s[k] == r[i]);
                    assert(key_le(keys[s[k] as int], keys[s[s.len() - 1] as int]));
                }
            } else {
                assert(r[i] == q[i] && r[j] == q[j]);
            }
        }
        assert forall|e: usize| r.contains(e) <==> (e == x || s.contains(e)) by {
            if r.contains(e) {
                let k = choose|k: int| 0 <= k < r.len() && r[k] == e;
                if k < q.len() {
                    assert(q[k] == e);
                    assert(q.contains(e));
                    if e != x {
                        assert(p.contains(e));
                        let m = choose|m: int| 0 <= m < p.len() && p[m] == e;
                        assert(s[m] == e);
                    }
                } else {
                    assert(s[s.len() - 1] == e);
                }
            }
            if e == x {
                assert(insert_in_order(keys, x, p).contains(x));
                assert(q.contains(e));
                let k = choose|k: int| 0 <= k < q.len() && q[k] == e;
                assert(r[k] == e);
            }
            if s.contains(e) {
                let k = choose|k: int| 0 <= k < s.len() && s[k] == e;
                if k < s.len() - 1 {
                    assert(p[k] == e);
                    assert(p.contains(e));
                    assert(q.contains(e));
                    let m = choose|m: int| 0 <= m < q.len() && q[m] == e;
                    assert(r[m] == e);
                } else {
                    assert(r[q.len() as int] == e);
                }
            }
        }
    }
}

/// Object members are laid out in key order: the order puts the member
/// indices `0 .. n` in key order, and holds each of them.
pub proof fn lemma_key_order_sorted(keys: Seq<Seq<char>>, n: nat)
    ensures
        in_key_order(keys, key_order(keys, n)),
        key_order(keys, n).len() == n,
        forall|i: usize| i < n ==> key_order(keys, n).contains(i),
    decreases n,
{
    lemma_key_order(keys, n);
    if n > 0 {
        let m = (n - 1) as nat;
        lemma_key_order_sorted(keys, m);
        lemma_insert_in_order_sorted(keys, m as usize, key_order(keys, m));
        assert forall|i: usize| i < n implies key_order(keys, n).contains(i) by {
            if i < m {
                assert(key_order(keys, m).contains(i));
            }
            assert(insert_in_order(keys, m as usize, key_order(keys, m)).contains(i));
        }
    } else {
        assert(key_order(keys, n) =~= Seq::<usize>::empty());
    }
}

/// Characters with the same code are the same.
proof fn lemma_char_code(c: char, d: char)
    requires
        c as u32 == d as u32,
    ensures
        c == d,
{
}

/// Key order is antisymmetric.
pub proof fn lemma_key_le_antisym(a: Seq<char>, b: Seq<char>)
    requires
        key_le(a, b),
        key_le(b, a),
    ensures
        a == b,
    decreases a.len(),
{
    if a.len() > 0 && b.len() > 0 {
        assert((a[0] as u32) == (b[0] as u32));
        lemma_char_code(a[0], b[0]);
        lemma_key_le_antisym(a.drop_first(), b.drop_first());
        assert(a =~= seq![a[0]] + a.drop_first());
        assert(b =~= seq![b[0]] + b.drop_first());
    } else {
        assert(a.len() == 0 && b.len() == 0);
        assert(a =~= b);
    }
}

proof fn lemma_insert_in_order_distinct(keys: Seq<Seq<char>>, x: usize, s: Seq<usize>)
    requires
        in_key_order(keys, s),
        s.no_duplicates(),
        !s.contains(x),
    ensures
        insert_in_order(keys, x, s).no_duplicates(),
    decreases s.len(),
{
    let r = insert_in_order(keys, x, s);
    if s.len() == 0 {
        assert(r == seq![x]);
    } else if key_le(keys[s.last() as int], keys[x as int]) {
        assert(r == s.push(x));
        assert forall|i: int, j: int| 0 <= i < r.len() && 0 <= j < r.len() && i != j implies r[i]
            != r[j] by {
            if i == s.len() {
                assert(s[j] == r[j]);
            } else if j == s.len() {
                assert(s[i] == r[i]);
            }
        }
    } else {
        let p = s.drop_last();
        let last = s.last();
        assert(in_key_order(keys, p)) by {
            assert forall|i: int, j: int| 0 <= i < j < p.len() implies key_le(
                #[trigger] keys[p[i] as int],
                #[trigger] keys[p[j] as int],
            ) by {
                assert(p[i] == s[i] && p[j] == s[j]);
            }
        }
        assert(!p.contains(x)) by {
            if p.contains(x) {
                let k = choose|k: int| 0 <= k < p.len() && p[k] == x;
                assert(s[k] == x);
            }
        }
        lemma_insert_in_order_distinct(keys, x, p);
        lemma_insert_in_order_sorted(keys, x, p);
        let q = insert_in_order(keys, x, p);
        assert(r == q.push(last));
        assert(!q.contains(last)) by {
            if q.contains(last) {
                if last == x {
                    assert(s[s.len() - 1] == x);
                } else {
                    assert(p.contains(last));
                    let k = choose|k: int| 0 <= k < p.len() && p[k] == last;
                    assert(s[k] == s[s.len() - 1]);
                }
            }
        }
        assert forall|i: int, j: int| 0 <= i < r.len() && 0 <= j < r.len() && i != j implies r[i]
            != r[j] by {
            if i == q.len() {
                assert(q[j] == r[j]);
            } else if j == q.len() {
                assert(q[i] == r[i]);
            } else {
                assert(q[i] == r[i] && q[j] == r[j]);
            }
        }
    }
}

proof fn lemma_key_order_distinct(keys: Seq<Seq<char>>, n: nat)
    requires
        n <= usize::MAX,
    ensures
        key_order(keys, n).no_duplicates(),
    decreases n,
{
    if n > 0 {
        let m = (n - 1) as nat;
        lemma_key_order_distinct(keys, m);
        lemma_key_order_sorted(keys, m);
        lemma_key_order(keys, m);
        assert(!key_order(keys, m).contains(m as usize)) by {
            if key_order(keys, m).contains(m as usize) {
                let k = choose|k: int| 0 <= k < key_order(keys, m).len() && key_order(keys, m)[k] == m as usize;
                assert(key_order(keys, m)[k] < m);
            }
        }
        lemma_insert_in_order_distinct(keys, m as usize, key_order(keys, m));
    }
}

/// Whether `s` is in strictly increasing key order.
pub open spec fn strictly_sorted(s: Seq<Seq<char>>) -> bool {
    forall|i: int, j: int|
        0 <= i < j < s.len() ==> key_le(#[trigger] s[i], #[trigger] s[j]) && s[i] != s[j]
}

/// Two texts in strictly increasing key order that hold the same texts are
/// the same.
pub proof fn lemma_sorted_unique(s: Seq<Seq<char>>, t: Seq<Seq<char>>)
    requires
        strictly_sorted(s),
        strictly_sorted(t),
        forall|x: Seq<char>| s.contains(x) <==> t.contains(x),
    ensures
        s == t,
    decreases s.len(),
{
    if s.len() == 0 {
        if t.len() > 0 {
            assert(t.contains(t[0]));
        }
        assert(s =~= t);
    } else {
        assert(s.contains(s[0]));
        assert(t.contains(s[0]));
        let p = choose|p: int| 0 <= p < t.len() && t[p] == s[0];
        assert(t.contains(t[0]));
        assert(s.contains(t[0]));
        let q = choose|q: int| 0 <= q < s.len() && s[q] == t[0];
        if p > 0 {
            assert(key_le(t[0], t[p]));
        } else {
            lemma_key_le_refl(t[0]);
        }
        if q > 0 {
            assert(key_le(s[0], s[q]));
        } else {
            lemma_key_le_refl(s[0]);
        }
        lemma_key_le_antisym(s[0], t[0]);
        let s1 = s.drop_first();
        let t1 = t.drop_first();
        assert(strictly_sorted(s1)) by {
            assert forall|i: int, j: int| 0 <= i < j < s1.len() implies key_le(
                #[trigger] s1[i],
                #[trigger] s1[j],
            ) && s1[i] != s1[j] by {
                assert(s1[i] == s[i + 1] && s1[j] == s[j + 1]);
            }
        }
        assert(strictly_sorted(t1)) by {
            assert forall|i: int, j: int| 0 <= i < j < t1.len() implies key_le(
                #[trigger] t1[i],
                #[trigger] t1[j],
            ) && t1[i] != t1[j] by {
                assert(t1[i] == t[i + 1] && t1[j] == t[j + 1]);
            }
        }
        assert forall|x: Seq<char>| s1.contains(x) <==> t1.contains(x) by {
            if s1.contains(x) {
                let i = choose|i: int| 0 <= i < s1.len() && s1[i] == x;
                assert(s[i + 1] == x);
                assert(s.contains(x));
                assert(x != s[0]);
                let j = choose|j: int| 0 <= j < t.len() && t[j] == x;
                assert(j != 0);
                assert(t1[j - 1] == x);
            }
            if t1.contains(x) {
                let i = choose|i: int| 0 <= i < t1.len() && t1[i] == x;
                assert(t[i + 1] == x);
                assert(t.contains(x));
                assert(x != t[0]);
                let j = choose|j: int| 0 <= j < s.len() && s[j] == x;
                assert(j != 0);
                assert(s1[j - 1] == x);
            }
        }
        lemma_sorted_unique(s1, t1);
        assert(s =~= seq![s[0]] + s1);
        assert(t =~= seq![t[0]] + t1);
    }
}

/// Every text comes no later than itself.
pub proof fn lemma_key_le_refl(a: Seq<char>)
    ensures
        key_le(a, a),
    decreases a.len(),
{
    if a.len() > 0 {
        lemma_key_le_refl(a.drop_first());
    }
}

/// Whether the keys of an object's members are all different.
pub open spec fn keys_distinct(ms: Seq<(String, JsonValue)>) -> bool {
    forall|i: int, j: int| 0 <= i < j < ms.len() ==> #[trigger] ms[i].0@ != #[trigger] ms[j].0@
}

/// Whether `v` and `w` are the same document but for the order in which
/// each object gives its members (the keys of each object all different).
pub open spec fn same_document(v: JsonValue, w: JsonValue) -> bool
    decreases v,
{
    match v {
        JsonValue::Null => w is Null,
        JsonValue::Bool(b) => w is Bool && w->Bool_0 == b,
        JsonValue::Number(n) => w is Number && w->Number_0@ == n@,
        JsonValue::String(t) => w is String && w->String_0@ == t@,
        JsonValue::Array(a) => w is Array && w->Array_0.len() == a.len() && forall|i: int|
            0 <= i < a.len() ==> same_document(#[trigger] a[i], w->Array_0[i]),
        JsonValue::Object(ms) => w is Object && members_match(ms, w->Object_0),
    }
}

/// Whether some member of `ms` has key `x`.
pub open spec fn has_key(ms: Seq<(String, JsonValue)>, x: Seq<char>) -> bool {
    exists|i: int| 0 <= i < ms.len() && #[trigger] ms[i].0@ == x
}

/// The keys of an object's members, in the order the members are laid out.
pub open spec fn ordered_keys(ms: Seq<(String, JsonValue)>) -> Seq<Seq<char>> {
    key_order(keys_of(ms), ms.len()).map_values(|i: usize| keys_of(ms)[i as int])
}

proof fn lemma_ordered_keys(ms: Seq<(String, JsonValue)>)
    requires
        keys_distinct(ms),
        ms.len() <= usize::MAX,
    ensures
        strictly_sorted(ordered_keys(ms)),
        forall|x: Seq<char>| #[trigger] ordered_keys(ms).contains(x) <==> has_key(ms, x),
        ordered_keys(ms).len() == ms.len(),
        forall|q: int|
            0 <= q < ms.len() ==> #[trigger] key_order(keys_of(ms), ms.len())[q] < ms.len()
                && ordered_keys(ms)[q] == ms[key_order(keys_of(ms), ms.len())[q] as int].0@,
{
    let keys = keys_of(ms);
    let n = ms.len();
    let o = key_order(keys, n as nat);
    let ks = ordered_keys(ms);
    lemma_key_order(keys, n as nat);
    lemma_key_order_sorted(keys, n as nat);
    lemma_key_order_distinct(keys, n as nat);
    assert forall|i: int, j: int| 0 <= i < j < ks.len() implies key_le(#[trigger] ks[i], #[trigger] ks[j])
        && ks[i] != ks[j] by {
        assert(key_le(keys[o[i] as int], keys[o[j] as int]));
        assert(o[i] != o[j]);
        if o[i] < o[j] {
            assert(ms[o[i] as int].0@ != ms[o[j] as int].0@);
        } else {
            assert(ms[o[j] as int].0@ != ms[o[i] as int].0@);
        }
    }
    assert forall|x: Seq<char>| #[trigger] ks.contains(x) <==> has_key(ms, x) by {
        if ks.contains(x) {
            let q = choose|q: int| 0 <= q < ks.len() && ks[q] == x;
            assert(o[q] < n);
            assert(ms[o[q] as int].0@ == x);
        }
        if exists|i: int| 0 <= i < ms.len() && #[trigger] ms[i].0@ == x {
            let i = choose|i: int| 0 <= i < ms.len() && #[trigger] ms[i].0@ == x;
            assert(o.contains(i as usize));
            let q = choose|q: int| 0 <= q < o.len() && o[q] == i as usize;
            assert(ks[q] == x);
        }
    }
}

/// Member `q` of each object in key order: the same key, and values that
/// are the same document.
pub open spec fn aligned(ms: Vec<(String, JsonValue)>, ns: Vec<(String, JsonValue)>, q: int) -> bool {
    let a = key_order(keys_of(ms@), ms.len() as nat)[q];
    let b = key_order(keys_of(ns@), ns.len() as nat)[q];
    &&& a < ms.len()
    &&& b < ns.len()
    &&& ms[a as int].0@ == ns[b as int].0@
    &&& same_document(ms[a as int].1, ns[b as int].1)
}

/// The members of two objects match, key for key, both ways.
pub open spec fn members_match(ms: Vec<(String, JsonValue)>, ns: Vec<(String, JsonValue)>) -> bool
    decreases ms,
{
    &&& ns.len() == ms.len()
    &&& keys_distinct(ms@)
    &&& keys_distinct(ns@)
    &&& forall|i: int|
        0 <= i < ms.len() ==> exists|j: int|
            0 <= j < ms.len() && #[trigger] ns[j].0@ == #[trigger] ms[i].0@ && same_document(
                ms[i].1,
                ns[j].1,
            )
    &&& forall|j: int|
        0 <= j < ms.len() ==> exists|i: int|
            0 <= i < ms.len() && #[trigger] ms[i].0@ == #[trigger] ns[j].0@
}

proof fn lemma_same_key_sets(ms: Vec<(String, JsonValue)>, ns: Vec<(String, JsonValue)>)
    requires
        members_match(ms, ns),
    ensures
        forall|x: Seq<char>|
            #![trigger has_key(ms@, x)]
            #![trigger has_key(ns@, x)]
            has_key(ms@, x) <==> has_key(ns@, x),
{
    let n = ms.len();
    assert forall|x: Seq<char>| #[trigger] has_key(ms@, x) <==> has_key(ns@, x) by {
        if exists|i: int| 0 <= i < n && #[trigger] ms@[i].0@ == x {
            let i = choose|i: int| 0 <= i < n && #[trigger] ms@[i].0@ == x;
            assert(ms[i].0@ == x);
            let j = choose|j: int|
                0 <= j < n && #[trigger] ns[j].0@ == #[trigger] ms[i].0@ && same_document(
                    ms[i].1,
                    ns[j].1,
                );
            assert(ns@[j].0@ == x);
        }
        if exists|j: int| 0 <= j < n && #[trigger] ns@[j].0@ == x {
            let j = choose|j: int| 0 <= j < n && #[trigger] ns@[j].0@ == x;
            assert(ns[j].0@ == x);
            let i = choose|i: int| 0 <= i < n && #[trigger] ms[i].0@ == #[trigger] ns[j].0@;
            assert(ms@[i].0@ == x);
        }
    }
}

/// Lined up by key order, the members of two objects that hold the same
/// members have the same keys, and values that are the same document.
proof fn lemma_members_align(ms: Vec<(String, JsonValue)>, ns: Vec<(String, JsonValue)>)
    requires
        members_match(ms, ns),
    ensures
        forall|q: int| 0 <= q < ms.len() ==> #[trigger] aligned(ms, ns, q),
{
    let n = ms.len();
    lemma_ordered_keys(ms@);
    lemma_ordered_keys(ns@);
    lemma_same_key_sets(ms, ns);
    let k1 = ordered_keys(ms@);
    let k2 = ordered_keys(ns@);
    assert forall|x: Seq<char>| k1.contains(x) <==> k2.contains(x) by {
        assert(k1.contains(x) <==> has_key(ms@, x));
        assert(k2.contains(x) <==> has_key(ns@, x));
    }
    lemma_sorted_unique(k1, k2);
    assert forall|q: int| 0 <= q < n implies #[trigger] aligned(ms, ns, q) by {
        lemma_member_aligned(ms, ns, q);
    }
}

proof fn lemma_member_aligned(ms: Vec<(String, JsonValue)>, ns: Vec<(String, JsonValue)>, q: int)
    requires
        members_match(ms, ns),
        0 <= q < ms.len(),
        ordered_keys(ms@) == ordered_keys(ns@),
        strictly_sorted(ordered_keys(ms@)),
        forall|r: int|
            0 <= r < ms.len() ==> #[trigger] key_order(keys_of(ms@), ms@.len())[r] < ms.len()
                && ordered_keys(ms@)[r] == ms[key_order(keys_of(ms@), ms@.len())[r] as int].0@,
        forall|r: int|
            0 <= r < ns.len() ==> #[trigger] key_order(keys_of(ns@), ns@.len())[r] < ns.len()
                && ordered_keys(ns@)[r] == ns[key_order(keys_of(ns@), ns@.len())[r] as int].0@,
    ensures
        aligned(ms, ns, q),
{
    let n = ms.len();
    let a = key_order(keys_of(ms@), ms.len() as nat)[q];
    let b = key_order(keys_of(ns@), ns.len() as nat)[q];
    assert(ordered_keys(ms@)[q] == ordered_keys(ns@)[q]);
    assert(ms[a as int].0@ == ns[b as int].0@);
    let j = choose|j: int|
        0 <= j < n && #[trigger] ns[j].0@ == #[trigger] ms[a as int].0@ && same_document(
            ms[a as int].1,
            ns[j].1,
        );
    if j != b {
        if j < b {
            assert(ns@[j].0@ != ns@[b as int].0@);
        } else {
            assert(ns@[b as int].0@ != ns@[j].0@);
        }
    }
}

/// Members given in another order do not change the printed lines: two
/// documents that differ only in the order of object members (keys
/// different within each object) pretty-print alike.
pub proof fn lemma_member_order_irrelevant(v: JsonValue, w: JsonValue, indent: nat)
    requires
        same_document(v, w),
    ensures
        pretty(v, indent) == pretty(w, indent),
    decreases v, 0nat,
{
    match v {
        JsonValue::Array(a) => {
            let b = w->Array_0;
            lemma_same_array(a, w);
            assert(decreases_to!(v => v->Array_0));
            lemma_array_body_same(a, b, indent, 0);
            lemma_pretty_array(a, b, indent);
        },
        JsonValue::Object(ms) => {
            let ns = w->Object_0;
            lemma_same_object(ms, w);
            lemma_members_align(ms, ns);
            assert(decreases_to!(v => v->Object_0));
            lemma_object_body_same(ms, ns, indent, 0);
            lemma_pretty_object(ms, ns, indent);
        },
        _ => {
            lemma_pretty_scalar(v, w, indent);
        },
    }
}

/// Object ordering: two documents that differ only in the order in which
/// their objects give members (keys different within each object) are
/// tokenized alike: `parse_json` succeeds on both or on neither, and its
/// lines, whose contract is `pretty`, are the same. Within each object the
/// members come in key order (`lemma_key_order_sorted`).
pub proof fn lemma_parse_json_member_order(v: JsonValue, w: JsonValue)
    requires
        same_document(v, w),
    ensures
        pretty(v, 0) == pretty(w, 0),
        ascii_texts(v) == ascii_texts(w),
        (ascii_texts(v) && lines_fit(pretty(v, 0))) == (ascii_texts(w) && lines_fit(pretty(w, 0))),
{
    lemma_member_order_irrelevant(v, w, 0);
    lemma_member_order_ascii(v, w);
}

/// Members given in another order do not change whether the document is
/// all ASCII.
pub proof fn lemma_member_order_ascii(v: JsonValue, w: JsonValue)
    requires
        same_document(v, w),
    ensures
        ascii_texts(v) == ascii_texts(w),
    decreases v,
{
    match v {
        JsonValue::Array(a) => {
            let b = w->Array_0;
            lemma_same_array(a, w);
            lemma_ascii_array(a);
            lemma_ascii_array(b);
            assert forall|k: int| 0 <= k < a.len() implies ascii_texts(#[trigger] a[k]) == ascii_texts(
                b[k],
            ) by {
                vstd::std_specs::vec::axiom_vec_index_decreases(a, k);
                assert(decreases_to!(v => v->Array_0));
                lemma_member_order_ascii(a[k], b[k]);
            }
            if ascii_texts(v) {
                assert forall|k: int| 0 <= k < b.len() implies ascii_texts(#[trigger] b[k]) by {
                    assert(ascii_texts(a[k]));
                }
            }
            if ascii_texts(w) {
                assert forall|k: int| 0 <= k < a.len() implies ascii_texts(#[trigger] a[k]) by {
                    assert(ascii_texts(b[k]));
                }
            }
        },
        JsonValue::Object(ms) => {
            let ns = w->Object_0;
            lemma_same_object(ms, w);
            lemma_ascii_object(ms);
            lemma_ascii_object(ns);
            let n = ms.len();
            assert forall|i: int| 0 <= i < n implies #[trigger] member_ascii(ms, i) == member_ascii(
                ns,
                matching(ms, ns, i),
            ) && 0 <= matching(ms, ns, i) < n by {
                let j = matching(ms, ns, i);
                vstd::std_specs::vec::axiom_vec_index_decreases(ms, i);
                assert(decreases_to!(v => v->Object_0));
                assert(decreases_to!(ms[i] => ms[i].1));
                lemma_member_order_ascii(ms[i].1, ns[j].1);
            }
            assert forall|j: int| 0 <= j < n implies #[trigger] matched(ms, ns, j) by {
                let i = choose|i: int| 0 <= i < n && #[trigger] ms[i].0@ == #[trigger] ns[j].0@;
                let j2 = matching(ms, ns, i);
                if j2 != j {
                    if j2 < j {
                        assert(ns@[j2].0@ != ns@[j].0@);
                    } else {
                        assert(ns@[j].0@ != ns@[j2].0@);
                    }
                }
                assert(matching(ms, ns, i) == j);
            }
            if ascii_texts(v) {
                assert forall|j: int| 0 <= j < n implies is_ascii_chars(#[trigger] ns[j].0@)
                    && ascii_texts(ns[j].1) by {
                    assert(matched(ms, ns, j));
                    let i = choose|i: int| 0 <= i < n && #[trigger] matching(ms, ns, i) == j;
                    assert(member_ascii(ms, i));
                    assert(member_ascii(ns, j));
                }
            }
            if ascii_texts(w) {
                assert forall|i: int| 0 <= i < n implies is_ascii_chars(#[trigger] ms[i].0@)
                    && ascii_texts(ms[i].1) by {
                    assert(member_ascii(ns, matching(ms, ns, i)));
                    assert(member_ascii(ms, i));
                }
            }
        },
        _ => {
            match v {
                JsonValue::Number(n) => {
                    assert(w == JsonValue::Number(w->Number_0));
                },
                JsonValue::String(t) => {
                    assert(w == JsonValue::String(w->String_0));
                },
                _ => {},
            }
        },
    }
}

/// Whether member `i` of `ms` has an ASCII key and an all-ASCII value.
pub open spec fn member_ascii(ms: Vec<(String, JsonValue)>, i: int) -> bool {
    is_ascii_chars(ms[i].0@) && ascii_texts(ms[i].1)
}

/// Whether member `j` of `ns` matches some member of `ms`.
pub open spec fn matched(ms: Vec<(String, JsonValue)>, ns: Vec<(String, JsonValue)>, j: int) -> bool {
    exists|i: int| 0 <= i < ms.len() && #[trigger] matching(ms, ns, i) == j
}

/// The member of `ns` that matches member `i` of `ms`.
pub open spec fn matching(ms: Vec<(String, JsonValue)>, ns: Vec<(String, JsonValue)>, i: int) -> int {
    choose|j: int|
        0 <= j < ms.len() && #[trigger] ns[j].0@ == #[trigger] ms[i].0@ && same_document(ms[i].1, ns[j].1)
}

proof fn lemma_same_array(a: Vec<JsonValue>, w: JsonValue)
    requires
        same_document(JsonValue::Array(a), w),
    ensures
        w is Array,
        w == JsonValue::Array(w->Array_0),
        w->Array_0.len() == a.len(),
        forall|k: int| 0 <= k < a.len() ==> same_document(#[trigger] a[k], w->Array_0[k]),
{
}

proof fn lemma_same_object(ms: Vec<(String, JsonValue)>, w: JsonValue)
    requires
        same_document(JsonValue::Object(ms), w),
    ensures
        w is Object,
        w == JsonValue::Object(w->Object_0),
        members_match(ms, w->Object_0),
{
}

proof fn lemma_pretty_scalar(v: JsonValue, w: JsonValue, indent: nat)
    requires
        same_document(v, w),
        !(v is Array),
        !(v is Object),
    ensures
        pretty(v, indent) == pretty(w, indent),
{
    match v {
        JsonValue::Number(n) => {
            assert(w == JsonValue::Number(w->Number_0));
        },
        JsonValue::String(t) => {
            assert(w == JsonValue::String(w->String_0));
        },
        JsonValue::Bool(b) => {
            assert(w == JsonValue::Bool(w->Bool_0));
        },
        _ => {},
    }
}

proof fn lemma_pretty_array(a: Vec<JsonValue>, b: Vec<JsonValue>, indent: nat)
    requires
        a.len() == b.len(),
        array_body(a, indent, 0) == array_body(b, indent, 0),
    ensures
        pretty(JsonValue::Array(a), indent) == pretty(JsonValue::Array(b), indent),
{
}

proof fn lemma_pretty_object(ms: Vec<(String, JsonValue)>, ns: Vec<(String, JsonValue)>, indent: nat)
    requires
        ms.len() == ns.len(),
        object_body(ms, key_order(keys_of(ms@), ms.len() as nat), indent, 0) == object_body(
            ns,
            key_order(keys_of(ns@), ns.len() as nat),
            indent,
            0,
        ),
    ensures
        pretty(JsonValue::Object(ms), indent) == pretty(JsonValue::Object(ns), indent),
{
}

proof fn lemma_array_body_same(a: Vec<JsonValue>, b: Vec<JsonValue>, indent: nat, i: nat)
    requires
        a.len() == b.len(),
        forall|k: int| 0 <= k < a.len() ==> same_document(#[trigger] a[k], b[k]),
    ensures
        array_body(a, indent, i) == array_body(b, indent, i),
    decreases a, a.len() - i,
{
    if i < a.len() {
        vstd::std_specs::vec::axiom_vec_index_decreases(a, i as int);
        lemma_member_order_irrelevant(a[i as int], b[i as int], deeper(indent));
        lemma_array_body_same(a, b, indent, i + 1);
    }
}

proof fn lemma_object_body_same(
    ms: Vec<(String, JsonValue)>,
    ns: Vec<(String, JsonValue)>,
    indent: nat,
    j: nat,
)
    requires
        ms.len() == ns.len(),
        forall|q: int| 0 <= q < ms.len() ==> #[trigger] aligned(ms, ns, q),
    ensures
        object_body(ms, key_order(keys_of(ms@), ms.len() as nat), indent, j) == object_body(
            ns,
            key_order(keys_of(ns@), ns.len() as nat),
            indent,
            j,
        ),
    decreases ms, ms.len() - j,
{
    let o1 = key_order(keys_of(ms@), ms.len() as nat);
    let o2 = key_order(keys_of(ns@), ns.len() as nat);
    lemma_key_order(keys_of(ms@), ms.len() as nat);
    lemma_key_order(keys_of(ns@), ns.len() as nat);
    if j < ms.len() {
        assert(aligned(ms, ns, j as int));
        let a = o1[j as int];
        let b = o2[j as int];
        vstd::std_specs::vec::axiom_vec_index_decreases(ms, a as int);
        assert(decreases_to!(ms[a as int] => ms[a as int].1));
        lemma_member_order_irrelevant(ms[a as int].1, ns[b as int].1, deeper(indent));
        lemma_object_body_same(ms, ns, indent, j + 1);
    }
}

/// Whether `a` comes no later than `b` in key order.
fn key_le_exec(a: &String, b: &String) -> (r: bool)
    requires
        is_ascii_chars(a@),
        is_ascii_chars(b@),
    ensures
        r == key_le(a@, b@),
{
    let na = ascii_len(a);
    let nb = ascii_len(b);
    let mut k: usize = 0;
    assert(a@.skip(0) =~= a@ && b@.skip(0) =~= b@);
    while k < na && k < nb
        invariant
            na == a@.len(),
            nb == b@.len(),
            is_ascii_chars(a@),
            is_ascii_chars(b@),
            k <= na,
            k <= nb,
            key_le(a@, b@) == key_le(a@.skip(k as int), b@.skip(k as int)),
        decreases na - k,
    {
        let ca = ascii_char_at(a, k);
        let cb = ascii_char_at(b, k);
        assert(a@.skip(k as int)[0] == ca && b@.skip(k as int)[0] == cb);
        if (ca as u32) != (cb as u32) {
            return (ca as u32) < (cb as u32);
        }
        assert(a@.skip(k as int).drop_first() =~= a@.skip(k + 1));
        assert(b@.skip(k as int).drop_first() =~= b@.skip(k + 1));
        k = k + 1;
    }
    assert(k == na ==> a@.skip(k as int).len() == 0);
    assert(k < na ==> b@.skip(k as int).len() == 0 && a@.skip(k as int).len() > 0);
    k == na
}

proof fn lemma_insert_in_order(keys: Seq<Seq<char>>, x: usize, s: Seq<usize>, bound: nat)
    requires
        x < bound,
        forall|j: int| 0 <= j < s.len() ==> s[j] < bound,
    ensures
        insert_in_order(keys, x, s).len() == s.len() + 1,
        forall|j: int|
            0 <= j < insert_in_order(keys, x, s).len() ==> #[trigger] insert_in_order(keys, x, s)[j]
                < bound,
    decreases s.len(),
{
    if s.len() > 0 && !key_le(keys[s.last() as int], keys[x as int]) {
        lemma_insert_in_order(keys, x, s.drop_last(), bound);
    }
}

proof fn lemma_key_order(keys: Seq<Seq<char>>, n: nat)
    ensures
        key_order(keys, n).len() == n,
        forall|j: int| 0 <= j < n ==> #[trigger] key_order(keys, n)[j] < n,
    decreases n,
{
    if n > 0 {
        lemma_key_order(keys, (n - 1) as nat);
        lemma_insert_in_order(keys, (n - 1) as usize, key_order(keys, (n - 1) as nat), n);
    }
}

/// The indices of the members of `ms`, ordered by key.
fn member_order(ms: &Vec<(String, JsonValue)>) -> (r: Vec<usize>)
    requires
        forall|i: int| 0 <= i < ms.len() ==> is_ascii_chars(#[trigger] ms[i].0@),
    ensures
        r@ == key_order(keys_of(ms@), ms.len() as nat),
        forall|j: int| 0 <= j < r.len() ==> #[trigger] r[j] < ms.len(),
{
    let ghost keys = keys_of(ms@);
    let n = ms.len();
    let mut order: Vec<usize> = Vec::new();
    let mut i: usize = 0;
    while i < n
        invariant
            n == ms.len(),
            keys == keys_of(ms@),
            forall|q: int| 0 <= q < ms.len() ==> is_ascii_chars(#[trigger] ms[q].0@),
            i <= n,
            order@ == key_order(keys, i as nat),
        decreases n - i,
    {
        proof {
            lemma_key_order(keys, i as nat);
        }
        let mut j: usize = order.len();
        let mut placed = false;
        assert(order@.take(j as int) =~= order@ && order@.skip(j as int) =~= Seq::<usize>::empty());
        while j > 0 && !placed
            invariant
                n == ms.len(),
                keys == keys_of(ms@),
                forall|q: int| 0 <= q < ms.len() ==> is_ascii_chars(#[trigger] ms[q].0@),
                i < n,
                order@ == key_order(keys, i as nat),
                order.len() == i,
                forall|q: int| 0 <= q < i ==> #[trigger] order@[q] < i,
                j <= order.len(),
                insert_in_order(keys, i, order@) == insert_in_order(keys, i, order@.take(j as int))
                    + order@.skip(j as int),
                placed ==> j > 0 && key_le(keys[order@[j - 1] as int], keys[i as int]),
            decreases j + (if placed {
                0int
            } else {
                1int
            }),
        {
            let o = order[j - 1];
            assert(keys[o as int] == ms[o as int].0@ && keys[i as int] == ms[i as int].0@);
            if key_le_exec(&ms[o].0, &ms[i].0) {
                placed = true;
                continue;
            }
            proof {
                let t = order@.take(j as int);
                assert(t.drop_last() =~= order@.take(j - 1));
                assert(t.last() == o);
                assert(order@.skip(j - 1) =~= seq![o] + order@.skip(j as int));
                assert(insert_in_order(keys, i, order@.take(j - 1)).push(o) + order@.skip(j as int)
                    =~= insert_in_order(keys, i, order@.take(j - 1)) + order@.skip(j - 1));
            }
            j = j - 1;
        }
        proof {
            let t = order@.take(j as int);
            if j > 0 {
                assert(key_le(keys[t.last() as int], keys[i as int]));
                assert(insert_in_order(keys, i, t) == t.push(i));
            } else {
                assert(t =~= Seq::<usize>::empty());
            }
            assert(order@.insert(j as int, i) =~= insert_in_order(keys, i, t) + order@.skip(j as int));
        }
        order.insert(j, i);
        i = i + 1;
    }
    proof {
        lemma_key_order(keys, n as nat);
    }
    order
}

/// Whether the tokens of every line are consistent.
pub open spec fn lines_ok(ls: Seq<JsonLine>) -> bool {
    forall|i: int| 0 <= i < ls.len() ==> tokens_ok(#[trigger] ls[i].parts())
}

/// The tokens as the contracts see them.
pub open spec fn tokens_model(ts: Seq<JsonToken>) -> Seq<(JsonTokenTag, Seq<char>)> {
    ts.map_values(|t: JsonToken| token_model(t))
}

/// Append to `out` the lines `children` of a container's member, with
/// `prefix` before the first and, if `comma`, a comma after the last.
fn attach(
    children: Vec<JsonLine>,
    prefix: Vec<JsonToken>,
    comma: bool,
    out: &mut Vec<JsonLine>,
)
    requires
        children.len() >= 1,
        lines_ok(children@),
        tokens_ok(prefix@),
        lines_ok(old(out)@),
    ensures
        lines_ok(final(out)@),
        lines_model(final(out)@) == lines_model(old(out)@) + member_lines(
            lines_model(children@),
            tokens_model(prefix@),
            comma,
        ),
{
    let ghost c = lines_model(children@);
    let ghost p = tokens_model(prefix@);
    let ghost old_out = out@;
    let mut rest = children;
    let mut first = rest.remove(0);
    let ghost first_tokens = first.parts();
    assert(tokens_ok(first_tokens));
    first.prepend(prefix);
    assert(line_model(first) =~= p + c[0]);
    assert(tokens_ok(first.parts()));
    let ghost member = c.update(0, p + c[0]);
    if comma {
        if rest.len() == 0 {
            first.push(JsonToken::comma());
            assert(line_model(first) =~= (p + c[0]).push((JsonTokenTag::Comma, seq![','])));
            assert(member_lines(c, p, comma) =~= seq![line_model(first)]);
        } else {
            let ghost before = rest@;
            let mut last = rest.pop().unwrap();
            assert(tokens_ok(last.parts())) by {
                assert(last == before[before.len() - 1]);
            }
            last.push(JsonToken::comma());
            rest.push(last);
            assert(lines_model(rest@) =~= lines_model(before).update(
                before.len() - 1,
                lines_model(before)[before.len() - 1].push((JsonTokenTag::Comma, seq![','])),
            )) by {
                assert(line_model(last) =~= line_model(before[before.len() - 1]).push(
                    (JsonTokenTag::Comma, seq![',']),
                ));
            }
            assert(member_lines(c, p, comma) =~= seq![line_model(first)] + lines_model(rest@));
        }
    } else {
        assert(member_lines(c, p, comma) =~= seq![line_model(first)] + lines_model(rest@));
    }
    out.push(first);
    out.append(&mut rest);
    assert(lines_model(out@) =~= lines_model(old_out) + member_lines(c, p, comma));
}

/// A line of one token.
fn line_of(t: JsonToken) -> (l: JsonLine)
    requires
        t.inv(),
    ensures
        tokens_ok(l.parts()),
        line_model(l) == seq![token_model(t)],
{
    let l = JsonLine::new(vec![t]);
    assert(line_model(l) =~= seq![token_model(t)]);
    l
}

/// The line that closes a container indented by `indent`.
fn closing(indent: usize, end: JsonToken) -> (l: JsonLine)
    requires
        end.inv(),
    ensures
        tokens_ok(l.parts()),
        line_model(l) == (if indent > 0 {
            seq![(JsonTokenTag::Whitespace, spaces(indent as nat)), token_model(end)]
        } else {
            seq![token_model(end)]
        }),
{
    if indent > 0 {
        let l = JsonLine::new(vec![JsonToken::ws(indent), end]);
        assert(line_model(l) =~= seq![(JsonTokenTag::Whitespace, spaces(indent as nat)), token_model(end)]);
        l
    } else {
        line_of(end)
    }
}

/// A line holding `start` then `end`.
fn empty_container(start: JsonToken, end: JsonToken) -> (l: JsonLine)
    requires
        start.inv(),
        end.inv(),
    ensures
        tokens_ok(l.parts()),
        line_model(l) == seq![token_model(start), token_model(end)],
{
    let l = JsonLine::new(vec![start, end]);
    assert(line_model(l) =~= seq![token_model(start), token_model(end)]);
    l
}

fn deeper_exec(indent: usize) -> (r: usize)
    ensures
        r == deeper(indent as nat),
{
    if indent <= usize::MAX - 4 {
        indent + 4
    } else {
        usize::MAX
    }
}

/// The lines of `v` pretty-printed at indentation `indent`.
fn lines_of(v: &JsonValue, indent: usize) -> (r: Vec<JsonLine>)
    requires
        ascii_texts(*v),
    ensures
        lines_ok(r@),
        lines_model(r@) == pretty(*v, indent as nat),
        r.len() >= 1,
    decreases v,
{
    match v {
        JsonValue::Null => {
            let r = vec![line_of(JsonToken::null())];
            assert(lines_model(r@) =~= pretty(*v, indent as nat));
            r
        },
        JsonValue::Bool(b) => {
            let r = vec![line_of(JsonToken::bool(*b))];
            assert(lines_model(r@) =~= pretty(*v, indent as nat));
            r
        },
        JsonValue::Number(n) => {
            assert(is_ascii_chars(n@));
            match JsonToken::number(n.clone()) {
                Ok(t) => {
                    let r = vec![line_of(t)];
                    assert(lines_model(r@) =~= pretty(*v, indent as nat));
                    r
                },
                Err(_) => unreached(),
            }
        },
        JsonValue::String(s) => {
            assert(is_ascii_chars(s@));
            match JsonToken::string(s.clone()) {
                Ok(t) => {
                    let r = vec![line_of(t)];
                    assert(lines_model(r@) =~= pretty(*v, indent as nat));
                    r
                },
                Err(_) => unreached(),
            }
        },
        JsonValue::Array(a) => {
            if a.len() == 0 {
                let r = vec![empty_container(JsonToken::array_start(), JsonToken::array_end())];
                assert(lines_model(r@) =~= pretty(*v, indent as nat));
                return r;
            }
            proof {
                lemma_ascii_array(*a);
            }
            let d = deeper_exec(indent);
            let mut lines = vec![line_of(JsonToken::array_start())];
            let ghost head = lines_model(lines@);
            let mut i: usize = 0;
            assert(lines_model(lines@) + array_body(*a, indent as nat, 0) =~= head + array_body(
                *a,
                indent as nat,
                0,
            ));
            while i < a.len()
                invariant
                    *v == JsonValue::Array(*a),
                    ascii_texts(*v),
                    forall|j: int| 0 <= j < a.len() ==> ascii_texts(#[trigger] a[j]),
                    d == deeper(indent as nat),
                    i <= a.len(),
                    lines_ok(lines@),
                    lines_model(lines@) + array_body(*a, indent as nat, i as nat) == head
                        + array_body(*a, indent as nat, 0),
                decreases a.len() - i,
            {
                proof {
                    vstd::std_specs::vec::axiom_vec_index_decreases(*a, i as int);
                    assert(decreases_to!(*v => (*v)->Array_0));
                }
                let children = lines_of(&a[i], d);
                let ws = JsonToken::ws(d);
                let prefix = vec![ws];
                assert(tokens_model(prefix@) =~= seq![(JsonTokenTag::Whitespace, spaces(d as nat))]);
                let ghost before = lines_model(lines@);
                attach(children, prefix, i + 1 < a.len(), &mut lines);
                assert(lines_model(lines@) + array_body(*a, indent as nat, (i + 1) as nat) =~= before
                    + array_body(*a, indent as nat, i as nat));
                i = i + 1;
            }
            assert(array_body(*a, indent as nat, i as nat) =~= Seq::empty());
            assert(lines_model(lines@) =~= head + array_body(*a, indent as nat, 0));
            let ghost body = lines_model(lines@);
            let end = closing(indent, JsonToken::array_end());
            lines.push(end);
            assert(lines_model(lines@) =~= body.push(line_model(end)));
            assert(line_model(end) =~= closing_line(indent as nat, JsonTokenTag::ArrayEnd, ']'));
            assert(lines_model(lines@) =~= pretty(*v, indent as nat));
            lines
        },
        JsonValue::Object(ms) => {
            if ms.len() == 0 {
                let r = vec![empty_container(JsonToken::object_start(), JsonToken::object_end())];
                assert(lines_model(r@) =~= pretty(*v, indent as nat));
                return r;
            }
            proof {
                lemma_ascii_object(*ms);
                assert(ascii_texts(JsonValue::Object(*ms)));
                assert forall|q: int| 0 <= q < ms.len() implies is_ascii_chars(#[trigger] ms[q].0@)
                    && ascii_texts(ms[q].1) by {
                    lemma_ascii_member(*ms, q);
                }
            }
            let order = member_order(ms);
            let d = deeper_exec(indent);
            let mut lines = vec![line_of(JsonToken::object_start())];
            let ghost head = lines_model(lines@);
            let mut j: usize = 0;
            assert(lines_model(lines@) + object_body(*ms, order@, indent as nat, 0) =~= head
                + object_body(*ms, order@, indent as nat, 0));
            while j < order.len()
                invariant
                    *v == JsonValue::Object(*ms),
                    ascii_texts(*v),
                    forall|q: int|
                        0 <= q < ms.len() ==> is_ascii_chars(#[trigger] ms[q].0@) && ascii_texts(
                            ms[q].1,
                        ),
                    forall|q: int| 0 <= q < order.len() ==> #[trigger] order[q] < ms.len(),
                    order@ == key_order(keys_of(ms@), ms.len() as nat),
                    d == deeper(indent as nat),
                    j <= order.len(),
                    lines_ok(lines@),
                    lines_model(lines@) + object_body(*ms, order@, indent as nat, j as nat) == head
                        + object_body(*ms, order@, indent as nat, 0),
                decreases order.len() - j,
            {
                let k = order[j];
                proof {
                    vstd::std_specs::vec::axiom_vec_index_decreases(*ms, k as int);
                    assert(decreases_to!(*v => (*v)->Object_0));
                    assert(decreases_to!(ms[k as int] => ms[k as int].1));
                }
                let children = lines_of(&ms[k].1, d);
                let key = match JsonToken::object_key(ms[k].0.clone()) {
                    Ok(t) => t,
                    Err(_) => unreached(),
                };
                let prefix = vec![JsonToken::ws(d), key, JsonToken::colon(), JsonToken::ws(1)];
                assert(tokens_model(prefix@) =~= key_prefix(ms[k as int].0@, d as nat)) by {
                    assert(spaces(1) =~= seq![' ']);
                }
                let ghost before = lines_model(lines@);
                attach(children, prefix, j + 1 < order.len(), &mut lines);
                assert(lines_model(lines@) + object_body(*ms, order@, indent as nat, (j + 1) as nat)
                    =~= before + object_body(*ms, order@, indent as nat, j as nat));
                j = j + 1;
            }
            assert(object_body(*ms, order@, indent as nat, j as nat) =~= Seq::empty());
            assert(lines_model(lines@) =~= head + object_body(*ms, order@, indent as nat, 0));
            let ghost body = lines_model(lines@);
            let end = closing(indent, JsonToken::object_end());
            lines.push(end);
            assert(lines_model(lines@) =~= body.push(line_model(end)));
            assert(line_model(end) =~= closing_line(indent as nat, JsonTokenTag::ObjectEnd, '}'));
            assert(lines_model(lines@) =~= pretty(*v, indent as nat));
            lines
        },
    }
}

/// The number of characters of a line, from its model.
pub open spec fn model_len(m: Seq<(JsonTokenTag, Seq<char>)>) -> nat
    decreases m.len(),
{
    if m.len() == 0 {
        0
    } else {
        m[0].1.len() + model_len(m.drop_first())
    }
}

/// Whether every line is short enough for its length to fit a `usize`.
pub open spec fn lines_fit(ls: Seq<Seq<(JsonTokenTag, Seq<char>)>>) -> bool {
    forall|i: int| 0 <= i < ls.len() ==> model_len(#[trigger] ls[i]) <= usize::MAX
}

proof fn lemma_model_len(ts: Seq<JsonToken>)
    ensures
        all_chars(ts).len() == model_len(tokens_model(ts)),
    decreases ts.len(),
{
    if ts.len() > 0 {
        assert(tokens_model(ts).drop_first() =~= tokens_model(ts.drop_first()));
        lemma_model_len(ts.drop_first());
    }
}

/// Pretty-print `json` with its outermost lines indented by `indent`
/// columns: scalars on one line; empty containers as `[]` or `{}`; other
/// containers open on a line of their own, hold each child four columns
/// deeper, with a comma after every child but the last, and close on a line
/// of their own. Object members come in key order, each led by its quoted
/// key, a colon and a space. Fails when a string, key or number is not
/// ASCII, with that text (quoted, for strings and keys); or, with an empty
/// text, when a line would be too long to count.
pub fn parse_json_lines(json: &JsonValue, indent: usize) -> (r: Result<Vec<JsonLine>, String>)
    ensures
        r is Ok <==> ascii_texts(*json) && lines_fit(pretty(*json, indent as nat)),
        r matches Ok(ls) ==> lines_model(ls@) == pretty(*json, indent as nat) && forall|i: int|
            0 <= i < ls.len() ==> (#[trigger] ls[i]).inv(),
        r matches Err(e) ==> if ascii_texts(*json) {
            e@.len() == 0
        } else {
            reports_bad_text(*json, e@)
        },
{
    match check_ascii(json) {
        Ok(()) => {},
        Err(e) => {
            return Err(e);
        },
    }
    let lines = lines_of(json, indent);
    let ghost m = lines_model(lines@);
    let mut i: usize = 0;
    while i < lines.len()
        invariant
            ascii_texts(*json),
            m == pretty(*json, indent as nat),
            m == lines_model(lines@),
            lines_ok(lines@),
            i <= lines.len(),
            forall|j: int| 0 <= j < i ==> model_len(#[trigger] m[j]) <= usize::MAX,
            forall|j: int| 0 <= j < i ==> (#[trigger] lines@[j]).inv(),
        decreases lines.len() - i,
    {
        proof {
            lemma_model_len(lines@[i as int].parts());
            assert(tokens_model(lines@[i as int].parts()) =~= m[i as int]);
        }
        if !lines[i].fits() {
            assert(model_len(m[i as int]) > usize::MAX);
            return Err(String::new());
        }
        i = i + 1;
    }
    Ok(lines)
}

/// Pretty-print a whole JSON document; see [`parse_json_lines`].
pub fn parse_json(json: JsonValue) -> (r: Result<Vec<JsonLine>, String>)
    ensures
        r is Ok <==> ascii_texts(json) && lines_fit(pretty(json, 0)),
        r matches Ok(ls) ==> lines_model(ls@) == pretty(json, 0) && forall|i: int|
            0 <= i < ls.len() ==> (#[trigger] ls[i]).inv(),
        r matches Err(e) ==> if ascii_texts(json) {
            e@.len() == 0
        } else {
            reports_bad_text(json, e@)
        },
{
    parse_json_lines(&json, 0)
}

} // verus!
