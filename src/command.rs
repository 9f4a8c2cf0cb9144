use vstd::prelude::*;

verus! {

/// Whether `c` is a decimal digit.
pub open spec fn is_digit(c: char) -> bool {
    '0' <= c <= '9'
}

/// The value of the decimal digit `c`.
pub open spec fn digit_value(c: char) -> nat {
    (c as u32 - '0' as u32) as nat
}

/// The value of the decimal digits `s`.
pub open spec fn digits_value(s: Seq<char>) -> nat
    decreases s.len(),
{
    if s.len() == 0 {
        0
    } else {
        digits_value(s.drop_last()) * 10 + digit_value(s.last())
    }
}

/// `s` without a leading `+`.
pub open spec fn unsigned_part(s: Seq<char>) -> Seq<char> {
    if s.len() > 0 && s[0] == '+' {
        s.drop_first()
    } else {
        s
    }
}

/// Whether every character of `s` is a decimal digit.
pub open spec fn all_digits(s: Seq<char>) -> bool {
    forall|i: int| 0 <= i < s.len() ==> is_digit(#[trigger] s[i])
}

/// The `usize` that `s` writes in decimal, with an optional leading `+`;
/// `None` when `s` writes none (no digit, another character, or a value too
/// large).
pub open spec fn parse_usize(s: Seq<char>) -> Option<usize> {
    let d = unsigned_part(s);
    if d.len() > 0 && all_digits(d) && digits_value(d) <= usize::MAX {
        Some(digits_value(d) as usize)
    } else {
        None
    }
}

/// The index of the first `:` of `s` from `i` on, or the length of `s`.
pub open spec fn find_colon(s: Seq<char>, i: nat) -> nat
    decreases s.len() - i,
{
    if i >= s.len() {
        s.len()
    } else if s[i as int] == ':' {
        i
    } else {
        find_colon(s, i + 1)
    }
}

/// One less, but not below zero.
pub open spec fn one_less(n: usize) -> usize {
    if n > 0 {
        (n - 1) as usize
    } else {
        0
    }
}

/// What a goto command `row[:col]` or `:col` asks for, both from 0: the row
/// (`None` when left out), and the column (`None` when left out). `None`
/// when it is malformed: a part that is not a number, an empty column, or
/// more than two parts.
pub open spec fn goto_target(s: Seq<char>) -> Option<(Option<usize>, Option<usize>)> {
    let i = find_colon(s, 0);
    let row_text = s.take(i as int);
    let row: Option<Option<usize>> = if row_text.len() == 0 {
        Some(None)
    } else {
        match parse_usize(row_text) {
            Some(d) => Some(Some(one_less(d))),
            None => None,
        }
    };
    match row {
        None => None,
        Some(r) => if i >= s.len() {
            Some((r, None))
        } else {
            let rest = s.skip((i + 1) as int);
            if find_colon(rest, 0) < rest.len() {
                None
            } else {
                match parse_usize(rest) {
                    Some(c) => Some((r, Some(one_less(c)))),
                    None => None,
                }
            }
        },
    }
}

proof fn lemma_find_colon(s: Seq<char>, i: nat)
    requires
        i <= s.len(),
    ensures
        i <= find_colon(s, i) <= s.len(),
        find_colon(s, i) < s.len() ==> s[find_colon(s, i) as int] == ':',
        forall|j: int| i <= j < find_colon(s, i) ==> s[j] != ':',
    decreases s.len() - i,
{
    if i < s.len() && s[i as int] != ':' {
        lemma_find_colon(s, i + 1);
    }
}

proof fn lemma_digits_grow(s: Seq<char>, k: int)
    requires
        0 <= k <= s.len(),
    ensures
        digits_value(s.take(k)) <= digits_value(s),
    decreases s.len() - k,
{
    if k < s.len() {
        lemma_digits_grow(s, k + 1);
        assert(s.take(k + 1).drop_last() =~= s.take(k));
    } else {
        assert(s.take(k) =~= s);
    }
}

/// The characters of `s`.
fn chars_of(s: &str) -> (r: Vec<char>)
    ensures
        r@ == s@,
{
    let n = s.unicode_len();
    let mut out: Vec<char> = Vec::new();
    let mut i: usize = 0;
    while i < n
        invariant
            n == s@.len(),
            i <= n,
            out@ =~= s@.take(i as int),
        decreases n - i,
    {
        out.push(s.get_char(i));
        i = i + 1;
    }
    assert(s@.take(n as int) =~= s@);
    out
}

/// Read the characters `cs[from..to]` as a `usize`, as `str::parse` does.
fn parse_part(cs: &Vec<char>, from: usize, to: usize) -> (r: Option<usize>)
    requires
        from <= to <= cs.len(),
    ensures
        r == parse_usize(cs@.subrange(from as int, to as int)),
{
    let ghost s = cs@.subrange(from as int, to as int);
    let mut start = from;
    if from < to && cs[from] == '+' {
        start = from + 1;
    }
    let ghost d = cs@.subrange(start as int, to as int);
    assert(d =~= unsigned_part(s));
    if start == to {
        return None;
    }
    let mut v: usize = 0;
    let mut i: usize = start;
    while i < to
        invariant
            from <= start < to <= cs.len(),
            start <= i <= to,
            d == cs@.subrange(start as int, to as int),
            s == cs@.subrange(from as int, to as int),
            d == unsigned_part(s),
            d.len() > 0,
            forall|j: int| 0 <= j < i - start ==> is_digit(#[trigger] d[j]),
            v == digits_value(d.take(i - start)),
        decreases to - i,
    {
        let c = cs[i];
        assert(d[i - start] == c);
        if !('0' <= c && c <= '9') {
            assert(!is_digit(d[i - start]));
            assert(!all_digits(d));
            return None;
        }
        let dv = (c as u32 - '0' as u32) as usize;
        assert(d.take(i - start + 1).drop_last() =~= d.take(i - start));
        if v > (usize::MAX - dv) / 10 {
            proof {
                lemma_digits_grow(d, i - start + 1);
                assert(digits_value(d.take(i - start + 1)) == v * 10 + dv);
            }
            return None;
        }
        v = v * 10 + dv;
        i = i + 1;
    }
    assert(d.take(to - start) =~= d);
    Some(v)
}

/// Read a goto command: `row[:col]` or `:col`, counted from 1, each side
/// optional. The result counts from 0 (a 0 stays 0); a side left out is
/// `None`. Malformed text gives `None`.
pub fn parse_goto(input: &str) -> (r: Option<(Option<usize>, Option<usize>)>)
    ensures
        r == goto_target(input@),
{
    let cs = chars_of(input);
    let n = cs.len();
    let mut i: usize = 0;
    while i < n && cs[i] != ':'
        invariant
            n == cs.len(),
            i <= n,
            find_colon(cs@, 0) == find_colon(cs@, i as nat),
        decreases n - i,
    {
        i = i + 1;
    }
    assert(find_colon(cs@, i as nat) == i);
    assert(cs@.subrange(0, i as int) =~= cs@.take(i as int));
    let row = if i == 0 {
        None
    } else {
        match parse_part(&cs, 0, i) {
            Some(d) => Some(if d > 0 {
                d - 1
            } else {
                0
            }),
            None => {
                return None;
            },
        }
    };
    if i >= n {
        return Some((row, None));
    }
    let ghost rest = cs@.skip(i + 1);
    let mut j: usize = i + 1;
    while j < n && cs[j] != ':'
        invariant
            n == cs.len(),
            i < j <= n,
            rest == cs@.skip(i + 1),
            find_colon(rest, 0) == find_colon(rest, (j - i - 1) as nat),
        decreases n - j,
    {
        j = j + 1;
    }
    assert(find_colon(rest, (j - i - 1) as nat) == j - i - 1);
    if j < n {
        return None;
    }
    assert(cs@.subrange(i + 1, n as int) =~= rest);
    match parse_part(&cs, i + 1, n) {
        Some(c) => Some((
            row,
            Some(if c > 0 {
                c - 1
            } else {
                0
            }),
        )),
        None => None,
    }
}

} // verus!
