use vstd::prelude::*;
use vstd::string::*;
use vstd::utf8::is_ascii_chars;

verus! {

/// Relies on String::push: the character is appended at the end.
#[verifier::external_body]
pub(crate) fn push_char(s: &mut String, c: char)
    ensures
        final(s)@ == old(s)@.push(c),
{
    s.push(c);
}

/// Relies on String::insert: on an ASCII string, byte and character indices
/// agree, so `c` lands before the character at `idx`.
#[verifier::external_body]
pub(crate) fn insert_char(s: &mut String, idx: usize, c: char)
    requires
        is_ascii_chars(old(s)@),
        idx <= old(s)@.len(),
    ensures
        final(s)@ == old(s)@.insert(idx as int, c),
{
    s.insert(idx, c);
}

/// Relies on String::remove: on an ASCII string, byte and character indices
/// agree, so the character at `idx` is taken out and returned.
#[verifier::external_body]
pub(crate) fn remove_char(s: &mut String, idx: usize) -> (c: char)
    requires
        is_ascii_chars(old(s)@),
        idx < old(s)@.len(),
    ensures
        c == old(s)@[idx as int],
        final(s)@ == old(s)@.remove(idx as int),
{
    s.remove(idx)
}

/// The number of characters of an ASCII string, in constant time.
pub(crate) fn ascii_len(s: &String) -> (n: usize)
    requires
        is_ascii_chars(s@),
    ensures
        n == s@.len(),
{
    let t = s.as_str();
    proof {
        assert(vstd::string::is_ascii(t));
        vstd::string::is_ascii_spec_bytes(t);
        assert(t.spec_bytes().len() == s@.len());
    }
    t.as_bytes().len()
}

/// The character at index `i` of an ASCII string, in constant time.
pub(crate) fn ascii_char_at(s: &String, i: usize) -> (c: char)
    requires
        is_ascii_chars(s@),
        i < s@.len(),
    ensures
        c == s@[i as int],
{
    let b = s.as_str().get_ascii(i);
    let c = b as char;
    assert(s@[i as int] <= '\u{7f}');
    c
}

/// The character that writes the decimal digit `d`.
pub open spec fn digit_char(d: nat) -> char {
    ((d + 48) as u8) as char
}

/// The decimal writing of `n`, without leading zeros.
pub open spec fn decimal_text(n: nat) -> Seq<char>
    decreases n,
{
    if n < 10 {
        seq![digit_char(n)]
    } else {
        decimal_text(n / 10).push(digit_char(n % 10))
    }
}

/// Append the decimal writing of `n` to `out`.
pub(crate) fn push_decimal(out: &mut String, n: usize)
    ensures
        final(out)@ == old(out)@ + decimal_text(n as nat),
    decreases n,
{
    if n >= 10 {
        push_decimal(out, n / 10);
    }
    let d = (n % 10) as u8;
    push_char(out, (d + 48) as char);
    assert(out@ =~= old(out)@ + decimal_text(n as nat));
}

} // verus!
