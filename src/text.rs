//! Character strings: conversions to and from `String`, and decimal text.
use vstd::prelude::*;

verus! {

/// Relies on str::chars: the characters of the string, in order.
#[verifier::external_body]
pub(crate) fn chars_of(s: &str) -> (r: Vec<char>)
    ensures
        r@ == s@,
{
    s.chars().collect()
}

/// Relies on String's FromIterator<char>: the string of these characters,
/// in order.
#[verifier::external_body]
pub(crate) fn string_of(cs: &[char]) -> (r: String)
    ensures
        r@ == cs@,
{
    cs.iter().collect()
}

/// The character of a decimal digit.
pub open spec fn digit_char(d: nat) -> char {
    ('0' as nat + d) as char
}

/// The decimal digits of `n`, most significant first, without leading
/// zeros (a single `0` for zero).
pub open spec fn decimal_digits(n: nat) -> Seq<char>
    decreases n,
{
    if n < 10 {
        seq![digit_char(n)]
    } else {
        decimal_digits(n / 10).push(digit_char(n % 10))
    }
}

/// The decimal text of an integer, with a leading `-` when negative.
pub open spec fn decimal_text(v: int) -> Seq<char> {
    if v < 0 {
        seq!['-'] + decimal_digits((-v) as nat)
    } else {
        decimal_digits(v as nat)
    }
}

fn push_digits(out: &mut Vec<char>, n: u64)
    ensures
        final(out)@ == old(out)@ + decimal_digits(n as nat),
    decreases n,
{
    let ghost start = out@;
    if n >= 10 {
        push_digits(out, n / 10);
    }
    let d = (n % 10) as u8;
    let c = (48u8 + d) as char;
    assert(c == digit_char((n % 10) as nat));
    out.push(c);
    if n >= 10 {
        assert(out@ =~= start + decimal_digits(n as nat));
    } else {
        assert(out@ =~= start + decimal_digits(n as nat));
    }
}

/// Appends the decimal text of `v`.
pub fn push_decimal(out: &mut Vec<char>, v: i64)
    ensures
        final(out)@ == old(out)@ + decimal_text(v as int),
{
    let ghost start = out@;
    if v < 0 {
        out.push('-');
        let magnitude: u64 = ((-(v + 1)) as u64) + 1;
        push_digits(out, magnitude);
        assert(out@ =~= start + decimal_text(v as int));
    } else {
        push_digits(out, v as u64);
    }
}

/// Appends the characters of `s`.
pub fn push_str(out: &mut Vec<char>, s: &str)
    ensures
        final(out)@ == old(out)@ + s@,
{
    let cs = chars_of(s);
    let ghost start = out@;
    let mut i: usize = 0;
    while i < cs.len()
        invariant
            i <= cs@.len(),
            cs@ == s@,
            out@ == start + cs@.take(i as int),
        decreases cs@.len() - i,
    {
        out.push(cs[i]);
        assert(cs@.take(i + 1) =~= cs@.take(i as int).push(cs@[i as int]));
        assert(out@ =~= start + cs@.take(i + 1));
        i = i + 1;
    }
    assert(cs@.take(i as int) =~= cs@);
}

} // verus!
