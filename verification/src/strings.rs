//! Strings as sequences of characters: the few operations on `String` that the
//! rest of the crate builds on.

use vstd::prelude::*;
use vstd::string::*;

verus! {

/// `String::push` of the standard library appends the character `c` to the end
/// of the string; nothing else changes.
pub assume_specification[ String::push ](s: &mut String, c: char)
    ensures
        final(s)@ == old(s)@.push(c),
;

/// The characters of `s`, in order.
pub fn to_chars(s: &str) -> (chars: Vec<char>)
    ensures
        chars@ == s@,
{
    let mut chars: Vec<char> = Vec::new();
    for c in it: s.chars()
        invariant
            chars@ == it.seq().take(it.index()),
            it.seq() == s@,
    {
        chars.push(c);
    }
    chars
}

/// The decimal digit of value `d`, for `d` below ten.
pub open spec fn digit(d: nat) -> char {
    ('0' as nat + d) as char
}

/// The decimal numeral of `n`, without leading zeros.
pub open spec fn decimal(n: nat) -> Seq<char>
    decreases n,
{
    if n < 10 {
        seq![digit(n)]
    } else {
        decimal(n / 10).push(digit(n % 10))
    }
}

/// Appends the decimal numeral of `n` to `out`.
pub fn push_decimal(out: &mut String, n: usize)
    ensures
        final(out)@ == old(out)@ + decimal(n as nat),
    decreases n,
{
    if n >= 10 {
        push_decimal(out, n / 10);
    }
    let d: u8 = (n % 10) as u8;
    out.push((48u8 + d) as char);
    assert(final(out)@ =~= old(out)@ + decimal(n as nat));
}

/// The decimal numeral of `n`.
pub fn to_decimal(n: usize) -> (out: String)
    ensures
        out@ == decimal(n as nat),
{
    let mut out = String::new();
    push_decimal(&mut out, n);
    assert(out@ =~= decimal(n as nat));
    out
}

/// The characters that are no carriage return.
pub open spec fn not_cr() -> spec_fn(char) -> bool {
    |c: char| c != '\r'
}

/// `s` without its carriage returns.
pub open spec fn strip_cr(s: Seq<char>) -> Seq<char> {
    s.filter(not_cr())
}

/// A copy of `s` without its carriage returns.
pub fn without_cr(s: &str) -> (out: String)
    ensures
        out@ == strip_cr(s@),
{
    let mut out = String::new();
    proof {
        reveal(Seq::filter);
    }
    for c in it: s.chars()
        invariant
            out@ == strip_cr(it.seq().take(it.index())),
            it.seq() == s@,
    {
        proof {
            reveal(Seq::filter);
            let k = it.index();
            assert(s@.take(k + 1).drop_last() =~= s@.take(k));
        }
        if c != '\r' {
            out.push(c);
        }
    }
    assert(s@.take(s@.len() as int) =~= s@);
    out
}

/// The sequences of `parts` one after another.
pub open spec fn texts(parts: Seq<String>) -> Seq<Seq<char>> {
    parts.map_values(|p: String| p@)
}

/// The strings of `parts` joined, with nothing between them.
pub fn join_all(parts: &Vec<String>) -> (out: String)
    ensures
        out@ == texts(parts@).flatten(),
{
    let mut out = String::new();
    let mut i: usize = 0;
    while i < parts.len()
        invariant
            i <= parts.len(),
            out@ == texts(parts@.take(i as int)).flatten(),
        decreases parts.len() - i,
    {
        proof {
            broadcast use Seq::lemma_flatten_push;
            assert(texts(parts@.take(i + 1)) =~= texts(parts@.take(i as int)).push(parts@[i as int]@));
        }
        out.append(parts[i].as_str());
        i = i + 1;
    }
    assert(parts@.take(parts@.len() as int) =~= parts@);
    out
}

} // verus!
