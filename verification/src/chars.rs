//! Character classes of the markup language.

use vstd::prelude::*;

verus! {

/// The markup-special characters: `_`, `*`, `` ` ``, `#`, `[`, `]`, `(`, `)` and `!`.
pub open spec fn special(c: char) -> bool {
    c == '_' || c == '*' || c == '`' || c == '#' || c == '[' || c == ']' || c == '(' || c == ')'
        || c == '!'
}

/// Tells whether `c` is one of the markup-special characters.
pub fn is_special_char(c: char) -> (b: bool)
    ensures
        b == special(c),
{
    c == '_' || c == '*' || c == '`' || c == '#' || c == '[' || c == ']' || c == '(' || c == ')'
        || c == '!'
}

/// The characters with the Unicode property `White_Space`.
pub open spec fn whitespace(c: char) -> bool {
    let n = c as u32;
    ||| 0x09 <= n <= 0x0D
    ||| n == 0x20
    ||| n == 0x85
    ||| n == 0xA0
    ||| n == 0x1680
    ||| 0x2000 <= n <= 0x200A
    ||| n == 0x2028
    ||| n == 0x2029
    ||| n == 0x202F
    ||| n == 0x205F
    ||| n == 0x3000
}

/// Tells whether `c` has the Unicode property `White_Space`.
pub fn is_whitespace(c: char) -> (b: bool)
    ensures
        b == whitespace(c),
{
    let n: u32 = c as u32;
    (0x09 <= n && n <= 0x0D) || n == 0x20 || n == 0x85 || n == 0xA0 || n == 0x1680 || (0x2000 <= n
        && n <= 0x200A) || n == 0x2028 || n == 0x2029 || n == 0x202F || n == 0x205F || n == 0x3000
}

} // verus!
