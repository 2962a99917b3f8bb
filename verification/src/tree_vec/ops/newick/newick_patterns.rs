//! The character classes of Newick text and the patterns built from them,
//! with constant-time access to the characters of an ASCII text.

use vstd::prelude::*;
use vstd::string::*;

verus! {

/// An ASCII decimal digit.
pub open spec fn is_digit(c: char) -> bool {
    '0' <= c <= '9'
}

/// A character that ends a node: `,`, `)` or `;`.
pub open spec fn is_delimiter(c: char) -> bool {
    c == ',' || c == ')' || c == ';'
}

/// A parent label starts at `i`: a `)` with a digit right behind it.
pub open spec fn parent_label_at(s: Seq<char>, i: int) -> bool {
    0 <= i && i + 1 < s.len() && s[i] == ')' && is_digit(s[i + 1])
}

/// A leaf starts at `i`: a `(` or a `,` with a digit right behind it.
pub open spec fn leaf_at(s: Seq<char>, i: int) -> bool {
    0 <= i && i + 1 < s.len() && (s[i] == '(' || s[i] == ',') && is_digit(s[i + 1])
}

/// The first position from `i` on that holds no digit.
pub open spec fn digits_end(s: Seq<char>, i: int) -> int
    decreases s.len() - i,
{
    if 0 <= i < s.len() && is_digit(s[i]) {
        digits_end(s, i + 1)
    } else {
        i
    }
}

pub(crate) fn is_digit_char(c: char) -> (b: bool)
    ensures
        b == is_digit(c),
{
    '0' <= c && c <= '9'
}

pub(crate) fn is_delimiter_char(c: char) -> (b: bool)
    ensures
        b == is_delimiter(c),
{
    c == ',' || c == ')' || c == ';'
}

/// The number of characters of `s`; `ascii` says that `s` is known to be
/// ASCII, where the count is the length in bytes.
pub(crate) fn char_count(s: &str, ascii: bool) -> (n: usize)
    requires
        ascii ==> is_ascii(s),
    ensures
        n == s@.len(),
{
    if ascii {
        proof {
            is_ascii_spec_bytes(s);
        }
        s.as_bytes().len()
    } else {
        s.unicode_len()
    }
}

/// The character of `s` at position `i`, read in constant time when `s` is
/// known to be ASCII.
pub(crate) fn char_at(s: &str, ascii: bool, i: usize) -> (c: char)
    requires
        ascii ==> is_ascii(s),
        i < s@.len(),
    ensures
        c == s@[i as int],
{
    if ascii {
        proof {
            is_ascii_spec_bytes(s);
        }
        let b = s.as_bytes()[i];
        b as char
    } else {
        s.get_char(i)
    }
}

/// The characters of `s` from `from` up to `to`.
pub(crate) fn char_range<'a>(s: &'a str, ascii: bool, from: usize, to: usize) -> (r: &'a str)
    requires
        ascii ==> is_ascii(s),
        from <= to <= s@.len(),
    ensures
        r@ == s@.subrange(from as int, to as int),
        ascii ==> is_ascii(r),
{
    if ascii {
        s.substring_ascii(from, to)
    } else {
        s.substring_char(from, to)
    }
}

} // verus!
