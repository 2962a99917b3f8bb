//! Reading Newick text whose nodes carry branch lengths.
//!
//! A branch length is kept as the place of its text: the library checks
//! that the text writes a number and leaves its value to the caller.

use crate::tree_vec::ops::newick::newick_patterns::{
    char_at, char_count, char_range, digits_end, is_digit, is_digit_char,
};
use crate::tree_vec::ops::newick::{
    max_usize, min_usize, node_at, node_substr, parse_number, parse_usize,
    NewickError, NewickFault,
};
use crate::tree_vec::types::{lemma_rows_of_push, rows_of, Ancestry, Row};
use vstd::prelude::*;
use vstd::string::*;

verus! {

/// The characters of a text from `start` up to `end`.
#[derive(Debug, Clone, Copy, PartialEq, Eq, Structural)]
pub struct Span {
    pub start: usize,
    pub end: usize,
}

/// The two branch lengths of every cherry as plain values.
pub open spec fn lengths_of(bls: Seq<[Span; 2]>) -> Seq<(Span, Span)> {
    Seq::new(bls.len(), |i: int| (bls[i][0], bls[i][1]))
}

proof fn lemma_lengths_of_push(bls: Seq<[Span; 2]>, pair: [Span; 2])
    ensures
        lengths_of(bls.push(pair)) == lengths_of(bls).push((pair[0], pair[1])),
{
    assert(lengths_of(bls.push(pair)) =~= lengths_of(bls).push((pair[0], pair[1])));
}

// ---------------------------------------------------------------------------
// The text of a floating-point number
// ---------------------------------------------------------------------------
/// An ASCII letter in lower case, any other character as it is.
pub open spec fn lower(c: char) -> char {
    if 'A' <= c <= 'Z' {
        ((c as u32) + 32) as char
    } else {
        c
    }
}

pub open spec fn is_sign(c: char) -> bool {
    c == '+' || c == '-'
}

/// `s` is `word` but for the case of its letters.
pub open spec fn is_word(s: Seq<char>, word: Seq<char>) -> bool {
    s.len() == word.len() && forall|i: int| 0 <= i < s.len() ==> lower(#[trigger] s[i]) == word[i]
}

/// From `i` to its end `s` is an exponent: `e`, an optional sign, digits.
pub open spec fn is_exponent(s: Seq<char>, i: int) -> bool {
    0 <= i < s.len() && lower(s[i]) == 'e' && {
        let j = if i + 1 < s.len() && is_sign(s[i + 1]) {
            i + 2
        } else {
            i + 1
        };
        j < s.len() && digits_end(s, j) == s.len()
    }
}

/// From `i` to its end `s` is a number: digits with an optional point among
/// them, at least one digit, and an optional exponent.
pub open spec fn is_number_from(s: Seq<char>, i: int) -> bool {
    let whole = digits_end(s, i);
    if whole < s.len() && s[whole] == '.' {
        let fraction = digits_end(s, whole + 1);
        (whole > i || fraction > whole + 1) && (fraction == s.len() || is_exponent(s, fraction))
    } else {
        whole > i && (whole == s.len() || is_exponent(s, whole))
    }
}

/// `s` writes a floating-point number: an optional sign, and then `inf`,
/// `infinity` or `nan` in any case, or a number.
pub open spec fn is_float_text(s: Seq<char>) -> bool {
    let i: int = if s.len() > 0 && is_sign(s[0]) {
        1
    } else {
        0
    };
    let body = s.subrange(i, s.len() as int);
    ||| is_word(body, seq!['i', 'n', 'f'])
    ||| is_word(body, seq!['n', 'a', 'n'])
    ||| is_word(body, seq!['i', 'n', 'f', 'i', 'n', 'i', 't', 'y'])
    ||| is_number_from(s, i)
}

fn skip_digits(s: &str, ascii: bool, n: usize, i: usize) -> (end: usize)
    requires
        ascii ==> is_ascii(s),
        n == s@.len(),
        i <= n,
    ensures
        end == digits_end(s@, i as int),
        i <= end <= n,
{
    let mut end: usize = i;
    while end < n && is_digit_char(char_at(s, ascii, end))
        invariant
            ascii ==> is_ascii(s),
            n == s@.len(),
            i <= end <= n,
            digits_end(s@, end as int) == digits_end(s@, i as int),
        decreases n - end,
    {
        end += 1;
    }
    end
}

fn lower_char(c: char) -> (l: char)
    ensures
        l == lower(c),
{
    if 'A' <= c && c <= 'Z' {
        match c {
            'A' => 'a',
            'B' => 'b',
            'C' => 'c',
            'D' => 'd',
            'E' => 'e',
            'F' => 'f',
            'G' => 'g',
            'H' => 'h',
            'I' => 'i',
            'J' => 'j',
            'K' => 'k',
            'L' => 'l',
            'M' => 'm',
            'N' => 'n',
            'O' => 'o',
            'P' => 'p',
            'Q' => 'q',
            'R' => 'r',
            'S' => 's',
            'T' => 't',
            'U' => 'u',
            'V' => 'v',
            'W' => 'w',
            'X' => 'x',
            'Y' => 'y',
            _ => 'z',
        }
    } else {
        c
    }
}

fn check_exponent(s: &str, ascii: bool, n: usize, i: usize) -> (b: bool)
    requires
        ascii ==> is_ascii(s),
        n == s@.len(),
        i < n,
    ensures
        b == is_exponent(s@, i as int),
{
    if lower_char(char_at(s, ascii, i)) != 'e' {
        return false;
    }
    let mut j: usize = i + 1;
    if j < n {
        let c = char_at(s, ascii, j);
        if c == '+' || c == '-' {
            j += 1;
        }
    }
    if j >= n {
        return false;
    }
    skip_digits(s, ascii, n, j) == n
}

fn check_number(s: &str, ascii: bool, n: usize, i: usize) -> (b: bool)
    requires
        ascii ==> is_ascii(s),
        n == s@.len(),
        i <= n,
    ensures
        b == is_number_from(s@, i as int),
{
    let whole = skip_digits(s, ascii, n, i);
    if whole < n && char_at(s, ascii, whole) == '.' {
        let fraction = skip_digits(s, ascii, n, whole + 1);
        if !(whole > i || fraction > whole + 1) {
            return false;
        }
        fraction == n || check_exponent(s, ascii, n, fraction)
    } else {
        whole > i && (whole == n || check_exponent(s, ascii, n, whole))
    }
}

fn check_word3(s: &str, ascii: bool, n: usize, i: usize, a: char, b: char, c: char) -> (r: bool)
    requires
        ascii ==> is_ascii(s),
        n == s@.len(),
        i <= n,
    ensures
        r == is_word(s@.subrange(i as int, n as int), seq![a, b, c]),
{
    if n - i != 3 {
        return false;
    }
    let ghost body = s@.subrange(i as int, n as int);
    let ghost word = seq![a, b, c];
    let r = lower_char(char_at(s, ascii, i)) == a && lower_char(char_at(s, ascii, i + 1)) == b
        && lower_char(char_at(s, ascii, i + 2)) == c;
    proof {
        assert(body[0] == s@[i as int]);
        assert(body[1] == s@[i + 1]);
        assert(body[2] == s@[i + 2]);
        if r {
            assert forall|q: int| 0 <= q < body.len() implies lower(#[trigger] body[q])
                == word[q] by {
                if q == 0 {
                } else if q == 1 {
                } else {
                    assert(q == 2);
                }
            }
        } else {
            if is_word(body, word) {
                assert(lower(body[0]) == word[0]);
                assert(lower(body[1]) == word[1]);
                assert(lower(body[2]) == word[2]);
            }
        }
    }
    r
}

fn check_infinity(s: &str, ascii: bool, n: usize, i: usize) -> (r: bool)
    requires
        ascii ==> is_ascii(s),
        n == s@.len(),
        i <= n,
    ensures
        r == is_word(
            s@.subrange(i as int, n as int),
            seq!['i', 'n', 'f', 'i', 'n', 'i', 't', 'y'],
        ),
{
    if n - i != 8 {
        return false;
    }
    let ghost body = s@.subrange(i as int, n as int);
    let ghost word = seq!['i', 'n', 'f', 'i', 'n', 'i', 't', 'y'];
    let word_text = "infinity";
    proof {
        reveal_strlit("infinity");
        assert(word_text@ =~= word);
    }
    let mut q: usize = 0;
    while q < 8
        invariant
            ascii ==> is_ascii(s),
            n == s@.len(),
            n - i == 8,
            q <= 8,
            body == s@.subrange(i as int, n as int),
            word_text@ == word,
            word == seq!['i', 'n', 'f', 'i', 'n', 'i', 't', 'y'],
            word.len() == 8,
            is_ascii(word_text),
            forall|x: int| 0 <= x < q ==> lower(#[trigger] body[x]) == word[x],
        decreases 8 - q,
    {
        let c = lower_char(char_at(s, ascii, i + q));
        let w = char_at(word_text, true, q);
        if c != w {
            proof {
                assert(body[q as int] == s@[i + q]);
                assert(lower(body[q as int]) != word[q as int]);
            }
            return false;
        }
        proof {
            assert(body[q as int] == s@[i + q]);
        }
        q += 1;
    }
    true
}

/// Whether `text` writes a floating-point number.
pub fn is_float(text: &str) -> (b: bool)
    ensures
        b == is_float_text(text@),
{
    float_check(text, text.is_ascii())
}

fn float_check(text: &str, ascii: bool) -> (b: bool)
    requires
        ascii ==> is_ascii(text),
    ensures
        b == is_float_text(text@),
{
    let n = char_count(text, ascii);
    let mut i: usize = 0;
    if n > 0 {
        let c = char_at(text, ascii, 0);
        if c == '+' || c == '-' {
            i = 1;
        }
    }
    check_number(text, ascii, n, i) || check_word3(text, ascii, n, i, 'i', 'n', 'f')
        || check_word3(text, ascii, n, i, 'n', 'a', 'n') || check_infinity(text, ascii, n, i)
}

// ---------------------------------------------------------------------------
// Nodes with branch lengths
// ---------------------------------------------------------------------------
/// The first position from `i` on and before `end` that holds a `:`, or
/// `end` when there is none.
pub open spec fn first_colon(s: Seq<char>, i: int, end: int) -> int
    decreases end - i,
{
    if 0 <= i < end && i < s.len() && s[i] != ':' {
        first_colon(s, i + 1, end)
    } else {
        i
    }
}

/// The text of the number of the node that starts at `start`: what stands
/// before its first `:`.
pub open spec fn node_number_text(s: Seq<char>, start: int) -> Seq<char> {
    let stop = start + node_at(s, start).0.len();
    s.subrange(start, first_colon(s, start, stop))
}

/// The place of the branch length of the node that starts at `start`: what
/// stands behind its first `:`, and nothing where it has none.
pub open spec fn node_length_span(s: Seq<char>, start: int) -> Span {
    let stop = start + node_at(s, start).0.len();
    let colon = first_colon(s, start, stop);
    if colon < stop {
        Span { start: (colon + 1) as usize, end: stop as usize }
    } else {
        Span { start: stop as usize, end: stop as usize }
    }
}

/// The text at a place.
pub open spec fn span_text(s: Seq<char>, span: Span) -> Seq<char> {
    s.subrange(span.start as int, span.end as int)
}

/// The node that starts at `start`, where it must carry a branch length:
/// its number and the place of its length.
pub open spec fn node_with_length(s: Seq<char>, start: int) -> Result<(usize, Span), NewickFault> {
    match parse_number(node_number_text(s, start)) {
        None => Err(NewickFault::ParseInt(node_number_text(s, start))),
        Some(id) => {
            let span = node_length_span(s, start);
            if is_float_text(span_text(s, span)) {
                Ok((id, span))
            } else {
                Err(NewickFault::ParseFloat(span_text(s, span)))
            }
        },
    }
}

fn find_colon(s: &str, ascii: bool, start: usize, end: usize) -> (colon: usize)
    requires
        ascii ==> is_ascii(s),
        start <= end <= s@.len(),
    ensures
        colon == first_colon(s@, start as int, end as int),
        start <= colon <= end,
{
    let mut colon: usize = start;
    while colon < end && char_at(s, ascii, colon) != ':'
        invariant
            ascii ==> is_ascii(s),
            start <= colon <= end <= s@.len(),
            first_colon(s@, colon as int, end as int) == first_colon(s@, start as int, end as int),
        decreases end - colon,
    {
        colon += 1;
    }
    colon
}

/// Reads the number of the node that starts at `start` and ends at `stop`.
fn read_number(s: &str, ascii: bool, n: usize, start: usize, stop: usize) -> (r: Result<
    usize,
    NewickError,
>)
    requires
        ascii ==> is_ascii(s),
        n == s@.len(),
        start <= stop <= n,
        stop == start + node_at(s@, start as int).0.len(),
    ensures
        match r {
            Ok(id) => parse_number(node_number_text(s@, start as int)) == Some(id) && start
                < stop,
            Err(e) => parse_number(node_number_text(s@, start as int)) is None && e@
                == NewickFault::ParseInt(node_number_text(s@, start as int)),
        },
{
    let colon = find_colon(s, ascii, start, stop);
    let number_text = char_range(s, ascii, start, colon);
    match parse_usize(number_text, ascii) {
        Some(id) => Ok(id),
        None => Err(NewickError::ParseIntError(number_text.to_owned())),
    }
}

/// Checks the branch length of the node that starts at `start` and ends at
/// `stop`, and gives its place.
fn read_length(s: &str, ascii: bool, n: usize, start: usize, stop: usize) -> (r: Result<
    Span,
    NewickError,
>)
    requires
        ascii ==> is_ascii(s),
        n == s@.len(),
        start <= stop <= n,
        stop == start + node_at(s@, start as int).0.len(),
    ensures
        match r {
            Ok(span) => span == node_length_span(s@, start as int) && is_float_text(
                span_text(s@, span),
            ) && span.start <= span.end <= n,
            Err(e) => !is_float_text(span_text(s@, node_length_span(s@, start as int))) && e@
                == NewickFault::ParseFloat(span_text(s@, node_length_span(s@, start as int))),
        },
{
    let colon = find_colon(s, ascii, start, stop);
    let from = if colon < stop {
        colon + 1
    } else {
        stop
    };
    let length_text = char_range(s, ascii, from, stop);
    if float_check(length_text, ascii) {
        Ok(Span { start: from, end: stop })
    } else {
        Err(NewickError::ParseFloatError(length_text.to_owned()))
    }
}

// ---------------------------------------------------------------------------
// Cherries with branch lengths
// ---------------------------------------------------------------------------
/// Reads the cherries of a text with parent labels and branch lengths from
/// position `i` on. `stack` and `lengths` hold the nodes that are still
/// open and the places of their branch lengths.
///
/// A `)` closes the two nodes opened last into a cherry. Where the label
/// behind it ends at the last character of the text it is the root: only
/// its number is read. Any other parent must carry a branch length and is
/// open from there on. A `;` ends the reading.
pub open spec fn cherries_with_bls_from(
    s: Seq<char>,
    i: int,
    stack: Seq<usize>,
    lengths: Seq<Span>,
    rows: Seq<Row>,
    bls: Seq<(Span, Span)>,
) -> Result<(Seq<Row>, Seq<(Span, Span)>), NewickFault>
    decreases s.len() - i,
{
    if i < 0 || i >= s.len() || s[i] == ';' {
        Ok((rows, bls))
    } else if s[i] == ')' {
        if stack.len() < 2 || lengths.len() < 2 {
            Err(NewickFault::StackUnderflow)
        } else {
            let c1 = stack[stack.len() - 2];
            let c2 = stack[stack.len() - 1];
            let l1 = lengths[lengths.len() - 2];
            let l2 = lengths[lengths.len() - 1];
            let end = node_at(s, i + 1).1;
            if end == s.len() - 1 {
                match parse_number(node_number_text(s, i + 1)) {
                    None => Err(NewickFault::ParseInt(node_number_text(s, i + 1))),
                    Some(p) => cherries_with_bls_from(
                        s,
                        end,
                        stack.drop_last().drop_last(),
                        lengths.drop_last().drop_last(),
                        rows.push((c1, c2, p)),
                        bls.push((l1, l2)),
                    ),
                }
            } else {
                match node_with_length(s, i + 1) {
                    Err(e) => Err(e),
                    Ok((p, span)) => cherries_with_bls_from(
                        s,
                        end,
                        stack.drop_last().drop_last().push(p),
                        lengths.drop_last().drop_last().push(span),
                        rows.push((c1, c2, p)),
                        bls.push((l1, l2)),
                    ),
                }
            }
        }
    } else if is_digit(s[i]) {
        let end = node_at(s, i).1;
        match node_with_length(s, i) {
            Err(e) => Err(e),
            Ok((x, span)) => if end > i {
                cherries_with_bls_from(s, end, stack.push(x), lengths.push(span), rows, bls)
            } else {
                Err(NewickFault::ParseInt(Seq::empty()))
            },
        }
    } else {
        cherries_with_bls_from(s, i + 1, stack, lengths, rows, bls)
    }
}

/// The cherries of a text with parent labels and branch lengths, and for
/// each cherry the places of the branch lengths of its two children.
pub open spec fn cherries_with_bls(s: Seq<char>) -> Result<
    (Seq<Row>, Seq<(Span, Span)>),
    NewickFault,
> {
    cherries_with_bls_from(s, 0, Seq::empty(), Seq::empty(), Seq::empty(), Seq::empty())
}

/// Reads the cherries of a text with branch lengths and without parent
/// labels from position `i` on.
///
/// A `)` closes the two nodes opened last into a cherry. Where nothing but
/// the last character of the text stands behind it the reading ends. Else
/// the branch length of the cherry stands behind it, after one character
/// that is passed over, and the smaller child stands for the cherry from
/// there on. A `;` ends the reading.
pub open spec fn cherries_no_parents_with_bls_from(
    s: Seq<char>,
    i: int,
    stack: Seq<usize>,
    lengths: Seq<Span>,
    rows: Seq<Row>,
    bls: Seq<(Span, Span)>,
) -> Result<(Seq<Row>, Seq<(Span, Span)>), NewickFault>
    decreases s.len() - i,
{
    if i < 0 || i >= s.len() || s[i] == ';' {
        Ok((rows, bls))
    } else if s[i] == ')' {
        if stack.len() < 2 || lengths.len() < 2 {
            Err(NewickFault::StackUnderflow)
        } else {
            let c1 = stack[stack.len() - 2];
            let c2 = stack[stack.len() - 1];
            let l1 = lengths[lengths.len() - 2];
            let l2 = lengths[lengths.len() - 1];
            let (label, end) = node_at(s, i + 1);
            let found = (rows.push((c1, c2, max_usize(c1, c2))), bls.push((l1, l2)));
            if label.len() == 0 && end == s.len() - 1 {
                Ok(found)
            } else {
                let span = cherry_length_span(s, i + 1);
                if is_float_text(span_text(s, span)) && end > i {
                    cherries_no_parents_with_bls_from(
                        s,
                        end,
                        stack.drop_last().drop_last().push(min_usize(c1, c2)),
                        lengths.drop_last().drop_last().push(span),
                        found.0,
                        found.1,
                    )
                } else {
                    Err(NewickFault::ParseFloat(span_text(s, span)))
                }
            }
        }
    } else if is_digit(s[i]) {
        let end = node_at(s, i).1;
        match node_with_length(s, i) {
            Err(e) => Err(e),
            Ok((x, span)) => if end > i {
                cherries_no_parents_with_bls_from(
                    s,
                    end,
                    stack.push(x),
                    lengths.push(span),
                    rows,
                    bls,
                )
            } else {
                Err(NewickFault::ParseInt(Seq::empty()))
            },
        }
    } else {
        cherries_no_parents_with_bls_from(s, i + 1, stack, lengths, rows, bls)
    }
}

/// The place of the branch length behind a `)` without a parent label: the
/// label that starts at `start` without its first character.
pub open spec fn cherry_length_span(s: Seq<char>, start: int) -> Span {
    let stop = start + node_at(s, start).0.len();
    if start < stop {
        Span { start: (start + 1) as usize, end: stop as usize }
    } else {
        Span { start: stop as usize, end: stop as usize }
    }
}

/// The cherries of a text with branch lengths and without parent labels,
/// and for each cherry the places of the branch lengths of its two children.
pub open spec fn cherries_no_parents_with_bls(s: Seq<char>) -> Result<
    (Seq<Row>, Seq<(Span, Span)>),
    NewickFault,
> {
    cherries_no_parents_with_bls_from(
        s,
        0,
        Seq::empty(),
        Seq::empty(),
        Seq::empty(),
        Seq::empty(),
    )
}

/// Reads the cherries of a Newick text with parent labels and branch
/// lengths, and for each cherry the places in the text of the branch
/// lengths of its two children.
pub fn get_cherries_with_bls(newick: &str) -> (r: Result<(Ancestry, Vec<[Span; 2]>), NewickError>)
    ensures
        match r {
            Ok((a, b)) => {
                &&& cherries_with_bls(newick@) == Ok::<(Seq<Row>, Seq<(Span, Span)>), NewickFault>(
                    (rows_of(a@), lengths_of(b@)),
                )
                &&& a.len() == b.len()
                &&& a.len() <= newick@.len()
            },
            Err(e) => cherries_with_bls(newick@) == Err::<
                (Seq<Row>, Seq<(Span, Span)>),
                NewickFault,
            >(e@),
        },
{
    let ascii = newick.is_ascii();
    let n = char_count(newick, ascii);
    let mut ancestry: Ancestry = Vec::new();
    let mut bls: Vec<[Span; 2]> = Vec::new();
    let mut stack: Vec<usize> = Vec::new();
    let mut bl_stack: Vec<Span> = Vec::new();
    let mut i: usize = 0;
    proof {
        assert(rows_of(ancestry@) =~= Seq::<Row>::empty());
        assert(lengths_of(bls@) =~= Seq::<(Span, Span)>::empty());
    }
    while i < n
        invariant
            ascii ==> is_ascii(newick),
            n == newick@.len(),
            i <= n,
            ancestry.len() <= i,
            ancestry.len() == bls.len(),
            cherries_with_bls_from(
                newick@,
                i as int,
                stack@,
                bl_stack@,
                rows_of(ancestry@),
                lengths_of(bls@),
            ) == cherries_with_bls(newick@),
        decreases n - i,
    {
        let c = char_at(newick, ascii, i);
        if c == ';' {
            return Ok((ancestry, bls));
        } else if c == ')' {
            if stack.len() < 2 || bl_stack.len() < 2 {
                return Err(NewickError::StackUnderflow);
            }
            let ghost open = stack@;
            let ghost open_lengths = bl_stack@;
            let c2 = stack.pop().unwrap();
            let c1 = stack.pop().unwrap();
            let bl2 = bl_stack.pop().unwrap();
            let bl1 = bl_stack.pop().unwrap();
            let (_, end) = node_substr(newick, ascii, n, i + 1);
            proof {
                lemma_lengths_of_push(bls@, [bl1, bl2]);
                assert(stack@ =~= open.drop_last().drop_last());
                assert(bl_stack@ =~= open_lengths.drop_last().drop_last());
            }
            let p = match read_number(newick, ascii, n, i + 1, end) {
                Ok(p) => p,
                Err(e) => {
                    proof {
                        if end != n - 1 {
                            assert(node_with_length(newick@, i + 1) is Err);
                        }
                    }
                    return Err(e);
                },
            };
            if end == n - 1 {
                proof {
                    lemma_rows_of_push(ancestry@, [c1, c2, p]);
                }
                ancestry.push([c1, c2, p]);
                bls.push([bl1, bl2]);
            } else {
                let span = match read_length(newick, ascii, n, i + 1, end) {
                    Ok(span) => span,
                    Err(e) => {
                        return Err(e);
                    },
                };
                proof {
                    lemma_rows_of_push(ancestry@, [c1, c2, p]);
                }
                ancestry.push([c1, c2, p]);
                bls.push([bl1, bl2]);
                stack.push(p);
                bl_stack.push(span);
            }
            i = end;
        } else if is_digit_char(c) {
            let (_, end) = node_substr(newick, ascii, n, i);
            let x = match read_number(newick, ascii, n, i, end) {
                Ok(x) => x,
                Err(e) => {
                    return Err(e);
                },
            };
            let span = match read_length(newick, ascii, n, i, end) {
                Ok(span) => span,
                Err(e) => {
                    return Err(e);
                },
            };
            stack.push(x);
            bl_stack.push(span);
            i = end;
        } else {
            i += 1;
        }
    }
    Ok((ancestry, bls))
}

/// Reads the cherries of a Newick text with branch lengths and without
/// parent labels, and for each cherry the places in the text of the branch
/// lengths of its two children.
pub fn get_cherries_no_parents_with_bls(newick: &str) -> (r: Result<
    (Ancestry, Vec<[Span; 2]>),
    NewickError,
>)
    ensures
        match r {
            Ok((a, b)) => {
                &&& cherries_no_parents_with_bls(newick@) == Ok::<
                    (Seq<Row>, Seq<(Span, Span)>),
                    NewickFault,
                >((rows_of(a@), lengths_of(b@)))
                &&& a.len() == b.len()
                &&& a.len() <= newick@.len()
            },
            Err(e) => cherries_no_parents_with_bls(newick@) == Err::<
                (Seq<Row>, Seq<(Span, Span)>),
                NewickFault,
            >(e@),
        },
{
    let ascii = newick.is_ascii();
    let n = char_count(newick, ascii);
    let mut ancestry: Ancestry = Vec::new();
    let mut bls: Vec<[Span; 2]> = Vec::new();
    let mut stack: Vec<usize> = Vec::new();
    let mut bl_stack: Vec<Span> = Vec::new();
    let mut i: usize = 0;
    proof {
        assert(rows_of(ancestry@) =~= Seq::<Row>::empty());
        assert(lengths_of(bls@) =~= Seq::<(Span, Span)>::empty());
    }
    while i < n
        invariant
            ascii ==> is_ascii(newick),
            n == newick@.len(),
            i <= n,
            ancestry.len() <= i,
            ancestry.len() == bls.len(),
            cherries_no_parents_with_bls_from(
                newick@,
                i as int,
                stack@,
                bl_stack@,
                rows_of(ancestry@),
                lengths_of(bls@),
            ) == cherries_no_parents_with_bls(newick@),
        decreases n - i,
    {
        let c = char_at(newick, ascii, i);
        if c == ';' {
            return Ok((ancestry, bls));
        } else if c == ')' {
            if stack.len() < 2 || bl_stack.len() < 2 {
                return Err(NewickError::StackUnderflow);
            }
            let ghost open = stack@;
            let ghost open_lengths = bl_stack@;
            let c2 = stack.pop().unwrap();
            let c1 = stack.pop().unwrap();
            let bl2 = bl_stack.pop().unwrap();
            let bl1 = bl_stack.pop().unwrap();
            let (low, high) = if c1 <= c2 {
                (c1, c2)
            } else {
                (c2, c1)
            };
            proof {
                lemma_rows_of_push(ancestry@, [c1, c2, high]);
                lemma_lengths_of_push(bls@, [bl1, bl2]);
                assert(stack@ =~= open.drop_last().drop_last());
                assert(bl_stack@ =~= open_lengths.drop_last().drop_last());
            }
            ancestry.push([c1, c2, high]);
            bls.push([bl1, bl2]);
            let (_, end) = node_substr(newick, ascii, n, i + 1);
            if end == i + 1 && end == n - 1 {
                return Ok((ancestry, bls));
            }
            let from = if i + 1 < end {
                i + 2
            } else {
                end
            };
            let length_text = char_range(newick, ascii, from, end);
            if !float_check(length_text, ascii) {
                return Err(NewickError::ParseFloatError(length_text.to_owned()));
            }
            stack.push(low);
            bl_stack.push(Span { start: from, end });
            i = end;
        } else if is_digit_char(c) {
            let (_, end) = node_substr(newick, ascii, n, i);
            let x = match read_number(newick, ascii, n, i, end) {
                Ok(x) => x,
                Err(e) => {
                    return Err(e);
                },
            };
            let span = match read_length(newick, ascii, n, i, end) {
                Ok(span) => span,
                Err(e) => {
                    return Err(e);
                },
            };
            stack.push(x);
            bl_stack.push(span);
            i = end;
        } else {
            i += 1;
        }
    }
    Ok((ancestry, bls))
}

} // verus!
