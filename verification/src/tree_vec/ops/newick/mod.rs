//! Reading and writing Newick text.

pub mod branch_lengths;
pub mod newick_patterns;

use crate::tree_vec::ops::newick::newick_patterns::{
    char_at, char_count, char_range, is_delimiter, is_delimiter_char, is_digit, is_digit_char,
    leaf_at, parent_label_at,
};
use crate::tree_vec::types::{lemma_rows_of_push, rows_of, Ancestry, Row};
use vstd::prelude::*;
use vstd::string::*;

verus! {

/// Why a Newick text could not be read.
#[derive(Debug)]
pub enum NewickError {
    /// A node that should be a number is not one; the node's text.
    ParseIntError(String),
    /// A branch length that should be a number is not one; its text.
    ParseFloatError(String),
    /// A `)` closes a group that holds fewer than two nodes.
    StackUnderflow,
}

/// `NewickError` as a plain value.
pub enum NewickFault {
    ParseInt(Seq<char>),
    ParseFloat(Seq<char>),
    StackUnderflow,
}

impl View for NewickError {
    type V = NewickFault;

    open spec fn view(&self) -> NewickFault {
        match self {
            NewickError::ParseIntError(t) => NewickFault::ParseInt(t@),
            NewickError::ParseFloatError(t) => NewickFault::ParseFloat(t@),
            NewickError::StackUnderflow => NewickFault::StackUnderflow,
        }
    }
}

impl NewickError {
    /// The error in words: its kind, and the text that could not be read.
    pub fn message(&self) -> (text: String)
        ensures
            text@ == match self@ {
                NewickFault::ParseInt(t) => "ParseIntError: "@ + t,
                NewickFault::ParseFloat(t) => "ParseFloatError: "@ + t,
                NewickFault::StackUnderflow => "Stack underflow error encountered"@,
            },
    {
        match self {
            NewickError::ParseIntError(t) => {
                let mut text = String::from_str("ParseIntError: ");
                text.append(t.as_str());
                text
            },
            NewickError::ParseFloatError(t) => {
                let mut text = String::from_str("ParseFloatError: ");
                text.append(t.as_str());
                text
            },
            NewickError::StackUnderflow => String::from_str("Stack underflow error encountered"),
        }
    }
}

// ---------------------------------------------------------------------------
// Numbers
// ---------------------------------------------------------------------------
/// The number that a decimal digit writes.
pub open spec fn digit_value(c: char) -> nat {
    (c as nat - '0' as nat) as nat
}

/// The number that a run of decimal digits writes.
pub open spec fn digits_value(s: Seq<char>) -> nat
    decreases s.len(),
{
    if s.len() == 0 {
        0
    } else {
        digits_value(s.drop_last()) * 10 + digit_value(s.last())
    }
}

pub open spec fn all_digits(s: Seq<char>) -> bool {
    forall|i: int| 0 <= i < s.len() ==> is_digit(#[trigger] s[i])
}

/// A number's text without its optional leading `+`.
pub open spec fn unsigned_part(s: Seq<char>) -> Seq<char> {
    if s.len() > 0 && s[0] == '+' {
        s.subrange(1, s.len() as int)
    } else {
        s
    }
}

/// The number that `s` writes: an optional `+`, then one or more decimal
/// digits whose value fits the machine word. `None` for any other text.
pub open spec fn parse_number(s: Seq<char>) -> Option<usize> {
    let body = unsigned_part(s);
    if body.len() > 0 && all_digits(body) && digits_value(body) <= usize::MAX {
        Some(digits_value(body) as usize)
    } else {
        None
    }
}

/// A run of digits is worth at least as much as any of its prefixes.
proof fn lemma_digits_value_prefix(s: Seq<char>, j: int)
    requires
        0 <= j <= s.len(),
    ensures
        digits_value(s.take(j)) <= digits_value(s),
    decreases s.len(),
{
    if j == s.len() {
        assert(s.take(j) =~= s);
    } else {
        lemma_digits_value_prefix(s.drop_last(), j);
        assert(s.drop_last().take(j) =~= s.take(j));
    }
}

pub(crate) fn parse_usize(token: &str, ascii: bool) -> (r: Option<usize>)
    requires
        ascii ==> is_ascii(token),
    ensures
        r == parse_number(token@),
{
    let n = char_count(token, ascii);
    let start: usize = if n > 0 && char_at(token, ascii, 0) == '+' {
        1
    } else {
        0
    };
    let ghost body = unsigned_part(token@);
    if start == n {
        return None;
    }
    let mut acc: usize = 0;
    let mut i: usize = start;
    proof {
        assert(body =~= token@.subrange(start as int, n as int));
        assert(body.take(0) =~= Seq::<char>::empty());
    }
    while i < n
        invariant
            ascii ==> is_ascii(token),
            n == token@.len(),
            start <= i <= n,
            start < n,
            body == unsigned_part(token@),
            body == token@.subrange(start as int, n as int),
            all_digits(body.take(i - start)),
            acc == digits_value(body.take(i - start)),
        decreases n - i,
    {
        let c = char_at(token, ascii, i);
        if !is_digit_char(c) {
            proof {
                assert(body[i - start] == c);
                assert(!all_digits(body));
            }
            return None;
        }
        let d: usize = (c as u32 - '0' as u32) as usize;
        proof {
            assert(body.take(i - start + 1).drop_last() =~= body.take(i - start));
            assert(body.take(i - start + 1).last() == c);
            assert(digits_value(body.take(i - start + 1)) == acc * 10 + d);
            lemma_digits_value_prefix(body, i - start + 1);
        }
        if acc > (usize::MAX - d) / 10 {
            proof {
                assert(acc * 10 + d > usize::MAX);
                assert(digits_value(body) > usize::MAX);
            }
            return None;
        }
        acc = acc * 10 + d;
        i += 1;
    }
    proof {
        assert(body.take(n - start) =~= body);
    }
    Some(acc)
}

// ---------------------------------------------------------------------------
// Nodes
// ---------------------------------------------------------------------------
/// The first position from `i` on that holds a delimiter, or the length of
/// the text when there is none.
pub open spec fn node_end(s: Seq<char>, i: int) -> int
    decreases s.len() - i,
{
    if 0 <= i < s.len() && !is_delimiter(s[i]) {
        node_end(s, i + 1)
    } else {
        i
    }
}

/// The node that starts at `start`: its text, which runs up to the next
/// delimiter, and the position of that delimiter. A node that no delimiter
/// ends is empty and ends where it starts.
pub open spec fn node_at(s: Seq<char>, start: int) -> (Seq<char>, int) {
    let end = node_end(s, start);
    if start <= end < s.len() {
        (s.subrange(start, end), end)
    } else {
        (Seq::empty(), start)
    }
}

pub(crate) fn node_substr<'a>(s: &'a str, ascii: bool, n: usize, start: usize) -> (r: (&'a str, usize))
    requires
        ascii ==> is_ascii(s),
        n == s@.len(),
        start <= n,
    ensures
        (r.0@, r.1 as int) == node_at(s@, start as int),
        start <= r.1 <= n,
        r.0@.len() == r.1 - start,
        ascii ==> is_ascii(r.0),
{
    let mut end: usize = start;
    while end < n && !is_delimiter_char(char_at(s, ascii, end))
        invariant
            ascii ==> is_ascii(s),
            n == s@.len(),
            start <= end <= n,
            node_end(s@, end as int) == node_end(s@, start as int),
        decreases n - end,
    {
        end += 1;
    }
    if end == n {
        end = start;
    }
    (char_range(s, ascii, start, end), end)
}

// ---------------------------------------------------------------------------
// Cherries
// ---------------------------------------------------------------------------
/// Reads the cherries of a text with parent labels from position `i` on,
/// given the nodes that are still open and the rows read so far.
///
/// A number opens a node. A `)` closes the two nodes opened last into a
/// cherry under the parent whose label follows it, and that parent is open
/// in their place. A `;` ends the reading. Every other character is passed
/// over.
pub open spec fn cherries_from(s: Seq<char>, i: int, stack: Seq<usize>, rows: Seq<Row>) -> Result<
    Seq<Row>,
    NewickFault,
>
    decreases s.len() - i,
{
    if i < 0 || i >= s.len() || s[i] == ';' {
        Ok(rows)
    } else if s[i] == ')' {
        if stack.len() < 2 {
            Err(NewickFault::StackUnderflow)
        } else {
            let (label, end) = node_at(s, i + 1);
            match parse_number(label) {
                None => Err(NewickFault::ParseInt(label)),
                Some(p) => {
                    let c1 = stack[stack.len() - 2];
                    let c2 = stack[stack.len() - 1];
                    cherries_from(s, end, stack.drop_last().drop_last().push(p), rows.push((c1, c2, p)))
                },
            }
        }
    } else if is_digit(s[i]) {
        let (node, end) = node_at(s, i);
        match parse_number(node) {
            None => Err(NewickFault::ParseInt(node)),
            Some(x) => {
                if end > i {
                    cherries_from(s, end, stack.push(x), rows)
                } else {
                    Err(NewickFault::ParseInt(node))
                }
            },
        }
    } else {
        cherries_from(s, i + 1, stack, rows)
    }
}

/// The cherries of a text with parent labels, in the order in which their
/// closing brackets stand.
pub open spec fn cherries(s: Seq<char>) -> Result<Seq<Row>, NewickFault> {
    cherries_from(s, 0, Seq::empty(), Seq::empty())
}

pub open spec fn min_usize(a: usize, b: usize) -> usize {
    if a <= b {
        a
    } else {
        b
    }
}

pub open spec fn max_usize(a: usize, b: usize) -> usize {
    if a <= b {
        b
    } else {
        a
    }
}

/// Reads the cherries of a text without parent labels from position `i` on.
///
/// A `)` closes the two nodes opened last into a cherry whose third entry is
/// the larger of the two, and the smaller of the two stands for the cherry
/// from there on. A `;` ends the reading.
pub open spec fn cherries_no_parents_from(
    s: Seq<char>,
    i: int,
    stack: Seq<usize>,
    rows: Seq<Row>,
) -> Result<Seq<Row>, NewickFault>
    decreases s.len() - i,
{
    if i < 0 || i >= s.len() || s[i] == ';' {
        Ok(rows)
    } else if s[i] == ')' {
        if stack.len() < 2 {
            Err(NewickFault::StackUnderflow)
        } else {
            let c1 = stack[stack.len() - 2];
            let c2 = stack[stack.len() - 1];
            cherries_no_parents_from(
                s,
                i + 1,
                stack.drop_last().drop_last().push(min_usize(c1, c2)),
                rows.push((c1, c2, max_usize(c1, c2))),
            )
        }
    } else if is_digit(s[i]) {
        let (node, end) = node_at(s, i);
        match parse_number(node) {
            None => Err(NewickFault::ParseInt(node)),
            Some(x) => {
                if end > i {
                    cherries_no_parents_from(s, end, stack.push(x), rows)
                } else {
                    Err(NewickFault::ParseInt(node))
                }
            },
        }
    } else {
        cherries_no_parents_from(s, i + 1, stack, rows)
    }
}

/// The cherries of a text without parent labels.
pub open spec fn cherries_no_parents(s: Seq<char>) -> Result<Seq<Row>, NewickFault> {
    cherries_no_parents_from(s, 0, Seq::empty(), Seq::empty())
}

/// Reads the cherries `[child1, child2, parent]` of a Newick text with
/// parent labels, in the order in which their closing brackets stand.
pub fn get_cherries(newick: &str) -> (r: Result<Ancestry, NewickError>)
    ensures
        match r {
            Ok(a) => cherries(newick@) == Ok::<Seq<Row>, NewickFault>(rows_of(a@)) && a.len()
                <= newick@.len(),
            Err(e) => cherries(newick@) == Err::<Seq<Row>, NewickFault>(e@),
        },
{
    let ascii = newick.is_ascii();
    let n = char_count(newick, ascii);
    let mut ancestry: Ancestry = Vec::new();
    let mut stack: Vec<usize> = Vec::new();
    let mut i: usize = 0;
    proof {
        assert(rows_of(ancestry@) =~= Seq::<Row>::empty());
    }
    while i < n
        invariant
            ascii ==> is_ascii(newick),
            n == newick@.len(),
            i <= n,
            ancestry.len() <= i,
            cherries_from(newick@, i as int, stack@, rows_of(ancestry@)) == cherries(newick@),
        decreases n - i,
    {
        let c = char_at(newick, ascii, i);
        if c == ';' {
            return Ok(ancestry);
        } else if c == ')' {
            let ghost open = stack@;
            let c2 = match stack.pop() {
                Some(x) => x,
                None => {
                    return Err(NewickError::StackUnderflow);
                },
            };
            let c1 = match stack.pop() {
                Some(x) => x,
                None => {
                    return Err(NewickError::StackUnderflow);
                },
            };
            let (label, end) = node_substr(newick, ascii, n, i + 1);
            match parse_usize(label, ascii) {
                None => {
                    return Err(NewickError::ParseIntError(label.to_owned()));
                },
                Some(p) => {
                    proof {
                        lemma_rows_of_push(ancestry@, [c1, c2, p]);
                        assert(stack@ =~= open.drop_last().drop_last());
                    }
                    ancestry.push([c1, c2, p]);
                    stack.push(p);
                    i = end;
                },
            }
        } else if is_digit_char(c) {
            let (node, end) = node_substr(newick, ascii, n, i);
            match parse_usize(node, ascii) {
                None => {
                    return Err(NewickError::ParseIntError(node.to_owned()));
                },
                Some(x) => {
                    stack.push(x);
                    i = end;
                },
            }
        } else {
            i += 1;
        }
    }
    Ok(ancestry)
}

/// Reads the cherries `[child1, child2, max(child1, child2)]` of a Newick
/// text without parent labels; the smaller child stands for each cherry in
/// the cherries above it.
pub fn get_cherries_no_parents(newick: &str) -> (r: Result<Ancestry, NewickError>)
    ensures
        match r {
            Ok(a) => cherries_no_parents(newick@) == Ok::<Seq<Row>, NewickFault>(rows_of(a@))
                && a.len() <= newick@.len(),
            Err(e) => cherries_no_parents(newick@) == Err::<Seq<Row>, NewickFault>(e@),
        },
{
    let ascii = newick.is_ascii();
    let n = char_count(newick, ascii);
    let mut ancestry: Ancestry = Vec::new();
    let mut stack: Vec<usize> = Vec::new();
    let mut i: usize = 0;
    proof {
        assert(rows_of(ancestry@) =~= Seq::<Row>::empty());
    }
    while i < n
        invariant
            ascii ==> is_ascii(newick),
            n == newick@.len(),
            i <= n,
            ancestry.len() <= i,
            cherries_no_parents_from(newick@, i as int, stack@, rows_of(ancestry@))
                == cherries_no_parents(newick@),
        decreases n - i,
    {
        let c = char_at(newick, ascii, i);
        if c == ';' {
            return Ok(ancestry);
        } else if c == ')' {
            let ghost open = stack@;
            let c2 = match stack.pop() {
                Some(x) => x,
                None => {
                    return Err(NewickError::StackUnderflow);
                },
            };
            let c1 = match stack.pop() {
                Some(x) => x,
                None => {
                    return Err(NewickError::StackUnderflow);
                },
            };
            let (low, high) = if c1 <= c2 {
                (c1, c2)
            } else {
                (c2, c1)
            };
            proof {
                lemma_rows_of_push(ancestry@, [c1, c2, high]);
                assert(stack@ =~= open.drop_last().drop_last());
            }
            ancestry.push([c1, c2, high]);
            stack.push(low);
            i += 1;
        } else if is_digit_char(c) {
            let (node, end) = node_substr(newick, ascii, n, i);
            match parse_usize(node, ascii) {
                None => {
                    return Err(NewickError::ParseIntError(node.to_owned()));
                },
                Some(x) => {
                    stack.push(x);
                    i = end;
                },
            }
        } else {
            i += 1;
        }
    }
    Ok(ancestry)
}

// ---------------------------------------------------------------------------
// Parent labels and leaves
// ---------------------------------------------------------------------------
/// Some `)` of the text has a digit right behind it.
pub open spec fn has_parent_labels(s: Seq<char>) -> bool {
    exists|i: int| parent_label_at(s, i)
}

/// The text from position `i` on without its parent labels; `in_label` says
/// that only digits stand between the last `)` and `i`, so that a digit at
/// `i` belongs to a label.
pub open spec fn strip_from(s: Seq<char>, i: int, in_label: bool) -> Seq<char>
    decreases s.len() - i,
{
    if i < 0 || i >= s.len() {
        Seq::empty()
    } else if in_label && is_digit(s[i]) {
        strip_from(s, i + 1, true)
    } else {
        seq![s[i]] + strip_from(s, i + 1, s[i] == ')')
    }
}

/// The text without its parent labels: every run of digits that follows a
/// `)` is left out.
pub open spec fn strip_parent_labels(s: Seq<char>) -> Seq<char> {
    strip_from(s, 0, false)
}

/// The number of leaves that start before position `n`.
pub open spec fn leaves_before(s: Seq<char>, n: int) -> nat
    decreases n,
{
    if n <= 0 {
        0
    } else {
        leaves_before(s, n - 1) + if leaf_at(s, n - 1) {
            1nat
        } else {
            0nat
        }
    }
}

/// The number of leaves of the text: the numbers that stand right behind a
/// `(` or a `,`.
pub open spec fn num_leaves(s: Seq<char>) -> nat {
    leaves_before(s, s.len() as int)
}

/// What is left of a text from any position on holds no parent label, and
/// does not start with a digit where a label was being left out.
proof fn lemma_strip_from_has_no_labels(s: Seq<char>, i: int, in_label: bool)
    requires
        0 <= i <= s.len(),
    ensures
        !has_parent_labels(strip_from(s, i, in_label)),
        in_label && strip_from(s, i, in_label).len() > 0 ==> !is_digit(
            strip_from(s, i, in_label)[0],
        ),
    decreases s.len() - i,
{
    let t = strip_from(s, i, in_label);
    if i >= s.len() {
    } else if in_label && is_digit(s[i]) {
        lemma_strip_from_has_no_labels(s, i + 1, true);
    } else {
        let rest = strip_from(s, i + 1, s[i] == ')');
        lemma_strip_from_has_no_labels(s, i + 1, s[i] == ')');
        assert(t == seq![s[i]] + rest);
        assert forall|j: int| !parent_label_at(t, j) by {
            if parent_label_at(t, j) {
                if j == 0 {
                    assert(t[1] == rest[0]);
                } else {
                    assert(t[j] == rest[j - 1]);
                    assert(t[j + 1] == rest[j]);
                    assert(parent_label_at(rest, j - 1));
                }
            }
        }
    }
}

/// Taking the parent labels out of any text leaves a text without parent
/// labels.
pub proof fn lemma_stripped_has_no_parents(s: Seq<char>)
    ensures
        !has_parent_labels(strip_parent_labels(s)),
{
    lemma_strip_from_has_no_labels(s, 0, false);
}

/// Removes the parent labels from a Newick text.
pub fn remove_parent_labels(newick: &str) -> (stripped: String)
    ensures
        stripped@ == strip_parent_labels(newick@),
        !has_parent_labels(stripped@),
{
    let ascii = newick.is_ascii();
    let n = char_count(newick, ascii);
    let mut out = String::new();
    let mut in_label = false;
    let mut i: usize = 0;
    proof {
        assert(out@ + strip_from(newick@, 0, false) =~= strip_parent_labels(newick@));
    }
    while i < n
        invariant
            ascii ==> is_ascii(newick),
            n == newick@.len(),
            i <= n,
            out@ + strip_from(newick@, i as int, in_label) == strip_parent_labels(newick@),
        decreases n - i,
    {
        let c = char_at(newick, ascii, i);
        if in_label && is_digit_char(c) {
        } else {
            let ghost before = out@;
            out.append(char_range(newick, ascii, i, i + 1));
            proof {
                assert(newick@.subrange(i as int, i + 1) =~= seq![c]);
                assert(before + (seq![c] + strip_from(newick@, i + 1, c == ')')) =~= (before
                    + seq![c]) + strip_from(newick@, i + 1, c == ')'));
            }
            in_label = c == ')';
        }
        i += 1;
    }
    proof {
        assert(out@ + strip_from(newick@, n as int, in_label) =~= out@);
        lemma_stripped_has_no_parents(newick@);
    }
    out
}

/// Whether a Newick text has parent labels.
pub fn has_parents(newick: &str) -> (found: bool)
    ensures
        found == has_parent_labels(newick@),
{
    let ascii = newick.is_ascii();
    let n = char_count(newick, ascii);
    let mut i: usize = 1;
    while i < n
        invariant
            ascii ==> is_ascii(newick),
            n == newick@.len(),
            1 <= i,
            forall|j: int| j + 1 < i ==> !parent_label_at(newick@, j),
        decreases n - i,
    {
        if char_at(newick, ascii, i - 1) == ')' && is_digit_char(char_at(newick, ascii, i)) {
            proof {
                assert(parent_label_at(newick@, i - 1));
            }
            return true;
        }
        i += 1;
    }
    false
}

/// The number of leaves of a Newick text.
pub fn find_num_leaves(newick: &str) -> (count: usize)
    ensures
        count == num_leaves(newick@),
{
    let ascii = newick.is_ascii();
    let n = char_count(newick, ascii);
    let mut count: usize = 0;
    let mut i: usize = 0;
    while i < n
        invariant
            ascii ==> is_ascii(newick),
            n == newick@.len(),
            i <= n,
            count == leaves_before(newick@, i as int),
            count <= i,
        decreases n - i,
    {
        let c = char_at(newick, ascii, i);
        if (c == '(' || c == ',') && i + 1 < n && is_digit_char(char_at(newick, ascii, i + 1)) {
            count += 1;
        }
        i += 1;
    }
    count
}

// ---------------------------------------------------------------------------
// Writing
// ---------------------------------------------------------------------------
/// The character that writes the digit `d`.
pub open spec fn digit_char(d: nat) -> char {
    ('0' as nat + d) as char
}

/// The decimal text of a number, without leading zeros.
pub open spec fn decimal(n: nat) -> Seq<char>
    decreases n,
{
    if n < 10 {
        seq![digit_char(n)]
    } else {
        decimal(n / 10).push(digit_char(n % 10))
    }
}

/// Every child is a leaf or the parent of an earlier row, where row `j`
/// stands for the node `len + 1 + j`.
pub open spec fn children_come_first(rows: Seq<Row>) -> bool {
    forall|j: int|
        0 <= j < rows.len() ==> (#[trigger] rows[j]).0 < rows.len() + 1 + j && rows[j].1
            < rows.len() + 1 + j
}

/// The text of the subtree under node `p`: the number of a leaf, and
/// `(left,right)p` for the node of a row.
pub open spec fn node_text(rows: Seq<Row>, p: nat) -> Seq<char>
    decreases p,
{
    if rows.len() < p <= 2 * rows.len() {
        let row = rows[p - rows.len() - 1];
        if row.0 < p && row.1 < p {
            seq!['('] + node_text(rows, row.0 as nat) + seq![','] + node_text(rows, row.1 as nat)
                + seq![')'] + decimal(p)
        } else {
            decimal(p)
        }
    } else {
        decimal(p)
    }
}

/// The Newick text of an ancestry matrix: the subtree under the parent of
/// its last row, and a `;`.
pub open spec fn newick_text(rows: Seq<Row>) -> Seq<char> {
    node_text(rows, rows.last().2 as nat) + seq![';']
}

fn digit_str(d: usize) -> (r: &'static str)
    requires
        d < 10,
    ensures
        r@ == seq![digit_char(d as nat)],
{
    proof {
        reveal_strlit("0");
        reveal_strlit("1");
        reveal_strlit("2");
        reveal_strlit("3");
        reveal_strlit("4");
        reveal_strlit("5");
        reveal_strlit("6");
        reveal_strlit("7");
        reveal_strlit("8");
        reveal_strlit("9");
    }
    let r = match d {
        0 => "0",
        1 => "1",
        2 => "2",
        3 => "3",
        4 => "4",
        5 => "5",
        6 => "6",
        7 => "7",
        8 => "8",
        _ => "9",
    };
    proof {
        assert(r@ =~= seq![digit_char(d as nat)]);
    }
    r
}

/// Appends the decimal text of `n`.
fn push_number(out: &mut String, n: usize)
    ensures
        final(out)@ == old(out)@ + decimal(n as nat),
    decreases n,
{
    if n >= 10 {
        push_number(out, n / 10);
    }
    let ghost before = out@;
    out.append(digit_str(n % 10));
    proof {
        if n >= 10 {
            assert(before + seq![digit_char((n % 10) as nat)] =~= old(out)@ + decimal(n as nat));
        } else {
            assert(before + seq![digit_char((n % 10) as nat)] =~= old(out)@ + decimal(n as nat));
        }
    }
}

/// Appends the text of the subtree under the internal node `p`.
fn _build_newick_recursive_inner(p: usize, ancestry: &Ancestry, out: &mut String)
    requires
        children_come_first(rows_of(ancestry@)),
        ancestry.len() < p <= 2 * ancestry.len(),
    ensures
        final(out)@ == old(out)@ + node_text(rows_of(ancestry@), p as nat),
    decreases p,
{
    let leaf_max = ancestry.len();
    let row = ancestry[p - leaf_max - 1];
    let c1 = row[0];
    let c2 = row[1];
    let ghost rows = rows_of(ancestry@);
    proof {
        assert(rows[p - leaf_max - 1] == (c1, c2, row[2]));
        reveal_strlit("(");
        reveal_strlit(",");
        reveal_strlit(")");
    }
    out.append("(");
    if c1 > leaf_max {
        _build_newick_recursive_inner(c1, ancestry, out);
    } else {
        push_number(out, c1);
    }
    out.append(",");
    if c2 > leaf_max {
        _build_newick_recursive_inner(c2, ancestry, out);
    } else {
        push_number(out, c2);
    }
    out.append(")");
    push_number(out, p);
    proof {
        assert("("@ =~= seq!['(']);
        assert(","@ =~= seq![',']);
        assert(")"@ =~= seq![')']);
        assert(out@ =~= old(out)@ + (seq!['('] + node_text(rows, c1 as nat) + seq![',']
            + node_text(rows, c2 as nat) + seq![')'] + decimal(p as nat)));
    }
}

/// Writes the Newick text of an ancestry matrix whose children stand before
/// their parents and whose last row holds the root.
pub fn build_newick(ancestry: &Ancestry) -> (newick: String)
    requires
        ancestry.len() >= 1,
        2 * ancestry.len() <= usize::MAX,
        children_come_first(rows_of(ancestry@)),
        ancestry.len() < rows_of(ancestry@).last().2 <= 2 * ancestry.len(),
    ensures
        newick@ == newick_text(rows_of(ancestry@)),
{
    let root = ancestry[ancestry.len() - 1][2];
    let mut out = String::new();
    _build_newick_recursive_inner(root, ancestry, &mut out);
    proof {
        reveal_strlit(";");
        assert(";"@ =~= seq![';']);
    }
    out.append(";");
    proof {
        assert(out@ =~= newick_text(rows_of(ancestry@)));
    }
    out
}

} // verus!
