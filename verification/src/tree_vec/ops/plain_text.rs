//! Why reading the text of a vector without its parent labels gives the
//! vector back.

use crate::tree_vec::ops::newick::newick_patterns::{is_delimiter, is_digit};
use crate::tree_vec::ops::newick::{
    cherries_no_parents, cherries_no_parents_from, children_come_first, decimal,
    has_parent_labels, lemma_stripped_has_no_parents, max_usize, min_usize, newick_text, node_text,
    strip_from, strip_parent_labels, NewickFault,
};
use crate::tree_vec::ops::round_trip::{
    lemma_decimal_digits, lemma_node_end_at, lemma_parse_decimal, lemma_split,
};
use crate::tree_vec::ops::bijection::lemma_build_vector_inverts_get_ancestry;
use crate::tree_vec::ops::cherry_order::lemma_cherries_come_into_order;
use crate::tree_vec::ops::vector::{ancestry_of, lemma_ancestry_shape, vector_of_text};
use crate::tree_vec::types::Row;
use crate::utils::valid_vector;
use vstd::prelude::*;

verus! {

// ---------------------------------------------------------------------------
// The text without its labels
// ---------------------------------------------------------------------------
/// The text of the subtree under node `p` without parent labels: the number
/// of a leaf, and `(left,right)` for the node of a row.
pub open spec fn plain_node_text(rows: Seq<Row>, p: nat) -> Seq<char>
    decreases p,
{
    if rows.len() < p <= 2 * rows.len() {
        let row = rows[p - rows.len() - 1];
        if row.0 < p && row.1 < p {
            seq!['('] + plain_node_text(rows, row.0 as nat) + seq![','] + plain_node_text(
                rows,
                row.1 as nat,
            ) + seq![')']
        } else {
            decimal(p)
        }
    } else {
        decimal(p)
    }
}

/// The Newick text of an ancestry matrix without parent labels.
pub open spec fn plain_text(rows: Seq<Row>) -> Seq<char> {
    plain_node_text(rows, rows.last().2 as nat) + seq![';']
}

/// Characters that are no closing brackets are kept where no label is being
/// left out.
proof fn lemma_strip_keeps(s: Seq<char>, i: int, e: int)
    requires
        0 <= i <= e <= s.len(),
        forall|j: int| i <= j < e ==> #[trigger] s[j] != ')',
    ensures
        strip_from(s, i, false) == s.subrange(i, e) + strip_from(s, e, false),
    decreases e - i,
{
    if i < e {
        lemma_strip_keeps(s, i + 1, e);
        assert(s[i] != ')');
        assert(seq![s[i]] + (s.subrange(i + 1, e) + strip_from(s, e, false)) =~= s.subrange(i, e)
            + strip_from(s, e, false));
    } else {
        assert(s.subrange(i, e) + strip_from(s, e, false) =~= strip_from(s, e, false));
    }
}

/// The digits of a label are left out.
proof fn lemma_strip_drops(s: Seq<char>, i: int, e: int)
    requires
        0 <= i <= e <= s.len(),
        forall|j: int| i <= j < e ==> is_digit(#[trigger] s[j]),
    ensures
        strip_from(s, i, true) == strip_from(s, e, true),
    decreases e - i,
{
    if i < e {
        assert(is_digit(s[i]));
        lemma_strip_drops(s, i + 1, e);
    }
}

/// Leaving the labels out of the text of a subtree gives its text without
/// labels.
proof fn lemma_strip_node(rows: Seq<Row>, p: nat, s: Seq<char>, i: int)
    requires
        children_come_first(rows),
        p <= 2 * rows.len(),
        0 <= i,
        i + node_text(rows, p).len() < s.len(),
        s.subrange(i, i + node_text(rows, p).len()) == node_text(rows, p),
        is_delimiter(s[i + node_text(rows, p).len()]),
    ensures
        strip_from(s, i, false) == plain_node_text(rows, p) + strip_from(
            s,
            i + node_text(rows, p).len(),
            false,
        ),
    decreases p,
{
    let k = rows.len();
    if p <= k {
        let text = decimal(p);
        let e = i + text.len();
        lemma_decimal_digits(p);
        assert forall|j: int| i <= j < e implies #[trigger] s[j] != ')' by {
            assert(s.subrange(i, e)[j - i] == s[j]);
            assert(is_digit(text[j - i]));
        }
        lemma_strip_keeps(s, i, e);
    } else {
        let row = rows[p - k - 1];
        let c1 = row.0 as nat;
        let c2 = row.1 as nat;
        assert(c1 < p && c2 < p);
        let left = node_text(rows, c1);
        let right = node_text(rows, c2);
        let label = decimal(p);
        let open = seq!['('];
        let comma = seq![','];
        let close = seq![')'];
        let text = node_text(rows, p);
        assert(text == open + left + comma + right + close + label);
        let i1 = i + 1;
        let i2 = i1 + left.len();
        let i3 = i2 + 1;
        let i4 = i3 + right.len();
        let i5 = i4 + 1;
        let i6 = i5 + label.len();
        lemma_split(s, i, open + left + comma + right + close, label);
        lemma_split(s, i, open + left + comma + right, close);
        lemma_split(s, i, open + left + comma, right);
        lemma_split(s, i, open + left, comma);
        lemma_split(s, i, open, left);
        assert(s[i] == '(') by {
            assert(s.subrange(i, i + 1)[0] == s[i]);
        }
        assert(s[i2] == ',') by {
            assert(s.subrange(i2, i2 + 1)[0] == s[i2]);
        }
        assert(s[i4] == ')') by {
            assert(s.subrange(i4, i4 + 1)[0] == s[i4]);
        }
        lemma_strip_node(rows, c1, s, i1);
        lemma_strip_node(rows, c2, s, i3);
        lemma_decimal_digits(p);
        assert forall|j: int| i5 <= j < i6 implies is_digit(#[trigger] s[j]) by {
            assert(s.subrange(i5, i6)[j - i5] == s[j]);
            assert(is_digit(label[j - i5]));
        }
        lemma_strip_drops(s, i5, i6);
        let rest = strip_from(s, i6, false);
        assert(strip_from(s, i6, true) == rest);
        assert(strip_from(s, i4, false) == close + rest);
        assert(strip_from(s, i3, false) == plain_node_text(rows, c2) + (close + rest));
        assert(strip_from(s, i2, false) == comma + (plain_node_text(rows, c2) + (close + rest)));
        assert(strip_from(s, i1, false) == plain_node_text(rows, c1) + (comma + (plain_node_text(
            rows,
            c2,
        ) + (close + rest))));
        assert(strip_from(s, i, false) == open + (plain_node_text(rows, c1) + (comma + (
        plain_node_text(rows, c2) + (close + rest)))));
        assert(open + (plain_node_text(rows, c1) + (comma + (plain_node_text(rows, c2) + (close
            + rest)))) =~= plain_node_text(rows, p) + rest);
    }
}

/// Leaving the parent labels out of the text of an ancestry matrix gives
/// its text without labels, which has no parent labels.
pub proof fn lemma_strip_newick_text(rows: Seq<Row>)
    requires
        rows.len() >= 1,
        2 * rows.len() <= usize::MAX,
        children_come_first(rows),
        rows.last().2 == 2 * rows.len(),
    ensures
        strip_parent_labels(newick_text(rows)) == plain_text(rows),
        !has_parent_labels(plain_text(rows)),
{
    let k = rows.len();
    let root = 2 * k;
    let tree = node_text(rows, root);
    let s = newick_text(rows);
    assert(s == tree + seq![';']);
    assert(s.subrange(0, tree.len() as int) =~= tree);
    assert(s[tree.len() as int] == ';');
    lemma_strip_node(rows, root, s, 0);
    let n = tree.len() as int;
    assert(strip_from(s, n + 1, false) =~= Seq::<char>::empty());
    assert(strip_from(s, n, false) =~= seq![';']);
    lemma_stripped_has_no_parents(s);
}

// ---------------------------------------------------------------------------
// Reading the text without labels
// ---------------------------------------------------------------------------
/// The least leaf below node `p`.
pub open spec fn least_leaf(rows: Seq<Row>, p: nat) -> usize
    decreases p,
{
    if rows.len() < p <= 2 * rows.len() {
        let row = rows[p - rows.len() - 1];
        if row.0 < p && row.1 < p {
            min_usize(least_leaf(rows, row.0 as nat), least_leaf(rows, row.1 as nat))
        } else {
            p as usize
        }
    } else {
        p as usize
    }
}

/// The cherries below node `p` as a text without labels gives them, in the
/// order in which their closing brackets stand: the least leaves below the
/// two children, and the larger of the two.
pub open spec fn plain_rows_below(rows: Seq<Row>, p: nat) -> Seq<Row>
    decreases p,
{
    if rows.len() < p <= 2 * rows.len() {
        let row = rows[p - rows.len() - 1];
        if row.0 < p && row.1 < p {
            let l1 = least_leaf(rows, row.0 as nat);
            let l2 = least_leaf(rows, row.1 as nat);
            plain_rows_below(rows, row.0 as nat) + plain_rows_below(rows, row.1 as nat) + seq![
                (l1, l2, max_usize(l1, l2)),
            ]
        } else {
            Seq::empty()
        }
    } else {
        Seq::empty()
    }
}

/// Reading a number that a delimiter follows opens a node.
proof fn lemma_read_plain_number(
    s: Seq<char>,
    i: int,
    stack: Seq<usize>,
    found: Seq<Row>,
    p: usize,
)
    requires
        0 <= i,
        i + decimal(p as nat).len() < s.len(),
        s.subrange(i, i + decimal(p as nat).len()) == decimal(p as nat),
        is_delimiter(s[i + decimal(p as nat).len()]),
    ensures
        cherries_no_parents_from(s, i, stack, found) == cherries_no_parents_from(
            s,
            i + decimal(p as nat).len(),
            stack.push(p),
            found,
        ),
{
    let text = decimal(p as nat);
    let e = i + text.len();
    lemma_decimal_digits(p as nat);
    lemma_parse_decimal(p);
    assert forall|j: int| i <= j < e implies !is_delimiter(#[trigger] s[j]) && is_digit(s[j]) by {
        assert(s.subrange(i, e)[j - i] == s[j]);
        assert(is_digit(text[j - i]));
    }
    lemma_node_end_at(s, i, e);
    assert(is_digit(s[i]));
    assert(s[i] != ')' && s[i] != ';');
}

/// Reading the text without labels of the subtree below `p`, where a
/// delimiter follows it, leaves the least leaf below `p` open and has found
/// the cherries below `p`.
pub proof fn lemma_read_plain_subtree(
    rows: Seq<Row>,
    p: usize,
    s: Seq<char>,
    i: int,
    stack: Seq<usize>,
    found: Seq<Row>,
)
    requires
        children_come_first(rows),
        p <= 2 * rows.len(),
        0 <= i,
        i + plain_node_text(rows, p as nat).len() < s.len(),
        s.subrange(i, i + plain_node_text(rows, p as nat).len()) == plain_node_text(
            rows,
            p as nat,
        ),
        is_delimiter(s[i + plain_node_text(rows, p as nat).len()]),
    ensures
        cherries_no_parents_from(s, i, stack, found) == cherries_no_parents_from(
            s,
            i + plain_node_text(rows, p as nat).len(),
            stack.push(least_leaf(rows, p as nat)),
            found + plain_rows_below(rows, p as nat),
        ),
    decreases p,
{
    let k = rows.len();
    if p <= k {
        assert(found + Seq::<Row>::empty() =~= found);
        lemma_read_plain_number(s, i, stack, found, p);
    } else {
        let row = rows[p - k - 1];
        let c1 = row.0;
        let c2 = row.1;
        assert(c1 < p && c2 < p);
        let left = plain_node_text(rows, c1 as nat);
        let right = plain_node_text(rows, c2 as nat);
        let open = seq!['('];
        let comma = seq![','];
        let close = seq![')'];
        let text = plain_node_text(rows, p as nat);
        assert(text == open + left + comma + right + close);
        let i1 = i + 1;
        let i2 = i1 + left.len();
        let i3 = i2 + 1;
        let i4 = i3 + right.len();
        let i5 = i4 + 1;
        assert(i5 == i + text.len());
        lemma_split(s, i, open + left + comma + right, close);
        lemma_split(s, i, open + left + comma, right);
        lemma_split(s, i, open + left, comma);
        lemma_split(s, i, open, left);
        assert(s[i] == '(') by {
            assert(s.subrange(i, i + 1)[0] == s[i]);
        }
        assert(s[i2] == ',') by {
            assert(s.subrange(i2, i2 + 1)[0] == s[i2]);
        }
        assert(s[i4] == ')') by {
            assert(s.subrange(i4, i4 + 1)[0] == s[i4]);
        }
        assert(cherries_no_parents_from(s, i, stack, found) == cherries_no_parents_from(
            s,
            i1,
            stack,
            found,
        ));
        lemma_read_plain_subtree(rows, c1, s, i1, stack, found);
        let l1 = least_leaf(rows, c1 as nat);
        let found1 = found + plain_rows_below(rows, c1 as nat);
        let stack1 = stack.push(l1);
        assert(cherries_no_parents_from(s, i2, stack1, found1) == cherries_no_parents_from(
            s,
            i3,
            stack1,
            found1,
        ));
        lemma_read_plain_subtree(rows, c2, s, i3, stack1, found1);
        let l2 = least_leaf(rows, c2 as nat);
        let found2 = found1 + plain_rows_below(rows, c2 as nat);
        let stack2 = stack1.push(l2);
        assert(stack2.drop_last().drop_last() =~= stack);
        assert(found2.push((l1, l2, max_usize(l1, l2))) =~= found + plain_rows_below(
            rows,
            p as nat,
        ));
        assert(cherries_no_parents_from(s, i4, stack2, found2) == cherries_no_parents_from(
            s,
            i5,
            stack.push(min_usize(l1, l2)),
            found + plain_rows_below(rows, p as nat),
        ));
    }
}

/// The cherries of the text without labels of an ancestry matrix are the
/// cherries below its root.
pub proof fn lemma_read_plain_text(rows: Seq<Row>)
    requires
        rows.len() >= 1,
        2 * rows.len() <= usize::MAX,
        children_come_first(rows),
        rows.last().2 == 2 * rows.len(),
    ensures
        cherries_no_parents(plain_text(rows)) == Ok::<Seq<Row>, NewickFault>(
            plain_rows_below(rows, 2 * rows.len()),
        ),
{
    let k = rows.len();
    let root: usize = (2 * k) as usize;
    let tree = plain_node_text(rows, root as nat);
    let s = plain_text(rows);
    assert(s == tree + seq![';']);
    assert(s.subrange(0, tree.len() as int) =~= tree);
    assert(s[tree.len() as int] == ';');
    let none = Seq::<usize>::empty();
    let nothing = Seq::<Row>::empty();
    lemma_read_plain_subtree(rows, root, s, 0, none, nothing);
    assert(nothing + plain_rows_below(rows, root as nat) =~= plain_rows_below(rows, root as nat));
}

// ---------------------------------------------------------------------------
// There and back
// ---------------------------------------------------------------------------
/// Reading the text of a valid vector once its parent labels are left out
/// gives the vector: `to_vector` undoes `to_newick` and
/// `remove_parent_labels`.
pub proof fn lemma_to_vector_reads_plain_text(v: Seq<usize>)
    requires
        valid_vector(v),
        v.len() >= 1,
        2 * v.len() + 2 <= usize::MAX,
    ensures
        strip_parent_labels(newick_text(ancestry_of(v))) == plain_text(ancestry_of(v)),
        vector_of_text(plain_text(ancestry_of(v))) == Ok::<Seq<usize>, NewickFault>(v),
{
    let rows = ancestry_of(v);
    lemma_ancestry_shape(v);
    lemma_strip_newick_text(rows);
    lemma_read_plain_text(rows);
    lemma_cherries_come_into_order(v);
    lemma_build_vector_inverts_get_ancestry(v);
}

} // verus!
