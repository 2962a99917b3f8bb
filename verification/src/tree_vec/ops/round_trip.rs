//! Why reading the text of a vector gives the vector back.

use crate::tree_vec::ops::bijection::lemma_build_vector_inverts_get_ancestry;
use crate::tree_vec::ops::counting::{
    count_below, count_equal, lemma_count_below_all, lemma_count_below_bound,
    lemma_count_below_monotone, lemma_count_below_next, lemma_count_below_none,
    lemma_count_below_strict, lemma_count_equal_concat, lemma_count_equal_none,
    lemma_count_equal_two,
};
use crate::tree_vec::ops::newick::newick_patterns::{is_delimiter, is_digit, parent_label_at};
use crate::tree_vec::ops::newick::{
    all_digits, cherries, cherries_from, children_come_first, decimal, digit_char, digit_value,
    digits_value, has_parent_labels, newick_text, node_at, node_end, node_text, parse_number,
    unsigned_part, NewickFault,
};
use crate::tree_vec::ops::tree_shape::{
    is_child_in, is_first_child_in, is_second_child_in, is_tree, has_parent_row,
    lemma_ancestry_is_tree,
};
use crate::tree_vec::ops::vector::{
    ancestry_of, lemma_insert_by_key_at, parents_of, sorted_by_parent, sorted_indices,
    stable_order, vector_of_text,
};
use crate::tree_vec::types::Row;
use crate::utils::valid_vector;
use vstd::prelude::*;

verus! {

// ---------------------------------------------------------------------------
// Numbers
// ---------------------------------------------------------------------------
/// The decimal text of a number holds digits only, and at least one.
pub proof fn lemma_decimal_digits(n: nat)
    ensures
        decimal(n).len() >= 1,
        all_digits(decimal(n)),
        forall|i: int| 0 <= i < decimal(n).len() ==> !is_delimiter(#[trigger] decimal(n)[i]),
    decreases n,
{
    if n >= 10 {
        lemma_decimal_digits(n / 10);
        let head = decimal(n / 10);
        let text = decimal(n);
        assert(text == head.push(digit_char(n % 10)));
        assert forall|i: int| 0 <= i < text.len() implies is_digit(#[trigger] text[i])
            && !is_delimiter(text[i]) by {
            if i < head.len() {
                assert(text[i] == head[i]);
                assert(is_digit(head[i]));
            }
        }
    }
}

/// The decimal text of a number writes that number.
pub proof fn lemma_decimal_value(n: nat)
    ensures
        digits_value(decimal(n)) == n,
    decreases n,
{
    if n >= 10 {
        lemma_decimal_value(n / 10);
        let text = decimal(n);
        assert(text.drop_last() =~= decimal(n / 10));
        assert(text.last() == digit_char(n % 10));
        assert(digit_value(digit_char(n % 10)) == n % 10);
    } else {
        let text = decimal(n);
        assert(text.drop_last() =~= Seq::<char>::empty());
        assert(digits_value(text.drop_last()) == 0);
        assert(digit_value(digit_char(n)) == n);
    }
}

/// Reading the decimal text of a number gives the number.
pub proof fn lemma_parse_decimal(n: usize)
    ensures
        parse_number(decimal(n as nat)) == Some(n),
{
    lemma_decimal_digits(n as nat);
    lemma_decimal_value(n as nat);
    let text = decimal(n as nat);
    assert(is_digit(text[0]));
    assert(unsigned_part(text) == text);
}

// ---------------------------------------------------------------------------
// Nodes
// ---------------------------------------------------------------------------
/// A node runs up to the first delimiter behind it.
pub proof fn lemma_node_end_at(s: Seq<char>, i: int, e: int)
    requires
        0 <= i <= e < s.len(),
        forall|j: int| i <= j < e ==> !is_delimiter(#[trigger] s[j]),
        is_delimiter(s[e]),
    ensures
        node_end(s, i) == e,
        node_at(s, i) == (s.subrange(i, e), e),
    decreases e - i,
{
    if i < e {
        assert(!is_delimiter(s[i]));
        lemma_node_end_at(s, i + 1, e);
    }
}

/// A text that holds `x + y` from `i` on holds `x` at `i` and `y` behind it.
pub proof fn lemma_split(s: Seq<char>, i: int, x: Seq<char>, y: Seq<char>)
    requires
        0 <= i,
        i + x.len() + y.len() <= s.len(),
        s.subrange(i, i + x.len() + y.len()) == x + y,
    ensures
        s.subrange(i, i + x.len()) == x,
        s.subrange(i + x.len(), i + x.len() + y.len()) == y,
{
    let whole = s.subrange(i, i + x.len() + y.len());
    assert forall|j: int| 0 <= j < x.len() implies s.subrange(i, i + x.len())[j] == x[j] by {
        assert(whole[j] == s[i + j]);
        assert((x + y)[j] == x[j]);
    }
    assert(s.subrange(i, i + x.len()) =~= x);
    assert forall|j: int| 0 <= j < y.len() implies s.subrange(
        i + x.len(),
        i + x.len() + y.len(),
    )[j] == y[j] by {
        assert(whole[x.len() + j] == s[i + x.len() + j]);
        assert((x + y)[x.len() + j] == y[j]);
    }
    assert(s.subrange(i + x.len(), i + x.len() + y.len()) =~= y);
}

// ---------------------------------------------------------------------------
// Reading what was written
// ---------------------------------------------------------------------------
/// The rows below node `p` in the order in which their closing brackets
/// stand in the text: those below the first child, those below the second,
/// and the row of `p` itself.
pub open spec fn rows_below(rows: Seq<Row>, p: nat) -> Seq<Row>
    decreases p,
{
    if rows.len() < p <= 2 * rows.len() {
        let row = rows[p - rows.len() - 1];
        if row.0 < p && row.1 < p {
            rows_below(rows, row.0 as nat) + rows_below(rows, row.1 as nat) + seq![
                (row.0, row.1, p as usize),
            ]
        } else {
            Seq::empty()
        }
    } else {
        Seq::empty()
    }
}

/// Reading a number that a delimiter follows opens a node.
pub proof fn lemma_read_number_text(s: Seq<char>, i: int, stack: Seq<usize>, found: Seq<Row>, p: usize)
    requires
        0 <= i,
        i + decimal(p as nat).len() < s.len(),
        s.subrange(i, i + decimal(p as nat).len()) == decimal(p as nat),
        is_delimiter(s[i + decimal(p as nat).len()]),
    ensures
        cherries_from(s, i, stack, found) == cherries_from(
            s,
            i + decimal(p as nat).len(),
            stack.push(p),
            found,
        ),
{
    let text = decimal(p as nat);
    let e = i + text.len();
    lemma_decimal_digits(p as nat);
    lemma_parse_decimal(p);
    assert forall|j: int| i <= j < e implies !is_delimiter(#[trigger] s[j]) && is_digit(s[j]) by {
        assert(s.subrange(i, e)[j - i] == s[j]);
        assert(is_digit(text[j - i]));
    }
    lemma_node_end_at(s, i, e);
    assert(is_digit(s[i]));
    assert(s[i] != ')');
}

/// Reading the text of the subtree below `p`, where a delimiter follows it,
/// leaves `p` open and has found the rows below `p`.
pub proof fn lemma_read_subtree(
    rows: Seq<Row>,
    p: usize,
    s: Seq<char>,
    i: int,
    stack: Seq<usize>,
    found: Seq<Row>,
)
    requires
        children_come_first(rows),
        p <= 2 * rows.len(),
        0 <= i,
        i + node_text(rows, p as nat).len() < s.len(),
        s.subrange(i, i + node_text(rows, p as nat).len()) == node_text(rows, p as nat),
        is_delimiter(s[i + node_text(rows, p as nat).len()]),
    ensures
        cherries_from(s, i, stack, found) == cherries_from(
            s,
            i + node_text(rows, p as nat).len(),
            stack.push(p),
            found + rows_below(rows, p as nat),
        ),
    decreases p,
{
    let k = rows.len();
    if p <= k {
        assert(node_text(rows, p as nat) == decimal(p as nat));
        assert(rows_below(rows, p as nat) == Seq::<Row>::empty());
        assert(found + Seq::<Row>::empty() =~= found);
        lemma_read_number_text(s, i, stack, found, p);
    } else {
        let row = rows[p - k - 1];
        let c1 = row.0;
        let c2 = row.1;
        assert(c1 < p && c2 < p);
        let left = node_text(rows, c1 as nat);
        let right = node_text(rows, c2 as nat);
        let label = decimal(p as nat);
        let open = seq!['('];
        let comma = seq![','];
        let close = seq![')'];
        let text = node_text(rows, p as nat);
        assert(text == open + left + comma + right + close + label);
        let i1 = i + 1;
        let i2 = i1 + left.len();
        let i3 = i2 + 1;
        let i4 = i3 + right.len();
        let i5 = i4 + 1;
        let i6 = i5 + label.len();
        assert(i6 == i + text.len());
        // take the text apart
        lemma_split(s, i, open + left + comma + right + close, label);
        lemma_split(s, i, open + left + comma + right, close);
        lemma_split(s, i, open + left + comma, right);
        lemma_split(s, i, open + left, comma);
        lemma_split(s, i, open, left);
        assert(s[i] == '(') by {
            assert(s.subrange(i, i + 1)[0] == s[i]);
        }
        assert(s[i2] == ',') by {
            assert(s.subrange(i2, i2 + 1)[0] == s[i2]);
        }
        assert(s[i4] == ')') by {
            assert(s.subrange(i4, i4 + 1)[0] == s[i4]);
        }
        // the opening bracket is passed over
        assert(cherries_from(s, i, stack, found) == cherries_from(s, i1, stack, found));
        // the first child
        lemma_read_subtree(rows, c1, s, i1, stack, found);
        let found1 = found + rows_below(rows, c1 as nat);
        let stack1 = stack.push(c1);
        // the comma is passed over
        assert(cherries_from(s, i2, stack1, found1) == cherries_from(s, i3, stack1, found1));
        // the second child
        lemma_read_subtree(rows, c2, s, i3, stack1, found1);
        let found2 = found1 + rows_below(rows, c2 as nat);
        let stack2 = stack1.push(c2);
        // the closing bracket and the label
        lemma_decimal_digits(p as nat);
        lemma_parse_decimal(p);
        assert forall|j: int| i5 <= j < i6 implies !is_delimiter(#[trigger] s[j]) by {
            assert(s.subrange(i5, i6)[j - i5] == s[j]);
        }
        lemma_node_end_at(s, i5, i6);
        assert(stack2.drop_last().drop_last() =~= stack);
        assert(found2.push((c1, c2, p)) =~= found + rows_below(rows, p as nat));
        assert(cherries_from(s, i4, stack2, found2) == cherries_from(
            s,
            i6,
            stack.push(p),
            found + rows_below(rows, p as nat),
        ));
    }
}

/// The text of an ancestry matrix has parent labels, and its cherries are
/// the rows below its root.
pub proof fn lemma_read_newick_text(rows: Seq<Row>)
    requires
        rows.len() >= 1,
        2 * rows.len() <= usize::MAX,
        children_come_first(rows),
        rows.last().2 == 2 * rows.len(),
    ensures
        has_parent_labels(newick_text(rows)),
        cherries(newick_text(rows)) == Ok::<Seq<Row>, NewickFault>(
            rows_below(rows, 2 * rows.len()),
        ),
{
    let k = rows.len();
    let root: usize = (2 * k) as usize;
    let tree = node_text(rows, root as nat);
    let s = newick_text(rows);
    assert(s == tree + seq![';']);
    assert(s.subrange(0, tree.len() as int) =~= tree);
    assert(s[tree.len() as int] == ';');
    let none = Seq::<usize>::empty();
    let nothing = Seq::<Row>::empty();
    lemma_read_subtree(rows, root, s, 0, none, nothing);
    assert(nothing + rows_below(rows, root as nat) =~= rows_below(rows, root as nat));
    assert(cherries_from(s, tree.len() as int, none.push(root), rows_below(rows, root as nat))
        == Ok::<Seq<Row>, NewickFault>(rows_below(rows, root as nat)));
    // the label of the root stands behind a closing bracket
    let row = rows[k - 1];
    let label = decimal(root as nat);
    lemma_decimal_digits(root as nat);
    let body = seq!['('] + node_text(rows, row.0 as nat) + seq![','] + node_text(
        rows,
        row.1 as nat,
    );
    assert(tree == body + seq![')'] + label);
    let at = body.len() as int;
    assert(s[at] == ')');
    assert(s[at + 1] == label[0]);
    assert(is_digit(label[0]));
    assert(parent_label_at(s, at));
}

// ---------------------------------------------------------------------------
// Ordering by distinct keys
// ---------------------------------------------------------------------------
/// The first `m` keys differ from each other.
pub open spec fn distinct_keys(keys: Seq<usize>, m: int) -> bool {
    forall|a: int, b: int| 0 <= a < b < m ==> #[trigger] keys[a] != #[trigger] keys[b]
}

/// Where the keys differ from each other, the order by key holds at place
/// `i` the index whose key has exactly `i` keys below it.
pub proof fn lemma_stable_order_ranks(keys: Seq<usize>, m: nat)
    requires
        m <= keys.len(),
        m <= usize::MAX,
        distinct_keys(keys, m as int),
    ensures
        stable_order(keys, m).len() == m,
        forall|i: int|
            0 <= i < m ==> (#[trigger] stable_order(keys, m)[i]) < m && count_below(
                keys,
                m as int,
                keys[stable_order(keys, m)[i] as int],
            ) == i,
    decreases m,
{
    if m > 0 {
        lemma_stable_order_ranks(keys, (m - 1) as nat);
        let before = stable_order(keys, (m - 1) as nat);
        let j = (m - 1) as usize;
        let pos = count_below(keys, m - 1, keys[j as int]) as int;
        lemma_count_below_bound(keys, m - 1, keys[j as int]);
        assert forall|q: int| pos <= q < before.len() implies keys[(#[trigger] before[q]) as int]
            > keys[j as int] by {
            let o = before[q] as int;
            assert(count_below(keys, m - 1, keys[o]) == q);
            if keys[o] <= keys[j as int] {
                assert(keys[o] != keys[j as int]);
                lemma_count_below_strict(keys, m - 1, o, keys[j as int]);
            }
        }
        if pos > 0 {
            let o = before[pos - 1] as int;
            assert(count_below(keys, m - 1, keys[o]) == pos - 1);
            if keys[o] > keys[j as int] {
                lemma_count_below_monotone(keys, m - 1, keys[j as int], keys[o]);
            }
        }
        lemma_insert_by_key_at(keys, before, j, pos);
        let now = stable_order(keys, m);
        assert(now == before.insert(pos, j));
        assert forall|i: int| 0 <= i < m implies (#[trigger] now[i]) < m && count_below(
            keys,
            m as int,
            keys[now[i] as int],
        ) == i by {
            if i < pos {
                let o = before[i] as int;
                assert(now[i] == before[i]);
                assert(count_below(keys, m - 1, keys[o]) == i);
                if keys[j as int] < keys[o] {
                    lemma_count_below_monotone(keys, m - 1, keys[j as int], keys[o]);
                }
            } else if i == pos {
                assert(now[i] == j);
            } else {
                let o = before[i - 1] as int;
                assert(now[i] == before[i - 1]);
                assert(count_below(keys, m - 1, keys[o]) == i - 1);
                assert(keys[o] > keys[j as int]);
            }
        }
    }
}

// ---------------------------------------------------------------------------
// Counting the rows below a node
// ---------------------------------------------------------------------------
/// How many rows have the parent `x`.
pub open spec fn rows_under(rows: Seq<Row>, x: usize) -> nat {
    count_equal(parents_of(rows), rows.len() as int, x)
}

/// The rows with the parent `x` among `a + b` are those among `a` and
/// those among `b`.
pub proof fn lemma_rows_under_concat(a: Seq<Row>, b: Seq<Row>, x: usize)
    ensures
        rows_under(a + b, x) == rows_under(a, x) + rows_under(b, x),
{
    assert(parents_of(a + b) =~= parents_of(a) + parents_of(b));
    lemma_count_equal_concat(parents_of(a), parents_of(b), b.len() as int, x);
}

/// Every row below `p` is a row of the matrix, with a parent up to `p`.
pub proof fn lemma_rows_below_are_rows(rows: Seq<Row>, p: nat)
    requires
        is_tree(rows),
        p <= 2 * rows.len(),
    ensures
        forall|q: int|
            0 <= q < rows_below(rows, p).len() ==> {
                let row = #[trigger] rows_below(rows, p)[q];
                rows.len() + 1 <= row.2 <= p && row == rows[row.2 - rows.len() - 1]
            },
    decreases p,
{
    let k = rows.len();
    if k < p {
        let row = rows[p - k - 1];
        assert(row.0 < p && row.1 < p);
        lemma_rows_below_are_rows(rows, row.0 as nat);
        lemma_rows_below_are_rows(rows, row.1 as nat);
        let a = rows_below(rows, row.0 as nat);
        let b = rows_below(rows, row.1 as nat);
        let all = rows_below(rows, p);
        assert(all == a + b + seq![(row.0, row.1, p as usize)]);
        assert forall|q: int| 0 <= q < all.len() implies {
            let found = #[trigger] all[q];
            k + 1 <= found.2 <= p && found == rows[found.2 - k - 1]
        } by {
            if q < a.len() {
                assert(all[q] == a[q]);
            } else if q < a.len() + b.len() {
                assert(all[q] == b[q - a.len()]);
            } else {
                assert(all[q] == (row.0, row.1, p as usize));
            }
        }
    }
}

/// No row below `p` has a parent beyond `p`.
pub proof fn lemma_rows_under_beyond(rows: Seq<Row>, p: nat, x: usize)
    requires
        is_tree(rows),
        p <= 2 * rows.len(),
        p < x,
    ensures
        rows_under(rows_below(rows, p), x) == 0,
{
    lemma_rows_below_are_rows(rows, p);
    let below = rows_below(rows, p);
    assert forall|q: int| 0 <= q < below.len() implies #[trigger] parents_of(below)[q] != x by {
        assert(below[q].2 <= p);
    }
    lemma_count_equal_none(parents_of(below), below.len() as int, x);
}

/// What the rows below an inner node `p` count for: the rows below its two
/// children, and its own row.
pub proof fn lemma_rows_under_node(rows: Seq<Row>, p: nat, x: usize)
    requires
        is_tree(rows),
        rows.len() < p <= 2 * rows.len(),
    ensures
        rows_under(rows_below(rows, p), x) == rows_under(
            rows_below(rows, rows[p - rows.len() - 1].0 as nat),
            x,
        ) + rows_under(rows_below(rows, rows[p - rows.len() - 1].1 as nat), x) + if p == x {
            1nat
        } else {
            0nat
        },
{
    let k = rows.len();
    let row = rows[p - k - 1];
    assert(row.0 < p && row.1 < p);
    let a = rows_below(rows, row.0 as nat);
    let b = rows_below(rows, row.1 as nat);
    let own = seq![(row.0, row.1, p as usize)];
    assert(rows_below(rows, p) == a + b + own);
    lemma_rows_under_concat(a + b, own, x);
    lemma_rows_under_concat(a, b, x);
    assert(parents_of(own)[0] == p);
    assert(count_equal(parents_of(own), 0, x) == 0);
    assert(rows_under(own, x) == if p == x {
        1nat
    } else {
        0nat
    });
}

/// Below any node beyond the parent of row `t`, the row `t` stands as often
/// as the row `r` in which its parent is a child.
proof fn lemma_rows_under_parent(rows: Seq<Row>, p: nat, t: int, r: int)
    requires
        is_tree(rows),
        0 <= t < r < rows.len(),
        is_child_in(rows, r, t),
        rows.len() + 1 + t < p <= 2 * rows.len(),
    ensures
        rows_under(rows_below(rows, p), (rows.len() + 1 + t) as usize) == rows_under(
            rows_below(rows, p),
            (rows.len() + 1 + r) as usize,
        ),
    decreases p,
{
    let k = rows.len();
    let xt = (k + 1 + t) as usize;
    let xr = (k + 1 + r) as usize;
    let q = p - k - 1;
    let u = rows[q].0;
    let w = rows[q].1;
    assert(u < p && w < p);
    lemma_rows_under_node(rows, p, xt);
    lemma_rows_under_node(rows, p, xr);
    // what each child counts for
    if u < xt {
        lemma_rows_under_beyond(rows, u as nat, xt);
        lemma_rows_under_beyond(rows, u as nat, xr);
    } else if u == xt {
        lemma_rows_under_node(rows, xt as nat, xt);
        lemma_rows_under_beyond(rows, rows[t].0 as nat, xt);
        lemma_rows_under_beyond(rows, rows[t].1 as nat, xt);
        lemma_rows_under_beyond(rows, u as nat, xr);
        assert(is_child_in(rows, q, t));
    } else {
        lemma_rows_under_parent(rows, u as nat, t, r);
    }
    if w < xt {
        lemma_rows_under_beyond(rows, w as nat, xt);
        lemma_rows_under_beyond(rows, w as nat, xr);
    } else if w == xt {
        lemma_rows_under_node(rows, xt as nat, xt);
        lemma_rows_under_beyond(rows, rows[t].0 as nat, xt);
        lemma_rows_under_beyond(rows, rows[t].1 as nat, xt);
        lemma_rows_under_beyond(rows, w as nat, xr);
        assert(is_child_in(rows, q, t));
    } else {
        lemma_rows_under_parent(rows, w as nat, t, r);
    }
    if q == r {
        assert(!(is_first_child_in(rows, r, t) && is_second_child_in(rows, r, t)));
        assert(!(u == xt && w == xt));
    } else {
        if q < r {
            assert(!(is_child_in(rows, q, t) && is_child_in(rows, r, t)));
        } else {
            assert(!(is_child_in(rows, r, t) && is_child_in(rows, q, t)));
        }
        assert(u != xt && w != xt);
    }
}

/// Every row stands exactly once below the root.
pub proof fn lemma_every_row_once(rows: Seq<Row>, t: int)
    requires
        is_tree(rows),
        0 <= t < rows.len(),
    ensures
        rows_under(rows_below(rows, 2 * rows.len()), (rows.len() + 1 + t) as usize) == 1,
    decreases rows.len() - t,
{
    let k = rows.len();
    if t == k - 1 {
        lemma_rows_under_node(rows, 2 * k, (2 * k) as usize);
        lemma_rows_under_beyond(rows, rows[k - 1].0 as nat, (2 * k) as usize);
        lemma_rows_under_beyond(rows, rows[k - 1].1 as nat, (2 * k) as usize);
    } else {
        assert(has_parent_row(rows, t));
        let r = choose|r: int| t < r < rows.len() && #[trigger] is_child_in(rows, r, t);
        lemma_rows_under_parent(rows, 2 * k, t, r);
        lemma_every_row_once(rows, r);
    }
}

/// Below the root, `y` rows have a parent below `len + 1 + y`.
proof fn lemma_rank_below_root(rows: Seq<Row>, y: int)
    requires
        is_tree(rows),
        0 <= y <= rows.len(),
    ensures
        count_below(
            parents_of(rows_below(rows, 2 * rows.len())),
            rows_below(rows, 2 * rows.len()).len() as int,
            (rows.len() + 1 + y) as usize,
        ) == y,
    decreases y,
{
    let k = rows.len();
    let found = rows_below(rows, 2 * k);
    let keys = parents_of(found);
    lemma_rows_below_are_rows(rows, 2 * k);
    if y == 0 {
        assert forall|q: int| 0 <= q < found.len() implies !(#[trigger] keys[q] < k + 1) by {
            assert(found[q].2 >= k + 1);
        }
        lemma_count_below_none(keys, found.len() as int, (k + 1) as usize);
    } else {
        lemma_rank_below_root(rows, y - 1);
        lemma_every_row_once(rows, y - 1);
        lemma_count_below_next(keys, found.len() as int, (k + y) as usize);
    }
}

/// Ordering the rows below the root of a tree by their parents gives the
/// matrix of the tree.
pub proof fn lemma_sorted_rows_below_root(rows: Seq<Row>)
    requires
        is_tree(rows),
    ensures
        sorted_by_parent(rows_below(rows, 2 * rows.len())) == rows,
{
    let k = rows.len();
    let found = rows_below(rows, 2 * k);
    let keys = parents_of(found);
    lemma_rows_below_are_rows(rows, 2 * k);
    // as many rows as the matrix has
    lemma_rank_below_root(rows, k as int);
    assert forall|q: int| 0 <= q < found.len() implies #[trigger] keys[q] < 2 * k + 1 by {
        assert(found[q].2 <= 2 * k);
    }
    lemma_count_below_all(keys, found.len() as int, (2 * k + 1) as usize);
    assert(found.len() == k);
    // no parent twice
    assert forall|a: int, b: int| 0 <= a < b < k implies #[trigger] keys[a] != #[trigger] keys[
        b
    ] by {
        if keys[a] == keys[b] {
            let t = found[a].2 - k - 1;
            lemma_every_row_once(rows, t);
            lemma_count_equal_two(keys, k as int, a, b, keys[a]);
        }
    }
    lemma_stable_order_ranks(keys, k);
    let order = sorted_indices(found);
    assert(order == stable_order(keys, k));
    let sorted = sorted_by_parent(found);
    assert forall|i: int| 0 <= i < k implies #[trigger] sorted[i] == rows[i] by {
        let q = order[i] as int;
        let t = found[q].2 - k - 1;
        assert(keys[q] == found[q].2);
        lemma_rank_below_root(rows, t);
        assert(t == i);
    }
    assert(sorted =~= rows);
}

// ---------------------------------------------------------------------------
// There and back
// ---------------------------------------------------------------------------
/// Reading the text of a valid vector gives the vector: `to_vector` undoes
/// `to_newick`.
pub proof fn lemma_to_vector_inverts_to_newick(v: Seq<usize>)
    requires
        valid_vector(v),
        v.len() >= 1,
        2 * v.len() + 2 <= usize::MAX,
    ensures
        vector_of_text(newick_text(ancestry_of(v))) == Ok::<Seq<usize>, NewickFault>(v),
{
    let rows = ancestry_of(v);
    lemma_ancestry_is_tree(v);
    lemma_read_newick_text(rows);
    lemma_sorted_rows_below_root(rows);
    lemma_build_vector_inverts_get_ancestry(v);
}

} // verus!
