//! Why the cherries of a text without labels come into the order of the
//! pairs of the vector.

use crate::tree_vec::ops::bijection::{
    has_leader_between, lemma_pairs_follow, lemma_pairs_ok, may_follow,
};
use crate::tree_vec::ops::counting::{lemma_count_equal_place, lemma_count_equal_two};
use crate::tree_vec::ops::plain_text::{least_leaf, plain_rows_below};
use crate::tree_vec::ops::round_trip::{
    lemma_every_row_once, lemma_rows_below_are_rows, lemma_rows_under_node,
    lemma_sorted_rows_below_root, rows_below, rows_under,
};
use crate::tree_vec::ops::tree_shape::{
    is_child_in, is_first_child_in, is_second_child_in, is_tree, last_mention,
    lemma_ancestry_is_tree, lemma_child_leaf, lemma_last_mention, lemma_tops_by_last_mention,
    mentions,
};
use crate::tree_vec::ops::vector::{
    all_true, ancestry_of, ancestry_of_cherries, children_of, chosen, lemma_ancestry_shape,
    moved, pairs_of, parents_of, reordered_after, row_of_pair, select_from, sorted_by_parent,
    tops_after, with_entry,
};
use crate::tree_vec::types::{Pair, Row};
use crate::utils::valid_vector;
use vstd::prelude::*;

verus! {

// ---------------------------------------------------------------------------
// The cherries of the pairs
// ---------------------------------------------------------------------------
/// The cherry of pair `j`: its two leaves, and the larger of them.
pub open spec fn cherry_row(pairs: Seq<Pair>, j: int) -> Row {
    (pairs[j].0, pairs[j].1, pairs[j].1)
}

/// The cherries of the pairs at the indices `sel`.
pub open spec fn cherries_at(pairs: Seq<Pair>, sel: Seq<int>) -> Seq<Row> {
    Seq::new(sel.len(), |x: int| cherry_row(pairs, sel[x]))
}

/// For each row found, the index that it has in a matrix of `k` rows.
pub open spec fn indices_of(k: nat, found: Seq<Row>) -> Seq<int> {
    Seq::new(found.len(), |q: int| found[q].2 - k - 1)
}

/// What the proofs of this file start from: a valid vector of at least one
/// entry that the machine can hold.
pub open spec fn is_vector_of_tree(v: Seq<usize>) -> bool {
    valid_vector(v) && v.len() >= 1 && 2 * v.len() + 2 <= usize::MAX
}

/// The two leaves of a pair of the vector are leaves of its tree, the first
/// below the second.
pub proof fn lemma_pair_of_vector(v: Seq<usize>, j: int)
    requires
        is_vector_of_tree(v),
        0 <= j < v.len(),
    ensures
        pairs_of(v, v.len()).len() == v.len(),
        pairs_of(v, v.len())[j].0 < pairs_of(v, v.len())[j].1 <= v.len(),
{
    lemma_pairs_ok(v, v.len());
}

/// Row `j` of the matrix of the vector.
pub proof fn lemma_row_of_vector(v: Seq<usize>, j: int)
    requires
        is_vector_of_tree(v),
        0 <= j < v.len(),
    ensures
        ancestry_of(v).len() == v.len(),
        ancestry_of(v)[j] == row_of_pair(pairs_of(v, v.len()), j),
        ancestry_of(v)[j].2 == v.len() + 1 + j,
        ancestry_of(v)[j].0 < v.len() + 1 + j,
        ancestry_of(v)[j].1 < v.len() + 1 + j,
{
    lemma_ancestry_shape(v);
}

/// `lemma_child_leaf` for the pairs of a vector.
pub proof fn lemma_child_leaf_of_vector(v: Seq<usize>, r: int, t: int)
    requires
        is_vector_of_tree(v),
        0 <= r < v.len(),
        0 <= t < v.len(),
        is_child_in(ancestry_of(v), r, t),
    ensures
        t < r,
        is_first_child_in(ancestry_of(v), r, t) ==> pairs_of(v, v.len())[r].0 == pairs_of(
            v,
            v.len(),
        )[t].0,
        is_second_child_in(ancestry_of(v), r, t) ==> pairs_of(v, v.len())[r].1 == pairs_of(
            v,
            v.len(),
        )[t].0,
{
    lemma_pairs_ok(v, v.len());
    lemma_child_leaf(pairs_of(v, v.len()), r, t);
}

/// The child of row `j` above the leaf `c` of its pair: the leaf itself
/// where no earlier pair holds it, and else the parent of the row of the
/// last such pair.
proof fn lemma_child_above(v: Seq<usize>, j: int, c: usize)
    requires
        is_vector_of_tree(v),
        0 <= j < v.len(),
        c <= v.len(),
    ensures
        -1 <= last_mention(pairs_of(v, v.len()), j, c) < j,
        tops_after(pairs_of(v, v.len()), j as nat).len() == 2 * v.len() + 1,
        tops_after(pairs_of(v, v.len()), j as nat)[c as int] == if last_mention(
            pairs_of(v, v.len()),
            j,
            c,
        ) < 0 {
            c
        } else {
            (v.len() + 1 + last_mention(pairs_of(v, v.len()), j, c)) as usize
        },
{
    lemma_pair_of_vector(v, j);
    lemma_tops_by_last_mention(pairs_of(v, v.len()), j as nat, c);
    lemma_last_mention(pairs_of(v, v.len()), j, c);
}

/// The least leaf below a child of row `j` that stands above the leaf `c`
/// of the pair is `c`, where this holds of the rows before `j`.
proof fn lemma_least_leaf_of_child(v: Seq<usize>, j: int, first: bool)
    requires
        is_vector_of_tree(v),
        0 <= j < v.len(),
        forall|t: int|
            0 <= t < j ==> #[trigger] least_leaf(ancestry_of(v), (v.len() + 1 + t) as nat)
                == pairs_of(v, v.len())[t].0,
    ensures
        first ==> least_leaf(ancestry_of(v), ancestry_of(v)[j].0 as nat) == pairs_of(
            v,
            v.len(),
        )[j].0,
        !first ==> least_leaf(ancestry_of(v), ancestry_of(v)[j].1 as nat) == pairs_of(
            v,
            v.len(),
        )[j].1,
{
    let k = v.len();
    let pairs = pairs_of(v, k);
    let rows = ancestry_of(v);
    lemma_pair_of_vector(v, j);
    lemma_row_of_vector(v, j);
    let c = if first {
        pairs[j].0
    } else {
        pairs[j].1
    };
    let child = if first {
        rows[j].0
    } else {
        rows[j].1
    };
    lemma_child_above(v, j, c);
    let t = last_mention(pairs, j, c);
    assert(child == tops_after(pairs, j as nat)[c as int]);
    if t >= 0 {
        assert(child == k + 1 + t);
        if first {
            assert(is_first_child_in(rows, j, t));
        } else {
            assert(is_second_child_in(rows, j, t));
        }
        assert(is_child_in(rows, j, t));
        lemma_child_leaf_of_vector(v, j, t);
        assert(least_leaf(rows, (k + 1 + t) as nat) == pairs[t].0);
    } else {
        assert(child == c);
        assert(least_leaf(rows, c as nat) == c);
    }
}

/// The least leaf below the parent of row `j` is the first leaf of pair `j`.
pub proof fn lemma_least_leaf(v: Seq<usize>, j: int)
    requires
        is_vector_of_tree(v),
        0 <= j < v.len(),
    ensures
        least_leaf(ancestry_of(v), (v.len() + 1 + j) as nat) == pairs_of(v, v.len())[j].0,
    decreases j,
{
    let k = v.len();
    let pairs = pairs_of(v, k);
    let rows = ancestry_of(v);
    assert forall|t: int| 0 <= t < j implies #[trigger] least_leaf(rows, (k + 1 + t) as nat)
        == pairs[t].0 by {
        lemma_least_leaf(v, t);
    }
    lemma_least_leaf_of_child(v, j, true);
    lemma_least_leaf_of_child(v, j, false);
    lemma_pair_of_vector(v, j);
    lemma_row_of_vector(v, j);
}

/// The least leaves below the two children of row `j` are the two leaves of
/// pair `j`.
pub proof fn lemma_least_leaves(v: Seq<usize>, j: int)
    requires
        is_vector_of_tree(v),
        0 <= j < v.len(),
    ensures
        least_leaf(ancestry_of(v), ancestry_of(v)[j].0 as nat) == pairs_of(v, v.len())[j].0,
        least_leaf(ancestry_of(v), ancestry_of(v)[j].1 as nat) == pairs_of(v, v.len())[j].1,
{
    let k = v.len();
    let pairs = pairs_of(v, k);
    let rows = ancestry_of(v);
    assert forall|t: int| 0 <= t < j implies #[trigger] least_leaf(rows, (k + 1 + t) as nat)
        == pairs[t].0 by {
        lemma_least_leaf(v, t);
    }
    lemma_least_leaf_of_child(v, j, true);
    lemma_least_leaf_of_child(v, j, false);
}

/// The cherries that a text without labels gives below `p` are the
/// cherries of the pairs of the rows below `p`.
pub proof fn lemma_plain_rows_are_cherries(v: Seq<usize>, p: nat)
    requires
        is_vector_of_tree(v),
        p <= 2 * v.len(),
    ensures
        plain_rows_below(ancestry_of(v), p) == cherries_at(
            pairs_of(v, v.len()),
            indices_of(v.len(), rows_below(ancestry_of(v), p)),
        ),
    decreases p,
{
    let k = v.len();
    let pairs = pairs_of(v, k);
    let rows = ancestry_of(v);
    lemma_ancestry_shape(v);
    if k < p {
        let j = p - k - 1;
        let row = rows[j];
        assert(row.0 < p && row.1 < p);
        lemma_plain_rows_are_cherries(v, row.0 as nat);
        lemma_plain_rows_are_cherries(v, row.1 as nat);
        lemma_least_leaves(v, j);
        lemma_pair_of_vector(v, j);
        assert(pairs[j].0 < pairs[j].1);
        let a = rows_below(rows, row.0 as nat);
        let b = rows_below(rows, row.1 as nat);
        let own = seq![(row.0, row.1, p as usize)];
        assert(rows_below(rows, p) == a + b + own);
        assert(plain_rows_below(rows, p) =~= cherries_at(pairs, indices_of(k, a + b + own))) by {
            let left = cherries_at(pairs, indices_of(k, a));
            let right = cherries_at(pairs, indices_of(k, b));
            let all = cherries_at(pairs, indices_of(k, a + b + own));
            assert(all.len() == a.len() + b.len() + 1);
            assert forall|q: int| 0 <= q < all.len() implies all[q] == (left + right + seq![
                cherry_row(pairs, j),
            ])[q] by {
                if q < a.len() {
                    assert((a + b + own)[q] == a[q]);
                } else if q < a.len() + b.len() {
                    assert((a + b + own)[q] == b[q - a.len()]);
                } else {
                    assert((a + b + own)[q] == own[0]);
                }
            }
            assert(all =~= left + right + seq![cherry_row(pairs, j)]);
        }
    } else {
        assert(plain_rows_below(rows, p) =~= cherries_at(
            pairs,
            indices_of(k, rows_below(rows, p)),
        ));
    }
}

// ---------------------------------------------------------------------------
// A row stands before the rows above it
// ---------------------------------------------------------------------------
/// The two pairs have a leaf in common.
pub open spec fn share_a_leaf(x: Pair, y: Pair) -> bool {
    x.0 == y.0 || x.0 == y.1 || x.1 == y.0 || x.1 == y.1
}

/// A row whose pair holds a leaf of a later pair stands below the parent of
/// the row of that pair.
proof fn lemma_row_stands_below(v: Seq<usize>, u: int, j: int, c: usize)
    requires
        is_vector_of_tree(v),
        0 <= u < j < v.len(),
        mentions(pairs_of(v, v.len())[u], c),
        mentions(pairs_of(v, v.len())[j], c),
    ensures
        rows_under(
            rows_below(ancestry_of(v), (v.len() + 1 + j) as nat),
            (v.len() + 1 + u) as usize,
        ) >= 1,
    decreases j,
{
    let k = v.len();
    let pairs = pairs_of(v, k);
    let rows = ancestry_of(v);
    lemma_pairs_ok(v, k);
    lemma_ancestry_shape(v);
    lemma_ancestry_is_tree(v);
    assert(pairs[j].0 < pairs[j].1 <= k);
    assert(rows[j] == row_of_pair(pairs, j));
    lemma_tops_by_last_mention(pairs, j as nat, c);
    lemma_last_mention(pairs, j, c);
    let t = last_mention(pairs, j, c);
    assert(t >= u) by {
        if t < u {
            assert(!mentions(pairs[u], c));
        }
    }
    let xu = (k + 1 + u) as usize;
    let xt = (k + 1 + t) as usize;
    // the parent of row `t` is a child in row `j`
    assert(rows[j].0 == xt || rows[j].1 == xt);
    lemma_rows_under_node(rows, (k + 1 + j) as nat, xu);
    // the row `u` stands below the parent of row `t`
    if t == u {
        lemma_rows_under_node(rows, (k + 1 + u) as nat, xu);
    } else {
        lemma_row_stands_below(v, u, t, c);
    }
}

/// Where the row of a node stands among the rows below `p`, the rows below
/// that node stand right before it and up to it.
proof fn lemma_rows_below_block(rows: Seq<Row>, p: nat, y: int)
    requires
        is_tree(rows),
        p <= 2 * rows.len(),
        0 <= y < rows_below(rows, p).len(),
    ensures
        ({
            let node = rows_below(rows, p)[y].2 as nat;
            let block = rows_below(rows, node);
            &&& block.len() <= y + 1
            &&& rows_below(rows, p).subrange(y + 1 - block.len(), y + 1) == block
        }),
    decreases p,
{
    let k = rows.len();
    let all = rows_below(rows, p);
    assert(k < p);
    let row = rows[p - k - 1];
    assert(row.0 < p && row.1 < p);
    let a = rows_below(rows, row.0 as nat);
    let b = rows_below(rows, row.1 as nat);
    let own = seq![(row.0, row.1, p as usize)];
    assert(all == a + b + own);
    if y < a.len() {
        lemma_rows_below_block(rows, row.0 as nat, y);
        assert(all[y] == a[y]);
        let block = rows_below(rows, a[y].2 as nat);
        assert(all.subrange(y + 1 - block.len(), y + 1) =~= a.subrange(
            y + 1 - block.len(),
            y + 1,
        ));
    } else if y < a.len() + b.len() {
        let yb = y - a.len();
        lemma_rows_below_block(rows, row.1 as nat, yb);
        assert(all[y] == b[yb]);
        let block = rows_below(rows, b[yb].2 as nat);
        assert(all.subrange(y + 1 - block.len(), y + 1) =~= b.subrange(
            yb + 1 - block.len(),
            yb + 1,
        ));
    } else {
        assert(all[y] == own[0]);
        assert(all.subrange(0, y + 1) =~= all);
    }
}

/// Below the root no two rows have the same parent.
pub proof fn lemma_one_place(v: Seq<usize>, x: int, y: int)
    requires
        is_vector_of_tree(v),
        0 <= x < rows_below(ancestry_of(v), 2 * v.len()).len(),
        0 <= y < rows_below(ancestry_of(v), 2 * v.len()).len(),
        rows_below(ancestry_of(v), 2 * v.len())[x].2 == rows_below(
            ancestry_of(v),
            2 * v.len(),
        )[y].2,
    ensures
        x == y,
{
    let k = v.len();
    let rows = ancestry_of(v);
    let all = rows_below(rows, 2 * k);
    lemma_ancestry_is_tree(v);
    lemma_row_of_vector(v, 0);
    lemma_rows_below_are_rows(rows, 2 * k);
    let node = all[x].2;
    let u = node - k - 1;
    assert(k + 1 <= all[x].2 <= 2 * k);
    if x != y {
        lemma_every_row_once(rows, u);
        assert(parents_of(all)[x] == node);
        assert(parents_of(all)[y] == node);
        if x < y {
            lemma_count_equal_two(parents_of(all), all.len() as int, x, y, node);
        } else {
            lemma_count_equal_two(parents_of(all), all.len() as int, y, x, node);
        }
    }
}

/// Below the root, before the row of pair `j` stands the row of every
/// earlier pair that has a leaf of pair `j`.
proof fn lemma_earlier_place(v: Seq<usize>, u: int, j: int, c: usize, y: int) -> (at: int)
    requires
        is_vector_of_tree(v),
        0 <= u < j < v.len(),
        mentions(pairs_of(v, v.len())[u], c),
        mentions(pairs_of(v, v.len())[j], c),
        0 <= y < rows_below(ancestry_of(v), 2 * v.len()).len(),
        rows_below(ancestry_of(v), 2 * v.len())[y].2 == v.len() + 1 + j,
    ensures
        0 <= at < y,
        rows_below(ancestry_of(v), 2 * v.len())[at].2 == v.len() + 1 + u,
{
    let k = v.len();
    let rows = ancestry_of(v);
    let all = rows_below(rows, 2 * k);
    lemma_ancestry_is_tree(v);
    lemma_row_of_vector(v, 0);
    lemma_row_stands_below(v, u, j, c);
    lemma_rows_below_block(rows, 2 * k, y);
    let block = rows_below(rows, (k + 1 + j) as nat);
    let xu = (k + 1 + u) as usize;
    let z = lemma_count_equal_place(parents_of(block), block.len() as int, xu);
    assert(block == all.subrange(y + 1 - block.len(), y + 1));
    assert(block[block.len() - 1] == all[y]);
    assert(parents_of(block)[z] == block[z].2);
    assert(z != block.len() - 1);
    let at = y + 1 - block.len() + z;
    assert(all[at] == block[z]);
    at
}

/// Below the root, a row whose pair has a leaf in common with a later pair
/// stands before the row of that pair.
pub proof fn lemma_rows_in_order(v: Seq<usize>, x: int, y: int)
    requires
        is_vector_of_tree(v),
        0 <= x < rows_below(ancestry_of(v), 2 * v.len()).len(),
        0 <= y < rows_below(ancestry_of(v), 2 * v.len()).len(),
        ({
            let found = indices_of(v.len(), rows_below(ancestry_of(v), 2 * v.len()));
            let pairs = pairs_of(v, v.len());
            0 <= found[x] < found[y] < v.len() && share_a_leaf(pairs[found[x]], pairs[found[y]])
        }),
    ensures
        x < y,
{
    let k = v.len();
    let pairs = pairs_of(v, k);
    let rows = ancestry_of(v);
    let all = rows_below(rows, 2 * k);
    let u = all[x].2 - k - 1;
    let j = all[y].2 - k - 1;
    let c: usize = if pairs[u].0 == pairs[j].0 || pairs[u].0 == pairs[j].1 {
        pairs[u].0
    } else {
        pairs[u].1
    };
    let at = lemma_earlier_place(v, u, j, c, y);
    lemma_one_place(v, at, x);
}

// ---------------------------------------------------------------------------
// Choosing the next cherry
// ---------------------------------------------------------------------------
/// Two different pairs of the vector have different second leaves.
proof fn lemma_seconds_differ(v: Seq<usize>, i: int, j: int)
    requires
        is_vector_of_tree(v),
        0 <= i < v.len(),
        0 <= j < v.len(),
        i != j,
    ensures
        pairs_of(v, v.len())[i].1 != pairs_of(v, v.len())[j].1,
{
    lemma_pairs_ok(v, v.len());
    let pairs = pairs_of(v, v.len());
    if i < j {
        assert(pairs[i].1 != pairs[j].1);
    } else {
        assert(pairs[j].1 != pairs[i].1);
    }
}

/// A pair of the vector with a larger second leaf stands behind pair `i`
/// only where a pair from `i` on and before it has its first leaf.
proof fn lemma_leader_of_later_pair(v: Seq<usize>, i: int, j: int) -> (u: int)
    requires
        is_vector_of_tree(v),
        0 <= i < j < v.len(),
        pairs_of(v, v.len())[i].1 < pairs_of(v, v.len())[j].1,
    ensures
        i <= u < j,
        pairs_of(v, v.len())[u].0 == pairs_of(v, v.len())[j].0,
{
    lemma_pairs_follow(v, v.len());
    lemma_pair_of_vector(v, i);
    let pairs = pairs_of(v, v.len());
    assert(may_follow(pairs, i, j));
    assert(has_leader_between(pairs, i, j));
    choose|u: int| i <= u < j && (#[trigger] pairs[u]).0 == pairs[j].0
}

/// The index `j` stands in `sel`.
pub open spec fn holds(sel: Seq<int>, j: int) -> bool {
    exists|x: int| 0 <= x < sel.len() && #[trigger] sel[x] == j
}

/// The indices at the places `x` and `z` differ.
pub open spec fn differ(sel: Seq<int>, x: int, z: int) -> bool {
    0 <= x < z < sel.len() ==> sel[x] != sel[z]
}

/// Where the pair at place `x` is the earlier one and has a leaf in common
/// with the pair at place `z`, it stands before it.
pub open spec fn in_order(pairs: Seq<Pair>, sel: Seq<int>, x: int, z: int) -> bool {
    0 <= x < sel.len() && 0 <= z < sel.len() && sel[x] < sel[z] && share_a_leaf(
        pairs[sel[x]],
        pairs[sel[z]],
    ) ==> x < z
}

/// `sel` holds the indices of the pairs from `i` on, each once, and a pair
/// stands before the later pairs with which it has a leaf in common.
pub open spec fn is_rest(pairs: Seq<Pair>, sel: Seq<int>, i: int) -> bool {
    &&& forall|x: int| 0 <= x < sel.len() ==> i <= #[trigger] sel[x] < pairs.len()
    &&& forall|j: int| i <= j < pairs.len() ==> #[trigger] holds(sel, j)
    &&& forall|x: int, z: int| #[trigger] differ(sel, x, z)
    &&& forall|x: int, z: int| #[trigger] in_order(pairs, sel, x, z)
}

/// One of the pairs at the first `y` places holds the leaf `c`.
pub open spec fn met(pairs: Seq<Pair>, sel: Seq<int>, y: int, c: usize) -> bool
    decreases y,
{
    if y <= 0 {
        false
    } else {
        mentions(pairs[sel[y - 1]], c) || met(pairs, sel, y - 1, c)
    }
}

proof fn lemma_met_from(pairs: Seq<Pair>, sel: Seq<int>, y: int, x: int, c: usize)
    requires
        0 <= x < y,
        mentions(pairs[sel[x]], c),
    ensures
        met(pairs, sel, y, c),
    decreases y,
{
    if x < y - 1 {
        lemma_met_from(pairs, sel, y - 1, x, c);
    }
}

proof fn lemma_met_place(pairs: Seq<Pair>, sel: Seq<int>, y: int, c: usize) -> (x: int)
    requires
        met(pairs, sel, y, c),
    ensures
        0 <= x < y,
        mentions(pairs[sel[x]], c),
    decreases y,
{
    if mentions(pairs[sel[y - 1]], c) {
        y - 1
    } else {
        lemma_met_place(pairs, sel, y - 1, c)
    }
}

/// The leaf `c` of pair `i` is met at none of the places before that of
/// pair `i`.
proof fn lemma_own_leaf_is_fresh(v: Seq<usize>, sel: Seq<int>, i: int, xs: int, c: usize)
    requires
        is_vector_of_tree(v),
        0 <= i < v.len(),
        is_rest(pairs_of(v, v.len()), sel, i),
        0 <= xs < sel.len(),
        sel[xs] == i,
        mentions(pairs_of(v, v.len())[i], c),
    ensures
        !met(pairs_of(v, v.len()), sel, xs, c),
{
    let pairs = pairs_of(v, v.len());
    if met(pairs, sel, xs, c) {
        let x = lemma_met_place(pairs, sel, xs, c);
        assert(differ(sel, x, xs));
        assert(i <= sel[x]);
        assert(in_order(pairs, sel, xs, x));
    }
}

/// The first leaf of a pair with a larger second leaf than pair `i` is met
/// before the place of that pair.
proof fn lemma_larger_is_met(v: Seq<usize>, sel: Seq<int>, i: int, y: int)
    requires
        is_vector_of_tree(v),
        0 <= i < v.len(),
        is_rest(pairs_of(v, v.len()), sel, i),
        0 <= y < sel.len(),
        pairs_of(v, v.len())[i].1 < pairs_of(v, v.len())[sel[y]].1,
    ensures
        met(pairs_of(v, v.len()), sel, y, pairs_of(v, v.len())[sel[y]].0),
{
    let pairs = pairs_of(v, v.len());
    let j = sel[y];
    lemma_pair_of_vector(v, i);
    assert(i <= j < v.len());
    let u = lemma_leader_of_later_pair(v, i, j);
    assert(holds(sel, u));
    let z = choose|z: int| 0 <= z < sel.len() && #[trigger] sel[z] == u;
    assert(in_order(pairs, sel, z, y));
    lemma_met_from(pairs, sel, y, z, pairs[j].0);
}

/// Looking through the rows from place `y` on finds the cherry of pair `i`,
/// which stands at place `xs`.
proof fn lemma_scan(
    v: Seq<usize>,
    full: Seq<Row>,
    i: int,
    sel: Seq<int>,
    xs: int,
    y: int,
    fresh: Seq<bool>,
    high: usize,
    best: int,
)
    requires
        is_vector_of_tree(v),
        0 <= i < v.len(),
        full.len() == v.len(),
        sel.len() == v.len() - i,
        full.subrange(i, v.len() as int) == cherries_at(pairs_of(v, v.len()), sel),
        is_rest(pairs_of(v, v.len()), sel, i),
        0 <= xs < sel.len(),
        sel[xs] == i,
        0 <= y <= sel.len(),
        fresh.len() == v.len() + 1,
        forall|c: int|
            0 <= c <= v.len() ==> #[trigger] fresh[c] == !met(
                pairs_of(v, v.len()),
                sel,
                y,
                c as usize,
            ),
        y <= xs ==> high < pairs_of(v, v.len())[i].1,
        y > xs ==> high == pairs_of(v, v.len())[i].1 && best == i + xs,
    ensures
        select_from(full, i + y, fresh, high, best) == i + xs,
    decreases sel.len() - y,
{
    let k = v.len();
    let pairs = pairs_of(v, k);
    lemma_pair_of_vector(v, i);
    if y < sel.len() {
        let j = sel[y];
        assert(i <= j < k);
        assert(full[i + y] == full.subrange(i, k as int)[y]);
        assert(full[i + y] == cherry_row(pairs, j));
        lemma_pair_of_vector(v, j);
        lemma_pair_of_vector(v, i);
        let a = pairs[j].0;
        let b = pairs[j].1;
        let table = with_entry(with_entry(fresh, a, false), b, false);
        assert forall|c: int| 0 <= c <= k implies #[trigger] table[c] == !met(
            pairs,
            sel,
            y + 1,
            c as usize,
        ) by {
            assert(fresh[c] == !met(pairs, sel, y, c as usize));
        }
        assert(fresh[a as int] == !met(pairs, sel, y, a));
        assert(fresh[b as int] == !met(pairs, sel, y, b));
        if y == xs {
            lemma_own_leaf_is_fresh(v, sel, i, xs, a);
            lemma_own_leaf_is_fresh(v, sel, i, xs, b);
            lemma_scan(v, full, i, sel, xs, y + 1, table, b, i + y);
        } else {
            if y < xs {
                assert(differ(sel, y, xs));
            } else {
                assert(differ(sel, xs, y));
            }
            lemma_seconds_differ(v, i, j);
            if pairs[i].1 < b {
                lemma_larger_is_met(v, sel, i, y);
                lemma_scan(v, full, i, sel, xs, y + 1, table, high, best);
            } else if b > high && fresh[a as int] && fresh[b as int] {
                lemma_scan(v, full, i, sel, xs, y + 1, table, b, i + y);
            } else {
                lemma_scan(v, full, i, sel, xs, y + 1, table, high, best);
            }
        }
    }
}

/// Without the index at place `xs`, which is `i`, the rest holds the
/// indices from `i + 1` on.
proof fn lemma_rest_shrinks(pairs: Seq<Pair>, sel: Seq<int>, i: int, xs: int)
    requires
        is_rest(pairs, sel, i),
        0 <= xs < sel.len(),
        sel[xs] == i,
    ensures
        is_rest(pairs, sel.remove(xs), i + 1),
{
    let now = sel.remove(xs);
    let old_of = |x: int|
        if x < xs {
            x
        } else {
            x + 1
        };
    assert forall|x: int| 0 <= x < now.len() implies i + 1 <= #[trigger] now[x] < pairs.len() by {
        assert(now[x] == sel[old_of(x)]);
        if x < xs {
            assert(differ(sel, x, xs));
        } else {
            assert(differ(sel, xs, x + 1));
        }
    }
    assert forall|j: int| i + 1 <= j < pairs.len() implies #[trigger] holds(now, j) by {
        assert(holds(sel, j));
        let x0 = choose|x: int| 0 <= x < sel.len() && #[trigger] sel[x] == j;
        let x = if x0 < xs {
            x0
        } else {
            x0 - 1
        };
        assert(now[x] == sel[x0]);
    }
    assert forall|x: int, z: int| #[trigger] differ(now, x, z) by {
        if 0 <= x < z < now.len() {
            assert(now[x] == sel[old_of(x)]);
            assert(now[z] == sel[old_of(z)]);
            assert(differ(sel, old_of(x), old_of(z)));
        }
    }
    assert forall|x: int, z: int| #[trigger] in_order(pairs, now, x, z) by {
        if 0 <= x < now.len() && 0 <= z < now.len() {
            assert(now[x] == sel[old_of(x)]);
            assert(now[z] == sel[old_of(z)]);
            assert(in_order(pairs, sel, old_of(x), old_of(z)));
        }
    }
}

// ---------------------------------------------------------------------------
// The cherries come into the order of the pairs
// ---------------------------------------------------------------------------
/// A place of the index `j` in `sel`.
pub open spec fn place_in(sel: Seq<int>, j: int) -> int {
    choose|x: int| 0 <= x < sel.len() && #[trigger] sel[x] == j
}

/// The indices that are left of `sel` once those below `i` have been taken
/// out, one after the other.
pub open spec fn rest_after(sel: Seq<int>, i: nat) -> Seq<int>
    decreases i,
{
    if i == 0 {
        sel
    } else {
        let prev = rest_after(sel, (i - 1) as nat);
        prev.remove(place_in(prev, i - 1))
    }
}

/// The indices from 0 up to `i`.
pub open spec fn first_indices(i: nat) -> Seq<int> {
    Seq::new(i, |j: int| j)
}

/// The indices of the rows below the root of the matrix of the vector, in
/// the order in which their closing brackets stand.
pub open spec fn text_order(v: Seq<usize>) -> Seq<int> {
    indices_of(v.len(), rows_below(ancestry_of(v), 2 * v.len()))
}

/// The rows below the root are the rows of the matrix, each once, and a
/// row stands before the later rows with which its pair has a leaf in
/// common.
proof fn lemma_text_order_is_rest(v: Seq<usize>)
    requires
        is_vector_of_tree(v),
    ensures
        text_order(v).len() == v.len(),
        is_rest(pairs_of(v, v.len()), text_order(v), 0),
{
    let k = v.len();
    let pairs = pairs_of(v, k);
    let rows = ancestry_of(v);
    let all = rows_below(rows, 2 * k);
    let sel = text_order(v);
    lemma_ancestry_is_tree(v);
    lemma_row_of_vector(v, 0);
    lemma_pair_of_vector(v, 0);
    lemma_rows_below_are_rows(rows, 2 * k);
    lemma_sorted_rows_below_root(rows);
    assert(sorted_by_parent(all).len() == all.len());
    assert forall|x: int| 0 <= x < sel.len() implies 0 <= #[trigger] sel[x] < pairs.len() by {
        assert(k + 1 <= all[x].2 <= 2 * k);
    }
    assert forall|j: int| 0 <= j < pairs.len() implies #[trigger] holds(sel, j) by {
        lemma_every_row_once(rows, j);
        let q = lemma_count_equal_place(parents_of(all), all.len() as int, (k + 1 + j) as usize);
        assert(parents_of(all)[q] == all[q].2);
        assert(sel[q] == j);
    }
    assert forall|x: int, z: int| #[trigger] differ(sel, x, z) by {
        if 0 <= x < z < sel.len() && sel[x] == sel[z] {
            assert(k + 1 <= all[x].2 <= 2 * k);
            assert(k + 1 <= all[z].2 <= 2 * k);
            lemma_one_place(v, x, z);
        }
    }
    assert forall|x: int, z: int| #[trigger] in_order(pairs, sel, x, z) by {
        if 0 <= x < sel.len() && 0 <= z < sel.len() && sel[x] < sel[z] && share_a_leaf(
            pairs[sel[x]],
            pairs[sel[z]],
        ) {
            assert(k + 1 <= all[x].2 <= 2 * k);
            assert(k + 1 <= all[z].2 <= 2 * k);
            lemma_rows_in_order(v, x, z);
        }
    }
}

/// Moving the cherry of pair `n` from its place in the rest to the place
/// `n` leaves the cherries of the first `n + 1` pairs before the rest
/// without it.
proof fn lemma_move_cherry(pairs: Seq<Pair>, full: Seq<Row>, n: nat, sel: Seq<int>, xs: int)
    requires
        full == cherries_at(pairs, first_indices(n)) + cherries_at(pairs, sel),
        0 <= xs < sel.len(),
        sel[xs] == n,
    ensures
        moved(full, n + xs, n as int) == cherries_at(pairs, first_indices(n + 1)) + cherries_at(
            pairs,
            sel.remove(xs),
        ),
{
    let now = moved(full, n + xs, n as int);
    let rest = sel.remove(xs);
    let goal = cherries_at(pairs, first_indices(n + 1)) + cherries_at(pairs, rest);
    let tail = cherries_at(pairs, sel);
    assert(now.len() == goal.len());
    assert forall|q: int| 0 <= q < now.len() implies now[q] == goal[q] by {
        if q < n {
            assert(now[q] == full[q]);
        } else if q == n {
            assert(now[q] == full[n + xs]);
            assert(full[n + xs] == tail[xs]);
        } else if q <= n + xs {
            assert(now[q] == full[q - 1]);
            assert(full[q - 1] == tail[q - 1 - n]);
            assert(rest[q - 1 - n] == sel[q - 1 - n]);
        } else {
            assert(now[q] == full[q]);
            assert(full[q] == tail[q - n]);
            assert(rest[q - 1 - n] == sel[q - n]);
        }
    }
    assert(now =~= goal);
}

/// The cherry of pair `n` is chosen for the place `n` where the first `n`
/// places hold the cherries of the first `n` pairs and the rest is in the
/// order of the text.
proof fn lemma_choice(v: Seq<usize>, full: Seq<Row>, n: nat, sel: Seq<int>)
    requires
        is_vector_of_tree(v),
        n < v.len(),
        sel.len() == v.len() - n,
        is_rest(pairs_of(v, v.len()), sel, n as int),
        full == cherries_at(pairs_of(v, v.len()), first_indices(n)) + cherries_at(
            pairs_of(v, v.len()),
            sel,
        ),
    ensures
        holds(sel, n as int),
        chosen(full, n as int) == n + place_in(sel, n as int),
{
    let k = v.len();
    let pairs = pairs_of(v, k);
    lemma_pair_of_vector(v, n as int);
    assert(holds(sel, n as int));
    let xs = place_in(sel, n as int);
    assert(full.subrange(n as int, k as int) =~= cherries_at(pairs, sel));
    let fresh = all_true(full.len() + 1);
    assert forall|c: int| 0 <= c <= k implies #[trigger] fresh[c] == !met(
        pairs,
        sel,
        0,
        c as usize,
    ) by {}
    lemma_scan(v, full, n as int, sel, xs, 0, fresh, 0, n as int);
}

/// After `i` steps the first `i` places hold the cherries of the first `i`
/// pairs, and the rest holds the cherries of the other pairs in the order
/// of the text.
proof fn lemma_cherries_after(v: Seq<usize>, i: nat)
    requires
        is_vector_of_tree(v),
        i <= v.len(),
    ensures
        rest_after(text_order(v), i).len() == v.len() - i,
        is_rest(pairs_of(v, v.len()), rest_after(text_order(v), i), i as int),
        reordered_after(cherries_at(pairs_of(v, v.len()), text_order(v)), i) == cherries_at(
            pairs_of(v, v.len()),
            first_indices(i),
        ) + cherries_at(pairs_of(v, v.len()), rest_after(text_order(v), i)),
    decreases i,
{
    let k = v.len();
    let pairs = pairs_of(v, k);
    let start = cherries_at(pairs, text_order(v));
    if i == 0 {
        lemma_text_order_is_rest(v);
        assert(cherries_at(pairs, first_indices(0)) + start =~= start);
    } else {
        let n = (i - 1) as nat;
        lemma_cherries_after(v, n);
        let sel = rest_after(text_order(v), n);
        let full = reordered_after(start, n);
        lemma_choice(v, full, n, sel);
        let xs = place_in(sel, n as int);
        lemma_rest_shrinks(pairs, sel, n as int, xs);
        lemma_move_cherry(pairs, full, n, sel, xs);
    }
}

/// The cherries that the text without labels of a vector gives come into
/// the order of the pairs of the vector, and with their parents they are
/// the ancestry matrix of the vector.
pub proof fn lemma_cherries_come_into_order(v: Seq<usize>)
    requires
        is_vector_of_tree(v),
    ensures
        ancestry_of_cherries(plain_rows_below(ancestry_of(v), 2 * v.len())) == ancestry_of(v),
{
    let k = v.len();
    let pairs = pairs_of(v, k);
    let rows = ancestry_of(v);
    let found = plain_rows_below(rows, 2 * k);
    lemma_plain_rows_are_cherries(v, 2 * k);
    assert(found == cherries_at(pairs, text_order(v)));
    lemma_cherries_after(v, k);
    lemma_text_order_is_rest(v);
    lemma_pair_of_vector(v, 0);
    let last = reordered_after(found, k);
    assert(found.len() == k);
    assert(last =~= cherries_at(pairs, first_indices(k)));
    assert(children_of(last) =~= pairs);
}

} // verus!
