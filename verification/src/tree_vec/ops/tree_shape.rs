//! The shape of the ancestry matrix of a vector: it is that of a tree.

use crate::tree_vec::ops::bijection::{
    distinct_seconds, every_leaf_joins, firsts_come_first, is_second, lemma_pairs_ok,
};
use crate::tree_vec::ops::newick::children_come_first;
use crate::tree_vec::ops::vector::{
    ancestry_of, ancestry_of_pairs, column_of, first_place_from, lemma_ancestry_shape,
    lemma_tops_values, pairs_in_range, pairs_of, row_of_pair, tops_after,
};
use crate::tree_vec::types::{Pair, Row};
use crate::tree_vec::vector_without_leaf;
use crate::utils::valid_vector;
use vstd::prelude::*;

verus! {

/// The shape of the ancestry matrix of a tree: row `j` holds the parent
/// `len + 1 + j`, children stand before their parents, and every parent but
/// the last is a child in exactly one place.
pub open spec fn is_tree(rows: Seq<Row>) -> bool {
    &&& rows.len() >= 1
    &&& 2 * rows.len() <= usize::MAX
    &&& children_come_first(rows)
    &&& forall|j: int| 0 <= j < rows.len() ==> (#[trigger] rows[j]).2 == rows.len() + 1 + j
    &&& forall|t: int| 0 <= t < rows.len() - 1 ==> #[trigger] has_parent_row(rows, t)
    &&& forall|r1: int, r2: int, t: int|
        #![trigger is_child_in(rows, r1, t), is_child_in(rows, r2, t)]
        0 <= r1 < r2 < rows.len() && 0 <= t < rows.len() ==> !(is_child_in(rows, r1, t)
            && is_child_in(rows, r2, t))
    &&& forall|r: int, t: int|
        #![trigger is_first_child_in(rows, r, t)]
        0 <= r < rows.len() && 0 <= t < rows.len() ==> !(is_first_child_in(rows, r, t)
            && is_second_child_in(rows, r, t))
}

/// The parent of row `t` is the first child in row `r`.
pub open spec fn is_first_child_in(rows: Seq<Row>, r: int, t: int) -> bool {
    rows[r].0 == rows.len() + 1 + t
}

/// The parent of row `t` is the second child in row `r`.
pub open spec fn is_second_child_in(rows: Seq<Row>, r: int, t: int) -> bool {
    rows[r].1 == rows.len() + 1 + t
}

/// The parent of row `t` is a child in row `r`.
pub open spec fn is_child_in(rows: Seq<Row>, r: int, t: int) -> bool {
    is_first_child_in(rows, r, t) || is_second_child_in(rows, r, t)
}

/// The parent of row `t` is a child in some later row.
pub open spec fn has_parent_row(rows: Seq<Row>, t: int) -> bool {
    exists|r: int| t < r < rows.len() && #[trigger] is_child_in(rows, r, t)
}

/// The leaf `c` is one of the two leaves of the pair.
pub open spec fn mentions(pair: Pair, c: usize) -> bool {
    pair.0 == c || pair.1 == c
}

/// The last of the first `r` pairs that holds the leaf `c`, and -1 where
/// none does.
pub open spec fn last_mention(pairs: Seq<Pair>, r: int, c: usize) -> int
    decreases r,
{
    if r <= 0 {
        -1
    } else if mentions(pairs[r - 1], c) {
        r - 1
    } else {
        last_mention(pairs, r - 1, c)
    }
}

pub proof fn lemma_last_mention(pairs: Seq<Pair>, r: int, c: usize)
    requires
        0 <= r <= pairs.len(),
    ensures
        -1 <= last_mention(pairs, r, c) < r,
        last_mention(pairs, r, c) >= 0 ==> mentions(pairs[last_mention(pairs, r, c)], c),
        forall|j: int| last_mention(pairs, r, c) < j < r ==> !mentions(#[trigger] pairs[j], c),
    decreases r,
{
    if r > 0 && !mentions(pairs[r - 1], c) {
        lemma_last_mention(pairs, r - 1, c);
    }
}

pub proof fn lemma_last_mention_is(pairs: Seq<Pair>, r: int, c: usize, t: int)
    requires
        0 <= t < r <= pairs.len(),
        mentions(pairs[t], c),
        forall|j: int| t < j < r ==> !mentions(#[trigger] pairs[j], c),
    ensures
        last_mention(pairs, r, c) == t,
    decreases r,
{
    if t < r - 1 {
        assert(!mentions(pairs[r - 1], c));
        lemma_last_mention_is(pairs, r - 1, c, t);
    }
}

/// What stands above a node after `r` pairs is the parent that the last
/// pair with this node made.
pub proof fn lemma_tops_by_last_mention(pairs: Seq<Pair>, r: nat, c: usize)
    requires
        r <= pairs.len(),
        2 * pairs.len() + 1 <= usize::MAX,
        c <= 2 * pairs.len(),
    ensures
        tops_after(pairs, r).len() == 2 * pairs.len() + 1,
        tops_after(pairs, r)[c as int] == if last_mention(pairs, r as int, c) < 0 {
            c
        } else {
            (pairs.len() + 1 + last_mention(pairs, r as int, c)) as usize
        },
    decreases r,
{
    lemma_tops_values(pairs, r);
    if r > 0 {
        lemma_tops_by_last_mention(pairs, (r - 1) as nat, c);
        lemma_tops_values(pairs, (r - 1) as nat);
    }
}

/// Where the parent of row `t` is a child in row `r`, the first leaf of
/// pair `t` is the leaf of pair `r` in that place, and no pair between the
/// two holds it.
pub proof fn lemma_child_leaf(pairs: Seq<Pair>, r: int, t: int)
    requires
        2 * pairs.len() + 1 <= usize::MAX,
        pairs_in_range(pairs, pairs.len()),
        distinct_seconds(pairs),
        firsts_come_first(pairs),
        0 <= r < pairs.len(),
        0 <= t < pairs.len(),
        is_child_in(ancestry_of_pairs(pairs), r, t),
    ensures
        t < r,
        forall|j: int| t < j < r ==> !mentions(#[trigger] pairs[j], pairs[t].0),
        ancestry_of_pairs(pairs)[r].0 == pairs.len() + 1 + t ==> pairs[r].0 == pairs[t].0,
        ancestry_of_pairs(pairs)[r].1 == pairs.len() + 1 + t ==> pairs[r].1 == pairs[t].0,
{
    let k = pairs.len();
    let rows = ancestry_of_pairs(pairs);
    let a = pairs[r].0;
    let b = pairs[r].1;
    assert(a < b <= k);
    assert(pairs[t].0 < pairs[t].1 <= k);
    assert(rows[r] == row_of_pair(pairs, r));
    lemma_tops_by_last_mention(pairs, r as nat, a);
    lemma_tops_by_last_mention(pairs, r as nat, b);
    lemma_last_mention(pairs, r, a);
    lemma_last_mention(pairs, r, b);
    if rows[r].0 == k + 1 + t {
        assert(last_mention(pairs, r, a) == t);
        assert(mentions(pairs[t], a));
        if a != pairs[t].0 {
            assert(pairs[t].1 == a);
            assert(pairs[r].0 == pairs[t].1);
            assert(r < t);
        }
    }
    if rows[r].1 == k + 1 + t {
        assert(last_mention(pairs, r, b) == t);
        assert(mentions(pairs[t], b));
        if b != pairs[t].0 {
            assert(pairs[t].1 == b);
            assert(pairs[t].1 != pairs[r].1);
        }
    }
}

/// The first pair from `from` on that holds the leaf `c`, and the number of
/// pairs where none does.
pub open spec fn next_mention(pairs: Seq<Pair>, from: int, c: usize) -> int
    decreases pairs.len() - from,
{
    if from < 0 || from >= pairs.len() {
        pairs.len() as int
    } else if mentions(pairs[from], c) {
        from
    } else {
        next_mention(pairs, from + 1, c)
    }
}

pub proof fn lemma_next_mention(pairs: Seq<Pair>, from: int, c: usize, at: int)
    requires
        0 <= from <= at < pairs.len(),
        mentions(pairs[at], c),
    ensures
        from <= next_mention(pairs, from, c) <= at,
        mentions(pairs[next_mention(pairs, from, c)], c),
        forall|j: int| from <= j < next_mention(pairs, from, c) ==> !mentions(#[trigger] pairs[j], c),
    decreases pairs.len() - from,
{
    if !mentions(pairs[from], c) {
        lemma_next_mention(pairs, from + 1, c, at);
    }
}

/// The parent of every row but the last is a child in a later row.
pub proof fn lemma_parent_is_child(pairs: Seq<Pair>, t: int)
    requires
        2 * pairs.len() + 1 <= usize::MAX,
        pairs_in_range(pairs, pairs.len()),
        distinct_seconds(pairs),
        firsts_come_first(pairs),
        every_leaf_joins(pairs, pairs.len()),
        0 <= t < pairs.len() - 1,
    ensures
        has_parent_row(ancestry_of_pairs(pairs), t),
{
    let k = pairs.len();
    let rows = ancestry_of_pairs(pairs);
    let a = pairs[t].0;
    assert(a < pairs[t].1 <= k);
    // some later pair holds the first leaf of pair `t`
    let at: int = if a >= 1 {
        assert(is_second(pairs, a as int));
        let j = choose|j: int| 0 <= j < pairs.len() && (#[trigger] pairs[j]).1 == a;
        assert(pairs[t].0 == pairs[j].1);
        assert(t < j);
        j
    } else {
        let last = pairs[k - 1];
        assert(last.0 < last.1 <= k);
        if last.0 >= 1 {
            assert(is_second(pairs, last.0 as int));
            let j = choose|j: int| 0 <= j < pairs.len() && (#[trigger] pairs[j]).1 == last.0;
            assert(pairs[k - 1].0 == pairs[j].1);
            assert(k - 1 < j);
        }
        k - 1
    };
    assert(t < at < k && mentions(pairs[at], a));
    lemma_next_mention(pairs, t + 1, a, at);
    let r = next_mention(pairs, t + 1, a);
    lemma_last_mention_is(pairs, r, a, t);
    lemma_tops_by_last_mention(pairs, r as nat, a);
    assert(rows[r] == row_of_pair(pairs, r));
    assert(pairs[r].0 < pairs[r].1 <= k);
    assert(is_child_in(rows, r, t));
}

/// The ancestry matrix of a valid vector is that of a tree.
pub proof fn lemma_ancestry_is_tree(v: Seq<usize>)
    requires
        valid_vector(v),
        v.len() >= 1,
        2 * v.len() + 1 <= usize::MAX,
    ensures
        is_tree(ancestry_of(v)),
{
    let k = v.len();
    let pairs = pairs_of(v, k);
    let rows = ancestry_of(v);
    lemma_pairs_ok(v, k);
    lemma_ancestry_shape(v);
    assert forall|t: int| 0 <= t < rows.len() - 1 implies #[trigger] has_parent_row(rows, t) by {
        lemma_parent_is_child(pairs, t);
    }
    assert forall|r1: int, r2: int, t: int|
        #![trigger is_child_in(rows, r1, t), is_child_in(rows, r2, t)]
        0 <= r1 < r2 < rows.len() && 0 <= t < rows.len() implies !(is_child_in(rows, r1, t)
            && is_child_in(rows, r2, t)) by {
        if is_child_in(rows, r1, t) && is_child_in(rows, r2, t) {
            lemma_child_leaf(pairs, r1, t);
            lemma_child_leaf(pairs, r2, t);
            assert(mentions(pairs[r1], pairs[t].0));
        }
    }
    assert forall|r: int, t: int|
        #![trigger is_first_child_in(rows, r, t)]
        0 <= r < rows.len() && 0 <= t < rows.len() implies !(is_first_child_in(rows, r, t)
            && is_second_child_in(rows, r, t)) by {
        if is_first_child_in(rows, r, t) && is_second_child_in(rows, r, t) {
            lemma_child_leaf(pairs, r, t);
            assert(pairs[r].0 < pairs[r].1);
        }
    }
}

// ---------------------------------------------------------------------------
// Where a leaf stands
// ---------------------------------------------------------------------------
/// Every leaf of the tree is in some pair.
pub proof fn lemma_leaf_is_mentioned(pairs: Seq<Pair>, c: usize) -> (at: int)
    requires
        pairs.len() >= 1,
        pairs_in_range(pairs, pairs.len()),
        firsts_come_first(pairs),
        every_leaf_joins(pairs, pairs.len()),
        c <= pairs.len(),
    ensures
        0 <= at < pairs.len(),
        mentions(pairs[at], c),
{
    let k = pairs.len();
    if c >= 1 {
        assert(is_second(pairs, c as int));
        choose|j: int| 0 <= j < pairs.len() && (#[trigger] pairs[j]).1 == c
    } else {
        let last = pairs[k - 1];
        assert(last.0 < last.1 <= k);
        if last.0 >= 1 {
            assert(is_second(pairs, last.0 as int));
            let j = choose|j: int| 0 <= j < pairs.len() && (#[trigger] pairs[j]).1 == last.0;
            assert(pairs[k - 1].0 == pairs[j].1);
            assert(k - 1 < j);
        }
        k - 1
    }
}

/// What the first place of a node says of the rows.
pub proof fn lemma_first_place(rows: Seq<Row>, node: usize, from: int)
    requires
        0 <= from <= rows.len() <= usize::MAX,
    ensures
        match first_place_from(rows, node, from) {
            Some((r, c)) => from <= r < rows.len() && column_of(rows[r as int], node) == Some(c)
                && forall|j: int| from <= j < r ==> column_of(#[trigger] rows[j], node) is None,
            None => forall|j: int|
                from <= j < rows.len() ==> column_of(#[trigger] rows[j], node) is None,
        },
    decreases rows.len() - from,
{
    if from < rows.len() && column_of(rows[from], node) is None {
        lemma_first_place(rows, node, from + 1);
    }
}

/// The first place of `node` in the matrix is that of a child.
pub open spec fn stands_as_child(rows: Seq<Row>, node: usize) -> bool {
    match first_place_from(rows, node, 0) {
        Some((r, c)) => c < 2,
        None => false,
    }
}

/// Every leaf of the tree of a valid vector stands as a child in its
/// matrix.
proof fn lemma_leaf_stands_as_child(v: Seq<usize>, leaf: usize)
    requires
        valid_vector(v),
        2 * v.len() + 1 <= usize::MAX,
        v.len() >= 1,
        leaf <= v.len(),
    ensures
        stands_as_child(ancestry_of(v), leaf),
{
    let k = v.len();
    let pairs = pairs_of(v, k);
    let rows = ancestry_of(v);
    lemma_pairs_ok(v, k);
    lemma_ancestry_shape(v);
    let at = lemma_leaf_is_mentioned(pairs, leaf);
    lemma_next_mention(pairs, 0, leaf, at);
    let r = next_mention(pairs, 0, leaf);
    lemma_last_mention(pairs, r, leaf);
    lemma_tops_by_last_mention(pairs, r as nat, leaf);
    assert(rows[r] == row_of_pair(pairs, r));
    assert(pairs[r].0 < pairs[r].1 <= k);
    assert(rows[r].0 == leaf || rows[r].1 == leaf);
    assert(column_of(rows[r], leaf) is Some);
    lemma_first_place(rows, leaf, 0);
    let place = first_place_from(rows, leaf, 0);
    assert(place is Some);
    let found = place.unwrap().0 as int;
    assert(rows[found].2 == k + 1 + found);
    assert(column_of(rows[found], leaf) == Some(place.unwrap().1));
}

/// Only the leaves of the tree of a valid vector stand first as a child in
/// its matrix: an inner node stands first as the parent of its own row.
proof fn lemma_only_leaves_stand_as_child(v: Seq<usize>, node: usize)
    requires
        valid_vector(v),
        2 * v.len() + 1 <= usize::MAX,
        stands_as_child(ancestry_of(v), node),
    ensures
        v.len() >= 1,
        node <= v.len(),
{
    let k = v.len();
    let rows = ancestry_of(v);
    lemma_ancestry_shape(v);
    lemma_first_place(rows, node, 0);
    let place = first_place_from(rows, node, 0).unwrap();
    let r = place.0 as int;
    assert(column_of(rows[r], node) == Some(place.1));
    assert(rows[r].0 < k + 1 + r && rows[r].1 < k + 1 + r);
    if node > k {
        let t = node - k - 1;
        assert(rows[t].2 == k + 1 + t);
        assert(column_of(rows[t], node) is Some);
    }
}

/// A leaf can be taken out of the tree of a valid vector exactly where the
/// tree has it: the leaves are those from 0 to the length of the vector,
/// where the vector is not empty.
pub proof fn lemma_leaf_can_be_removed(v: Seq<usize>, leaf: usize)
    requires
        valid_vector(v),
        2 * v.len() + 1 <= usize::MAX,
    ensures
        vector_without_leaf(v, leaf) is Some <==> v.len() >= 1 && leaf <= v.len(),
{
    assert(vector_without_leaf(v, leaf) is Some <==> stands_as_child(ancestry_of(v), leaf));
    if v.len() >= 1 && leaf <= v.len() {
        lemma_leaf_stands_as_child(v, leaf);
    }
    if stands_as_child(ancestry_of(v), leaf) {
        lemma_only_leaves_stand_as_child(v, leaf);
    }
}

} // verus!
