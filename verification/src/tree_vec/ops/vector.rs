//! The conversions between encoding vectors and ancestry matrices.

use crate::tree_vec::ops::avl::AVLTree;
use crate::tree_vec::ops::counting::{
    count_below, lemma_count_below_insert, lemma_count_below_split, lemma_insert_places,
};
use crate::tree_vec::ops::bijection::lemma_build_vector_inverts_get_ancestry;
use crate::tree_vec::ops::round_trip::lemma_to_vector_inverts_to_newick;
use crate::tree_vec::ops::newick::{
    build_newick, cherries, cherries_no_parents, children_come_first, get_cherries,
    get_cherries_no_parents, has_parent_labels, has_parents, max_usize, min_usize, newick_text,
    strip_parent_labels, NewickError, NewickFault,
};
use crate::tree_vec::ops::plain_text::lemma_to_vector_reads_plain_text;
use crate::tree_vec::types::{lemma_rows_of_push, rows_of, Ancestry, Pair, Pairs, Row};
use crate::utils::valid_vector;
use vstd::prelude::*;

verus! {

// ---------------------------------------------------------------------------
// Tables indexed by node
// ---------------------------------------------------------------------------
/// The entry of a table for node `c`, and `default` where the table has no
/// such entry.
pub open spec fn entry_or<T>(table: Seq<T>, c: usize, default: T) -> T {
    if c < table.len() {
        table[c as int]
    } else {
        default
    }
}

/// The table with the entry for node `c` set, where it has such an entry.
pub open spec fn with_entry<T>(table: Seq<T>, c: usize, value: T) -> Seq<T> {
    if c < table.len() {
        table.update(c as int, value)
    } else {
        table
    }
}

/// The table that holds each node at its own place.
pub open spec fn identity_table(len: nat) -> Seq<usize> {
    Seq::new(len, |c: int| c as usize)
}

fn new_identity_table(len: usize) -> (table: Vec<usize>)
    ensures
        table@ == identity_table(len as nat),
{
    let mut table: Vec<usize> = Vec::with_capacity(len);
    let mut c: usize = 0;
    while c < len
        invariant
            c <= len,
            table@ == identity_table(c as nat),
        decreases len - c,
    {
        table.push(c);
        proof {
            assert(table@ =~= identity_table((c + 1) as nat));
        }
        c += 1;
    }
    table
}

fn get_or(table: &Vec<usize>, c: usize) -> (x: usize)
    ensures
        x == entry_or(table@, c, c),
{
    if c < table.len() {
        table[c]
    } else {
        c
    }
}

fn set_entry(table: &mut Vec<usize>, c: usize, value: usize)
    ensures
        final(table)@ == with_entry(old(table)@, c, value),
{
    if c < table.len() {
        table[c] = value;
    }
}

// ---------------------------------------------------------------------------
// From a vector to its pairs
// ---------------------------------------------------------------------------
/// The pairs that the first `m` entries of `v` give, deepest first.
///
/// The first entry pairs the leaves 0 and 1. Entry `i` brings in the leaf
/// `i + 1`: where `v[i] <= i` it pairs with the leaf `v[i]`, below every
/// pair made so far; otherwise it comes right above the pair at position
/// `v[i] - i - 1` and pairs with what that pair made.
pub open spec fn pairs_of(v: Seq<usize>, m: nat) -> Seq<Pair>
    decreases m,
{
    if m == 0 {
        Seq::empty()
    } else if m == 1 {
        seq![(0usize, 1usize)]
    } else {
        let i = (m - 1) as int;
        let prev = pairs_of(v, (m - 1) as nat);
        if v[i] <= i {
            prev.insert(0, (v[i], m as usize))
        } else {
            let index = v[i] - m;
            prev.insert(index + 1, (prev[index].0, m as usize))
        }
    }
}

pub proof fn lemma_pairs_len(v: Seq<usize>, m: nat)
    requires
        m <= v.len(),
        valid_vector(v),
    ensures
        pairs_of(v, m).len() == m,
    decreases m,
{
    if m > 1 {
        lemma_pairs_len(v, (m - 1) as nat);
        assert(v[m - 1] <= 2 * (m - 1));
    }
}

/// The pairs of an encoding vector, deepest first.
pub fn get_pairs(v: &Vec<usize>) -> (pairs: Pairs)
    requires
        valid_vector(v@),
        v.len() < usize::MAX,
    ensures
        pairs@ == pairs_of(v@, v.len() as nat),
        pairs.len() == v.len(),
{
    let k = v.len();
    let mut tree = AVLTree::new();
    if k == 0 {
        return tree.get_pairs();
    }
    tree.insert_by_index(0, (0, 1));
    proof {
        assert(tree@ =~= pairs_of(v@, 1));
    }
    let mut i: usize = 1;
    while i < k
        invariant
            k == v.len(),
            k < usize::MAX,
            valid_vector(v@),
            1 <= i <= k,
            tree.wf(),
            tree@ == pairs_of(v@, i as nat),
            tree@.len() == i,
        decreases k - i,
    {
        let next_leaf = i + 1;
        proof {
            assert(v[i as int] <= 2 * i);
        }
        if v[i] <= i {
            tree.insert_by_index(0, (v[i], next_leaf));
        } else {
            let index = v[i] - next_leaf;
            let pair = tree.lookup(index);
            tree.insert_by_index(index + 1, (pair.0, next_leaf));
        }
        i += 1;
    }
    tree.get_pairs()
}

// ---------------------------------------------------------------------------
// From pairs to an ancestry matrix
// ---------------------------------------------------------------------------
/// For each node, the node that stands above it after the first `j` pairs
/// were joined: itself while it is in no pair, and else the parent that its
/// last pair made. Pair `j` makes the parent `len + 1 + j`. The table holds
/// the nodes up to `2 * len`; a larger number in a pair changes nothing.
pub open spec fn tops_after(pairs: Seq<Pair>, j: nat) -> Seq<usize>
    decreases j,
{
    if j == 0 {
        identity_table(2 * pairs.len() + 1)
    } else {
        let prev = tops_after(pairs, (j - 1) as nat);
        let parent = (pairs.len() + j) as usize;
        with_entry(with_entry(prev, pairs[j - 1].0, parent), pairs[j - 1].1, parent)
    }
}

/// The row that pair `j` gives: what stands above its two leaves when it is
/// joined, and the parent that it makes.
pub open spec fn row_of_pair(pairs: Seq<Pair>, j: int) -> Row {
    let tops = tops_after(pairs, j as nat);
    (
        entry_or(tops, pairs[j].0, pairs[j].0),
        entry_or(tops, pairs[j].1, pairs[j].1),
        (pairs.len() + 1 + j) as usize,
    )
}

/// The ancestry matrix of a list of pairs: row `j` joins what stands above
/// the two leaves of pair `j` under the parent `len + 1 + j`.
pub open spec fn ancestry_of_pairs(pairs: Seq<Pair>) -> Seq<Row> {
    Seq::new(pairs.len(), |j: int| row_of_pair(pairs, j))
}

/// The ancestry matrix of an encoding vector.
pub open spec fn ancestry_of(v: Seq<usize>) -> Seq<Row> {
    ancestry_of_pairs(pairs_of(v, v.len()))
}

/// Every leaf of every pair is a leaf of a tree of `pairs.len() + 1` leaves.
pub open spec fn leaves_in_range(pairs: Seq<Pair>) -> bool {
    forall|j: int|
        0 <= j < pairs.len() ==> (#[trigger] pairs[j]).0 <= pairs.len() && pairs[j].1
            <= pairs.len()
}

/// Row `j` of the ancestry matrix of a list of pairs holds the parent
/// `len + 1 + j`, and where the pairs hold leaves of the tree every child
/// stands before its parent.
pub proof fn lemma_ancestry_of_pairs_shape(pairs: Seq<Pair>)
    requires
        2 * pairs.len() + 1 <= usize::MAX,
    ensures
        ancestry_of_pairs(pairs).len() == pairs.len(),
        forall|j: int|
            0 <= j < pairs.len() ==> (#[trigger] ancestry_of_pairs(pairs)[j]).2 == pairs.len() + 1
                + j,
        leaves_in_range(pairs) ==> children_come_first(ancestry_of_pairs(pairs)),
{
    let rows = ancestry_of_pairs(pairs);
    if leaves_in_range(pairs) {
        assert forall|j: int| 0 <= j < rows.len() implies (#[trigger] rows[j]).0 < rows.len() + 1
            + j && rows[j].1 < rows.len() + 1 + j by {
            lemma_tops_values(pairs, j as nat);
            assert(pairs[j].0 <= pairs.len() && pairs[j].1 <= pairs.len());
            let tops = tops_after(pairs, j as nat);
            assert(rows[j].0 == tops[pairs[j].0 as int]);
            assert(rows[j].1 == tops[pairs[j].1 as int]);
        }
    }
}

/// Gives each pair its parent, one after the other from `len + 1` on, and
/// replaces its two leaves by what stands above them.
pub fn ancestry_from_pairs(pairs: &Pairs) -> (ancestry: Ancestry)
    requires
        2 * pairs.len() + 1 <= usize::MAX,
    ensures
        rows_of(ancestry@) == ancestry_of_pairs(pairs@),
        ancestry.len() == pairs.len(),
        forall|j: int|
            0 <= j < pairs.len() ==> (#[trigger] rows_of(ancestry@)[j]).2 == pairs.len() + 1 + j,
        leaves_in_range(pairs@) ==> children_come_first(rows_of(ancestry@)),
{
    proof {
        lemma_ancestry_of_pairs_shape(pairs@);
    }
    let k = pairs.len();
    let mut ancestry: Ancestry = Vec::with_capacity(k);
    let mut tops = new_identity_table(2 * k + 1);
    let mut j: usize = 0;
    proof {
        assert(rows_of(ancestry@) =~= ancestry_of_pairs(pairs@).take(0));
    }
    while j < k
        invariant
            k == pairs.len(),
            2 * k + 1 <= usize::MAX,
            j <= k,
            tops@ == tops_after(pairs@, j as nat),
            ancestry.len() == j,
            rows_of(ancestry@) == ancestry_of_pairs(pairs@).take(j as int),
        decreases k - j,
    {
        let (c1, c2) = pairs[j];
        let parent = k + 1 + j;
        let t1 = get_or(&tops, c1);
        let t2 = get_or(&tops, c2);
        proof {
            lemma_rows_of_push(ancestry@, [t1, t2, parent]);
            assert(ancestry_of_pairs(pairs@).take(j as int).push((t1, t2, parent))
                =~= ancestry_of_pairs(pairs@).take(j + 1));
        }
        ancestry.push([t1, t2, parent]);
        set_entry(&mut tops, c1, parent);
        set_entry(&mut tops, c2, parent);
        j += 1;
    }
    proof {
        assert(ancestry_of_pairs(pairs@).take(k as int) =~= ancestry_of_pairs(pairs@));
    }
    ancestry
}

/// The ancestry matrix of an encoding vector: one row
/// `[child1, child2, parent]` for each internal node, with the parents
/// `n_leaves, n_leaves + 1, ...` in this order.
pub fn get_ancestry(v: &Vec<usize>) -> (ancestry: Ancestry)
    requires
        valid_vector(v@),
        2 * v.len() + 2 <= usize::MAX,
    ensures
        rows_of(ancestry@) == ancestry_of(v@),
        ancestry.len() == v.len(),
        forall|j: int|
            0 <= j < ancestry.len() ==> (#[trigger] rows_of(ancestry@)[j]).2 == v.len() + 1 + j,
        forall|i: int, j: int|
            0 <= i < j < ancestry.len() ==> rows_of(ancestry@)[i].2 < rows_of(ancestry@)[j].2,
        vector_of(rows_of(ancestry@)) == v@,
{
    proof {
        lemma_build_vector_inverts_get_ancestry(v@);
    }
    let pairs = get_pairs(v);
    ancestry_from_pairs(&pairs)
}

// ---------------------------------------------------------------------------
// Searching a tree whose pairs stand in the order of their first entries
// ---------------------------------------------------------------------------
/// The first entry of every pair.
pub open spec fn firsts_of(pairs: Seq<Pair>) -> Seq<usize> {
    Seq::new(pairs.len(), |i: int| pairs[i].0)
}

/// The pairs stand in the order of their first entries.
pub open spec fn sorted_firsts(pairs: Seq<Pair>) -> bool {
    forall|a: int, b: int|
        0 <= a <= b < pairs.len() ==> (#[trigger] pairs[a]).0 <= (#[trigger] pairs[b]).0
}

/// The first entry of a pair is below `b`, or is `b` where `inclusive`.
pub open spec fn stands_before(x: usize, b: usize, inclusive: bool) -> bool {
    x < b || (inclusive && x == b)
}

/// The place behind the pairs whose first entry is below `b`, and behind
/// those whose first entry is `b` too where `inclusive`.
fn place_of(tree: &AVLTree, b: usize, inclusive: bool) -> (pos: usize)
    requires
        tree.wf(),
        sorted_firsts(tree@),
    ensures
        pos <= tree@.len(),
        forall|i: int| 0 <= i < pos ==> stands_before((#[trigger] tree@[i]).0, b, inclusive),
        forall|i: int|
            pos <= i < tree@.len() ==> !stands_before((#[trigger] tree@[i]).0, b, inclusive),
{
    let mut low: usize = 0;
    let mut high: usize = tree.len();
    while low < high
        invariant
            tree.wf(),
            sorted_firsts(tree@),
            low <= high <= tree@.len(),
            forall|i: int| 0 <= i < low ==> stands_before((#[trigger] tree@[i]).0, b, inclusive),
            forall|i: int|
                high <= i < tree@.len() ==> !stands_before((#[trigger] tree@[i]).0, b, inclusive),
        decreases high - low,
    {
        let mid = low + (high - low) / 2;
        let x = tree.lookup(mid).0;
        if x < b || (inclusive && x == b) {
            proof {
                assert forall|i: int| 0 <= i < mid + 1 implies stands_before(
                    (#[trigger] tree@[i]).0,
                    b,
                    inclusive,
                ) by {
                    assert(tree@[i].0 <= tree@[mid as int].0);
                }
            }
            low = mid + 1;
        } else {
            proof {
                assert forall|i: int| mid <= i < tree@.len() implies !stands_before(
                    (#[trigger] tree@[i]).0,
                    b,
                    inclusive,
                ) by {
                    assert(tree@[mid as int].0 <= tree@[i].0);
                }
            }
            high = mid;
        }
    }
    low
}

/// Putting a pair in at its place keeps the order.
proof fn lemma_sorted_insert(pairs: Seq<Pair>, pos: int, pair: Pair, inclusive: bool)
    requires
        sorted_firsts(pairs),
        0 <= pos <= pairs.len(),
        forall|i: int| 0 <= i < pos ==> stands_before((#[trigger] pairs[i]).0, pair.0, inclusive),
        forall|i: int|
            pos <= i < pairs.len() ==> !stands_before((#[trigger] pairs[i]).0, pair.0, inclusive),
    ensures
        sorted_firsts(pairs.insert(pos, pair)),
        firsts_of(pairs.insert(pos, pair)) == firsts_of(pairs).insert(pos, pair.0),
{
    let now = pairs.insert(pos, pair);
    lemma_insert_places(pairs, pos, pair);
    assert forall|a: int, b: int| 0 <= a <= b < now.len() implies (#[trigger] now[a]).0 <= (
    #[trigger] now[b]).0 by {
        let x = if a < pos {
            pairs[a]
        } else if a == pos {
            pair
        } else {
            pairs[a - 1]
        };
        let y = if b < pos {
            pairs[b]
        } else if b == pos {
            pair
        } else {
            pairs[b - 1]
        };
        assert(now[a] == x && now[b] == y);
    }
    assert(firsts_of(now) =~= firsts_of(pairs).insert(pos, pair.0));
}

// ---------------------------------------------------------------------------
// Ordering the rows of an ancestry matrix
// ---------------------------------------------------------------------------
/// The parent of every row.
pub open spec fn parents_of(rows: Seq<Row>) -> Seq<usize> {
    Seq::new(rows.len(), |j: int| rows[j].2)
}

/// `order` with the index `j` put in behind every index whose key is not
/// larger than that of `j`.
pub open spec fn insert_by_key(keys: Seq<usize>, order: Seq<usize>, j: usize) -> Seq<usize>
    decreases order.len(),
{
    if order.len() == 0 {
        seq![j]
    } else if keys[order.last() as int] <= keys[j as int] {
        order.push(j)
    } else {
        insert_by_key(keys, order.drop_last(), j).push(order.last())
    }
}

/// The first `m` indices by ascending key; indices with the same key keep
/// their order.
pub open spec fn stable_order(keys: Seq<usize>, m: nat) -> Seq<usize>
    decreases m,
{
    if m == 0 {
        Seq::empty()
    } else {
        insert_by_key(keys, stable_order(keys, (m - 1) as nat), (m - 1) as usize)
    }
}

/// The indices of the rows by ascending parent; rows with the same parent
/// keep their order.
pub open spec fn sorted_indices(rows: Seq<Row>) -> Seq<usize> {
    stable_order(parents_of(rows), rows.len())
}

/// The rows by ascending parent; rows with the same parent keep their order.
pub open spec fn sorted_by_parent(rows: Seq<Row>) -> Seq<Row> {
    Seq::new(rows.len(), |i: int| rows[sorted_indices(rows)[i] as int])
}

/// Putting an index in by its key is an insertion at the place behind which
/// every key is larger and before which the key is not.
pub proof fn lemma_insert_by_key_at(keys: Seq<usize>, order: Seq<usize>, j: usize, pos: int)
    requires
        0 <= pos <= order.len(),
        forall|q: int| pos <= q < order.len() ==> keys[(#[trigger] order[q]) as int] > keys[j as int],
        pos > 0 ==> keys[order[pos - 1] as int] <= keys[j as int],
    ensures
        insert_by_key(keys, order, j) == order.insert(pos, j),
    decreases order.len(),
{
    if order.len() == 0 {
        assert(order.insert(pos, j) =~= seq![j]);
    } else if pos == order.len() {
        assert(order.insert(pos, j) =~= order.push(j));
    } else {
        assert(keys[order[order.len() - 1] as int] > keys[j as int]);
        lemma_insert_by_key_at(keys, order.drop_last(), j, pos);
        assert(order.drop_last().insert(pos, j).push(order.last()) =~= order.insert(pos, j));
    }
}

/// The indices in `order`, each with its key before it.
pub open spec fn keyed(keys: Seq<usize>, order: Seq<usize>) -> Seq<Pair> {
    Seq::new(order.len(), |q: int| (keys[order[q] as int], order[q]))
}

/// The indices of the rows of an ancestry matrix by ascending parent; rows
/// with the same parent keep their order.
pub fn _get_sorted_indices(ancestry: &Ancestry) -> (indices: Vec<usize>)
    requires
        ancestry.len() < usize::MAX,
    ensures
        indices@ == sorted_indices(rows_of(ancestry@)),
        indices.len() == ancestry.len(),
        forall|i: int| 0 <= i < indices.len() ==> (#[trigger] indices[i]) < ancestry.len(),
        forall|a: int, b: int|
            0 <= a <= b < indices.len() ==> rows_of(ancestry@)[(#[trigger] indices[a]) as int].2
                <= rows_of(ancestry@)[(#[trigger] indices[b]) as int].2,
{
    let k = ancestry.len();
    let ghost keys = parents_of(rows_of(ancestry@));
    let mut tree = AVLTree::new();
    let mut i: usize = 0;
    proof {
        assert(tree@ =~= keyed(keys, stable_order(keys, 0)));
    }
    while i < k
        invariant
            k == ancestry.len(),
            k < usize::MAX,
            keys == parents_of(rows_of(ancestry@)),
            i <= k,
            tree.wf(),
            sorted_firsts(tree@),
            stable_order(keys, i as nat).len() == i,
            tree@ == keyed(keys, stable_order(keys, i as nat)),
            forall|q: int| 0 <= q < i ==> (#[trigger] stable_order(keys, i as nat)[q]) < i,
        decreases k - i,
    {
        let key = ancestry[i][2];
        let ghost order = stable_order(keys, i as nat);
        let pos = place_of(&tree, key, true);
        proof {
            assert(key == keys[i as int]);
            assert forall|q: int| pos <= q < order.len() implies keys[(#[trigger] order[q]) as int]
                > keys[i as int] by {
                assert(tree@[q].0 == keys[order[q] as int]);
            }
            if pos > 0 {
                assert(tree@[pos - 1].0 == keys[order[pos - 1] as int]);
            }
            lemma_insert_by_key_at(keys, order, i, pos as int);
            lemma_sorted_insert(tree@, pos as int, (key, i), true);
            lemma_insert_places(order, pos as int, i);
            assert(tree@.insert(pos as int, (key, i)) =~= keyed(keys, order.insert(pos as int, i)));
        }
        tree.insert_by_index(pos, (key, i));
        i += 1;
    }
    let pairs = tree.get_pairs();
    let ghost order = stable_order(keys, k as nat);
    let mut indices: Vec<usize> = Vec::with_capacity(k);
    let mut q: usize = 0;
    while q < k
        invariant
            k == pairs.len(),
            order.len() == k,
            pairs@ == keyed(keys, order),
            q <= k,
            indices@ == order.take(q as int),
        decreases k - q,
    {
        proof {
            assert(order.take(q as int).push(order[q as int]) =~= order.take(q + 1));
        }
        indices.push(pairs[q].1);
        q += 1;
    }
    proof {
        assert(order.take(k as int) =~= order);
        assert forall|a: int, b: int| 0 <= a <= b < k implies rows_of(ancestry@)[(
        #[trigger] indices[a]) as int].2 <= rows_of(ancestry@)[(#[trigger] indices[b]) as int].2 by {
            assert(pairs@[a].0 == keys[order[a] as int]);
            assert(pairs@[b].0 == keys[order[b] as int]);
            assert(pairs@[a].0 <= pairs@[b].0);
        }
    }
    indices
}

/// Orders the rows of an ancestry matrix by ascending parent; rows with the
/// same parent keep their order.
pub fn order_cherries(ancestry: &mut Ancestry)
    requires
        old(ancestry).len() < usize::MAX,
    ensures
        rows_of(final(ancestry)@) == sorted_by_parent(rows_of(old(ancestry)@)),
        final(ancestry).len() == old(ancestry).len(),
        forall|a: int, b: int|
            0 <= a <= b < final(ancestry).len() ==> (#[trigger] rows_of(final(ancestry)@)[a]).2 <= (
            #[trigger] rows_of(final(ancestry)@)[b]).2,
{
    let k = ancestry.len();
    let indices = _get_sorted_indices(ancestry);
    let ghost rows = rows_of(ancestry@);
    let mut sorted: Ancestry = Vec::with_capacity(k);
    let mut i: usize = 0;
    proof {
        assert(rows_of(sorted@) =~= sorted_by_parent(rows).take(0));
    }
    while i < k
        invariant
            k == ancestry.len(),
            rows == rows_of(ancestry@),
            indices@ == sorted_indices(rows),
            indices.len() == k,
            forall|q: int| 0 <= q < k ==> (#[trigger] indices[q]) < k,
            forall|a: int, b: int|
                0 <= a <= b < k ==> rows[(#[trigger] indices[a]) as int].2 <= rows[(
                #[trigger] indices[b]) as int].2,
            i <= k,
            sorted.len() == i,
            rows_of(sorted@) == sorted_by_parent(rows).take(i as int),
        decreases k - i,
    {
        let row = ancestry[indices[i]];
        proof {
            lemma_rows_of_push(sorted@, row);
            assert(rows[indices[i as int] as int] == (row[0], row[1], row[2]));
            assert(sorted_by_parent(rows).take(i as int).push((row[0], row[1], row[2]))
                =~= sorted_by_parent(rows).take(i + 1));
        }
        sorted.push(row);
        i += 1;
    }
    proof {
        assert(sorted_by_parent(rows).take(k as int) =~= sorted_by_parent(rows));
        assert forall|a: int, b: int| 0 <= a <= b < k implies (#[trigger] rows_of(sorted@)[a]).2 <= (
        #[trigger] rows_of(sorted@)[b]).2 by {
            assert(rows_of(sorted@)[a] == rows[indices[a] as int]);
            assert(rows_of(sorted@)[b] == rows[indices[b] as int]);
        }
    }
    *ancestry = sorted;
}

// ---------------------------------------------------------------------------
// From an ancestry matrix to its vector
// ---------------------------------------------------------------------------
/// For each node, the least leaf below it as far as the first `j` rows say:
/// itself for a node that is no parent in them. The table holds the nodes
/// up to `2 * len + 1`; a larger parent changes nothing, and a larger child
/// stands for itself.
pub open spec fn least_after(rows: Seq<Row>, j: nat) -> Seq<usize>
    decreases j,
{
    if j == 0 {
        identity_table(2 * rows.len() + 2)
    } else {
        let prev = least_after(rows, (j - 1) as nat);
        let row = rows[j - 1];
        with_entry(
            prev,
            row.2,
            min_usize(entry_or(prev, row.0, row.0), entry_or(prev, row.1, row.1)),
        )
    }
}

/// The two sides of row `j`: the least leaf below each of its children, the
/// smaller one first.
pub open spec fn sides_of(rows: Seq<Row>, j: int) -> (usize, usize) {
    let least = least_after(rows, j as nat);
    let d1 = entry_or(least, rows[j].0, rows[j].0);
    let d2 = entry_or(least, rows[j].1, rows[j].1);
    (min_usize(d1, d2), max_usize(d1, d2))
}

/// The larger side of every row.
pub open spec fn highs_of(rows: Seq<Row>) -> Seq<usize> {
    Seq::new(rows.len(), |j: int| sides_of(rows, j).1)
}

/// The entry of the vector that row `j` gives for the leaf on its larger
/// side: the leaf on its smaller side where no earlier row has a smaller
/// larger side, and else the larger side less one plus the number of such
/// rows.
pub open spec fn entry_of_row(rows: Seq<Row>, j: int) -> usize {
    let (low, high) = sides_of(rows, j);
    let rank = count_below(highs_of(rows), j, high);
    if rank == 0 {
        low
    } else {
        (high - 1 + rank) as usize
    }
}

/// The vector as far as the first `j` rows give it: all zero at first, and
/// each row whose larger side is a leaf other than 0 sets the entry of the
/// leaf before it.
pub open spec fn vector_after(rows: Seq<Row>, j: nat) -> Seq<usize>
    decreases j,
{
    if j == 0 {
        Seq::new(rows.len(), |i: int| 0usize)
    } else {
        let prev = vector_after(rows, (j - 1) as nat);
        let high = sides_of(rows, j - 1).1;
        if 1 <= high <= rows.len() {
            prev.update(high - 1, entry_of_row(rows, j - 1))
        } else {
            prev
        }
    }
}

/// The vector of an ancestry matrix.
pub open spec fn vector_of(rows: Seq<Row>) -> Seq<usize> {
    vector_after(rows, rows.len())
}

/// Builds the encoding vector of an ancestry matrix whose rows stand in the
/// order in which the tree is put together.
pub fn build_vector(ancestry: &Ancestry) -> (v: Vec<usize>)
    requires
        2 * ancestry.len() + 2 <= usize::MAX,
    ensures
        v@ == vector_of(rows_of(ancestry@)),
        v.len() == ancestry.len(),
{
    let k = ancestry.len();
    let ghost rows = rows_of(ancestry@);
    let mut v: Vec<usize> = vec![0usize; k];
    let mut least = new_identity_table(2 * k + 2);
    // the larger sides of the rows so far, in ascending order
    let mut seen = AVLTree::new();
    let mut j: usize = 0;
    proof {
        assert(v@ =~= vector_after(rows, 0));
    }
    while j < k
        invariant
            k == ancestry.len(),
            rows == rows_of(ancestry@),
            2 * k + 2 <= usize::MAX,
            j <= k,
            v.len() == k,
            least@ == least_after(rows, j as nat),
            v@ == vector_after(rows, j as nat),
            seen.wf(),
            seen@.len() == j,
            sorted_firsts(seen@),
            forall|b: usize| #[trigger]
                count_below(firsts_of(seen@), j as int, b) == count_below(
                    highs_of(rows),
                    j as int,
                    b,
                ),
        decreases k - j,
    {
        let row = ancestry[j];
        proof {
            assert(rows[j as int] == (row[0], row[1], row[2]));
        }
        let d1 = get_or(&least, row[0]);
        let d2 = get_or(&least, row[1]);
        let (low, high) = if d1 <= d2 {
            (d1, d2)
        } else {
            (d2, d1)
        };
        set_entry(&mut least, row[2], low);
        let rank = place_of(&seen, high, false);
        proof {
            assert forall|i: int| 0 <= i < rank implies #[trigger] firsts_of(seen@)[i] < high by {
                assert(stands_before(seen@[i].0, high, false));
            }
            assert forall|i: int| rank <= i < j implies #[trigger] firsts_of(seen@)[i] >= high by {
                assert(!stands_before(seen@[i].0, high, false));
            }
            lemma_count_below_split(firsts_of(seen@), rank as int, j as int, high);
            assert(rank == count_below(highs_of(rows), j as int, high));
        }
        if 1 <= high && high <= k {
            let entry = if rank == 0 {
                low
            } else {
                high - 1 + rank
            };
            v[high - 1] = entry;
        }
        proof {
            lemma_sorted_insert(seen@, rank as int, (high, j), false);
            assert forall|b: usize| #[trigger]
                count_below(firsts_of(seen@).insert(rank as int, high), j + 1, b) == count_below(
                    highs_of(rows),
                    j + 1,
                    b,
                ) by {
                lemma_count_below_insert(firsts_of(seen@), rank as int, high, j + 1, b);
                assert(count_below(firsts_of(seen@), j as int, b) == count_below(
                    highs_of(rows),
                    j as int,
                    b,
                ));
            }
        }
        seen.insert_by_index(rank, (high, j));
        j += 1;
    }
    v
}

// ---------------------------------------------------------------------------
// Ordering cherries that carry no parents
// ---------------------------------------------------------------------------
/// The table that holds `true` for each of `len` nodes.
pub open spec fn all_true(len: nat) -> Seq<bool> {
    Seq::new(len, |c: int| true)
}

/// Looks through the rows from `j` on for the row that comes next: the one
/// with the largest third entry among those whose two children stand in no
/// row looked at before it. `fresh` marks the children not met so far,
/// `high` is the largest third entry found, at row `best`. A child that is
/// no leaf of the tree counts as met.
pub open spec fn select_from(rows: Seq<Row>, j: int, fresh: Seq<bool>, high: usize, best: int) -> int
    decreases rows.len() - j,
{
    if j < 0 || j >= rows.len() {
        best
    } else {
        let row = rows[j];
        let met = with_entry(with_entry(fresh, row.0, false), row.1, false);
        if row.2 > high && entry_or(fresh, row.0, false) && entry_or(fresh, row.1, false) {
            select_from(rows, j + 1, met, row.2, j)
        } else {
            select_from(rows, j + 1, met, high, best)
        }
    }
}

/// The row that comes to position `i`: chosen among the rows from `i` on,
/// and `i` itself where none can be chosen.
pub open spec fn chosen(rows: Seq<Row>, i: int) -> int {
    select_from(rows, i, all_true(rows.len() + 1), 0, i)
}

/// The rows with the row at `from` moved to `to`.
pub open spec fn moved(rows: Seq<Row>, from: int, to: int) -> Seq<Row> {
    rows.remove(from).insert(to, rows[from])
}

/// The rows after the first `i` positions have been given their rows.
pub open spec fn reordered_after(rows: Seq<Row>, i: nat) -> Seq<Row>
    decreases i,
{
    if i == 0 {
        rows
    } else {
        let prev = reordered_after(rows, (i - 1) as nat);
        moved(prev, chosen(prev, i - 1), i - 1)
    }
}

/// The two children of every row.
pub open spec fn children_of(rows: Seq<Row>) -> Seq<Pair> {
    Seq::new(rows.len(), |j: int| (rows[j].0, rows[j].1))
}

/// The ancestry matrix of cherries that carry no parents: the cherries in
/// the order in which the tree is put together, each with its parent and
/// with its two leaves replaced by what stands above them.
pub open spec fn ancestry_of_cherries(rows: Seq<Row>) -> Seq<Row> {
    ancestry_of_pairs(children_of(reordered_after(rows, rows.len())))
}

fn select_next(ancestry: &Ancestry, i: usize) -> (best: usize)
    requires
        i < ancestry.len(),
        ancestry.len() < usize::MAX,
    ensures
        best == chosen(rows_of(ancestry@), i as int),
        i <= best < ancestry.len(),
{
    let k = ancestry.len();
    let ghost rows = rows_of(ancestry@);
    let mut fresh: Vec<bool> = vec![true; k + 1];
    let mut high: usize = 0;
    let mut best: usize = i;
    let mut j: usize = i;
    proof {
        assert(fresh@ =~= all_true((k + 1) as nat));
    }
    while j < k
        invariant
            k == ancestry.len(),
            rows == rows_of(ancestry@),
            i <= j <= k,
            i <= best < k,
            fresh.len() == k + 1,
            select_from(rows, j as int, fresh@, high, best as int) == chosen(rows, i as int),
        decreases k - j,
    {
        let row = ancestry[j];
        proof {
            assert(rows[j as int] == (row[0], row[1], row[2]));
        }
        let c1 = row[0];
        let c2 = row[1];
        let free1 = c1 <= k && fresh[c1];
        let free2 = c2 <= k && fresh[c2];
        if row[2] > high && free1 && free2 {
            high = row[2];
            best = j;
        }
        if c1 <= k {
            fresh[c1] = false;
        }
        if c2 <= k {
            fresh[c2] = false;
        }
        j += 1;
    }
    best
}

/// The place that every row had at first, after the first `i` positions
/// have been given their rows.
pub open spec fn order_after(rows: Seq<Row>, i: nat) -> Seq<usize>
    decreases i,
{
    if i == 0 {
        identity_table(rows.len())
    } else {
        let prev = order_after(rows, (i - 1) as nat);
        let from = chosen(reordered_after(rows, (i - 1) as nat), i - 1);
        prev.remove(from).insert(i - 1, prev[from])
    }
}

/// For each cherry in the order in which the tree is put together, the
/// place that it had at first.
pub open spec fn cherry_order(rows: Seq<Row>) -> Seq<usize> {
    order_after(rows, rows.len())
}

/// Brings cherries that carry no parents into the order in which the tree
/// is put together, and tells the place that each of them had at first.
pub fn reorder_cherries(ancestry: &mut Ancestry) -> (order: Vec<usize>)
    requires
        old(ancestry).len() < usize::MAX,
    ensures
        rows_of(final(ancestry)@) == reordered_after(
            rows_of(old(ancestry)@),
            old(ancestry).len() as nat,
        ),
        order@ == cherry_order(rows_of(old(ancestry)@)),
        final(ancestry).len() == old(ancestry).len(),
        order.len() == old(ancestry).len(),
        forall|q: int| 0 <= q < order.len() ==> (#[trigger] order[q]) < order.len(),
{
    let k = ancestry.len();
    let ghost rows = rows_of(ancestry@);
    let mut order = new_identity_table(k);
    let mut i: usize = 0;
    while i < k
        invariant
            k == ancestry.len(),
            k == rows.len(),
            k == order.len(),
            k < usize::MAX,
            i <= k,
            rows_of(ancestry@) == reordered_after(rows, i as nat),
            order@ == order_after(rows, i as nat),
            forall|q: int| 0 <= q < k ==> (#[trigger] order[q]) < k,
        decreases k - i,
    {
        let best = select_next(ancestry, i);
        let ghost prev = ancestry@;
        let ghost prev_order = order@;
        let row = ancestry.remove(best);
        ancestry.insert(i, row);
        let place = order.remove(best);
        order.insert(i, place);
        proof {
            assert(rows_of(ancestry@) =~= moved(rows_of(prev), best as int, i as int));
            assert forall|q: int| 0 <= q < k implies (#[trigger] order[q]) < k by {
                if q < i {
                    assert(order[q] == prev_order[q]);
                } else if q == i {
                    assert(order[q] == prev_order[best as int]);
                } else if q <= best {
                    assert(order[q] == prev_order[q - 1]);
                } else {
                    assert(order[q] == prev_order[q]);
                }
            }
        }
        i += 1;
    }
    order
}

/// Makes an ancestry matrix of cherries that stand in the order in which
/// the tree is put together: row `j` gets the parent `len + 1 + j`, and its
/// two leaves are replaced by what stands above them.
pub fn assign_parents(ancestry: &mut Ancestry)
    requires
        2 * old(ancestry).len() + 1 <= usize::MAX,
    ensures
        rows_of(final(ancestry)@) == ancestry_of_pairs(children_of(rows_of(old(ancestry)@))),
        final(ancestry).len() == old(ancestry).len(),
        forall|j: int|
            0 <= j < final(ancestry).len() ==> (#[trigger] rows_of(final(ancestry)@)[j]).2
                == old(ancestry).len() + 1 + j,
        leaves_in_range(children_of(rows_of(old(ancestry)@))) ==> children_come_first(
            rows_of(final(ancestry)@),
        ),
{
    let k = ancestry.len();
    let mut pairs: Pairs = Vec::with_capacity(k);
    let mut j: usize = 0;
    while j < k
        invariant
            k == ancestry.len(),
            j <= k,
            pairs.len() == j,
            pairs@ == children_of(rows_of(ancestry@)).take(j as int),
        decreases k - j,
    {
        let row = ancestry[j];
        proof {
            assert(pairs@.push((row[0], row[1])) =~= children_of(rows_of(ancestry@)).take(j + 1));
        }
        pairs.push((row[0], row[1]));
        j += 1;
    }
    proof {
        assert(pairs@ =~= children_of(rows_of(ancestry@)));
    }
    *ancestry = ancestry_from_pairs(&pairs);
}

/// Brings cherries that carry no parents into the order in which the tree
/// is put together, and makes an ancestry matrix of them: row `j` gets the
/// parent `len + 1 + j`, and its two leaves are replaced by what stands
/// above them.
pub fn order_cherries_no_parents(ancestry: &mut Ancestry)
    requires
        2 * old(ancestry).len() + 1 <= usize::MAX,
    ensures
        rows_of(final(ancestry)@) == ancestry_of_cherries(rows_of(old(ancestry)@)),
        final(ancestry).len() == old(ancestry).len(),
        forall|j: int|
            0 <= j < final(ancestry).len() ==> (#[trigger] rows_of(final(ancestry)@)[j]).2
                == old(ancestry).len() + 1 + j,
{
    let _order = reorder_cherries(ancestry);
    assign_parents(ancestry);
}

// ---------------------------------------------------------------------------
// Finding a node
// ---------------------------------------------------------------------------
/// The column of a row in which `node` stands first, if it stands in it.
pub open spec fn column_of(row: Row, node: usize) -> Option<usize> {
    if row.0 == node {
        Some(0usize)
    } else if row.1 == node {
        Some(1usize)
    } else if row.2 == node {
        Some(2usize)
    } else {
        None
    }
}

/// The first place, row by row, at which `node` stands from row `r` on.
pub open spec fn first_place_from(rows: Seq<Row>, node: usize, r: int) -> Option<(usize, usize)>
    decreases rows.len() - r,
{
    if r < 0 || r >= rows.len() {
        None
    } else {
        match column_of(rows[r], node) {
            Some(c) => Some((r as usize, c)),
            None => first_place_from(rows, node, r + 1),
        }
    }
}

/// The row and the column of the first place, row by row, at which `leaf`
/// stands in the matrix; `None` where it stands nowhere.
pub fn find_coords_of_first_leaf(ancestry: &Ancestry, leaf: usize) -> (place: Option<
    (usize, usize),
>)
    ensures
        place == first_place_from(rows_of(ancestry@), leaf, 0),
        match place {
            Some((r, c)) => r < ancestry.len() && c < 3 && ancestry[r as int][c as int] == leaf,
            None => true,
        },
{
    let ghost rows = rows_of(ancestry@);
    let mut r: usize = 0;
    while r < ancestry.len()
        invariant
            rows == rows_of(ancestry@),
            r <= ancestry.len(),
            first_place_from(rows, leaf, r as int) == first_place_from(rows, leaf, 0),
        decreases ancestry.len() - r,
    {
        let row = ancestry[r];
        proof {
            assert(rows[r as int] == (row[0], row[1], row[2]));
        }
        if row[0] == leaf {
            return Some((r, 0));
        } else if row[1] == leaf {
            return Some((r, 1));
        } else if row[2] == leaf {
            return Some((r, 2));
        }
        r += 1;
    }
    None
}

// ---------------------------------------------------------------------------
// Cherries of an ancestry matrix
// ---------------------------------------------------------------------------
/// The cherry of row `j`: the least leaf below each of its two children, and
/// the larger of the two.
pub open spec fn cherry_of_row(rows: Seq<Row>, j: int) -> Row {
    let least = least_after(rows, j as nat);
    let d1 = entry_or(least, rows[j].0, rows[j].0);
    let d2 = entry_or(least, rows[j].1, rows[j].1);
    (d1, d2, max_usize(d1, d2))
}

/// The cherries of an ancestry matrix, row by row.
pub open spec fn cherries_of(rows: Seq<Row>) -> Seq<Row> {
    Seq::new(rows.len(), |j: int| cherry_of_row(rows, j))
}

/// Replaces the two children of every row by the least leaves below them,
/// and its parent by the larger of the two.
pub fn to_cherries(ancestry: &Ancestry) -> (found: Ancestry)
    requires
        2 * ancestry.len() + 2 <= usize::MAX,
    ensures
        rows_of(found@) == cherries_of(rows_of(ancestry@)),
        found.len() == ancestry.len(),
{
    let k = ancestry.len();
    let ghost rows = rows_of(ancestry@);
    let mut found: Ancestry = Vec::with_capacity(k);
    let mut least = new_identity_table(2 * k + 2);
    let mut j: usize = 0;
    proof {
        assert(rows_of(found@) =~= cherries_of(rows).take(0));
    }
    while j < k
        invariant
            k == ancestry.len(),
            rows == rows_of(ancestry@),
            j <= k,
            found.len() == j,
            least@ == least_after(rows, j as nat),
            rows_of(found@) == cherries_of(rows).take(j as int),
        decreases k - j,
    {
        let row = ancestry[j];
        proof {
            assert(rows[j as int] == (row[0], row[1], row[2]));
        }
        let d1 = get_or(&least, row[0]);
        let d2 = get_or(&least, row[1]);
        let (low, high) = if d1 <= d2 {
            (d1, d2)
        } else {
            (d2, d1)
        };
        set_entry(&mut least, row[2], low);
        proof {
            lemma_rows_of_push(found@, [d1, d2, high]);
            assert(cherries_of(rows).take(j as int).push((d1, d2, high)) =~= cherries_of(
                rows,
            ).take(j + 1));
        }
        found.push([d1, d2, high]);
        j += 1;
    }
    proof {
        assert(cherries_of(rows).take(k as int) =~= cherries_of(rows));
    }
    found
}

// ---------------------------------------------------------------------------
// Vectors and text
// ---------------------------------------------------------------------------
/// The two leaves of every pair are leaves of a tree of `m + 1` leaves, the
/// first below the second.
pub open spec fn pairs_in_range(pairs: Seq<Pair>, m: nat) -> bool {
    forall|j: int| 0 <= j < pairs.len() ==> (#[trigger] pairs[j]).0 < pairs[j].1 <= m
}

pub proof fn lemma_pairs_in_range(v: Seq<usize>, m: nat)
    requires
        m <= v.len(),
        v.len() <= usize::MAX,
        valid_vector(v),
    ensures
        pairs_in_range(pairs_of(v, m), m),
        pairs_of(v, m).len() == m,
    decreases m,
{
    lemma_pairs_len(v, m);
    if m > 1 {
        lemma_pairs_in_range(v, (m - 1) as nat);
        let prev = pairs_of(v, (m - 1) as nat);
        let i = m - 1;
        assert(v[i] <= 2 * i);
        let now = pairs_of(v, m);
        if v[i] <= i {
            assert forall|j: int| 0 <= j < now.len() implies (#[trigger] now[j]).0 < now[j].1
                <= m by {
                if j > 0 {
                    assert(now[j] == prev[j - 1]);
                    assert(prev[j - 1].0 < prev[j - 1].1 <= m - 1);
                } else {
                    assert(now[j] == (v[i], m as usize));
                }
            }
        } else {
            let index = v[i] - m;
            assert(prev[index].0 < prev[index].1 <= m - 1);
            assert forall|j: int| 0 <= j < now.len() implies (#[trigger] now[j]).0 < now[j].1
                <= m by {
                if j < index + 1 {
                    assert(now[j] == prev[j]);
                    assert(prev[j].0 < prev[j].1 <= m - 1);
                } else if j > index + 1 {
                    assert(now[j] == prev[j - 1]);
                    assert(prev[j - 1].0 < prev[j - 1].1 <= m - 1);
                } else {
                    assert(now[j] == (prev[index].0, m as usize));
                }
            }
        }
    }
}

/// What stands above any node after `j` pairs is the node itself or one of
/// the first `j` parents.
pub proof fn lemma_tops_values(pairs: Seq<Pair>, j: nat)
    requires
        j <= pairs.len(),
        2 * pairs.len() + 1 <= usize::MAX,
    ensures
        tops_after(pairs, j).len() == 2 * pairs.len() + 1,
        forall|c: int|
            0 <= c < 2 * pairs.len() + 1 ==> {
                let t = #[trigger] tops_after(pairs, j)[c];
                t == c || pairs.len() + 1 <= t <= pairs.len() + j
            },
    decreases j,
{
    if j > 0 {
        lemma_tops_values(pairs, (j - 1) as nat);
        let prev = tops_after(pairs, (j - 1) as nat);
        let parent = (pairs.len() + j) as usize;
        let mid = with_entry(prev, pairs[j - 1].0, parent);
        let now = with_entry(mid, pairs[j - 1].1, parent);
        assert(now == tops_after(pairs, j));
        assert forall|c: int| 0 <= c < 2 * pairs.len() + 1 implies {
            let t = #[trigger] now[c];
            t == c || pairs.len() + 1 <= t <= pairs.len() + j
        } by {
            assert(prev[c] == c || pairs.len() + 1 <= prev[c] <= pairs.len() + j - 1);
            assert(now[c] == prev[c] || now[c] == parent);
        }
    }
}

/// In the ancestry matrix of a vector every child stands before its parent,
/// and row `j` holds the parent `len + 1 + j`.
pub proof fn lemma_ancestry_shape(v: Seq<usize>)
    requires
        valid_vector(v),
        2 * v.len() + 1 <= usize::MAX,
    ensures
        ancestry_of(v).len() == v.len(),
        children_come_first(ancestry_of(v)),
        forall|j: int| 0 <= j < v.len() ==> (#[trigger] ancestry_of(v)[j]).2 == v.len() + 1 + j,
{
    let pairs = pairs_of(v, v.len());
    lemma_pairs_in_range(v, v.len());
    assert(leaves_in_range(pairs)) by {
        assert forall|j: int| 0 <= j < pairs.len() implies (#[trigger] pairs[j]).0 <= pairs.len()
            && pairs[j].1 <= pairs.len() by {
            assert(pairs[j].0 < pairs[j].1 <= v.len());
        }
    }
    lemma_ancestry_of_pairs_shape(pairs);
}

/// The Newick text of an encoding vector, with parent labels.
pub fn to_newick(v: &Vec<usize>) -> (newick: String)
    requires
        v.len() >= 1,
        valid_vector(v@),
        2 * v.len() + 2 <= usize::MAX,
    ensures
        newick@ == newick_text(ancestry_of(v@)),
        vector_of_text(newick@) == Ok::<Seq<usize>, NewickFault>(v@),
        vector_of_text(strip_parent_labels(newick@)) == Ok::<Seq<usize>, NewickFault>(v@),
{
    let ancestry = get_ancestry(v);
    proof {
        lemma_ancestry_shape(v@);
        lemma_to_vector_inverts_to_newick(v@);
        lemma_to_vector_reads_plain_text(v@);
    }
    build_newick(&ancestry)
}

/// The vector that a Newick text gives. A text with parent labels has its
/// cherries ordered by their parents; one without has them ordered as the
/// tree is put together.
pub open spec fn vector_of_text(s: Seq<char>) -> Result<Seq<usize>, NewickFault> {
    if has_parent_labels(s) {
        match cherries(s) {
            Ok(rows) => Ok(vector_of(sorted_by_parent(rows))),
            Err(e) => Err(e),
        }
    } else {
        match cherries_no_parents(s) {
            Ok(rows) => Ok(vector_of(ancestry_of_cherries(rows))),
            Err(e) => Err(e),
        }
    }
}

/// The encoding vector of a Newick text, with or without parent labels.
pub fn to_vector(newick: &str) -> (r: Result<Vec<usize>, NewickError>)
    requires
        2 * newick@.len() + 2 <= usize::MAX,
    ensures
        match r {
            Ok(v) => vector_of_text(newick@) == Ok::<Seq<usize>, NewickFault>(v@),
            Err(e) => vector_of_text(newick@) == Err::<Seq<usize>, NewickFault>(e@),
        },
{
    if has_parents(newick) {
        match get_cherries(newick) {
            Ok(mut ancestry) => {
                order_cherries(&mut ancestry);
                Ok(build_vector(&ancestry))
            },
            Err(e) => Err(e),
        }
    } else {
        match get_cherries_no_parents(newick) {
            Ok(mut ancestry) => {
                order_cherries_no_parents(&mut ancestry);
                Ok(build_vector(&ancestry))
            },
            Err(e) => Err(e),
        }
    }
}

} // verus!
