//! Why the ancestry matrix of a vector gives the vector back.

use crate::tree_vec::ops::counting::{
    count_below, lemma_count_below_all, lemma_count_below_insert, lemma_insert_places,
};
use crate::tree_vec::ops::newick::min_usize;
use crate::tree_vec::ops::vector::{
    ancestry_of, ancestry_of_pairs, entry_of_row, highs_of, least_after, lemma_tops_values,
    pairs_in_range, pairs_of, row_of_pair, sides_of, tops_after, vector_after, vector_of,
    with_entry,
};
use crate::tree_vec::types::Pair;
use crate::utils::valid_vector;
use vstd::prelude::*;

verus! {

// ---------------------------------------------------------------------------
// What holds of the pairs of a vector
// ---------------------------------------------------------------------------
/// The second leaf of every pair.
pub open spec fn seconds_of(pairs: Seq<Pair>) -> Seq<usize> {
    Seq::new(pairs.len(), |j: int| pairs[j].1)
}

/// The entry of the vector that pair `j` stands for, read off its place
/// among the pairs: its first leaf where no pair before it has a smaller
/// second leaf, and else its second leaf less one plus the number of such
/// pairs.
pub open spec fn decoded(pairs: Seq<Pair>, j: int) -> usize {
    let rank = count_below(seconds_of(pairs), j, pairs[j].1);
    if rank == 0 {
        pairs[j].0
    } else {
        (pairs[j].1 - 1 + rank) as usize
    }
}

/// No two pairs have the same second leaf.
pub open spec fn distinct_seconds(pairs: Seq<Pair>) -> bool {
    forall|j1: int, j2: int|
        #![trigger pairs[j1], pairs[j2]]
        0 <= j1 < j2 < pairs.len() ==> pairs[j1].1 != pairs[j2].1
}

/// Some pair has `b` as its second leaf.
pub open spec fn is_second(pairs: Seq<Pair>, b: int) -> bool {
    exists|j: int| 0 <= j < pairs.len() && (#[trigger] pairs[j]).1 == b
}

/// Every leaf from 1 to `m` is the second leaf of some pair.
pub open spec fn every_leaf_joins(pairs: Seq<Pair>, m: nat) -> bool {
    forall|b: int| 1 <= b <= m ==> #[trigger] is_second(pairs, b)
}

/// A pair that a leaf leads stands before the pair that brings this leaf in.
pub open spec fn firsts_come_first(pairs: Seq<Pair>) -> bool {
    forall|j1: int, j2: int|
        #![trigger pairs[j1], pairs[j2]]
        0 <= j1 < pairs.len() && 0 <= j2 < pairs.len() && pairs[j1].0 == pairs[j2].1 ==> j1 < j2
}

/// Every pair stands for the entry of `v` that brought its second leaf in.
pub open spec fn decodes_to(pairs: Seq<Pair>, v: Seq<usize>) -> bool {
    forall|j: int| 0 <= j < pairs.len() ==> decoded(pairs, j) == v[(#[trigger] pairs[j]).1 - 1]
}

/// All that the proof needs of the pairs of the first `m` entries of `v`.
pub open spec fn pairs_ok(pairs: Seq<Pair>, v: Seq<usize>, m: nat) -> bool {
    &&& pairs.len() == m
    &&& pairs_in_range(pairs, m)
    &&& distinct_seconds(pairs)
    &&& every_leaf_joins(pairs, m)
    &&& firsts_come_first(pairs)
    &&& decodes_to(pairs, v)
}

/// Bringing in the leaf `m` keeps all that holds of the pairs, and the new
/// pair stands for its first leaf at the front and for `m - 1 + q` at any
/// later place `q`.
proof fn lemma_pair_joins(pairs: Seq<Pair>, q: int, a: usize, m: nat, v: Seq<usize>)
    requires
        m >= 1,
        m <= usize::MAX,
        m <= v.len(),
        pairs_ok(pairs, v, (m - 1) as nat),
        0 <= q <= pairs.len(),
        a < m,
        q > 0 ==> a == pairs[q - 1].0,
        v[m - 1] == if q == 0 {
            a as int
        } else {
            m - 1 + q
        },
    ensures
        pairs_ok(pairs.insert(q, (a, m as usize)), v, m),
{
    let b = m as usize;
    let now = pairs.insert(q, (a, b));
    lemma_insert_places(pairs, q, (a, b));
    let old_of = |j: int|
        if j < q {
            j
        } else {
            j - 1
        };
    assert forall|j: int| 0 <= j < now.len() && j != q implies #[trigger] now[j] == pairs[old_of(j)]
        && 0 <= old_of(j) < pairs.len() by {}
    // range
    assert forall|j: int| 0 <= j < now.len() implies (#[trigger] now[j]).0 < now[j].1 <= m by {
        if j != q {
            assert(now[j] == pairs[old_of(j)]);
            assert(pairs[old_of(j)].0 < pairs[old_of(j)].1 <= m - 1);
        }
    }
    // distinct seconds
    assert forall|j1: int, j2: int|
        #![trigger now[j1], now[j2]]
        0 <= j1 < j2 < now.len() implies now[j1].1 != now[j2].1 by {
        if j1 != q {
            assert(now[j1] == pairs[old_of(j1)]);
            assert(pairs[old_of(j1)].0 < pairs[old_of(j1)].1 <= m - 1);
        }
        if j2 != q {
            assert(now[j2] == pairs[old_of(j2)]);
            assert(pairs[old_of(j2)].0 < pairs[old_of(j2)].1 <= m - 1);
        }
        if j1 != q && j2 != q {
            assert(old_of(j1) < old_of(j2));
        }
    }
    // every leaf joins
    assert forall|leaf: int| 1 <= leaf <= m implies #[trigger] is_second(now, leaf) by {
        if leaf == m {
            assert(now[q].1 == leaf);
        } else {
            assert(is_second(pairs, leaf));
            let j0 = choose|j: int| 0 <= j < pairs.len() && (#[trigger] pairs[j]).1 == leaf;
            let j = if j0 < q {
                j0
            } else {
                j0 + 1
            };
            assert(now[j] == pairs[j0]);
            assert(now[j].1 == leaf);
        }
    }
    // firsts come first
    assert forall|j1: int, j2: int|
        #![trigger now[j1], now[j2]]
        0 <= j1 < now.len() && 0 <= j2 < now.len() && now[j1].0 == now[j2].1 implies j1
        < j2 by {
        assert(now[j1].0 < now[j1].1 <= m);
        if j2 == q {
            assert(false);
        } else if j1 == q {
            assert(now[j2] == pairs[old_of(j2)]);
            if q > 0 {
                assert(pairs[q - 1].0 == pairs[old_of(j2)].1);
                assert(q - 1 < old_of(j2));
            }
        } else {
            assert(now[j1] == pairs[old_of(j1)]);
            assert(now[j2] == pairs[old_of(j2)]);
            assert(old_of(j1) < old_of(j2));
        }
    }
    // decoding
    assert(seconds_of(now) =~= seconds_of(pairs).insert(q, b));
    assert forall|j: int| 0 <= j < now.len() implies decoded(now, j) == v[(#[trigger] now[j]).1
        - 1] by {
        lemma_count_below_insert(seconds_of(pairs), q, b, j, now[j].1);
        if j == q {
            assert forall|x: int| 0 <= x < q implies #[trigger] seconds_of(pairs)[x] < b by {
                assert(pairs[x].0 < pairs[x].1 <= m - 1);
            }
            lemma_count_below_all(seconds_of(pairs), q, b);
        } else {
            assert(now[j] == pairs[old_of(j)]);
            assert(pairs[old_of(j)].0 < pairs[old_of(j)].1 <= m - 1);
            assert(decoded(pairs, old_of(j)) == v[pairs[old_of(j)].1 - 1]);
        }
    }
}

/// The pairs of the first `m` entries of a valid vector have all that the
/// proof needs.
pub proof fn lemma_pairs_ok(v: Seq<usize>, m: nat)
    requires
        valid_vector(v),
        m <= v.len(),
        v.len() <= usize::MAX,
    ensures
        pairs_ok(pairs_of(v, m), v, m),
    decreases m,
{
    let pairs = pairs_of(v, m);
    if m == 0 {
    } else if m == 1 {
        assert(v[0] <= 2 * 0);
        lemma_pair_joins(Seq::<Pair>::empty(), 0, 0, 1, v);
        assert(Seq::<Pair>::empty().insert(0, (0usize, 1usize)) =~= pairs);
    } else {
        lemma_pairs_ok(v, (m - 1) as nat);
        let prev = pairs_of(v, (m - 1) as nat);
        let i = m - 1;
        assert(v[i] <= 2 * i);
        if v[i] <= i {
            lemma_pair_joins(prev, 0, v[i], m, v);
        } else {
            let index = v[i] - m;
            assert(prev[index].0 < prev[index].1 <= m - 1);
            lemma_pair_joins(prev, index + 1, prev[index].0, m, v);
        }
    }
}

// ---------------------------------------------------------------------------
// Why a pair stands behind another
// ---------------------------------------------------------------------------
/// Some pair from `i` on and before `j` has the first leaf of pair `j`.
pub open spec fn has_leader_between(pairs: Seq<Pair>, i: int, j: int) -> bool {
    exists|u: int| i <= u < j && (#[trigger] pairs[u]).0 == pairs[j].0
}

/// Pair `j` may stand behind pair `i`: where its second leaf is the larger
/// one, a pair from `i` on and before `j` has its first leaf.
pub open spec fn may_follow(pairs: Seq<Pair>, i: int, j: int) -> bool {
    0 <= i < j < pairs.len() && pairs[i].1 < pairs[j].1 ==> has_leader_between(pairs, i, j)
}

/// A pair stands behind a pair with a smaller second leaf only where a
/// pair between the two, or the earlier one itself, has its first leaf.
pub open spec fn later_pairs_follow(pairs: Seq<Pair>) -> bool {
    forall|i: int, j: int| #[trigger] may_follow(pairs, i, j)
}

proof fn lemma_leader_between(pairs: Seq<Pair>, i: int, j: int, u: int)
    requires
        i <= u < j,
        pairs[u].0 == pairs[j].0,
    ensures
        has_leader_between(pairs, i, j),
{
}

proof fn lemma_pair_follows(pairs: Seq<Pair>, q: int, a: usize, m: nat)
    requires
        m >= 1,
        m <= usize::MAX,
        pairs.len() == m - 1,
        pairs_in_range(pairs, (m - 1) as nat),
        later_pairs_follow(pairs),
        0 <= q <= pairs.len(),
        q > 0 ==> a == pairs[q - 1].0,
    ensures
        later_pairs_follow(pairs.insert(q, (a, m as usize))),
{
    let b = m as usize;
    let now = pairs.insert(q, (a, b));
    lemma_insert_places(pairs, q, (a, b));
    assert forall|i: int, j: int| #[trigger] may_follow(now, i, j) by {
        if 0 <= i < j < now.len() && now[i].1 < now[j].1 {
            if j == q {
                assert(now[q - 1] == pairs[q - 1]);
                lemma_leader_between(now, i, j, q - 1);
            } else if i == q {
                let j0 = j - 1;
                assert(now[j] == pairs[j0]);
                assert(pairs[j0].0 < pairs[j0].1 <= m - 1);
            } else {
                let i0 = if i < q {
                    i
                } else {
                    i - 1
                };
                let j0 = if j < q {
                    j
                } else {
                    j - 1
                };
                assert(now[i] == pairs[i0]);
                assert(now[j] == pairs[j0]);
                assert(may_follow(pairs, i0, j0));
                let u0 = choose|u: int| i0 <= u < j0 && (#[trigger] pairs[u]).0 == pairs[j0].0;
                let u = if u0 < q {
                    u0
                } else {
                    u0 + 1
                };
                assert(now[u] == pairs[u0]);
                lemma_leader_between(now, i, j, u);
            }
        }
    }
}

/// The pairs of a valid vector stand behind each other as
/// `later_pairs_follow` says.
pub proof fn lemma_pairs_follow(v: Seq<usize>, m: nat)
    requires
        valid_vector(v),
        m <= v.len(),
        v.len() <= usize::MAX,
    ensures
        later_pairs_follow(pairs_of(v, m)),
    decreases m,
{
    if m == 0 {
    } else if m == 1 {
        lemma_pair_follows(Seq::<Pair>::empty(), 0, 0, 1);
        assert(Seq::<Pair>::empty().insert(0, (0usize, 1usize)) =~= pairs_of(v, m));
    } else {
        lemma_pairs_follow(v, (m - 1) as nat);
        lemma_pairs_ok(v, (m - 1) as nat);
        let prev = pairs_of(v, (m - 1) as nat);
        let i = m - 1;
        assert(v[i] <= 2 * i);
        if v[i] <= i {
            lemma_pair_follows(prev, 0, v[i], m);
        } else {
            let index = v[i] - m;
            lemma_pair_follows(prev, index + 1, prev[index].0, m);
        }
    }
}

// ---------------------------------------------------------------------------
// From the pairs to the matrix and back
// ---------------------------------------------------------------------------
/// The leaf that leads the group of `c` after the first `j` pairs were
/// joined: `c` itself while it is in no pair, and else the first leaf of its
/// last pair.
pub open spec fn leader_after(pairs: Seq<Pair>, j: nat, c: usize) -> usize
    decreases j,
{
    if j == 0 {
        c
    } else if pairs[j - 1].0 == c || pairs[j - 1].1 == c {
        pairs[j - 1].0
    } else {
        leader_after(pairs, (j - 1) as nat, c)
    }
}

/// A leaf that leads every pair it is in so far leads its group.
proof fn lemma_leader_fixed(pairs: Seq<Pair>, j: nat, c: usize)
    requires
        j <= pairs.len(),
        forall|q: int|
            0 <= q < j && ((#[trigger] pairs[q]).0 == c || pairs[q].1 == c) ==> pairs[q].0 == c,
    ensures
        leader_after(pairs, j, c) == c,
    decreases j,
{
    if j > 0 {
        lemma_leader_fixed(pairs, (j - 1) as nat, c);
        assert(pairs[j - 1].0 == c || pairs[j - 1].1 == c ==> pairs[j - 1].0 == c);
    }
}

/// Both leaves of a pair lead their groups when the pair is joined.
proof fn lemma_pair_leads(pairs: Seq<Pair>, j: int)
    requires
        0 <= j < pairs.len(),
        pairs_in_range(pairs, pairs.len()),
        distinct_seconds(pairs),
        firsts_come_first(pairs),
    ensures
        leader_after(pairs, j as nat, pairs[j].0) == pairs[j].0,
        leader_after(pairs, j as nat, pairs[j].1) == pairs[j].1,
{
    let a = pairs[j].0;
    let b = pairs[j].1;
    assert forall|q: int| 0 <= q < j && ((#[trigger] pairs[q]).0 == a || pairs[q].1 == a) implies
        pairs[q].0 == a by {
        if pairs[q].1 == a {
            assert(pairs[j].0 == pairs[q].1);
            assert(j < q);
        }
    }
    lemma_leader_fixed(pairs, j as nat, a);
    assert forall|q: int| 0 <= q < j && ((#[trigger] pairs[q]).0 == b || pairs[q].1 == b) implies
        pairs[q].0 == b by {
        if pairs[q].1 == b {
            assert(pairs[q].1 != pairs[j].1);
        }
    }
    lemma_leader_fixed(pairs, j as nat, b);
}

/// After `j` rows, the least leaf below what stands above a leaf is the
/// leaf that leads its group.
proof fn lemma_least_is_leader(pairs: Seq<Pair>, j: nat)
    requires
        2 * pairs.len() + 2 <= usize::MAX,
        pairs_in_range(pairs, pairs.len()),
        distinct_seconds(pairs),
        firsts_come_first(pairs),
        j <= pairs.len(),
    ensures
        tops_after(pairs, j).len() == 2 * pairs.len() + 1,
        least_after(ancestry_of_pairs(pairs), j).len() == 2 * pairs.len() + 2,
        forall|c: int|
            0 <= c <= pairs.len() ==> 0 <= #[trigger] tops_after(pairs, j)[c] <= 2 * pairs.len()
                && least_after(ancestry_of_pairs(pairs), j)[tops_after(pairs, j)[c] as int]
                == leader_after(pairs, j, c as usize),
    decreases j,
{
    let k = pairs.len();
    let rows = ancestry_of_pairs(pairs);
    lemma_tops_values(pairs, j);
    if j == 0 {
        assert(rows.len() == k);
    } else {
        lemma_least_is_leader(pairs, (j - 1) as nat);
        lemma_tops_values(pairs, (j - 1) as nat);
        lemma_pair_leads(pairs, j - 1);
        let tops0 = tops_after(pairs, (j - 1) as nat);
        let least0 = least_after(rows, (j - 1) as nat);
        let tops1 = tops_after(pairs, j);
        let least1 = least_after(rows, j);
        let a = pairs[j - 1].0;
        let b = pairs[j - 1].1;
        assert(a < b <= k);
        let parent = (k + j) as usize;
        let row = rows[j - 1];
        assert(row == row_of_pair(pairs, j - 1));
        assert(row.0 == tops0[a as int]);
        assert(row.1 == tops0[b as int]);
        assert(row.2 == parent);
        assert(least0[row.0 as int] == a);
        assert(least0[row.1 as int] == b);
        assert(least1 == with_entry(least0, parent, min_usize(a, b)));
        assert(least1 == least0.update(parent as int, a));
        assert(tops1 == with_entry(with_entry(tops0, a, parent), b, parent));
        assert forall|c: int| 0 <= c <= k implies 0 <= #[trigger] tops1[c] <= 2 * k
            && least1[tops1[c] as int] == leader_after(pairs, j, c as usize) by {
            if c == a || c == b {
                assert(tops1[c] == parent);
            } else {
                assert(tops1[c] == tops0[c]);
                assert(tops0[c] == c || k + 1 <= tops0[c] <= k + j - 1);
                assert(tops0[c] != parent);
            }
        }
    }
}

/// The two sides of row `j` of the matrix of the pairs are the two leaves
/// of pair `j`.
proof fn lemma_sides_are_the_pair(pairs: Seq<Pair>, j: int)
    requires
        2 * pairs.len() + 2 <= usize::MAX,
        pairs_in_range(pairs, pairs.len()),
        distinct_seconds(pairs),
        firsts_come_first(pairs),
        0 <= j < pairs.len(),
    ensures
        sides_of(ancestry_of_pairs(pairs), j) == pairs[j],
{
    let k = pairs.len();
    let rows = ancestry_of_pairs(pairs);
    lemma_least_is_leader(pairs, j as nat);
    lemma_pair_leads(pairs, j);
    let tops = tops_after(pairs, j as nat);
    let least = least_after(rows, j as nat);
    let a = pairs[j].0;
    let b = pairs[j].1;
    assert(a < b <= k);
    assert(rows[j] == row_of_pair(pairs, j));
    assert(rows[j].0 == tops[a as int]);
    assert(rows[j].1 == tops[b as int]);
    assert(least[tops[a as int] as int] == a);
    assert(least[tops[b as int] as int] == b);
}

/// After `j` rows the vector holds the entry of `v` for the second leaf of
/// each of the first `j` pairs.
proof fn lemma_vector_fills(pairs: Seq<Pair>, v: Seq<usize>, j: nat)
    requires
        2 * pairs.len() + 2 <= usize::MAX,
        pairs_ok(pairs, v, pairs.len()),
        v.len() == pairs.len(),
        j <= pairs.len(),
    ensures
        vector_after(ancestry_of_pairs(pairs), j).len() == pairs.len(),
        forall|q: int|
            0 <= q < j ==> vector_after(ancestry_of_pairs(pairs), j)[(#[trigger] pairs[q]).1 - 1]
                == v[pairs[q].1 - 1],
    decreases j,
{
    let rows = ancestry_of_pairs(pairs);
    if j > 0 {
        lemma_vector_fills(pairs, v, (j - 1) as nat);
        lemma_sides_are_the_pair(pairs, j - 1);
        let prev = vector_after(rows, (j - 1) as nat);
        let now = vector_after(rows, j);
        let high = pairs[j - 1].1;
        assert(pairs[j - 1].0 < high <= pairs.len());
        assert(highs_of(rows) =~= seconds_of(pairs)) by {
            assert forall|q: int| 0 <= q < pairs.len() implies highs_of(rows)[q] == seconds_of(
                pairs,
            )[q] by {
                lemma_sides_are_the_pair(pairs, q);
            }
        }
        assert(entry_of_row(rows, j - 1) == decoded(pairs, j - 1));
        assert(decoded(pairs, j - 1) == v[pairs[j - 1].1 - 1]);
        assert(now == prev.update(high - 1, v[high - 1]));
        assert forall|q: int| 0 <= q < j implies now[(#[trigger] pairs[q]).1 - 1] == v[pairs[q].1
            - 1] by {
            assert(pairs[q].0 < pairs[q].1 <= pairs.len());
        }
    }
}

/// The vector of the ancestry matrix of a valid vector is that vector:
/// `build_vector` undoes `get_ancestry`.
pub proof fn lemma_build_vector_inverts_get_ancestry(v: Seq<usize>)
    requires
        valid_vector(v),
        2 * v.len() + 2 <= usize::MAX,
    ensures
        vector_of(ancestry_of(v)) == v,
{
    let pairs = pairs_of(v, v.len());
    lemma_pairs_ok(v, v.len());
    lemma_vector_fills(pairs, v, v.len());
    let rows = ancestry_of(v);
    let w = vector_of(rows);
    assert(w.len() == v.len());
    assert forall|i: int| 0 <= i < v.len() implies w[i] == v[i] by {
        assert(is_second(pairs, i + 1));
        let j = choose|j: int| 0 <= j < pairs.len() && (#[trigger] pairs[j]).1 == i + 1;
        assert(w[pairs[j].1 - 1] == v[pairs[j].1 - 1]);
    }
    assert(w =~= v);
}

} // verus!
