//! Trees as encoding vectors: the operations on them, and adding and
//! removing a leaf.

pub mod ops;
pub mod types;

use crate::tree_vec::ops::newick::children_come_first;
use crate::tree_vec::ops::tree_shape::lemma_leaf_can_be_removed;
use crate::tree_vec::ops::vector::{
    ancestry_of, ancestry_of_cherries, build_vector, cherries_of, find_coords_of_first_leaf,
    first_place_from, get_ancestry, lemma_ancestry_shape, order_cherries,
    order_cherries_no_parents, sorted_by_parent, to_cherries, vector_of,
};
use crate::tree_vec::types::{lemma_rows_of_push, rows_of, Ancestry, Row};
use crate::utils::valid_vector;
use vstd::prelude::*;

verus! {

/// A node of the tree as it is called once the leaf `leaf` has been brought
/// in: the nodes from `leaf` on move up by one.
pub open spec fn node_after_adding(x: usize, leaf: usize) -> usize {
    if x >= leaf {
        (x + 1) as usize
    } else {
        x
    }
}

/// The matrix with the node at `place` called `leaf` and every other node
/// renamed to make room for it.
pub open spec fn with_leaf_added(rows: Seq<Row>, place: Option<(usize, usize)>, leaf: usize) -> Seq<
    Row,
> {
    Seq::new(
        rows.len(),
        |r: int|
            (
                if place == Some((r as usize, 0usize)) {
                    leaf
                } else {
                    node_after_adding(rows[r].0, leaf)
                },
                if place == Some((r as usize, 1usize)) {
                    leaf
                } else {
                    node_after_adding(rows[r].1, leaf)
                },
                if place == Some((r as usize, 2usize)) {
                    leaf
                } else {
                    node_after_adding(rows[r].2, leaf)
                },
            ),
    )
}

/// The vector of the tree of `v` in which the leaf that the last entry of
/// `v` brought in is called `leaf`, and the leaves from `leaf` on are moved
/// up by one.
pub open spec fn vector_with_leaf(v: Seq<usize>, leaf: usize) -> Seq<usize> {
    let rows = ancestry_of(v);
    let place = first_place_from(rows, v.len() as usize, 0);
    vector_of(
        ancestry_of_cherries(cherries_of(sorted_by_parent(with_leaf_added(rows, place, leaf)))),
    )
}

fn is_place(place: &Option<(usize, usize)>, r: usize, c: usize) -> (b: bool)
    ensures
        b == (*place == Some((r, c))),
{
    match place {
        Some((pr, pc)) => *pr == r && *pc == c,
        None => false,
    }
}

/// Adds a leaf to the tree of `v`: `branch` is appended to `v` as the entry
/// that brings the new leaf in, and the vector returned is that of the same
/// tree with the new leaf called `leaf` and the leaves from `leaf` on moved
/// up by one.
pub fn add_leaf(v: &mut Vec<usize>, leaf: usize, branch: usize) -> (added: Vec<usize>)
    requires
        valid_vector(old(v)@.push(branch)),
        2 * old(v).len() + 4 <= usize::MAX,
    ensures
        final(v)@ == old(v)@.push(branch),
        added@ == vector_with_leaf(final(v)@, leaf),
        added.len() == old(v).len() + 1,
{
    v.push(branch);
    let ancestry = get_ancestry(v);
    let place = find_coords_of_first_leaf(&ancestry, v.len());
    let ghost rows = rows_of(ancestry@);
    let k = ancestry.len();
    let mut renamed: Ancestry = Vec::with_capacity(k);
    let mut r: usize = 0;
    proof {
        lemma_ancestry_shape(v@);
        assert(rows_of(renamed@) =~= with_leaf_added(rows, place, leaf).take(0));
    }
    while r < k
        invariant
            k == ancestry.len(),
            k == v.len(),
            2 * k + 2 <= usize::MAX,
            rows == rows_of(ancestry@),
            rows == ancestry_of(v@),
            children_come_first(rows),
            forall|j: int| 0 <= j < k ==> (#[trigger] rows[j]).2 == k + 1 + j,
            r <= k,
            renamed.len() == r,
            rows_of(renamed@) == with_leaf_added(rows, place, leaf).take(r as int),
        decreases k - r,
    {
        let row = ancestry[r];
        proof {
            assert(rows[r as int] == (row[0], row[1], row[2]));
        }
        let c0 = if is_place(&place, r, 0) {
            leaf
        } else if row[0] >= leaf {
            row[0] + 1
        } else {
            row[0]
        };
        let c1 = if is_place(&place, r, 1) {
            leaf
        } else if row[1] >= leaf {
            row[1] + 1
        } else {
            row[1]
        };
        let c2 = if is_place(&place, r, 2) {
            leaf
        } else if row[2] >= leaf {
            row[2] + 1
        } else {
            row[2]
        };
        proof {
            lemma_rows_of_push(renamed@, [c0, c1, c2]);
            assert(with_leaf_added(rows, place, leaf).take(r as int).push((c0, c1, c2))
                =~= with_leaf_added(rows, place, leaf).take(r + 1));
        }
        renamed.push([c0, c1, c2]);
        r += 1;
    }
    proof {
        assert(with_leaf_added(rows, place, leaf).take(k as int) =~= with_leaf_added(
            rows,
            place,
            leaf,
        ));
    }
    order_cherries(&mut renamed);
    let mut found = to_cherries(&renamed);
    order_cherries_no_parents(&mut found);
    build_vector(&found)
}

/// A node of the tree as it is called once the leaf `leaf` and its parent
/// `parent` are gone: the parent gives way to `sister`, and every node moves
/// down by one for each of the two that stood before it.
pub open spec fn node_after_removing(x: usize, leaf: usize, parent: usize, sister: usize) -> usize {
    let y = if x == parent {
        sister
    } else {
        x
    };
    if y > leaf {
        if y - 1 >= parent && y >= 2 {
            (y - 2) as usize
        } else {
            (y - 1) as usize
        }
    } else {
        y
    }
}

/// The matrix without row `gone`, its nodes renamed.
pub open spec fn with_leaf_removed(
    rows: Seq<Row>,
    gone: int,
    leaf: usize,
    parent: usize,
    sister: usize,
) -> Seq<Row> {
    Seq::new(
        (rows.len() - 1) as nat,
        |r: int|
            {
                let row = if r < gone {
                    rows[r]
                } else {
                    rows[r + 1]
                };
                (
                    node_after_removing(row.0, leaf, parent, sister),
                    node_after_removing(row.1, leaf, parent, sister),
                    node_after_removing(row.2, leaf, parent, sister),
                )
            },
    )
}

/// The sister of `leaf` in the tree of `v`, and the vector of the tree
/// without `leaf`; `None` where `leaf` is no child in the tree.
pub open spec fn vector_without_leaf(v: Seq<usize>, leaf: usize) -> Option<(Seq<usize>, usize)> {
    let rows = ancestry_of(v);
    match first_place_from(rows, leaf, 0) {
        Some((r, c)) => if c < 2 {
            let parent = rows[r as int].2;
            let sister = if c == 0 {
                rows[r as int].1
            } else {
                rows[r as int].0
            };
            Some(
                (
                    vector_of(
                        ancestry_of_cherries(
                            cherries_of(
                                sorted_by_parent(
                                    with_leaf_removed(rows, r as int, leaf, parent, sister),
                                ),
                            ),
                        ),
                    ),
                    sister,
                ),
            )
        } else {
            None
        },
        None => None,
    }
}

fn rename_removed(x: usize, leaf: usize, parent: usize, sister: usize) -> (y: usize)
    ensures
        y == node_after_removing(x, leaf, parent, sister),
{
    let mut node = if x == parent {
        sister
    } else {
        x
    };
    if node > leaf {
        node -= 1;
        if node >= parent && node >= 1 {
            node -= 1;
        }
    }
    node
}

/// The matrix without row `gone`, its nodes renamed.
fn rows_without_leaf(
    ancestry: &Ancestry,
    gone: usize,
    leaf: usize,
    parent: usize,
    sister: usize,
) -> (kept: Ancestry)
    requires
        gone < ancestry.len(),
    ensures
        rows_of(kept@) == with_leaf_removed(rows_of(ancestry@), gone as int, leaf, parent, sister),
        kept.len() + 1 == ancestry.len(),
{
    let num_cherries = ancestry.len();
    let ghost rows = rows_of(ancestry@);
    let mut kept: Ancestry = Vec::with_capacity(num_cherries - 1);
    let ghost goal = with_leaf_removed(rows, gone as int, leaf, parent, sister);
    let mut r: usize = 0;
    proof {
        assert(rows_of(kept@) =~= goal.take(0));
    }
    while r < num_cherries - 1
        invariant
            num_cherries == ancestry.len(),
            gone < num_cherries,
            rows == rows_of(ancestry@),
            goal == with_leaf_removed(rows, gone as int, leaf, parent, sister),
            r <= num_cherries - 1,
            kept.len() == r,
            rows_of(kept@) == goal.take(r as int),
        decreases num_cherries - 1 - r,
    {
        let row = if r < gone {
            ancestry[r]
        } else {
            ancestry[r + 1]
        };
        let c0 = rename_removed(row[0], leaf, parent, sister);
        let c1 = rename_removed(row[1], leaf, parent, sister);
        let c2 = rename_removed(row[2], leaf, parent, sister);
        proof {
            lemma_rows_of_push(kept@, [c0, c1, c2]);
            assert(goal.take(r as int).push((c0, c1, c2)) =~= goal.take(r + 1));
        }
        kept.push([c0, c1, c2]);
        r += 1;
    }
    proof {
        assert(goal.take(num_cherries - 1) =~= goal);
    }
    kept
}

/// Removes the leaf `leaf` from the tree of `v`: its sister takes the place
/// of their parent, and the nodes behind the two that are gone move down.
/// Returns the vector of the smaller tree and the sister, as it was called
/// before; `None` where the tree has no leaf `leaf`.
pub fn remove_leaf(v: &Vec<usize>, leaf: usize) -> (removed: Option<(Vec<usize>, usize)>)
    requires
        valid_vector(v@),
        2 * v.len() + 2 <= usize::MAX,
    ensures
        match removed {
            Some((w, sister)) => vector_without_leaf(v@, leaf) == Some((w@, sister)) && w.len() + 1
                == v.len(),
            None => vector_without_leaf(v@, leaf) is None,
        },
        removed is Some <==> v.len() >= 1 && leaf <= v.len(),
{
    proof {
        lemma_leaf_can_be_removed(v@, leaf);
    }
    let ancestry = get_ancestry(v);
    let ghost rows = rows_of(ancestry@);
    let (leaf_row, leaf_col) = match find_coords_of_first_leaf(&ancestry, leaf) {
        Some(place) => place,
        None => {
            return None;
        },
    };
    if leaf_col >= 2 {
        return None;
    }
    let parent = ancestry[leaf_row][2];
    let sister = ancestry[leaf_row][1 - leaf_col];
    proof {
        assert(rows[leaf_row as int] == (
            ancestry[leaf_row as int][0],
            ancestry[leaf_row as int][1],
            ancestry[leaf_row as int][2],
        ));
    }
    let mut kept = rows_without_leaf(&ancestry, leaf_row, leaf, parent, sister);
    order_cherries(&mut kept);
    let mut found = to_cherries(&kept);
    order_cherries_no_parents(&mut found);
    Some((build_vector(&found), sister))
}

} // verus!
