//! The matrix of a Newick text with branch lengths: the encoding vector
//! beside the branch lengths of each cherry.

use crate::tree_vec::ops::newick::branch_lengths::{
    cherries_no_parents_with_bls, cherries_with_bls, get_cherries_no_parents_with_bls,
    get_cherries_with_bls, lengths_of, Span,
};
use crate::tree_vec::ops::newick::{has_parent_labels, has_parents, NewickError, NewickFault};
use crate::tree_vec::ops::vector::{
    ancestry_of_cherries, assign_parents, build_vector, cherry_order, _get_sorted_indices,
    order_cherries, reorder_cherries, sorted_by_parent, sorted_indices, vector_of,
};
use vstd::prelude::*;

verus! {

/// A row of the matrix: an entry of the encoding vector, and the places in
/// the text of the branch lengths of the two children of a cherry.
#[derive(Debug, Clone, Copy, PartialEq, Eq, Structural)]
pub struct MatrixRow {
    pub value: usize,
    pub length_a: Span,
    pub length_b: Span,
}

/// Row `i` holds entry `i` of the vector and the branch lengths of the
/// cherry that stood at `order[i]`.
pub open spec fn zipped(vector: Seq<usize>, bls: Seq<(Span, Span)>, order: Seq<usize>) -> Seq<
    MatrixRow,
> {
    Seq::new(
        vector.len(),
        |i: int|
            MatrixRow {
                value: vector[i],
                length_a: bls[order[i] as int].0,
                length_b: bls[order[i] as int].1,
            },
    )
}

/// The matrix of a Newick text with branch lengths. The cherries of a text
/// with parent labels are ordered by their parents, those of a text without
/// as the tree is put together; the vector is built from the ordered
/// cherries, and each row holds the branch lengths of the cherry that came
/// to its place.
pub open spec fn matrix_of_text(s: Seq<char>) -> Result<Seq<MatrixRow>, NewickFault> {
    if has_parent_labels(s) {
        match cherries_with_bls(s) {
            Ok((rows, bls)) => Ok(
                zipped(vector_of(sorted_by_parent(rows)), bls, sorted_indices(rows)),
            ),
            Err(e) => Err(e),
        }
    } else {
        match cherries_no_parents_with_bls(s) {
            Ok((rows, bls)) => Ok(
                zipped(vector_of(ancestry_of_cherries(rows)), bls, cherry_order(rows)),
            ),
            Err(e) => Err(e),
        }
    }
}

fn zip_rows(vector: &Vec<usize>, bls: &Vec<[Span; 2]>, order: &Vec<usize>) -> (matrix: Vec<
    MatrixRow,
>)
    requires
        vector.len() == order.len(),
        forall|i: int| 0 <= i < order.len() ==> (#[trigger] order[i]) < bls.len(),
    ensures
        matrix@ == zipped(vector@, lengths_of(bls@), order@),
{
    let mut matrix: Vec<MatrixRow> = Vec::with_capacity(vector.len());
    let ghost goal = zipped(vector@, lengths_of(bls@), order@);
    let mut i: usize = 0;
    while i < vector.len()
        invariant
            vector.len() == order.len(),
            forall|q: int| 0 <= q < order.len() ==> (#[trigger] order[q]) < bls.len(),
            goal == zipped(vector@, lengths_of(bls@), order@),
            i <= vector.len(),
            matrix@ == goal.take(i as int),
        decreases vector.len() - i,
    {
        let pair = bls[order[i]];
        proof {
            assert(goal.take(i as int).push(
                MatrixRow { value: vector[i as int], length_a: pair[0], length_b: pair[1] },
            ) =~= goal.take(i + 1));
        }
        matrix.push(MatrixRow { value: vector[i], length_a: pair[0], length_b: pair[1] });
        i += 1;
    }
    proof {
        assert(goal.take(vector.len() as int) =~= goal);
    }
    matrix
}

/// The matrix of a Newick text with branch lengths, with or without parent
/// labels: row `i` holds entry `i` of the encoding vector and the places in
/// the text of the two branch lengths of cherry `i` of the ordered cherries.
pub fn to_matrix(newick: &str) -> (r: Result<Vec<MatrixRow>, NewickError>)
    requires
        2 * newick@.len() + 2 <= usize::MAX,
    ensures
        match r {
            Ok(m) => matrix_of_text(newick@) == Ok::<Seq<MatrixRow>, NewickFault>(m@),
            Err(e) => matrix_of_text(newick@) == Err::<Seq<MatrixRow>, NewickFault>(e@),
        },
{
    if has_parents(newick) {
        match get_cherries_with_bls(newick) {
            Ok((mut ancestry, bls)) => {
                let indices = _get_sorted_indices(&ancestry);
                order_cherries(&mut ancestry);
                let vector = build_vector(&ancestry);
                Ok(zip_rows(&vector, &bls, &indices))
            },
            Err(e) => Err(e),
        }
    } else {
        match get_cherries_no_parents_with_bls(newick) {
            Ok((mut ancestry, bls)) => {
                let order = reorder_cherries(&mut ancestry);
                assign_parents(&mut ancestry);
                let vector = build_vector(&ancestry);
                Ok(zip_rows(&vector, &bls, &order))
            },
            Err(e) => Err(e),
        }
    }
}

} // verus!
