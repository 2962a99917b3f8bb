//! The value types shared by every conversion.

use vstd::prelude::*;

verus! {

/// Two sibling nodes `(child1, child2)`.
pub type Pair = (usize, usize);

/// A list of sibling pairs, deepest first.
pub type Pairs = Vec<Pair>;

/// One row per internal node: `[child1, child2, parent]`.
pub type Ancestry = Vec<[usize; 3]>;

/// A row of an ancestry matrix as a plain value: `(child1, child2, parent)`.
pub type Row = (usize, usize, usize);

/// The rows of an ancestry matrix as plain values.
pub open spec fn rows_of(ancestry: Seq<[usize; 3]>) -> Seq<Row> {
    Seq::new(ancestry.len(), |i: int| (ancestry[i][0], ancestry[i][1], ancestry[i][2]))
}

/// Appending a row to the matrix appends it to the rows.
pub proof fn lemma_rows_of_push(ancestry: Seq<[usize; 3]>, row: [usize; 3])
    ensures
        rows_of(ancestry.push(row)) == rows_of(ancestry).push((row[0], row[1], row[2])),
{
    assert(rows_of(ancestry.push(row)) =~= rows_of(ancestry).push((row[0], row[1], row[2])));
}

} // verus!
