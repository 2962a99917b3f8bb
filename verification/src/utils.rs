//! Validation and random sampling of encoding vectors.

use rand::rngs::ThreadRng;
use rand::Rng;
use vstd::prelude::*;

verus! {

/// Whether a sampled vector describes an ordered tree.
pub enum SampleOrdering {
    Ordered,
    NotOrdered,
}

impl Default for SampleOrdering {
    fn default() -> (ordering: Self)
        ensures
            ordering is NotOrdered,
    {
        SampleOrdering::NotOrdered
    }
}

/// The entry of a vector that is out of bounds, with its position.
#[derive(Debug, Clone, Copy, PartialEq, Eq, Structural)]
pub struct BoundError {
    pub index: usize,
    pub value: usize,
}

/// Every entry of `v` is at most twice its index: `v` encodes a tree.
pub open spec fn valid_vector(v: Seq<usize>) -> bool {
    forall|i: int| 0 <= i < v.len() ==> #[trigger] v[i] <= 2 * i
}

/// Every entry of `v` is at most its index: `v` encodes an ordered tree.
pub open spec fn ordered_vector(v: Seq<usize>) -> bool {
    forall|i: int| 0 <= i < v.len() ==> #[trigger] v[i] <= i
}

/// Validates an encoding vector: succeeds when every entry is at most twice
/// its index, and otherwise reports the first entry that is not.
pub fn check_v(v: &Vec<usize>) -> (r: Result<(), BoundError>)
    ensures
        r is Ok <==> valid_vector(v@),
        r is Err <==> exists|i: int| 0 <= i < v.len() && v[i] > 2 * i,
        match r {
            Ok(_) => true,
            Err(e) => {
                &&& e.index < v.len()
                &&& e.value == v[e.index as int]
                &&& e.value > 2 * e.index
                &&& forall|j: int| 0 <= j < e.index ==> #[trigger] v[j] <= 2 * j
            },
        },
{
    let k = v.len();
    let mut i: usize = 0;
    while i < k
        invariant
            k == v.len(),
            i <= k,
            forall|j: int| 0 <= j < i ==> #[trigger] v[j] <= 2 * j,
        decreases k - i,
    {
        let x = v[i];
        if x > i && x - i > i {
            return Err(BoundError { index: i, value: x });
        }
        i += 1;
    }
    Ok(())
}

/// `rand::rngs::ThreadRng`, the random generator of a thread: a value that
/// is only handed on.
#[verifier::external_type_specification]
#[verifier::external_body]
pub struct ExThreadRng(ThreadRng);

/// `rand::thread_rng`: a handle to the random generator of the current
/// thread. Nothing is claimed of it.
#[verifier::external_body]
fn thread_generator() -> ThreadRng {
    rand::thread_rng()
}

/// `Rng::gen_range` on the half-open range `0..bound`: some number below
/// `bound`. The range must not be empty, or the call panics.
#[verifier::external_body]
fn random_below(rng: &mut ThreadRng, bound: usize) -> (x: usize)
    requires
        bound > 0,
    ensures
        x < bound,
{
    rng.gen_range(0..bound)
}

/// Samples a vector with `n_leaves - 1` entries: entry `i` is drawn from
/// `0..=i` for an ordered tree, and from `0..=2i` otherwise.
pub fn sample(n_leaves: usize, ordering: SampleOrdering) -> (v: Vec<usize>)
    requires
        n_leaves >= 1,
        2 * (n_leaves - 1) <= usize::MAX,
    ensures
        v.len() == n_leaves - 1,
        valid_vector(v@),
        ordering is Ordered ==> ordered_vector(v@),
{
    let mut v: Vec<usize> = Vec::with_capacity(n_leaves - 1);
    let mut rng = thread_generator();
    match ordering {
        SampleOrdering::Ordered => {
            let mut i: usize = 0;
            while i < n_leaves - 1
                invariant
                    n_leaves >= 1,
                    i <= n_leaves - 1,
                    v.len() == i,
                    ordered_vector(v@),
                    valid_vector(v@),
                decreases n_leaves - 1 - i,
            {
                let x = random_below(&mut rng, i + 1);
                v.push(x);
                i += 1;
            }
        },
        SampleOrdering::NotOrdered => {
            let mut i: usize = 0;
            while i < n_leaves - 1
                invariant
                    n_leaves >= 1,
                    2 * (n_leaves - 1) <= usize::MAX,
                    i <= n_leaves - 1,
                    v.len() == i,
                    valid_vector(v@),
                decreases n_leaves - 1 - i,
            {
                let x = random_below(&mut rng, 2 * i + 1);
                v.push(x);
                i += 1;
            }
        },
    }
    v
}

} // verus!
