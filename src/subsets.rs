//! Choosing `k` positions out of `n`, through `itertools`.
use itertools::Itertools;
use vstd::prelude::*;

verus! {

/// `c` lists `k` distinct positions below `n`, in increasing order.
pub open spec fn is_index_combo(c: Seq<usize>, n: nat, k: nat) -> bool {
    &&& c.len() == k
    &&& forall|i: int, j: int| 0 <= i < j < c.len() ==> c[i] < c[j]
    &&& forall|i: int| 0 <= i < c.len() ==> c[i] < n
}

/// Relies on Itertools::combinations on `0..n`: each set of `k` positions
/// comes out exactly once, as an increasing list.
#[verifier::external_body]
pub(crate) fn index_combinations(n: usize, k: usize) -> (r: Vec<Vec<usize>>)
    ensures
        forall|i: int| 0 <= i < r@.len() ==> is_index_combo(#[trigger] r@[i]@, n as nat, k as nat),
        forall|c: Seq<usize>|
            is_index_combo(c, n as nat, k as nat) ==> exists|i: int|
                0 <= i < r@.len() && #[trigger] r@[i]@ == c,
        forall|i: int, j: int| 0 <= i < j < r@.len() ==> r@[i]@ != r@[j]@,
{
    (0..n).combinations(k).collect()
}

} // verus!
