//! What a walk that takes nothing twice has left to take: the measure by
//! which such a walk ends.

use vstd::prelude::*;

verus! {

/// How many of `all` are not among `taken`.
pub open spec fn left<A>(all: Seq<A>, taken: Seq<A>) -> nat {
    all.to_set().difference(taken.to_set()).len()
}

/// Taking one of `all` that was not taken before leaves fewer.
pub proof fn lemma_left_push<A>(all: Seq<A>, taken: Seq<A>, x: A)
    requires
        all.contains(x),
        !taken.contains(x),
    ensures
        left(all, taken.push(x)) < left(all, taken),
{
    let longer = taken.push(x);
    let before = all.to_set().difference(taken.to_set());
    let after = all.to_set().difference(longer.to_set());
    vstd::seq_lib::seq_to_set_is_finite(all);
    assert(before.contains(x));
    assert(after =~= before.remove(x)) by {
        assert forall|y: A| after.contains(y) <==> before.remove(x).contains(y) by {
            if y != x {
                if taken.contains(y) {
                    let j = choose|j: int| 0 <= j < taken.len() && taken[j] == y;
                    assert(longer[j] == y);
                }
                if longer.contains(y) {
                    let j = choose|j: int| 0 <= j < longer.len() && longer[j] == y;
                    assert(taken[j] == y);
                }
            } else {
                assert(longer[taken.len() as int] == x);
            }
        }
    }
}

} // verus!
