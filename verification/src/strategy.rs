//! The search strategies.
//!
//! Each strategy computes one movement from a position: `Some` movement drawn
//! from the position's legal movements, or `None` exactly when there are
//! none.  All strategies break ties the same way: among movements whose
//! evaluations tie for the maximum, the first in enumeration order wins, and
//! parallel execution never changes that choice.

pub mod alphabeta;
pub mod greedy;
pub mod minmax;

use vstd::prelude::*;

verus! {

/// Index of the first maximal element of a non-empty sequence: the element a
/// left-to-right scan keeps when only strictly greater values replace it.
pub open spec fn first_max_index(s: Seq<int>) -> int
    recommends
        s.len() > 0,
    decreases s.len(),
{
    if s.len() <= 1 {
        0
    } else {
        let j = first_max_index(s.drop_last());
        if s.last() > s[j] {
            s.len() - 1
        } else {
            j
        }
    }
}

/// `first_max_index` names a maximal element, and everything before it is
/// strictly smaller.
pub proof fn lemma_first_max_index(s: Seq<int>)
    requires
        s.len() > 0,
    ensures
        0 <= first_max_index(s) < s.len(),
        forall|k: int| 0 <= k < s.len() ==> #[trigger] s[k] <= s[first_max_index(s)],
        forall|k: int| 0 <= k < first_max_index(s) ==> #[trigger] s[k] < s[first_max_index(s)],
    decreases s.len(),
{
    if s.len() > 1 {
        lemma_first_max_index(s.drop_last());
        assert(forall|k: int| 0 <= k < s.len() - 1 ==> s[k] == s.drop_last()[k]);
    }
}

} // verus!
