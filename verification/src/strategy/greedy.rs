//! The greedy algorithm: a one-ply lookahead baseline.
//!
//! Among all legal movements it keeps the one whose resulting position has
//! the best immediate heuristic value, ties going to the first movement in
//! enumeration order.

use vstd::prelude::*;
use crate::game::{Game, Movement};
use crate::strategy::{first_max_index, lemma_first_max_index};
use crate::strategy::minmax::{minmax_choice, root_values};

verus! {

/// The immediate values of the positions each legal movement of `n` leads
/// to, in enumeration order.
pub open spec fn greedy_values(g: Game, n: int) -> Seq<int> {
    Seq::new(g.moves_of(n).len(), |k: int| g.value_of(g.moves_of(n)[k].target as int))
}

/// The movement the greedy strategy selects at position `n`: none exactly
/// when there is no legal movement, otherwise the first movement whose
/// resulting position's value is maximal.
pub open spec fn greedy_choice(g: Game, n: int) -> Option<Movement> {
    if g.moves_of(n).len() == 0 {
        None
    } else {
        Some(g.moves_of(n)[first_max_index(greedy_values(g, n))])
    }
}

/// One ply of lookahead is a depth-one search: the greedy selection
/// coincides with the min-max selection at depth 1.
pub proof fn lemma_greedy_is_depth_one(g: Game, n: int)
    ensures
        greedy_choice(g, n) == minmax_choice(g, n, 1),
{
    assert(greedy_values(g, n) =~= root_values(g, n, 0));
}

/// Single-move determinism: a position with exactly one legal movement
/// leaves no room for choice — the greedy selection and the search
/// selection at every depth all return that movement.
pub proof fn lemma_single_move_determinism(g: Game, n: int, depth: nat)
    requires
        depth >= 1,
        g.moves_of(n).len() == 1,
    ensures
        minmax_choice(g, n, depth) == Some(g.moves_of(n)[0]),
        greedy_choice(g, n) == Some(g.moves_of(n)[0]),
{
    assert(root_values(g, n, (depth - 1) as nat).len() == 1);
    assert(greedy_values(g, n).len() == 1);
}

/// Dumb strategy: amongst all possible movements, return the one which
/// yields the position with the best immediate value.
#[derive(Clone, Copy, Debug)]
pub struct Greedy();

impl Greedy {
    /// Selects the first movement maximising the resulting position's value,
    /// or `None` exactly when position `n` has no legal movement.
    pub fn compute_next_move(&self, g: &Game, n: usize) -> (r: Option<Movement>)
        requires
            g.wf(),
            g.valid_node(n as int),
        ensures
            r is Some <==> g.moves_of(n as int).len() > 0,
            r == greedy_choice(*g, n as int),
    {
        let ghost gv = greedy_values(*g, n as int);
        let moves = g.movements(n);
        let m_count: usize = moves.len();
        if m_count == 0 {
            return None;
        }
        let mut best: i8 = g.value(moves[0].target);
        let mut best_idx: usize = 0;
        let mut i: usize = 1;
        proof {
            assert(gv.take(1).len() == 1);
        }
        while i < m_count
            invariant
                g.wf(),
                g.valid_node(n as int),
                moves@ == g.moves_of(n as int),
                gv == greedy_values(*g, n as int),
                m_count == moves@.len(),
                0 < m_count,
                1 <= i <= m_count,
                best_idx as int == first_max_index(gv.take(i as int)),
                0 <= best_idx < i,
                best as int == gv[best_idx as int],
            decreases m_count - i,
        {
            let v = g.value(moves[i].target);
            proof {
                let pre = gv.take(i as int);
                let cur = gv.take(i + 1 as int);
                assert(cur.drop_last() =~= pre);
                assert(cur.last() == gv[i as int]);
                lemma_first_max_index(pre);
            }
            if v > best {
                best = v;
                best_idx = i;
            }
            i += 1;
        }
        proof {
            assert(gv.take(m_count as int) =~= gv);
        }
        Some(moves[best_idx])
    }
}

} // verus!
