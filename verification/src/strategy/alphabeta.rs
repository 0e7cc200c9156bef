//! The alpha-beta algorithm: fixed-depth evaluation with pruning.
//!
//! The evaluators mirror the min-max ones but carry a window `[alpha, beta]`
//! of bounds already proven elsewhere in the tree: once a child's value
//! falls on the wrong side of the window, the remaining siblings cannot
//! influence the decision and are skipped (a fail-high or fail-low cutoff).
//! Pruning is only sound when the window is threaded sequentially across
//! siblings, so below the root the search is sequential; parallelism is
//! applied at the root move list only, where every movement is evaluated
//! against the full window independently.  That trade-off — correct pruning,
//! parallelism limited to the root — is intentional: dispatching all
//! siblings at once before any result is known could not apply mid-list
//! cutoffs and would degenerate toward exhaustive search.

use vstd::prelude::*;
use rayon::iter::{IntoParallelRefIterator, ParallelIterator};
use crate::game::{Game, Movement, VALUE_BOUND};
use crate::register::MoveRegister;
use crate::strategy::{first_max_index, lemma_first_max_index};
use crate::strategy::minmax::{
    children_searchable, lemma_best_max_ge, lemma_best_min_le, lemma_expand_children,
    lemma_forest_prefix_le, lemma_minmax_value_range, minmax_choice, root_values,
    spec_best_max, spec_best_min, spec_forest_count, spec_max_value, spec_min_value,
    spec_tree_count,
};

verus! {

/// Advances a visited-node counter, holding at the ceiling rather than
/// wrapping.
fn bump(count: &mut u64)
    ensures
        *old(count) <= *final(count) <= *old(count) + 1,
{
    if *count < u64::MAX {
        *count = *count + 1;
    }
}

/// Pruning maximising evaluator.  `count` tallies the evaluator invocations,
/// so pruning can be observed: a cutoff leaves later siblings unvisited.
///
/// The result is fail-soft: inside the window it is exactly the exhaustive
/// maximising value; outside, it is a bound on it in the direction it
/// failed.  Either way pruning never changes what the caller decides.
pub fn alpha_beta_max(
    g: &Game,
    n: usize,
    alpha: i8,
    beta: i8,
    depth: u8,
    count: &mut u64,
) -> (r: i8)
    requires
        g.wf(),
        g.valid_node(n as int),
        g.expandable(n as int, depth as nat),
        -VALUE_BOUND <= alpha < beta <= VALUE_BOUND,
    ensures
        -VALUE_BOUND <= r <= VALUE_BOUND,
        r <= alpha ==> spec_max_value(*g, n as int, depth as nat) <= r as int,
        r >= beta ==> spec_max_value(*g, n as int, depth as nat) >= r as int,
        alpha < r < beta ==> r as int == spec_max_value(*g, n as int, depth as nat),
        *old(count) <= *final(count),
        *final(count) <= *old(count) + spec_tree_count(*g, n as int, depth as nat),
    decreases depth,
{
    bump(count);
    if depth == 0 {
        let v = g.value(n);
        return -v;
    }
    proof {
        lemma_expand_children(*g, n as int, depth as nat);
    }
    let moves = g.movements(n);
    let m_count: usize = moves.len();
    proof {
        assert(moves@.take(0int) =~= Seq::<Movement>::empty());
    }
    let mut new_alpha = alpha;
    let mut maxi: i8 = -VALUE_BOUND;
    let mut i: usize = 0;
    while i < m_count
        invariant
            g.wf(),
            g.valid_node(n as int),
            g.expandable(n as int, depth as nat),
            depth >= 1,
            moves@ == g.moves_of(n as int),
            m_count == moves@.len(),
            children_searchable(*g, moves@, (depth - 1) as nat),
            -VALUE_BOUND <= alpha < beta <= VALUE_BOUND,
            0 <= i <= m_count,
            -VALUE_BOUND <= maxi < beta,
            alpha <= new_alpha < beta,
            new_alpha as int == if maxi > alpha {
                maxi as int
            } else {
                alpha as int
            },
            spec_best_max(*g, moves@.take(i as int), (depth - 1) as nat) <= maxi as int,
            maxi > alpha ==> spec_best_max(*g, moves@.take(i as int), (depth - 1) as nat)
                == maxi as int,
            *old(count) <= *count,
            *count <= *old(count) + 1 + spec_forest_count(
                *g,
                moves@.take(i as int),
                (depth - 1) as nat,
            ),
        decreases m_count - i,
    {
        let m = moves[i];
        let res = alpha_beta_min(g, m.target, new_alpha, beta, depth - 1, count);
        proof {
            let pre = moves@.take(i as int);
            let cur = moves@.take(i + 1 as int);
            assert(cur.drop_last() =~= pre);
            assert(cur.last() == moves@[i as int]);
        }
        if res >= beta {
            proof {
                lemma_best_max_ge(*g, moves@, (depth - 1) as nat, i as int);
                lemma_forest_prefix_le(*g, moves@, (depth - 1) as nat, i + 1);
            }
            return res;
        }
        if res > maxi {
            maxi = res;
        }
        if res > new_alpha {
            new_alpha = res;
        }
        i += 1;
    }
    proof {
        assert(moves@.take(m_count as int) =~= moves@);
    }
    maxi
}

/// Pruning minimising evaluator, symmetric to [`alpha_beta_max`]: a child
/// falling at or below `alpha` is a fail-low cutoff, and `beta` is lowered
/// for the siblings that follow.
pub fn alpha_beta_min(
    g: &Game,
    n: usize,
    alpha: i8,
    beta: i8,
    depth: u8,
    count: &mut u64,
) -> (r: i8)
    requires
        g.wf(),
        g.valid_node(n as int),
        g.expandable(n as int, depth as nat),
        -VALUE_BOUND <= alpha < beta <= VALUE_BOUND,
    ensures
        -VALUE_BOUND <= r <= VALUE_BOUND,
        r <= alpha ==> spec_min_value(*g, n as int, depth as nat) <= r as int,
        r >= beta ==> spec_min_value(*g, n as int, depth as nat) >= r as int,
        alpha < r < beta ==> r as int == spec_min_value(*g, n as int, depth as nat),
        *old(count) <= *final(count),
        *final(count) <= *old(count) + spec_tree_count(*g, n as int, depth as nat),
    decreases depth,
{
    bump(count);
    if depth == 0 {
        return g.value(n);
    }
    proof {
        lemma_expand_children(*g, n as int, depth as nat);
    }
    let moves = g.movements(n);
    let m_count: usize = moves.len();
    proof {
        assert(moves@.take(0int) =~= Seq::<Movement>::empty());
    }
    let mut new_beta = beta;
    let mut mini: i8 = VALUE_BOUND;
    let mut i: usize = 0;
    while i < m_count
        invariant
            g.wf(),
            g.valid_node(n as int),
            g.expandable(n as int, depth as nat),
            depth >= 1,
            moves@ == g.moves_of(n as int),
            m_count == moves@.len(),
            children_searchable(*g, moves@, (depth - 1) as nat),
            -VALUE_BOUND <= alpha < beta <= VALUE_BOUND,
            0 <= i <= m_count,
            alpha < mini <= VALUE_BOUND,
            alpha < new_beta <= beta,
            new_beta as int == if mini < beta {
                mini as int
            } else {
                beta as int
            },
            spec_best_min(*g, moves@.take(i as int), (depth - 1) as nat) >= mini as int,
            mini < beta ==> spec_best_min(*g, moves@.take(i as int), (depth - 1) as nat)
                == mini as int,
            *old(count) <= *count,
            *count <= *old(count) + 1 + spec_forest_count(
                *g,
                moves@.take(i as int),
                (depth - 1) as nat,
            ),
        decreases m_count - i,
    {
        let m = moves[i];
        let res = alpha_beta_max(g, m.target, alpha, new_beta, depth - 1, count);
        proof {
            let pre = moves@.take(i as int);
            let cur = moves@.take(i + 1 as int);
            assert(cur.drop_last() =~= pre);
            assert(cur.last() == moves@[i as int]);
        }
        if res <= alpha {
            proof {
                lemma_best_min_le(*g, moves@, (depth - 1) as nat, i as int);
                lemma_forest_prefix_le(*g, moves@, (depth - 1) as nat, i + 1);
            }
            return res;
        }
        if res < mini {
            mini = res;
        }
        if res < new_beta {
            new_beta = res;
        }
        i += 1;
    }
    proof {
        assert(moves@.take(m_count as int) =~= moves@);
    }
    mini
}

/// Evaluates one root movement against the full window.  With nothing
/// proven yet, no cutoff can mask the true value: the result is exactly the
/// exhaustive minimising value of the child — pruning below the root never
/// changes the root's ranking.
fn root_child_value(g: &Game, m: Movement, depth: u8) -> (r: i8)
    requires
        g.wf(),
        g.valid_node(m.target as int),
        g.expandable(m.target as int, depth as nat),
    ensures
        r as int == spec_min_value(*g, m.target as int, depth as nat),
{
    let mut count: u64 = 0;
    let r = alpha_beta_min(g, m.target, -VALUE_BOUND, VALUE_BOUND, depth, &mut count);
    proof {
        lemma_minmax_value_range(*g, m.target as int, depth as nat);
    }
    r
}

/// Relies on rayon's `par_iter().map(..).collect()`: applies the closure to
/// every element of the slice, in independent parallel tasks, and collects
/// the results in the input's order.
#[verifier::external_body]
fn par_root_values(g: &Game, moves: &Vec<Movement>, depth: u8) -> (r: Vec<i8>)
    requires
        g.wf(),
        children_searchable(*g, moves@, depth as nat),
    ensures
        r@.len() == moves@.len(),
        forall|k: int|
            0 <= k < moves@.len() ==> #[trigger] r@[k] as int == spec_min_value(
                *g,
                moves@[k].target as int,
                depth as nat,
            ),
{
    moves.par_iter().map(|m| root_child_value(g, *m, depth)).collect()
}

/// Alpha-beta strategy with a given maximum recursion depth.
#[derive(Clone, Copy, Debug)]
pub struct AlphaBeta(pub u8);

impl AlphaBeta {
    /// Selects the same movement the exhaustive search selects — the first
    /// movement whose minimising value is maximal — while pruning below the
    /// root; `None` exactly when position `n` has no legal movement.  Root
    /// movements are ranked in parallel against the full window and the
    /// results collected before the reduction, so the tie-break never
    /// depends on scheduling.
    pub fn compute_next_move(&self, g: &Game, n: usize) -> (r: Option<Movement>)
        requires
            g.wf(),
            g.valid_node(n as int),
            self.0 >= 1,
            g.moves_of(n as int).len() > 0 ==> g.expandable(n as int, self.0 as nat),
        ensures
            r is Some <==> g.moves_of(n as int).len() > 0,
            r == minmax_choice(*g, n as int, self.0 as nat),
    {
        let depth = self.0;
        let moves = g.movements(n);
        let m_count: usize = moves.len();
        if m_count == 0 {
            return None;
        }
        proof {
            lemma_expand_children(*g, n as int, depth as nat);
        }
        let vals = par_root_values(g, moves, depth - 1);
        let ghost rv = root_values(*g, n as int, (depth - 1) as nat);
        proof {
            assert(forall|k: int| 0 <= k < m_count ==> rv[k] == #[trigger] vals@[k] as int);
            assert(rv.take(1).len() == 1);
        }
        let mut best: i8 = vals[0];
        let mut best_idx: usize = 0;
        let mut i: usize = 1;
        while i < m_count
            invariant
                moves@ == g.moves_of(n as int),
                m_count == moves@.len(),
                0 < m_count,
                vals@.len() == m_count,
                rv == root_values(*g, n as int, (depth - 1) as nat),
                rv.len() == m_count,
                forall|k: int| 0 <= k < m_count ==> rv[k] == #[trigger] vals@[k] as int,
                1 <= i <= m_count,
                best_idx as int == first_max_index(rv.take(i as int)),
                0 <= best_idx < i,
                best as int == rv[best_idx as int],
            decreases m_count - i,
        {
            proof {
                let pre = rv.take(i as int);
                let cur = rv.take(i + 1 as int);
                assert(cur.drop_last() =~= pre);
                assert(cur.last() == rv[i as int]);
                lemma_first_max_index(pre);
            }
            let v = vals[i];
            if v > best {
                best = v;
                best_idx = i;
            }
            i += 1;
        }
        proof {
            assert(rv.take(m_count as int) =~= rv);
        }
        Some(moves[best_idx])
    }
}

/// Anytime alpha-beta algorithm.  Anytime algorithms compute until a
/// deadline is hit and the hosting process is killed, so they run in another
/// process and communicate through the shared register: a first answer is
/// published quickly at a seed depth, then the search deepens one ply at a
/// time, overwriting the register after every completed depth.
pub fn alpha_beta_anytime(g: &Game, n: usize, register: &mut MoveRegister)
    requires
        g.wf(),
        g.valid_node(n as int),
        g.moves_of(n as int).len() > 0 ==> g.expandable(n as int, 102),
    ensures
        final(register).published() == old(register).published() + Seq::new(
            100,
            |k: int| minmax_choice(*g, n as int, (k + 3) as nat),
        ),
        final(register).latest() == minmax_choice(*g, n as int, 102),
{
    let depth: u8 = 3;
    proof {
        if g.moves_of(n as int).len() > 0 {
            g.lemma_expandable_mono(n as int, 3, 102);
        }
    }
    let mut chosen_movement = AlphaBeta(depth).compute_next_move(g, n);
    register.store(chosen_movement);
    proof {
        assert(old(register).published().push(minmax_choice(*g, n as int, 3))
            =~= old(register).published() + Seq::new(
            1,
            |k: int| minmax_choice(*g, n as int, (k + 3) as nat),
        ));
    }
    let mut i: u8 = 1;
    while i < 100
        invariant
            g.wf(),
            g.valid_node(n as int),
            g.moves_of(n as int).len() > 0 ==> g.expandable(n as int, 102),
            depth == 3,
            1 <= i <= 100,
            register.published() == old(register).published() + Seq::new(
                i as nat,
                |k: int| minmax_choice(*g, n as int, (k + 3) as nat),
            ),
            register.latest() == minmax_choice(*g, n as int, (i + 2) as nat),
        decreases 100 - i,
    {
        proof {
            if g.moves_of(n as int).len() > 0 {
                g.lemma_expandable_mono(n as int, (depth + i) as nat, 102);
            }
        }
        chosen_movement = AlphaBeta(depth + i).compute_next_move(g, n);
        register.store(chosen_movement);
        proof {
            assert(Seq::new(
                (i + 1) as nat,
                |k: int| minmax_choice(*g, n as int, (k + 3) as nat),
            ) =~= Seq::new(
                i as nat,
                |k: int| minmax_choice(*g, n as int, (k + 3) as nat),
            ).push(minmax_choice(*g, n as int, (i + 3) as nat)));
        }
        i += 1;
    }
}

} // verus!
