//! The min-max algorithm: exhaustive fixed-depth game-tree evaluation.
//!
//! Two mutually recursive evaluators alternate perspective at each ply.  At
//! the horizon the maximising evaluator negates the stored heuristic value,
//! because an odd number of plies from the root the side to move has swapped
//! and the zero-sum convention flips the sign.  Above the horizon each
//! evaluator folds its children's values, so the search visits every node of
//! the depth-bounded tree — no pruning.

use vstd::prelude::*;
use rayon::iter::{IntoParallelRefIterator, ParallelIterator};
use crate::game::{Game, Movement, VALUE_BOUND};
use crate::register::MoveRegister;
use crate::strategy::{first_max_index, lemma_first_max_index};

verus! {

/// Value of position `n` for the original mover, `depth` plies from the
/// horizon, when the original mover is the side to move: the maximum over
/// all children of their minimising value.
pub open spec fn spec_max_value(g: Game, n: int, depth: nat) -> int
    decreases depth, 0int,
{
    if depth == 0 {
        -g.value_of(n)
    } else {
        spec_best_max(g, g.moves_of(n), (depth - 1) as nat)
    }
}

/// Value of position `n` for the original mover when the opponent is the
/// side to move: the minimum over all children of their maximising value.
pub open spec fn spec_min_value(g: Game, n: int, depth: nat) -> int
    decreases depth, 0int,
{
    if depth == 0 {
        g.value_of(n)
    } else {
        spec_best_min(g, g.moves_of(n), (depth - 1) as nat)
    }
}

/// Fold of the maximising reduction over a movement list, floored at the
/// smallest heuristic value, exactly as a left-to-right scan computes it.
pub open spec fn spec_best_max(g: Game, moves: Seq<Movement>, depth: nat) -> int
    decreases depth, moves.len() + 1,
{
    if moves.len() == 0 {
        -(VALUE_BOUND as int)
    } else {
        let rest = spec_best_max(g, moves.drop_last(), depth);
        let last = spec_min_value(g, moves.last().target as int, depth);
        if last > rest {
            last
        } else {
            rest
        }
    }
}

/// Fold of the minimising reduction over a movement list, capped at the
/// largest heuristic value.
pub open spec fn spec_best_min(g: Game, moves: Seq<Movement>, depth: nat) -> int
    decreases depth, moves.len() + 1,
{
    if moves.len() == 0 {
        VALUE_BOUND as int
    } else {
        let rest = spec_best_min(g, moves.drop_last(), depth);
        let last = spec_max_value(g, moves.last().target as int, depth);
        if last < rest {
            last
        } else {
            rest
        }
    }
}

/// The minimising values of the positions a movement list leads to.
pub open spec fn child_min_values(g: Game, moves: Seq<Movement>, depth: nat) -> Seq<int> {
    Seq::new(moves.len(), |k: int| spec_min_value(g, moves[k].target as int, depth))
}

/// The evaluations the root selection ranks: one minimising value per legal
/// movement of position `n`, in enumeration order.
pub open spec fn root_values(g: Game, n: int, depth: nat) -> Seq<int> {
    child_min_values(g, g.moves_of(n), depth)
}

/// The movement a depth-`depth` search selects at position `n`: none exactly
/// when there is no legal movement, otherwise the first movement whose
/// minimising value is maximal.
pub open spec fn minmax_choice(g: Game, n: int, depth: nat) -> Option<Movement>
    recommends
        depth >= 1,
{
    if g.moves_of(n).len() == 0 {
        None
    } else {
        Some(g.moves_of(n)[first_max_index(root_values(g, n, (depth - 1) as nat))])
    }
}

/// Zero-sum round trip: at the horizon, the maximising evaluation of a
/// position is exactly the negation of the minimising evaluation of the same
/// position — the perspective flip between the two sides.
pub proof fn lemma_zero_sum_base(g: Game, n: int)
    ensures
        spec_max_value(g, n, 0) == -spec_min_value(g, n, 0),
{
}

/// Every search value stays inside the heuristic range.
pub proof fn lemma_minmax_value_range(g: Game, n: int, depth: nat)
    requires
        g.wf(),
        g.valid_node(n),
    ensures
        -VALUE_BOUND <= spec_max_value(g, n, depth) <= VALUE_BOUND,
        -VALUE_BOUND <= spec_min_value(g, n, depth) <= VALUE_BOUND,
    decreases depth, 0int,
{
    if depth > 0 {
        lemma_best_value_range(g, g.moves_of(n), (depth - 1) as nat);
    }
}

/// Every fold of search values stays inside the heuristic range.
pub proof fn lemma_best_value_range(g: Game, moves: Seq<Movement>, depth: nat)
    requires
        g.wf(),
        forall|k: int| 0 <= k < moves.len() ==> g.valid_node((#[trigger] moves[k]).target as int),
    ensures
        -VALUE_BOUND <= spec_best_max(g, moves, depth) <= VALUE_BOUND,
        -VALUE_BOUND <= spec_best_min(g, moves, depth) <= VALUE_BOUND,
    decreases depth, moves.len() + 1,
{
    if moves.len() > 0 {
        assert(forall|k: int|
            0 <= k < moves.drop_last().len() ==> moves.drop_last()[k] == moves[k]);
        lemma_best_value_range(g, moves.drop_last(), depth);
        lemma_minmax_value_range(g, moves.last().target as int, depth);
    }
}

/// No child's minimising value exceeds the maximising fold.
pub proof fn lemma_best_max_ge(g: Game, moves: Seq<Movement>, depth: nat, k: int)
    requires
        0 <= k < moves.len(),
    ensures
        spec_min_value(g, moves[k].target as int, depth) <= spec_best_max(g, moves, depth),
    decreases moves.len(),
{
    if k < moves.len() - 1 {
        lemma_best_max_ge(g, moves.drop_last(), depth, k);
    }
}

/// No child's maximising value undercuts the minimising fold.
pub proof fn lemma_best_min_le(g: Game, moves: Seq<Movement>, depth: nat, k: int)
    requires
        0 <= k < moves.len(),
    ensures
        spec_best_min(g, moves, depth) <= spec_max_value(g, moves[k].target as int, depth),
    decreases moves.len(),
{
    if k < moves.len() - 1 {
        lemma_best_min_le(g, moves.drop_last(), depth, k);
    }
}

/// The maximising fold over a movement list is the evaluation of the first
/// maximal movement — the one the root selection picks.
pub proof fn lemma_best_max_is_first_max(g: Game, moves: Seq<Movement>, depth: nat)
    requires
        g.wf(),
        moves.len() > 0,
        forall|k: int| 0 <= k < moves.len() ==> g.valid_node((#[trigger] moves[k]).target as int),
    ensures
        spec_best_max(g, moves, depth) == child_min_values(g, moves, depth)[first_max_index(
            child_min_values(g, moves, depth),
        )],
    decreases moves.len(),
{
    let vs = child_min_values(g, moves, depth);
    if moves.len() == 1 {
        lemma_minmax_value_range(g, moves[0].target as int, depth);
        assert(vs[0] == spec_min_value(g, moves[0].target as int, depth));
        assert(moves.drop_last().len() == 0);
        assert(spec_best_max(g, moves.drop_last(), depth) == -(VALUE_BOUND as int));
        assert(moves.last() == moves[0]);
    } else {
        assert(forall|k: int|
            0 <= k < moves.drop_last().len() ==> moves.drop_last()[k] == moves[k]);
        lemma_best_max_is_first_max(g, moves.drop_last(), depth);
        let vs_rest = child_min_values(g, moves.drop_last(), depth);
        assert(vs_rest =~= vs.drop_last());
        assert(vs.last() == spec_min_value(g, moves.last().target as int, depth));
        lemma_first_max_index(vs.drop_last());
    }
}

/// A consequence for the root: with at least one legal movement, the chosen
/// movement's evaluation is exactly the position's maximising search value.
pub proof fn lemma_choice_achieves_root_value(g: Game, n: int, depth: nat)
    requires
        g.wf(),
        g.valid_node(n),
        depth >= 1,
        g.moves_of(n).len() > 0,
    ensures
        root_values(g, n, (depth - 1) as nat)[first_max_index(
            root_values(g, n, (depth - 1) as nat),
        )] == spec_max_value(g, n, depth),
{
    lemma_best_max_is_first_max(g, g.moves_of(n), (depth - 1) as nat);
}

/// The root selection only ever returns a legal movement: `None` exactly
/// when there is none, and otherwise a movement drawn from the position's
/// own movement list.
pub proof fn lemma_choice_in_movements(g: Game, n: int, depth: nat)
    requires
        depth >= 1,
    ensures
        minmax_choice(g, n, depth) is None <==> g.moves_of(n).len() == 0,
        minmax_choice(g, n, depth) is Some ==> g.moves_of(n).contains(
            minmax_choice(g, n, depth).unwrap(),
        ),
{
    if g.moves_of(n).len() > 0 {
        let rv = root_values(g, n, (depth - 1) as nat);
        lemma_first_max_index(rv);
        let i = first_max_index(rv);
        assert(g.moves_of(n)[i] == minmax_choice(g, n, depth).unwrap());
        assert(g.moves_of(n).contains(g.moves_of(n)[i]));
    }
}

/// Number of evaluator invocations an exhaustive depth-`depth` search makes
/// at position `n`: the position itself and, above the horizon, every
/// position of each child subtree.
pub open spec fn spec_tree_count(g: Game, n: int, depth: nat) -> int
    decreases depth, 0int,
{
    if depth == 0 {
        1
    } else {
        1 + spec_forest_count(g, g.moves_of(n), (depth - 1) as nat)
    }
}

/// Total exhaustive invocation count over a movement list's subtrees.
pub open spec fn spec_forest_count(g: Game, moves: Seq<Movement>, depth: nat) -> int
    decreases depth, moves.len() + 1,
{
    if moves.len() == 0 {
        0
    } else {
        spec_forest_count(g, moves.drop_last(), depth) + spec_tree_count(
            g,
            moves.last().target as int,
            depth,
        )
    }
}

/// Every search visits at least its own position, and no forest shrinks a
/// sum below zero.
pub proof fn lemma_tree_count_pos(g: Game, n: int, depth: nat)
    ensures
        spec_tree_count(g, n, depth) >= 1,
    decreases depth, 0int,
{
    if depth > 0 {
        lemma_forest_count_nonneg(g, g.moves_of(n), (depth - 1) as nat);
    }
}

/// The exhaustive invocation count of a forest is never negative.
pub proof fn lemma_forest_count_nonneg(g: Game, moves: Seq<Movement>, depth: nat)
    ensures
        spec_forest_count(g, moves, depth) >= 0,
    decreases depth, moves.len() + 1,
{
    if moves.len() > 0 {
        lemma_forest_count_nonneg(g, moves.drop_last(), depth);
        lemma_tree_count_pos(g, moves.last().target as int, depth);
    }
}

/// A prefix of a forest costs no more than the whole forest.
pub proof fn lemma_forest_prefix_le(g: Game, moves: Seq<Movement>, depth: nat, j: int)
    requires
        0 <= j <= moves.len(),
    ensures
        spec_forest_count(g, moves.take(j), depth) <= spec_forest_count(g, moves, depth),
    decreases moves.len() - j,
{
    if j == moves.len() {
        assert(moves.take(j) =~= moves);
    } else {
        let pre = moves.take(j);
        let cur = moves.take(j + 1);
        assert(cur.drop_last() =~= pre);
        assert(cur.last() == moves[j]);
        lemma_tree_count_pos(g, moves[j].target as int, depth);
        lemma_forest_prefix_le(g, moves, depth, j + 1);
    }
}

/// Every position a movement list leads to is a valid, still-searchable
/// position: the precondition the parallel fan-outs hand to each worker.
pub open spec fn children_searchable(g: Game, moves: Seq<Movement>, depth: nat) -> bool {
    forall|k: int|
        0 <= k < moves.len() ==> g.valid_node((#[trigger] moves[k]).target as int)
            && g.expandable(moves[k].target as int, depth)
}

/// Evaluates one child subtree for the maximising evaluator's fan-out.
fn child_min_value(g: &Game, m: Movement, depth: u8) -> (r: i8)
    requires
        g.wf(),
        g.valid_node(m.target as int),
        g.expandable(m.target as int, depth as nat),
    ensures
        r as int == spec_min_value(*g, m.target as int, depth as nat),
{
    min_value(g, m.target, depth)
}

/// Evaluates one child subtree for the minimising evaluator's fan-out.
fn child_max_value(g: &Game, m: Movement, depth: u8) -> (r: i8)
    requires
        g.wf(),
        g.valid_node(m.target as int),
        g.expandable(m.target as int, depth as nat),
    ensures
        r as int == spec_max_value(*g, m.target as int, depth as nat),
{
    max_value(g, m.target, depth)
}

/// Relies on rayon's `par_iter().map(..).collect()`: applies the closure to
/// every element of the slice, in independent parallel tasks, and collects
/// the results in the input's order.
#[verifier::external_body]
fn par_min_values(g: &Game, moves: &Vec<Movement>, depth: u8) -> (r: Vec<i8>)
    requires
        g.wf(),
        children_searchable(*g, moves@, depth as nat),
    ensures
        r@.len() == moves@.len(),
        forall|k: int|
            0 <= k < moves@.len() ==> #[trigger] r@[k] as int == spec_min_value(
                *g,
                moves@[k].target as int,
                depth as nat,
            ),
{
    moves.par_iter().map(|m| child_min_value(g, *m, depth)).collect()
}

/// Relies on rayon's `par_iter().map(..).collect()`: applies the closure to
/// every element of the slice, in independent parallel tasks, and collects
/// the results in the input's order.
#[verifier::external_body]
fn par_max_values(g: &Game, moves: &Vec<Movement>, depth: u8) -> (r: Vec<i8>)
    requires
        g.wf(),
        children_searchable(*g, moves@, depth as nat),
    ensures
        r@.len() == moves@.len(),
        forall|k: int|
            0 <= k < moves@.len() ==> #[trigger] r@[k] as int == spec_max_value(
                *g,
                moves@[k].target as int,
                depth as nat,
            ),
{
    moves.par_iter().map(|m| child_max_value(g, *m, depth)).collect()
}

/// Unfolds one searchable ply: a position searchable to `depth >= 1` has
/// movements, and every one of them leads to a position searchable one ply
/// less deep.
pub proof fn lemma_expand_children(g: Game, n: int, depth: nat)
    requires
        g.wf(),
        g.valid_node(n),
        depth >= 1,
        g.expandable(n, depth),
    ensures
        g.moves_of(n).len() > 0,
        children_searchable(g, g.moves_of(n), (depth - 1) as nat),
{
    assert forall|k: int| 0 <= k < g.moves_of(n).len() implies g.valid_node(
        (#[trigger] g.moves_of(n)[k]).target as int,
    ) && g.expandable(g.moves_of(n)[k].target as int, (depth - 1) as nat) by {
        assert(g.moves_of(n)[k].target < g.node_count());
    }
}

/// Exhaustive maximising evaluator, the executable form of
/// [`spec_max_value`]: every child subtree is evaluated in parallel, the
/// results are collected in enumeration order, then reduced.
pub fn max_value(g: &Game, n: usize, depth: u8) -> (r: i8)
    requires
        g.wf(),
        g.valid_node(n as int),
        g.expandable(n as int, depth as nat),
    ensures
        r as int == spec_max_value(*g, n as int, depth as nat),
{
    if depth == 0 {
        let v = g.value(n);
        return -v;
    }
    proof {
        lemma_expand_children(*g, n as int, depth as nat);
    }
    let moves = g.movements(n);
    let vals = par_min_values(g, moves, depth - 1);
    let m_count: usize = moves.len();
    let mut maxi: i8 = -VALUE_BOUND;
    let mut i: usize = 0;
    while i < m_count
        invariant
            0 <= i <= m_count,
            m_count == g.moves_of(n as int).len(),
            moves@ == g.moves_of(n as int),
            vals@.len() == m_count,
            depth >= 1,
            forall|k: int|
                0 <= k < m_count ==> #[trigger] vals@[k] as int == spec_min_value(
                    *g,
                    moves@[k].target as int,
                    (depth - 1) as nat,
                ),
            maxi as int == spec_best_max(*g, moves@.take(i as int), (depth - 1) as nat),
        decreases m_count - i,
    {
        proof {
            let pre = moves@.take(i as int);
            let cur = moves@.take(i + 1 as int);
            assert(cur.drop_last() =~= pre);
            assert(cur.last() == moves@[i as int]);
        }
        let v = vals[i];
        if v > maxi {
            maxi = v;
        }
        i += 1;
    }
    proof {
        assert(moves@.take(m_count as int) =~= moves@);
    }
    maxi
}

/// Exhaustive minimising evaluator, the executable form of
/// [`spec_min_value`]: every child subtree is evaluated in parallel, the
/// results are collected in enumeration order, then reduced.
pub fn min_value(g: &Game, n: usize, depth: u8) -> (r: i8)
    requires
        g.wf(),
        g.valid_node(n as int),
        g.expandable(n as int, depth as nat),
    ensures
        r as int == spec_min_value(*g, n as int, depth as nat),
{
    if depth == 0 {
        return g.value(n);
    }
    proof {
        lemma_expand_children(*g, n as int, depth as nat);
    }
    let moves = g.movements(n);
    let vals = par_max_values(g, moves, depth - 1);
    let m_count: usize = moves.len();
    let mut mini: i8 = VALUE_BOUND;
    let mut i: usize = 0;
    while i < m_count
        invariant
            0 <= i <= m_count,
            m_count == g.moves_of(n as int).len(),
            moves@ == g.moves_of(n as int),
            vals@.len() == m_count,
            depth >= 1,
            forall|k: int|
                0 <= k < m_count ==> #[trigger] vals@[k] as int == spec_max_value(
                    *g,
                    moves@[k].target as int,
                    (depth - 1) as nat,
                ),
            mini as int == spec_best_min(*g, moves@.take(i as int), (depth - 1) as nat),
        decreases m_count - i,
    {
        proof {
            let pre = moves@.take(i as int);
            let cur = moves@.take(i + 1 as int);
            assert(cur.drop_last() =~= pre);
            assert(cur.last() == moves@[i as int]);
        }
        let v = vals[i];
        if v < mini {
            mini = v;
        }
        i += 1;
    }
    proof {
        assert(moves@.take(m_count as int) =~= moves@);
    }
    mini
}

/// Min-max strategy with a given maximum recursion depth.
#[derive(Clone, Copy, Debug)]
pub struct MinMax(pub u8);

impl MinMax {
    /// Selects the first movement whose minimising value is maximal among
    /// all legal movements of position `n`, searching `self.0` plies deep;
    /// `None` exactly when the position has no legal movement.  Children are
    /// ranked in parallel, results collected before the reduction, so the
    /// tie-break never depends on scheduling.
    pub fn compute_next_move(&self, g: &Game, n: usize) -> (r: Option<Movement>)
        requires
            g.wf(),
            g.valid_node(n as int),
            self.0 >= 1,
            g.moves_of(n as int).len() > 0 ==> g.expandable(n as int, self.0 as nat),
        ensures
            r is Some <==> g.moves_of(n as int).len() > 0,
            r == minmax_choice(*g, n as int, self.0 as nat),
    {
        let depth = self.0;
        let moves = g.movements(n);
        let m_count: usize = moves.len();
        if m_count == 0 {
            return None;
        }
        proof {
            lemma_expand_children(*g, n as int, depth as nat);
        }
        let vals = par_min_values(g, moves, depth - 1);
        let ghost rv = root_values(*g, n as int, (depth - 1) as nat);
        proof {
            assert(forall|k: int| 0 <= k < m_count ==> rv[k] == #[trigger] vals@[k] as int);
            assert(rv.take(1).len() == 1);
        }
        let mut best: i8 = vals[0];
        let mut best_idx: usize = 0;
        let mut i: usize = 1;
        while i < m_count
            invariant
                moves@ == g.moves_of(n as int),
                m_count == moves@.len(),
                0 < m_count,
                vals@.len() == m_count,
                rv == root_values(*g, n as int, (depth - 1) as nat),
                rv.len() == m_count,
                forall|k: int| 0 <= k < m_count ==> rv[k] == #[trigger] vals@[k] as int,
                1 <= i <= m_count,
                best_idx as int == first_max_index(rv.take(i as int)),
                0 <= best_idx < i,
                best as int == rv[best_idx as int],
            decreases m_count - i,
        {
            proof {
                let pre = rv.take(i as int);
                let cur = rv.take(i + 1 as int);
                assert(cur.drop_last() =~= pre);
                assert(cur.last() == rv[i as int]);
                lemma_first_max_index(pre);
            }
            let v = vals[i];
            if v > best {
                best = v;
                best_idx = i;
            }
            i += 1;
        }
        proof {
            assert(rv.take(m_count as int) =~= rv);
        }
        Some(moves[best_idx])
    }
}

/// Anytime min-max algorithm.  Anytime algorithms compute until a deadline
/// is hit and the hosting process is killed by an external supervisor, so
/// the search runs at ever increasing depths and publishes the movement of
/// each completed depth into the shared register: whenever the process dies,
/// the register holds the answer of the last depth that finished.
pub fn min_max_anytime(g: &Game, n: usize, register: &mut MoveRegister)
    requires
        g.wf(),
        g.valid_node(n as int),
        g.moves_of(n as int).len() > 0 ==> g.expandable(n as int, 99),
    ensures
        final(register).published() == old(register).published() + Seq::new(
            99,
            |k: int| minmax_choice(*g, n as int, (k + 1) as nat),
        ),
        final(register).latest() == minmax_choice(*g, n as int, 99),
{
    let mut depth: u8 = 1;
    while depth < 100
        invariant
            g.wf(),
            g.valid_node(n as int),
            g.moves_of(n as int).len() > 0 ==> g.expandable(n as int, 99),
            1 <= depth <= 100,
            register.published() == old(register).published() + Seq::new(
                (depth - 1) as nat,
                |k: int| minmax_choice(*g, n as int, (k + 1) as nat),
            ),
            depth > 1 ==> register.latest() == minmax_choice(*g, n as int, (depth - 1) as nat),
        decreases 100 - depth,
    {
        proof {
            if g.moves_of(n as int).len() > 0 {
                g.lemma_expandable_mono(n as int, depth as nat, 99);
            }
        }
        let chosen_movement = MinMax(depth).compute_next_move(g, n);
        register.store(chosen_movement);
        proof {
            assert(Seq::new(
                depth as nat,
                |k: int| minmax_choice(*g, n as int, (k + 1) as nat),
            ) =~= Seq::new(
                (depth - 1) as nat,
                |k: int| minmax_choice(*g, n as int, (k + 1) as nat),
            ).push(minmax_choice(*g, n as int, depth as nat)));
        }
        depth += 1;
    }
}

} // verus!
