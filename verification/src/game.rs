//! The game-state model consumed by every search strategy.
//!
//! A position is a node of an explicit, possibly cyclic, game graph.  Each
//! node carries the heuristic value of the position, scored from the
//! perspective of the side to move, and the list of legal movements; a
//! movement names the node the game moves to when it is played.  States are
//! plain values: playing a movement never mutates the position it was taken
//! from, which is what makes sharing positions across parallel search
//! branches safe.

use vstd::prelude::*;

verus! {

/// The heuristic value of every position lies in `[-VALUE_BOUND, VALUE_BOUND]`.
pub const VALUE_BOUND: i8 = 63;

/// One legal move: an opaque, copyable descriptor naming the position the
/// game reaches when the move is played.
#[derive(Clone, Copy, Debug, PartialEq, Eq, Structural)]
pub struct Movement {
    /// Index of the node the move leads to.
    pub target: usize,
}

/// One position of the game graph.
#[derive(Clone, Debug)]
pub struct Node {
    /// Heuristic value of the position, from the perspective of the side to
    /// move; zero-sum, so swapping roles flips the sign.
    pub value: i8,
    /// The legal movements of the side to move, in a stable order.
    pub moves: Vec<Movement>,
}

/// An explicit game graph.  Index `0..nodes.len()` are the positions.
#[derive(Clone, Debug)]
pub struct Game {
    /// The positions of the game.
    pub nodes: Vec<Node>,
}

impl Game {
    /// Number of positions in the graph.
    pub open spec fn node_count(&self) -> int {
        self.nodes@.len() as int
    }

    /// Whether `n` indexes a position.
    pub open spec fn valid_node(&self, n: int) -> bool {
        0 <= n < self.node_count()
    }

    /// Heuristic value of position `n`, side to move's perspective.
    pub open spec fn value_of(&self, n: int) -> int {
        self.nodes@[n].value as int
    }

    /// The legal movements of position `n`, in enumeration order.
    pub open spec fn moves_of(&self, n: int) -> Seq<Movement> {
        self.nodes@[n].moves@
    }

    /// Well-formedness: every value is in range and every movement leads to a
    /// position of the graph.
    pub open spec fn wf(&self) -> bool {
        &&& forall|n: int|
            self.valid_node(n) ==> -VALUE_BOUND <= #[trigger] self.value_of(n) <= VALUE_BOUND
        &&& forall|n: int, k: int|
            self.valid_node(n) && 0 <= k < self.moves_of(n).len()
                ==> (#[trigger] self.moves_of(n)[k]).target < self.node_count()
    }

    /// The game can be searched to `depth` plies below position `n`: every
    /// position met before the horizon still has at least one legal movement.
    pub open spec fn expandable(&self, n: int, depth: nat) -> bool
        decreases depth,
    {
        depth == 0 || {
            &&& self.moves_of(n).len() > 0
            &&& forall|k: int|
                0 <= k < self.moves_of(n).len() ==> self.expandable(
                    (#[trigger] self.moves_of(n)[k]).target as int,
                    (depth - 1) as nat,
                )
        }
    }

    /// A position searchable to some depth is searchable to any smaller depth.
    pub proof fn lemma_expandable_mono(&self, n: int, d1: nat, d2: nat)
        requires
            self.wf(),
            self.valid_node(n),
            d1 <= d2,
            self.expandable(n, d2),
        ensures
            self.expandable(n, d1),
        decreases d2,
    {
        if d1 > 0 {
            assert forall|k: int| 0 <= k < self.moves_of(n).len() implies self.expandable(
                (#[trigger] self.moves_of(n)[k]).target as int,
                (d1 - 1) as nat,
            ) by {
                self.lemma_expandable_mono(
                    self.moves_of(n)[k].target as int,
                    (d1 - 1) as nat,
                    (d2 - 1) as nat,
                );
            }
        }
    }

    /// Heuristic value of position `n`.
    pub fn value(&self, n: usize) -> (r: i8)
        requires
            self.wf(),
            self.valid_node(n as int),
        ensures
            r as int == self.value_of(n as int),
            -VALUE_BOUND <= r <= VALUE_BOUND,
    {
        proof {
            assert(-VALUE_BOUND <= self.value_of(n as int) <= VALUE_BOUND);
        }
        self.nodes[n].value
    }

    /// The legal movements of position `n`.
    pub fn movements(&self, n: usize) -> (r: &Vec<Movement>)
        requires
            self.valid_node(n as int),
        ensures
            r@ == self.moves_of(n as int),
    {
        &self.nodes[n].moves
    }

    /// Plays movement `m`: returns the position it leads to.  The receiver is
    /// never mutated; the result indexes a fresh, independent position.
    pub fn play(&self, n: usize, m: Movement) -> (r: usize)
        requires
            self.wf(),
            self.valid_node(n as int),
            self.moves_of(n as int).contains(m),
        ensures
            r == m.target,
            self.valid_node(r as int),
    {
        m.target
    }

    /// Checks well-formedness of the graph.
    pub fn check_wf(&self) -> (r: bool)
        ensures
            r == self.wf(),
    {
        let n_count: usize = self.nodes.len();
        let mut n: usize = 0;
        while n < n_count
            invariant
                n <= n_count,
                n_count == self.node_count(),
                forall|j: int|
                    0 <= j < n ==> -VALUE_BOUND <= #[trigger] self.value_of(j) <= VALUE_BOUND,
                forall|j: int, k: int|
                    0 <= j < n && 0 <= k < self.moves_of(j).len()
                        ==> (#[trigger] self.moves_of(j)[k]).target < self.node_count(),
            decreases n_count - n,
        {
            let node = &self.nodes[n];
            if node.value < -VALUE_BOUND || node.value > VALUE_BOUND {
                proof {
                    assert(self.value_of(n as int) == node.value as int);
                    assert(!self.wf());
                }
                return false;
            }
            let m_count: usize = node.moves.len();
            let mut k: usize = 0;
            while k < m_count
                invariant
                    k <= m_count,
                    n < n_count,
                    n_count == self.node_count(),
                    m_count == self.moves_of(n as int).len(),
                    node == self.nodes@[n as int],
                    forall|j: int|
                        0 <= j < k ==> (#[trigger] self.moves_of(n as int)[j]).target
                            < self.node_count(),
                decreases m_count - k,
            {
                if node.moves[k].target >= n_count {
                    proof {
                        assert(self.moves_of(n as int)[k as int] == node.moves@[k as int]);
                        assert(!self.wf());
                    }
                    return false;
                }
                k += 1;
            }
            n += 1;
        }
        true
    }

    /// Checks that position `n` can be searched to `depth` plies.
    pub fn check_expandable(&self, n: usize, depth: u8) -> (r: bool)
        requires
            self.wf(),
            self.valid_node(n as int),
        ensures
            r == self.expandable(n as int, depth as nat),
        decreases depth,
    {
        if depth == 0 {
            return true;
        }
        let moves = self.movements(n);
        let m_count: usize = moves.len();
        if m_count == 0 {
            return false;
        }
        let mut k: usize = 0;
        while k < m_count
            invariant
                k <= m_count,
                self.wf(),
                self.valid_node(n as int),
                depth >= 1,
                moves@ == self.moves_of(n as int),
                m_count == self.moves_of(n as int).len(),
                forall|j: int|
                    0 <= j < k ==> self.expandable(
                        (#[trigger] self.moves_of(n as int)[j]).target as int,
                        (depth - 1) as nat,
                    ),
            decreases m_count - k,
        {
            if !self.check_expandable(moves[k].target, depth - 1) {
                return false;
            }
            k += 1;
        }
        true
    }
}

} // verus!
