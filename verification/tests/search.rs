use blobwar_strategy::game::{Game, Movement, Node};
use blobwar_strategy::strategy::alphabeta::{alpha_beta_min, AlphaBeta};
use blobwar_strategy::strategy::greedy::Greedy;
use blobwar_strategy::strategy::minmax::{max_value, min_value, MinMax};

fn node(value: i8, targets: &[usize]) -> Node {
    Node { value, moves: targets.iter().map(|t| Movement { target: *t }).collect() }
}

/// Root 0 maximises over branches 1 and 2; one ply down minimises over the
/// leaves.  A leaf of heuristic value `v` is seen by the maximising
/// horizon evaluator as `-v`, so leaves evaluated as `[3, 5, 2, 9]` carry
/// stored values `[-3, -5, -2, -9]`.
fn two_branch_tree(leaf_values: [i8; 4]) -> Game {
    Game {
        nodes: vec![
            node(0, &[1, 2]),
            node(0, &[3, 4]),
            node(0, &[5, 6]),
            node(leaf_values[0], &[]),
            node(leaf_values[1], &[]),
            node(leaf_values[2], &[]),
            node(leaf_values[3], &[]),
        ],
    }
}

#[test]
fn no_move_returns_none() {
    let g = Game { nodes: vec![node(5, &[])] };
    assert!(g.check_wf());
    assert_eq!(Greedy().compute_next_move(&g, 0), None);
    assert_eq!(MinMax(1).compute_next_move(&g, 0), None);
    assert_eq!(MinMax(4).compute_next_move(&g, 0), None);
    assert_eq!(AlphaBeta(1).compute_next_move(&g, 0), None);
    assert_eq!(AlphaBeta(3).compute_next_move(&g, 0), None);
}

#[test]
fn single_move_is_forced() {
    // One legal movement at the root, then a self-loop to stay searchable.
    let g = Game { nodes: vec![node(0, &[1]), node(7, &[1])] };
    assert!(g.check_wf());
    assert!(g.check_expandable(0, 6));
    let only = Some(Movement { target: 1 });
    assert_eq!(Greedy().compute_next_move(&g, 0), only);
    assert_eq!(MinMax(1).compute_next_move(&g, 0), only);
    assert_eq!(MinMax(2).compute_next_move(&g, 0), only);
    assert_eq!(MinMax(5).compute_next_move(&g, 0), only);
    assert_eq!(AlphaBeta(1).compute_next_move(&g, 0), only);
    assert_eq!(AlphaBeta(4).compute_next_move(&g, 0), only);
}

#[test]
fn minmax_picks_expected_branch() {
    // Leaves evaluated as [3, 5, 2, 9]:
    // root value = max(min(3, 5), min(2, 9)) = max(3, 2) = 3, first branch.
    let g = two_branch_tree([-3, -5, -2, -9]);
    assert!(g.check_wf());
    assert!(g.check_expandable(0, 2));
    assert_eq!(min_value(&g, 1, 1), 3);
    assert_eq!(min_value(&g, 2, 1), 2);
    assert_eq!(max_value(&g, 0, 2), 3);
    assert_eq!(MinMax(2).compute_next_move(&g, 0), Some(Movement { target: 1 }));
}

#[test]
fn alphabeta_matches_minmax() {
    let g = two_branch_tree([-3, -5, -2, -9]);
    assert_eq!(AlphaBeta(2).compute_next_move(&g, 0), Some(Movement { target: 1 }));
    assert_eq!(
        AlphaBeta(2).compute_next_move(&g, 0),
        MinMax(2).compute_next_move(&g, 0)
    );
    // The pruning evaluator agrees with the exhaustive one on the full window.
    let mut count: u64 = 0;
    assert_eq!(alpha_beta_min(&g, 1, -63, 63, 1, &mut count), min_value(&g, 1, 1));
    assert_eq!(alpha_beta_min(&g, 2, -63, 63, 1, &mut count), min_value(&g, 2, 1));
}

#[test]
fn pruning_skips_siblings() {
    // Leaves evaluated as [3, 5, 1, 9].  After the first branch proves 3,
    // the second branch's first leaf already fails low (1 <= alpha = 3), so
    // its remaining sibling is never visited.
    let g = two_branch_tree([-3, -5, -1, -9]);
    let mut count: u64 = 0;
    let first = alpha_beta_min(&g, 1, -63, 63, 1, &mut count);
    assert_eq!(first, 3);
    assert_eq!(count, 3); // branch node and both of its leaves
    let second = alpha_beta_min(&g, 2, first, 63, 1, &mut count);
    assert_eq!(second, 1);
    // Only two more invocations: the branch node and its first leaf.
    assert_eq!(count, 5);
    // The exhaustive search visits all six positions below the root.
    let full_visits: u64 = 6;
    assert!(count < full_visits);
}

#[test]
fn greedy_diverges_from_deep_search() {
    // Branch 1 looks best immediately (value 10 > 5) but one ply later
    // collapses to -50; branch 2 holds 20.  Greedy takes the local optimum,
    // the depth-2 searches the globally better branch.
    let g = Game {
        nodes: vec![
            node(0, &[1, 2]),
            node(10, &[3]),
            node(5, &[4]),
            node(50, &[]),
            node(-20, &[]),
        ],
    };
    assert!(g.check_wf());
    assert!(g.check_expandable(0, 2));
    assert_eq!(Greedy().compute_next_move(&g, 0), Some(Movement { target: 1 }));
    assert_eq!(MinMax(2).compute_next_move(&g, 0), Some(Movement { target: 2 }));
    assert_eq!(AlphaBeta(2).compute_next_move(&g, 0), Some(Movement { target: 2 }));
}

#[test]
fn ties_favor_first_movement() {
    let g = Game { nodes: vec![node(0, &[1, 2]), node(4, &[]), node(4, &[])] };
    assert_eq!(Greedy().compute_next_move(&g, 0), Some(Movement { target: 1 }));
    assert_eq!(MinMax(1).compute_next_move(&g, 0), Some(Movement { target: 1 }));
    assert_eq!(AlphaBeta(1).compute_next_move(&g, 0), Some(Movement { target: 1 }));
}

#[test]
fn zero_sum_at_horizon() {
    // The two horizon evaluations of one position are negations of each
    // other: the perspective flip of a zero-sum game.
    let g = Game { nodes: vec![node(17, &[]), node(-63, &[])] };
    assert_eq!(max_value(&g, 0, 0), -min_value(&g, 0, 0));
    assert_eq!(max_value(&g, 1, 0), -min_value(&g, 1, 0));
    assert_eq!(min_value(&g, 0, 0), 17);
    assert_eq!(max_value(&g, 0, 0), -17);
}

#[test]
fn greedy_keeps_worst_valued_movement() {
    // Even when every resulting position sits at the bottom of the value
    // range, a legal movement is still returned.
    let g = Game { nodes: vec![node(0, &[1, 2]), node(-63, &[]), node(-63, &[])] };
    assert_eq!(Greedy().compute_next_move(&g, 0), Some(Movement { target: 1 }));
}

#[test]
fn check_wf_accepts_and_rejects() {
    let good = Game { nodes: vec![node(63, &[0]), node(-63, &[1])] };
    assert!(good.check_wf());
    let bad_value = Game { nodes: vec![Node { value: 90, moves: vec![] }] };
    assert!(!bad_value.check_wf());
    let bad_target = Game { nodes: vec![node(0, &[7])] };
    assert!(!bad_target.check_wf());
}

#[test]
fn check_expandable_depths() {
    let g = Game { nodes: vec![node(0, &[1]), node(0, &[0]), node(0, &[])] };
    assert!(g.check_expandable(0, 0));
    assert!(g.check_expandable(0, 99));
    assert!(g.check_expandable(2, 0));
    assert!(!g.check_expandable(2, 1));
}

#[test]
fn play_follows_movement() {
    let g = Game { nodes: vec![node(0, &[1]), node(3, &[])] };
    let m = Greedy().compute_next_move(&g, 0).unwrap();
    assert_eq!(g.play(0, m), 1);
    assert_eq!(g.value(g.play(0, m)), 3);
}
