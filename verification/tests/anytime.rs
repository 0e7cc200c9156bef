use blobwar_strategy::game::{Game, Movement, Node};
use blobwar_strategy::register::MoveRegister;
use blobwar_strategy::strategy::alphabeta::alpha_beta_anytime;
use blobwar_strategy::strategy::minmax::min_max_anytime;

fn cycle_game() -> Game {
    // Two positions forever trading the move: searchable at any depth.
    Game {
        nodes: vec![
            Node { value: 1, moves: vec![Movement { target: 1 }] },
            Node { value: -1, moves: vec![Movement { target: 0 }] },
        ],
    }
}

#[test]
fn register_is_last_write_wins() {
    let mut register = MoveRegister::connect();
    assert_eq!(register.read(), None);
    register.store(Some(Movement { target: 4 }));
    assert_eq!(register.read(), Some(Movement { target: 4 }));
    register.store(Some(Movement { target: 9 }));
    assert_eq!(register.read(), Some(Movement { target: 9 }));
    register.store(None);
    assert_eq!(register.read(), None);
}

#[test]
fn min_max_anytime_publishes_legal_movement() {
    let g = cycle_game();
    assert!(g.check_wf());
    assert!(g.check_expandable(0, 99));
    let mut register = MoveRegister::connect();
    min_max_anytime(&g, 0, &mut register);
    // After every completed depth the register held a movement drawn from
    // the position's own movement list; the last one is still there.
    assert_eq!(register.read(), Some(Movement { target: 1 }));
}

#[test]
fn alpha_beta_anytime_publishes_legal_movement() {
    let g = cycle_game();
    assert!(g.check_expandable(1, 102));
    let mut register = MoveRegister::connect();
    alpha_beta_anytime(&g, 1, &mut register);
    assert_eq!(register.read(), Some(Movement { target: 0 }));
}

#[test]
fn anytime_on_blocked_position_publishes_none() {
    let g = Game { nodes: vec![Node { value: 0, moves: vec![] }] };
    let mut register = MoveRegister::connect();
    register.store(Some(Movement { target: 0 }));
    min_max_anytime(&g, 0, &mut register);
    // A position without movements publishes the empty result, overwriting
    // anything stored before.
    assert_eq!(register.read(), None);
}
