use hobogo::board::{Board, Coord};
use hobogo::game::{Action, GameState};
use hobogo::mcts::Mcts;
use rand::rngs::SmallRng;
use rand::SeedableRng;

fn at(x: i32, y: i32) -> Coord {
    Coord { x, y }
}

#[test]
fn terminal_state_gives_no_action() {
    let mut b = Board::new(6, 1);
    b.place(at(1, 0), 0);
    b.place(at(2, 0), 0);
    b.place(at(3, 0), 1);
    b.place(at(4, 0), 1);
    let s = GameState { board: b, next_player: 0, num_players: 2 };
    assert!(s.is_terminal());
    let mut rng = SmallRng::seed_from_u64(7);
    let mut m = Mcts::new(s, &mut rng);
    for _ in 0..200 {
        m.iterate(&mut rng);
    }
    assert_eq!(m.best_action(), None);
    assert_eq!(m.states.len(), 1);
    assert_eq!(m.visits[0], 200);
}

#[test]
fn no_iteration_gives_no_action() {
    let mut rng = SmallRng::seed_from_u64(1);
    let m = Mcts::new(GameState::new(3, 2, 0), &mut rng);
    assert_eq!(m.best_action(), None);
}

#[test]
fn search_picks_a_valid_move() {
    let mut rng = SmallRng::seed_from_u64(42);
    let mut s = GameState::new(5, 2, 0);
    s = s.apply(Action::Move(at(1, 1)));
    let mut m = Mcts::new(s.copy(), &mut rng);
    for _ in 0..150 {
        m.iterate(&mut rng);
    }
    match m.best_action() {
        Some(Action::Move(c)) => assert!(s.board.is_valid_move(c, s.next_player, 2)),
        other => panic!("expected a move, got {:?}", other),
    }
    assert!(m.states.len() > 1);
    assert_eq!(m.visits[0], 150);
}

#[test]
fn symmetric_opening_has_no_directional_bias() {
    let trials = 900u64;
    let mut counts = vec![0usize; 9];
    for seed in 0..trials {
        let mut rng = SmallRng::seed_from_u64(seed);
        let mut m = Mcts::new(GameState::new(3, 2, 0), &mut rng);
        for _ in 0..9 {
            m.iterate(&mut rng);
        }
        match m.best_action() {
            Some(Action::Move(c)) => counts[(c.y * 3 + c.x) as usize] += 1,
            other => panic!("expected a move, got {:?}", other),
        }
    }
    for &k in &counts {
        assert!(k > 50 && k < 150, "counts {:?}", counts);
    }
    let corners = counts[0] + counts[2] + counts[6] + counts[8];
    assert!(corners > 300 && corners < 500, "counts {:?}", counts);
}

#[test]
fn one_round_on_a_live_game_gives_an_action() {
    let mut rng = SmallRng::seed_from_u64(3);
    let s = GameState::new(4, 3, 2);
    let mut m = Mcts::new(s, &mut rng);
    m.iterate(&mut rng);
    assert_eq!(m.states.len(), 2);
    assert_eq!(m.parent[1], 0);
    match m.best_action() {
        Some(Action::Move(c)) => assert!(m.states[0].board.is_valid_move(c, 2, 3)),
        other => panic!("expected a move, got {:?}", other),
    }
}
