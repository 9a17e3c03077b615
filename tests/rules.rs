use hobogo::board::{Board, Coord, Influence};
use hobogo::game::{Action, GameState};

fn at(x: i32, y: i32) -> Coord {
    Coord { x, y }
}

/// A 6x1 row where player 0 holds columns 1 and 2 and player 1 columns 3 and 4.
fn settled_row() -> Board {
    let mut b = Board::new(6, 1);
    b.place(at(1, 0), 0);
    b.place(at(2, 0), 0);
    b.place(at(3, 0), 1);
    b.place(at(4, 0), 1);
    b
}

#[test]
fn single_stone_claims_only_its_cell() {
    let mut b = Board::new(5, 5);
    b.place(at(2, 2), 0);
    let infl = b.influence(at(2, 2));
    assert_eq!(infl.player(), Some(0));
    assert!(infl.is_occupied());
    assert_eq!(b.points(2), vec![1, 0]);
    assert_eq!(b.influence(at(2, 3)), Influence { claimer: None, occupied: false });
}

#[test]
fn settled_board_is_over_and_only_pass_is_left() {
    let b = settled_row();
    assert!(b.is_game_over(2));
    assert_eq!(b.volatile_cells(2), vec![false; 6]);
    for p in 0..2u8 {
        let s = GameState { board: b.copy(), next_player: p, num_players: 2 };
        assert_eq!(s.legal_actions(), vec![Action::Pass]);
        assert!(s.is_terminal());
    }
    assert_eq!(b.points(2), vec![3, 3]);
}

#[test]
fn nearest_player_claims_open_cells() {
    let mut b = Board::new(7, 1);
    b.place(at(1, 0), 0);
    b.place(at(5, 0), 1);
    assert_eq!(b.influence(at(0, 0)).player(), Some(0));
    assert_eq!(b.influence(at(2, 0)).player(), Some(0));
    assert_eq!(b.influence(at(3, 0)).player(), None);
    assert_eq!(b.influence(at(4, 0)).player(), Some(1));
    assert!(!b.influence(at(4, 0)).is_occupied());
    assert_eq!(b.points(2), vec![3, 3]);
}

#[test]
fn points_add_up_to_claimed_cells() {
    let mut b = Board::new(5, 5);
    b.place(at(0, 0), 0);
    b.place(at(4, 4), 1);
    b.place(at(1, 3), 2);
    let pts = b.points(3);
    let claimed = b.coords().into_iter().filter(|c| b.influence(*c).player().is_some()).count();
    assert_eq!(pts.iter().sum::<usize>(), claimed);
    assert!(claimed < 25);
}

#[test]
fn tie_between_players_is_neutral() {
    let mut b = Board::new(3, 3);
    b.place(at(0, 0), 0);
    b.place(at(2, 2), 1);
    assert_eq!(b.influence(at(1, 1)).player(), None);
    assert_eq!(b.influence(at(2, 0)).player(), None);
    assert_eq!(b.influence(at(1, 0)).player(), Some(0));
    assert_eq!(b.influence(at(1, 2)).player(), Some(1));
}

#[test]
fn index_and_get_outside_the_board() {
    let b = Board::new(4, 3);
    assert_eq!(b.index(at(3, 2)), Some(11));
    assert_eq!(b.index(at(1, 1)), Some(5));
    assert_eq!(b.index(at(4, 0)), None);
    assert_eq!(b.index(at(0, -1)), None);
    assert_eq!(b.get(at(0, 3)), None);
    assert_eq!(b.get(at(0, 2)), Some(None));
}

#[test]
fn coords_run_row_by_row() {
    let b = Board::new(3, 2);
    let cs = b.coords();
    assert_eq!(cs.len(), 6);
    assert_eq!(cs[0], at(0, 0));
    assert_eq!(cs[2], at(2, 0));
    assert_eq!(cs[3], at(0, 1));
    assert_eq!(b.coords_at(5), at(2, 1));
}

#[test]
fn empty_board_is_all_volatile() {
    let b = Board::new(4, 4);
    assert!(b.is_empty());
    assert_eq!(b.volatile_cells(2), vec![true; 16]);
    assert!(!b.is_game_over(2));
    assert!(b.is_valid_move(at(0, 0), 1, 2));
    assert!(!b.is_valid_move(at(0, 0), 2, 2));
    assert!(!b.is_valid_move(at(4, 0), 0, 2));
}

#[test]
fn occupied_cell_is_never_a_valid_move() {
    let mut b = Board::new(5, 5);
    b.place(at(2, 2), 0);
    assert!(!b.is_empty());
    assert!(!b.is_valid_move(at(2, 2), 0, 2));
    assert!(!b.is_valid_move(at(2, 2), 1, 2));
    let vol = b.volatile_cells(2);
    for c in b.coords() {
        if b.is_valid_move(c, 1, 2) {
            assert!(vol[b.index(c).unwrap()]);
            assert_eq!(b.get(c), Some(None));
        }
    }
}

#[test]
fn claim_next_to_an_empty_cell_stays_volatile() {
    // Columns 1 and 2 are claimed but touch an empty cell; column 4 is enclosed.
    let mut b = Board::new(5, 1);
    b.place(at(0, 0), 0);
    b.place(at(3, 0), 1);
    assert_eq!(b.influence(at(1, 0)).player(), Some(0));
    assert_eq!(b.influence(at(2, 0)).player(), Some(1));
    let vol = b.volatile_cells(2);
    assert_eq!(vol, vec![false, true, true, false, false]);
}

#[test]
fn full_board_is_over() {
    let mut b = Board::new(2, 1);
    b.place(at(0, 0), 0);
    b.place(at(1, 0), 1);
    assert!(b.is_game_over(2));
    assert_eq!(b.points(2), vec![1, 1]);
}

#[test]
fn game_over_with_no_players() {
    let b = Board::new(2, 2);
    assert!(b.is_game_over(0));
}

#[test]
fn move_then_passes_returns_the_turn() {
    for n in 2..6usize {
        let s = GameState::new(5, n, 1);
        let mut t = s.apply(Action::Move(at(2, 2)));
        assert_eq!(t.board.get(at(2, 2)), Some(Some(1)));
        for _ in 0..n - 1 {
            t = t.apply(Action::Pass);
        }
        assert_eq!(t.next_player, 1);
        assert_eq!(t.board.get(at(2, 2)), Some(Some(1)));
    }
}

#[test]
fn apply_advances_turn_modulo_players() {
    let s = GameState::new(3, 3, 2);
    let t = s.apply(Action::Pass);
    assert_eq!(t.next_player, 0);
    assert!(t.board.is_empty());
    let u = t.apply(Action::Move(at(0, 0)));
    assert_eq!(u.next_player, 1);
    assert_eq!(u.board.get(at(0, 0)), Some(Some(0)));
}

#[test]
fn legal_actions_list_every_valid_move_once() {
    let s = GameState::new(3, 2, 0);
    let acts = s.legal_actions();
    assert_eq!(acts.len(), 9);
    assert_eq!(acts[0], Action::Move(at(0, 0)));
    assert_eq!(acts[4], Action::Move(at(1, 1)));
    let s2 = s.apply(Action::Move(at(1, 1)));
    let acts2 = s2.legal_actions();
    assert_eq!(acts2.len(), 8);
    assert!(!acts2.contains(&Action::Move(at(1, 1))));
}

#[test]
fn game_over_stays_over() {
    let b = settled_row();
    assert!(b.is_game_over(2));
    for c in b.coords() {
        for p in 0..2u8 {
            assert!(!b.is_valid_move(c, p, 2));
        }
    }
    let s = GameState { board: b, next_player: 0, num_players: 2 };
    let t = s.apply(Action::Pass);
    assert!(t.is_terminal());
}

#[test]
fn settled_cell_stays_settled_after_valid_moves() {
    // Column 4 is player 1's, with its only neighbour occupied.
    let mut b = Board::new(5, 1);
    b.place(at(0, 0), 0);
    b.place(at(3, 0), 1);
    assert_eq!(b.volatile_cells(2)[4], false);
    assert_eq!(b.influence(at(4, 0)).player(), Some(1));
    assert!(b.is_valid_move(at(2, 0), 0, 2));
    b.place(at(2, 0), 0);
    assert_eq!(b.volatile_cells(2)[4], false);
    assert_eq!(b.influence(at(4, 0)).player(), Some(1));
    // Column 1 is now enclosed too, so nothing is left to play.
    assert!(!b.is_valid_move(at(1, 0), 1, 2));
    assert!(b.is_game_over(2));
    assert_eq!(b.points(2), vec![3, 2]);
}

#[test]
fn open_cell_near_empty_cells_stays_volatile() {
    let mut b = Board::new(7, 1);
    b.place(at(0, 0), 0);
    b.place(at(6, 0), 1);
    assert_eq!(b.influence(at(2, 0)).player(), Some(0));
    assert!(b.volatile_cells(2)[2]);
    assert!(b.is_valid_move(at(3, 0), 1, 2));
}

#[test]
fn influence_outside_the_board_is_none() {
    let mut b = Board::new(3, 3);
    b.place(at(1, 1), 1);
    assert_eq!(b.influence_at(at(3, 1)), None);
    assert_eq!(b.influence_at(at(-1, 0)), None);
    assert_eq!(b.influence_at(at(1, 1)), Some(Influence { claimer: Some(1), occupied: true }));
}
