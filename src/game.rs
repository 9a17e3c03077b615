use vstd::prelude::*;
use crate::board::{Board, Coord, Player};

verus! {

/// What the player to move does: skip the turn, or place a stone.
#[derive(Clone, Copy, Debug, PartialEq, Eq, Structural)]
pub enum Action {
    Pass,
    Move(Coord),
}

/// A board, whose turn it is, and how many players take part.
#[derive(Debug)]
pub struct GameState {
    pub board: Board,
    pub next_player: Player,
    pub num_players: usize,
}

/// The mathematical value of a game state.
pub struct GameView {
    pub width: int,
    pub height: int,
    pub cells: Seq<Option<Player>>,
    pub next_player: int,
    pub num_players: int,
}

/// The turn after `p` among `n` players.
pub open spec fn next_turn(p: int, n: int) -> int {
    (p + 1) % n
}

/// The view after `a`; a move places the mover's stone on its cell.
pub open spec fn apply_view(v: GameView, a: Action) -> GameView {
    GameView {
        cells: match a {
            Action::Pass => v.cells,
            Action::Move(c) => v.cells.update(c.y * v.width + c.x, Some(v.next_player as Player)),
        },
        next_player: next_turn(v.next_player, v.num_players),
        ..v
    }
}

/// The view after `k` passes.
pub open spec fn passes(v: GameView, k: nat) -> GameView
    decreases k,
{
    if k == 0 {
        v
    } else {
        apply_view(passes(v, (k - 1) as nat), Action::Pass)
    }
}

/// Open cells in `s`.
pub open spec fn open_count(s: Seq<Option<Player>>) -> nat
    decreases s.len(),
{
    if s.len() == 0 {
        0
    } else {
        open_count(s.drop_last()) + if s.last() is None {
            1nat
        } else {
            0nat
        }
    }
}

pub proof fn lemma_fill_one(s: Seq<Option<Player>>, i: int, p: Player)
    requires
        0 <= i < s.len(),
        s[i] is None,
    ensures
        open_count(s.update(i, Some(p))) + 1 == open_count(s),
    decreases s.len(),
{
    let t = s.update(i, Some(p));
    if i == s.len() - 1 {
        assert(t.drop_last() == s.drop_last());
    } else {
        lemma_fill_one(s.drop_last(), i, p);
        assert(t.drop_last() == s.drop_last().update(i, Some(p)));
    }
}

proof fn lemma_passes_turn(w: GameView, k: nat)
    requires
        0 <= w.next_player < w.num_players,
    ensures
        passes(w, k).next_player == (w.next_player + k) % w.num_players,
        passes(w, k).num_players == w.num_players,
        passes(w, k).cells == w.cells,
    decreases k,
{
    let n = w.num_players;
    if k == 0 {
        vstd::arithmetic::div_mod::lemma_small_mod(w.next_player as nat, n as nat);
    } else {
        lemma_passes_turn(w, (k - 1) as nat);
        vstd::arithmetic::div_mod::lemma_add_mod_noop_right(1, w.next_player + k - 1, n);
    }
}

/// Turn order is cyclic: after a move and then `n - 1` passes among `n`
/// players, the player who moved is to move again, on the board the move left.
pub proof fn lemma_turn_order_cycles(v: GameView, c: Coord)
    requires
        0 <= v.next_player < v.num_players,
    ensures
        passes(apply_view(v, Action::Move(c)), (v.num_players - 1) as nat).next_player == v.next_player,
        passes(apply_view(v, Action::Move(c)), (v.num_players - 1) as nat).cells == apply_view(
            v,
            Action::Move(c),
        ).cells,
{
    let n = v.num_players;
    let w = apply_view(v, Action::Move(c));
    let p = v.next_player;
    assert(0 <= (p + 1) % n < n) by {
        vstd::arithmetic::div_mod::lemma_mod_bound(p + 1, n);
    }
    lemma_passes_turn(w, (n - 1) as nat);
    vstd::arithmetic::div_mod::lemma_add_mod_noop_right(n - 1, p + 1, n);
    vstd::arithmetic::div_mod::lemma_mod_add_multiples_vanish(p, n);
    vstd::arithmetic::div_mod::lemma_small_mod(p as nat, n as nat);
}

impl GameState {
    pub open spec fn view(&self) -> GameView {
        GameView {
            width: self.board.width as int,
            height: self.board.height as int,
            cells: self.board@,
            next_player: self.next_player as int,
            num_players: self.num_players as int,
        }
    }

    pub open spec fn wf(&self) -> bool {
        &&& self.board.wf()
        &&& (self.next_player as int) < self.num_players
        &&& self.num_players <= 256
    }

    /// A move of the player to move is valid.
    pub open spec fn legal(&self, a: Action) -> bool {
        match a {
            Action::Pass => true,
            Action::Move(c) => self.board.valid_move(c, self.next_player, self.num_players),
        }
    }

    pub open spec fn has_move(&self) -> bool {
        exists|c: Coord| #[trigger] self.board.valid_move(c, self.next_player, self.num_players)
    }

    /// An empty square board of side `board_size`, with `starting_player` to move.
    pub fn new(board_size: i32, num_players: usize, starting_player: Player) -> (r: GameState)
        requires
            board_size > 0,
            board_size * board_size <= usize::MAX,
            (starting_player as int) < num_players,
            num_players <= 256,
        ensures
            r.wf(),
            r.board.width == board_size,
            r.board.height == board_size,
            forall|i: int| 0 <= i < r.board@.len() ==> r.board@[i] is None,
            r.next_player == starting_player,
            r.num_players == num_players,
    {
        GameState { board: Board::new(board_size, board_size), next_player: starting_player, num_players }
    }

    /// A state with the same board, turn and players.
    pub fn copy(&self) -> (r: GameState)
        requires
            self.wf(),
        ensures
            r@ == self@,
            r.wf(),
    {
        GameState { board: self.board.copy(), next_player: self.next_player, num_players: self.num_players }
    }

    /// The state after `action`: a move places a stone, and either way the turn
    /// passes to the next player.
    pub fn apply(&self, action: Action) -> (r: GameState)
        requires
            self.wf(),
            self.legal(action),
        ensures
            r.wf(),
            r@ == apply_view(self@, action),
    {
        let mut board = self.board.copy();
        if let Action::Move(c) = action {
            board.place(c, self.next_player);
        }
        let next: Player = ((self.next_player as usize + 1) % self.num_players) as Player;
        let r = GameState { board, next_player: next, num_players: self.num_players };
        assert(r@.cells == apply_view(self@, action).cells);
        assert(r@.next_player == apply_view(self@, action).next_player);
        r
    }

    /// Every valid move of the player to move, row by row; `Pass` alone when
    /// there is none.
    pub fn legal_actions(&self) -> (r: Vec<Action>)
        requires
            self.wf(),
        ensures
            !self.has_move() ==> r@ == seq![Action::Pass],
            self.has_move() ==> forall|i: int|
                0 <= i < r@.len() ==> (#[trigger] r@[i] matches Action::Move(c) && self.board.valid_move(
                    c,
                    self.next_player,
                    self.num_players,
                )),
            self.has_move() ==> forall|c: Coord|
                #[trigger] self.board.valid_move(c, self.next_player, self.num_players) ==> r@.contains(
                    Action::Move(c),
                ),
            self.has_move() ==> forall|i: int, j: int|
                0 <= i < j < r@.len() ==> #[trigger] r@[i] != #[trigger] r@[j],
            r@.len() > 0,
    {
        let b = &self.board;
        let mut r: Vec<Action> = Vec::new();
        let mut i: usize = 0;
        while i < b.cells.len()
            invariant
                self.wf(),
                b == &self.board,
                i <= b@.len(),
                forall|k: int|
                    0 <= k < r@.len() ==> (#[trigger] r@[k] matches Action::Move(c) && b.valid_move(
                        c,
                        self.next_player,
                        self.num_players,
                    ) && 0 <= b.index_of(c) < i),
                forall|k: int, l: int|
                    #![trigger r@[k], r@[l]]
                    0 <= k < l < r@.len() ==> (r@[k] matches Action::Move(c) && r@[l] matches Action::Move(
                        d,
                    ) && b.index_of(c) < b.index_of(d)),
                forall|c: Coord|
                    #[trigger] b.valid_move(c, self.next_player, self.num_players) && b.index_of(c) < i
                        ==> r@.contains(Action::Move(c)),
            decreases b@.len() - i,
        {
            let c = b.coords_at(i);
            let ghost r0 = r@;
            if b.is_valid_move(c, self.next_player, self.num_players) {
                r.push(Action::Move(c));
                assert(r@[r@.len() - 1] == Action::Move(c));
            }
            proof {
                assert forall|d: Coord|
                    #[trigger] b.valid_move(d, self.next_player, self.num_players) && b.index_of(d) < i + 1
                        implies r@.contains(Action::Move(d)) by {
                    b.lemma_index_of(d);
                    if b.index_of(d) < i {
                        assert(r0.contains(Action::Move(d)));
                        let k = choose|k: int| 0 <= k < r0.len() && r0[k] == Action::Move(d);
                        assert(r@[k] == Action::Move(d));
                    } else {
                        assert(d == c);
                        assert(r@[r@.len() - 1] == Action::Move(c));
                    }
                }
            }
            i = i + 1;
        }
        if r.len() == 0 {
            proof {
                assert forall|c: Coord| !#[trigger] b.valid_move(c, self.next_player, self.num_players) by {
                    if b.valid_move(c, self.next_player, self.num_players) {
                        b.lemma_index_of(c);
                        assert(r@.contains(Action::Move(c)));
                    }
                }
            }
            r.push(Action::Pass);
            assert(r@ == seq![Action::Pass]);
        } else {
            proof {
                let a = r@[0];
                assert(a matches Action::Move(c) && b.valid_move(c, self.next_player, self.num_players));
                assert forall|c: Coord| #[trigger] b.valid_move(c, self.next_player, self.num_players)
                    implies r@.contains(Action::Move(c)) by {
                    b.lemma_index_of(c);
                }
                assert forall|k: int, l: int| 0 <= k < l < r@.len() implies #[trigger] r@[k] != #[trigger] r@[l] by {
                    assert(r@[k] matches Action::Move(c) && r@[l] matches Action::Move(d) && b.index_of(c) < b.index_of(d));
                }
            }
        }
        r
    }

    /// While the game goes on, the player to move has a valid move: validity
    /// does not depend on who places.
    pub proof fn lemma_mover_can_move(&self)
        requires
            self.wf(),
            !self.board.game_over(self.num_players),
        ensures
            self.has_move(),
    {
        let (c, p) = choose|c: Coord, p: Player| #[trigger] self.board.valid_move(c, p, self.num_players);
        assert(self.board.valid_move(c, self.next_player, self.num_players));
    }

    /// The game has ended: no player has a valid move.
    pub fn is_terminal(&self) -> (r: bool)
        requires
            self.wf(),
        ensures
            r == self.board.game_over(self.num_players),
    {
        self.board.is_game_over(self.num_players)
    }
}

} // verus!
