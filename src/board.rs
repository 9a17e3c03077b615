use vstd::prelude::*;

verus! {

/// A participant, numbered from zero.
pub type Player = u8;

/// Distance used for "no stone at all".
pub const FAR: u64 = 0xffff_ffff_ffff_ffff;

/// A grid cell, by column `x` and row `y`.
#[derive(Clone, Copy, Debug, PartialEq, Eq, Structural)]
pub struct Coord {
    pub x: i32,
    pub y: i32,
}

/// Who claims a cell, and whether a stone stands on it.
#[derive(Clone, Copy, Debug, PartialEq, Eq, Structural)]
pub struct Influence {
    pub claimer: Option<Player>,
    pub occupied: bool,
}

impl Influence {
    pub fn player(&self) -> (r: Option<Player>)
        ensures
            r == self.claimer,
    {
        self.claimer
    }

    pub fn is_occupied(&self) -> (r: bool)
        ensures
            r == self.occupied,
    {
        self.occupied
    }
}

/// A rectangular grid of cells, row by row; a cell is empty or holds one stone.
#[derive(Debug)]
pub struct Board {
    pub width: i32,
    pub height: i32,
    pub cells: Vec<Option<Player>>,
}

pub open spec fn abs(a: int) -> int {
    if a < 0 { -a } else { a }
}

impl Board {
    /// The cells, row by row.
    pub open spec fn view(&self) -> Seq<Option<Player>> {
        self.cells@
    }

    pub open spec fn wf(&self) -> bool {
        &&& self.width > 0
        &&& self.height > 0
        &&& self.width * self.height <= usize::MAX
        &&& self@.len() == self.width * self.height
    }

    pub open spec fn in_bounds(&self, c: Coord) -> bool {
        0 <= c.x < self.width && 0 <= c.y < self.height
    }

    pub open spec fn index_of(&self, c: Coord) -> int {
        c.y * self.width + c.x
    }

    pub open spec fn coord_of(&self, i: int) -> Coord {
        Coord { x: (i % self.width as int) as i32, y: (i / self.width as int) as i32 }
    }

    /// 4-connected grid distance between cell `i` and `c`.
    pub open spec fn dist(&self, i: int, c: Coord) -> int {
        abs(i % self.width as int - c.x) + abs(i / self.width as int - c.y)
    }

    pub open spec fn stone(&self, i: int) -> bool {
        0 <= i < self@.len() && self@[i] is Some
    }

    pub open spec fn stone_of(&self, i: int, p: Player) -> bool {
        0 <= i < self@.len() && self@[i] == Some(p)
    }

    /// A stone of a player other than `p`.
    pub open spec fn rival_stone(&self, i: int, p: Player) -> bool {
        self.stone(i) && self@[i] != Some(p)
    }

    /// `q` has a stone strictly closer to the open cell `c` than every stone of
    /// every other player, and some other player has a stone at all.
    pub open spec fn claims_open(&self, c: Coord, q: Player) -> bool {
        &&& exists|i: int|
            #![trigger self.stone_of(i, q)]
            self.stone_of(i, q) && forall|j: int|
                #![trigger self.rival_stone(j, q)]
                self.rival_stone(j, q) ==> self.dist(i, c) < self.dist(j, c)
        &&& exists|j: int| #![trigger self.rival_stone(j, q)] self.rival_stone(j, q)
    }

    pub open spec fn occupied(&self, c: Coord) -> bool {
        self@[self.index_of(c)] is Some
    }

    /// `q` claims the in-bounds cell `c`.
    pub open spec fn claims(&self, c: Coord, q: Player) -> bool {
        if self.occupied(c) {
            self@[self.index_of(c)] == Some(q)
        } else {
            self.claims_open(c, q)
        }
    }

    pub open spec fn claimant(&self, c: Coord) -> Option<Player> {
        if exists|q: Player| self.claims(c, q) {
            Some(choose|q: Player| self.claims(c, q))
        } else {
            None
        }
    }

    /// Stones of two different players are on the board.
    pub open spec fn mixed(&self) -> bool {
        exists|i: int, j: int|
            #![trigger self.stone(i), self.stone(j)]
            self.stone(i) && self.stone(j) && self@[i] != self@[j]
    }

    fn cell_dist(&self, j: usize, c: Coord) -> (d: u64)
        requires
            self.wf(),
            j < self@.len(),
            self.in_bounds(c),
        ensures
            d == self.dist(j as int, c),
            d < 0x1_0000_0000,
    {
        let w: usize = self.width as usize;
        proof {
            assert(j as int / w as int <= self.height) by (nonlinear_arith)
                requires
                    0 <= j < w * self.height,
                    w > 0,
            ;
        }
        let xj: i64 = (j % w) as i64;
        let yj: i64 = (j / w) as i64;
        let dx: i64 = if xj >= c.x as i64 { xj - c.x as i64 } else { c.x as i64 - xj };
        let dy: i64 = if yj >= c.y as i64 { yj - c.y as i64 } else { c.y as i64 - yj };
        (dx + dy) as u64
    }

    /// Nearest stone to `c`: its distance (`FAR` when there is none), its owner,
    /// and whether a stone of another player lies at the same distance.
    fn scan(&self, c: Coord) -> (r: (u64, Player, bool))
        requires
            self.wf(),
            self.in_bounds(c),
        ensures
            r.0 == FAR <==> forall|i: int| !#[trigger] self.stone(i),
            r.0 != FAR ==> r.0 < 0x1_0000_0000,
            r.0 != FAR ==> exists|i: int| #![trigger self.stone_of(i, r.1)] self.stone_of(i, r.1) && self.dist(i, c) == r.0,
            forall|j: int| #[trigger] self.stone(j) ==> self.dist(j, c) >= r.0,
            r.2 <==> exists|j: int| #![trigger self.rival_stone(j, r.1)] self.rival_stone(j, r.1) && self.dist(j, c) == r.0,
    {
        let mut best: u64 = FAR;
        let mut best_p: Player = 0;
        let mut tie: bool = false;
        let mut j: usize = 0;
        while j < self.cells.len()
            invariant
                self.wf(),
                self.in_bounds(c),
                j <= self@.len(),
                best == FAR <==> forall|i: int| 0 <= i < j ==> !#[trigger] self.stone(i),
                best != FAR ==> best < 0x1_0000_0000,
                best != FAR ==> exists|i: int|
                    0 <= i < j && #[trigger] self.stone_of(i, best_p) && self.dist(i, c) == best,
                forall|i: int| 0 <= i < j && #[trigger] self.stone(i) ==> self.dist(i, c) >= best,
                tie <==> exists|i: int|
                    0 <= i < j && #[trigger] self.rival_stone(i, best_p) && self.dist(i, c) == best,
            decreases self@.len() - j,
        {
            if let Some(p) = self.cells[j] {
                let d = self.cell_dist(j, c);
                assert(self.stone(j as int));
                if d < best {
                    best = d;
                    best_p = p;
                    tie = false;
                    assert(self.stone_of(j as int, p));
                } else if d == best && p != best_p {
                    tie = true;
                    assert(self.rival_stone(j as int, best_p));
                }
            }
            j = j + 1;
        }
        proof {
            if best != FAR {
                let i = choose|i: int|
                    0 <= i < j && #[trigger] self.stone_of(i, best_p) && self.dist(i, c) == best;
                assert(self.stone_of(i, best_p));
            }
            if tie {
                let i = choose|i: int|
                    0 <= i < j && #[trigger] self.rival_stone(i, best_p) && self.dist(i, c) == best;
                assert(self.rival_stone(i, best_p));
            }
        }
        let r = (best, best_p, tie);
        assert(r.0 == best && r.1 == best_p);
        r
    }

    fn is_mixed(&self) -> (r: bool)
        requires
            self.wf(),
        ensures
            r == self.mixed(),
    {
        let mut first: Option<Player> = None;
        let mut j: usize = 0;
        while j < self.cells.len()
            invariant
                j <= self@.len(),
                first is None ==> forall|i: int| 0 <= i < j ==> !#[trigger] self.stone(i),
                first is Some ==> exists|i: int|
                    0 <= i < j && #[trigger] self.stone(i) && self@[i] == first,
                first is Some ==> forall|i: int|
                    0 <= i < j && #[trigger] self.stone(i) ==> self@[i] == first,
            decreases self@.len() - j,
        {
            let cell = self.cells[j];
            if cell.is_some() {
                assert(self.stone(j as int));
                if first.is_none() {
                    first = cell;
                } else if cell != first {
                    let ghost f = first;
                    proof {
                        let i = choose|i: int| 0 <= i < j && #[trigger] self.stone(i) && self@[i] == f;
                        assert(self.stone(i) && self.stone(j as int) && self@[i] != self@[j as int]);
                    }
                    return true;
                }
            }
            j = j + 1;
        }
        false
    }

    /// Who claims the in-bounds cell `c`: the owner of a stone on it; else the
    /// player whose nearest stone is strictly nearer than any other player's,
    /// provided two players have stones; else nobody.
    pub fn influence(&self, c: Coord) -> (r: Influence)
        requires
            self.wf(),
            self.in_bounds(c),
        ensures
            r.occupied == self.occupied(c),
            forall|q: Player| (r.claimer == Some(q)) == self.claims(c, q),
    {
        let t = self.index(c).unwrap();
        let cell = self.cells[t];
        if cell.is_some() {
            return Influence { claimer: cell, occupied: true };
        }
        let (best, best_p, tie) = self.scan(c);
        let mixed = self.is_mixed();
        if best == FAR || tie || !mixed {
            proof {
                assert forall|q: Player| !self.claims_open(c, q) by {
                    if self.claims_open(c, q) {
                        let i = choose|i: int|
                            #![trigger self.stone_of(i, q)]
                            self.stone_of(i, q) && forall|j: int|
                                #![trigger self.rival_stone(j, q)]
                                self.rival_stone(j, q) ==> self.dist(i, c) < self.dist(j, c);
                        let j = choose|j: int| #![trigger self.rival_stone(j, q)] self.rival_stone(j, q);
                        assert(self.stone(i));
                        assert(self.stone(j));
                        if tie {
                            let k = choose|k: int|
                                #![trigger self.rival_stone(k, best_p)]
                                self.rival_stone(k, best_p) && self.dist(k, c) == best;
                            let m = choose|m: int|
                                #![trigger self.stone_of(m, best_p)]
                                self.stone_of(m, best_p) && self.dist(m, c) == best;
                            assert(self.stone(k));
                            assert(self.stone(m));
                            if q == best_p {
                                assert(self.rival_stone(k, q));
                            } else {
                                assert(self.rival_stone(m, q));
                            }
                        } else if !mixed {
                            assert(!(self.stone(i) && self.stone(j) && self@[i] != self@[j]));
                        }
                    }
                }
            }
            Influence { claimer: None, occupied: false }
        } else {
            proof {
                let m = choose|m: int|
                    #![trigger self.stone_of(m, best_p)]
                    self.stone_of(m, best_p) && self.dist(m, c) == best;
                assert(self.stone(m));
                assert forall|j: int| #[trigger] self.rival_stone(j, best_p) implies self.dist(m, c)
                    < self.dist(j, c) by {
                    assert(self.stone(j));
                }
                let (a, b) = choose|a: int, b: int|
                    #![trigger self.stone(a), self.stone(b)]
                    self.stone(a) && self.stone(b) && self@[a] != self@[b];
                if self@[a] != Some(best_p) {
                    assert(self.rival_stone(a, best_p));
                } else {
                    assert(self.rival_stone(b, best_p));
                }
                assert(self.claims_open(c, best_p));
                assert forall|q: Player| q != best_p implies !self.claims_open(c, q) by {
                    if self.claims_open(c, q) {
                        let i = choose|i: int|
                            #![trigger self.stone_of(i, q)]
                            self.stone_of(i, q) && forall|j: int|
                                #![trigger self.rival_stone(j, q)]
                                self.rival_stone(j, q) ==> self.dist(i, c) < self.dist(j, c);
                        assert(self.stone(i));
                        assert(self.rival_stone(m, q));
                    }
                }
            }
            Influence { claimer: Some(best_p), occupied: false }
        }
    }

    /// Every cell other than `c` within distance `m` of `c` holds a stone.
    pub open spec fn enclosed(&self, c: Coord, m: int) -> bool {
        forall|e: int|
            #![trigger self.dist(e, c)]
            0 <= e < self@.len() && e != self.index_of(c) && self.dist(e, c) <= m ==> self@[e] is Some
    }

    /// The open cell `c` is decided for the rest of the game: it has a
    /// claimant, and every other cell at most as far from `c` as the nearest
    /// stone already holds a stone, so no later stone can come as near.
    pub open spec fn settled(&self, c: Coord) -> bool {
        exists|q: Player, i: int|
            #![trigger self.claims(c, q), self.stone_of(i, q)]
            self.claims(c, q) && self.stone_of(i, q) && (forall|k: int|
                #[trigger] self.stone(k) ==> self.dist(k, c) >= self.dist(i, c)) && self.enclosed(
                c,
                self.dist(i, c),
            )
    }

    /// The in-bounds cell `c` is open and not yet settled. The rule is the same
    /// for any number of players `n`.
    pub open spec fn volatile(&self, c: Coord, n: usize) -> bool {
        !self.occupied(c) && !self.settled(c)
    }

    /// Player `p` may place a stone on `c`.
    pub open spec fn valid_move(&self, c: Coord, p: Player, n: usize) -> bool {
        &&& self.in_bounds(c)
        &&& (p as int) < n
        &&& self.volatile(c, n)
    }

    /// Every cell other than `c` within `limit` of `c` holds a stone.
    fn enclosed_within(&self, c: Coord, limit: u64) -> (r: bool)
        requires
            self.wf(),
            self.in_bounds(c),
        ensures
            r == self.enclosed(c, limit as int),
    {
        let t = self.index(c).unwrap();
        let mut j: usize = 0;
        while j < self.cells.len()
            invariant
                self.wf(),
                self.in_bounds(c),
                t == self.index_of(c),
                j <= self@.len(),
                forall|e: int|
                    #![trigger self.dist(e, c)]
                    0 <= e < j && e != t && self.dist(e, c) <= limit ==> self@[e] is Some,
            decreases self@.len() - j,
        {
            if j != t && self.cells[j].is_none() {
                let d = self.cell_dist(j, c);
                if d <= limit {
                    return false;
                }
            }
            j = j + 1;
        }
        true
    }

    fn volatile_at(&self, c: Coord, n: usize) -> (r: bool)
        requires
            self.wf(),
            self.in_bounds(c),
        ensures
            r == self.volatile(c, n),
    {
        let infl = self.influence(c);
        if infl.occupied {
            return false;
        }
        match infl.claimer {
            None => {
                proof {
                    assert forall|q: Player, i: int| !(#[trigger] self.claims(c, q) && #[trigger] self.stone_of(i, q)) by {}
                }
                true
            },
            Some(q) => {
                let (best, best_p, tie) = self.scan(c);
                proof {
                    assert(self.claims(c, q));
                    assert(self.claims_open(c, q));
                    let i = choose|i: int|
                        #![trigger self.stone_of(i, q)]
                        self.stone_of(i, q) && forall|j: int|
                            #![trigger self.rival_stone(j, q)]
                            self.rival_stone(j, q) ==> self.dist(i, c) < self.dist(j, c);
                    assert(self.stone(i));
                    assert(best != FAR);
                    let m = choose|m: int|
                        #![trigger self.stone_of(m, best_p)]
                        self.stone_of(m, best_p) && self.dist(m, c) == best;
                    assert(self.stone(m));
                    if best_p != q {
                        assert(self.rival_stone(m, q));
                    }
                    assert(best_p == q);
                }
                let enc = self.enclosed_within(c, best);
                proof {
                    let m = choose|m: int|
                        #![trigger self.stone_of(m, best_p)]
                        self.stone_of(m, best_p) && self.dist(m, c) == best;
                    if enc {
                        assert(self.claims(c, q) && self.stone_of(m, q));
                    } else {
                        assert forall|q2: Player, i2: int|
                            #![trigger self.claims(c, q2), self.stone_of(i2, q2)]
                            self.claims(c, q2) && self.stone_of(i2, q2) && (forall|k: int|
                                #[trigger] self.stone(k) ==> self.dist(k, c) >= self.dist(i2, c))
                                implies !self.enclosed(c, self.dist(i2, c)) by {
                            assert(q2 == q);
                            assert(self.stone(m));
                            assert(self.stone(i2));
                            assert(self.dist(i2, c) == best);
                        }
                    }
                }
                !enc
            },
        }
    }

    proof fn lemma_coord_of(&self, i: int)
        requires
            self.wf(),
            0 <= i < self@.len(),
        ensures
            self.in_bounds(self.coord_of(i)),
            self.index_of(self.coord_of(i)) == i,
    {
        let w = self.width as int;
        vstd::arithmetic::div_mod::lemma_fundamental_div_mod(i, w);
        assert(i / w < self.height) by (nonlinear_arith)
            requires
                0 <= i < w * self.height,
                w > 0,
        ;
        assert(i / w >= 0) by (nonlinear_arith)
            requires
                0 <= i,
                w > 0,
        ;
        assert(w * (i / w) == (i / w) * w) by (nonlinear_arith);
    }

    /// The cell with linear index `i`.
    pub fn coords_at(&self, i: usize) -> (c: Coord)
        requires
            self.wf(),
            i < self@.len(),
        ensures
            c == self.coord_of(i as int),
            self.in_bounds(c),
            self.index_of(c) == i,
    {
        proof {
            self.lemma_coord_of(i as int);
        }
        let w: usize = self.width as usize;
        Coord { x: (i % w) as i32, y: (i / w) as i32 }
    }

    /// For each cell, by index, whether it is volatile.
    pub fn volatile_cells(&self, num_players: usize) -> (r: Vec<bool>)
        requires
            self.wf(),
        ensures
            r@.len() == self@.len(),
            forall|i: int| 0 <= i < r@.len() ==> r@[i] == self.volatile(self.coord_of(i), num_players),
    {
        let mut r: Vec<bool> = Vec::new();
        let mut i: usize = 0;
        while i < self.cells.len()
            invariant
                self.wf(),
                i <= self@.len(),
                r@.len() == i,
                forall|k: int| 0 <= k < i ==> r@[k] == self.volatile(self.coord_of(k), num_players),
            decreases self@.len() - i,
        {
            let c = self.coords_at(i);
            let v = self.volatile_at(c, num_players);
            r.push(v);
            i = i + 1;
        }
        r
    }

    /// `player` may place a stone on `c`: `c` lies on the board, is open and is
    /// volatile, and `player` takes part.
    pub fn is_valid_move(&self, c: Coord, player: Player, num_players: usize) -> (r: bool)
        requires
            self.wf(),
        ensures
            r == self.valid_move(c, player, num_players),
    {
        if self.index(c).is_none() || (player as usize) >= num_players {
            return false;
        }
        self.volatile_at(c, num_players)
    }

    pub proof fn lemma_index_of(&self, c: Coord)
        requires
            self.wf(),
            self.in_bounds(c),
        ensures
            0 <= self.index_of(c) < self@.len(),
            self.coord_of(self.index_of(c)) == c,
            self.index_of(c) % (self.width as int) == c.x,
            self.index_of(c) / (self.width as int) == c.y,
    {
        let w = self.width as int;
        assert(c.y * w + c.x < w * self.height) by (nonlinear_arith)
            requires
                0 <= c.x < w,
                0 <= c.y < self.height,
        ;
        assert(0 <= c.y * w) by (nonlinear_arith)
            requires
                0 <= c.y,
                0 < w,
        ;
        vstd::arithmetic::div_mod::lemma_fundamental_div_mod_converse_mod(c.y * w + c.x, w, c.y as int, c.x as int);
        vstd::arithmetic::div_mod::lemma_fundamental_div_mod_converse_div(c.y * w + c.x, w, c.y as int, c.x as int);
    }

    /// No player below `n` has a move left.
    pub open spec fn game_over(&self, n: usize) -> bool {
        !exists|c: Coord, p: Player| #[trigger] self.valid_move(c, p, n)
    }

    /// True when no player below `num_players` has a valid move: every open cell
    /// is settled, or the board is full.
    pub fn is_game_over(&self, num_players: usize) -> (r: bool)
        requires
            self.wf(),
        ensures
            r == self.game_over(num_players),
    {
        if num_players == 0 {
            return true;
        }
        let mut i: usize = 0;
        while i < self.cells.len()
            invariant
                self.wf(),
                num_players > 0,
                i <= self@.len(),
                forall|k: int| 0 <= k < i ==> !self.volatile(#[trigger] self.coord_of(k), num_players),
            decreases self@.len() - i,
        {
            let c = self.coords_at(i);
            if self.volatile_at(c, num_players) {
                assert(self.valid_move(c, 0, num_players));
                return false;
            }
            i = i + 1;
        }
        proof {
            assert forall|c: Coord, p: Player| !#[trigger] self.valid_move(c, p, num_players) by {
                if self.in_bounds(c) {
                    self.lemma_index_of(c);
                    let k = self.index_of(c);
                    assert(!self.volatile(self.coord_of(k), num_players));
                }
            }
        }
        true
    }

    /// Cells among the first `k` that `p` claims.
    pub open spec fn owned_count(&self, p: Player, k: int) -> int
        decreases k,
    {
        if k <= 0 {
            0
        } else {
            self.owned_count(p, k - 1) + if self.claimant(self.coord_of(k - 1)) == Some(p) {
                1int
            } else {
                0int
            }
        }
    }

    pub proof fn lemma_owned_count_le(&self, p: Player, k: int)
        requires
            k >= 0,
        ensures
            0 <= self.owned_count(p, k) <= k,
        decreases k,
    {
        if k > 0 {
            self.lemma_owned_count_le(p, k - 1);
        }
    }

    proof fn lemma_claimant(&self, c: Coord, r: Influence)
        requires
            forall|q: Player| (r.claimer == Some(q)) == self.claims(c, q),
        ensures
            self.claimant(c) == r.claimer,
    {
        if let Some(q) = r.claimer {
            assert(self.claims(c, q));
        }
    }

    /// The score of each player below `num_players`: the cells it claims,
    /// stones included.
    pub fn points(&self, num_players: usize) -> (r: Vec<usize>)
        requires
            self.wf(),
            num_players <= 256,
        ensures
            r@.len() == num_players,
            forall|p: Player| (p as int) < num_players ==> r@[p as int] == self.owned_count(p, self@.len() as int),
    {
        let mut score: Vec<usize> = Vec::new();
        let mut p: usize = 0;
        while p < num_players
            invariant
                p <= num_players,
                score@.len() == p,
                forall|k: int| 0 <= k < p ==> score@[k] == 0,
            decreases num_players - p,
        {
            score.push(0);
            p = p + 1;
        }
        let mut i: usize = 0;
        while i < self.cells.len()
            invariant
                self.wf(),
                i <= self@.len(),
                score@.len() == num_players,
                forall|k: Player| (k as int) < num_players ==> score@[k as int] == self.owned_count(k, i as int),
                forall|k: int| 0 <= k < num_players ==> score@[k] <= i,
            decreases self@.len() - i,
        {
            let c = self.coords_at(i);
            let infl = self.influence(c);
            proof {
                self.lemma_claimant(c, infl);
            }
            if let Some(q) = infl.claimer {
                if (q as usize) < num_players {
                    let v = score[q as usize];
                    score.set(q as usize, v + 1);
                }
            }
            i = i + 1;
        }
        score
    }

    /// Places `player`'s stone on the open cell `c`.
    pub fn place(&mut self, c: Coord, player: Player)
        requires
            old(self).wf(),
            old(self).in_bounds(c),
            !old(self).occupied(c),
        ensures
            final(self).wf(),
            final(self).width == old(self).width,
            final(self).height == old(self).height,
            final(self)@ == old(self)@.update(old(self).index_of(c), Some(player)),
    {
        let t = self.index(c).unwrap();
        self.cells.set(t, Some(player));
    }

    /// A board with the same size and cells.
    pub fn copy(&self) -> (r: Board)
        requires
            self.wf(),
        ensures
            r.width == self.width,
            r.height == self.height,
            r@ == self@,
    {
        let mut cells: Vec<Option<Player>> = Vec::new();
        let mut i: usize = 0;
        while i < self.cells.len()
            invariant
                i <= self@.len(),
                cells@ == self@.subrange(0, i as int),
            decreases self@.len() - i,
        {
            cells.push(self.cells[i]);
            i = i + 1;
        }
        assert(cells@ == self@);
        Board { width: self.width, height: self.height, cells }
    }

    /// Every cell, row by row.
    pub fn coords(&self) -> (r: Vec<Coord>)
        requires
            self.wf(),
        ensures
            r@.len() == self@.len(),
            forall|i: int| 0 <= i < r@.len() ==> r@[i] == self.coord_of(i),
    {
        let mut r: Vec<Coord> = Vec::new();
        let mut i: usize = 0;
        while i < self.cells.len()
            invariant
                self.wf(),
                i <= self@.len(),
                r@.len() == i,
                forall|k: int| 0 <= k < i ==> r@[k] == self.coord_of(k),
            decreases self@.len() - i,
        {
            let c = self.coords_at(i);
            r.push(c);
            i = i + 1;
        }
        r
    }

    /// Cells among the first `k` that some player claims.
    pub open spec fn claimed_count(&self, k: int) -> int
        decreases k,
    {
        if k <= 0 {
            0
        } else {
            self.claimed_count(k - 1) + if self.claimant(self.coord_of(k - 1)) is Some {
                1int
            } else {
                0int
            }
        }
    }

    /// The scores of players below `m` over the first `k` cells, added up.
    pub open spec fn score_total(&self, m: int, k: int) -> int
        decreases m,
    {
        if m <= 0 {
            0
        } else {
            self.score_total(m - 1, k) + self.owned_count((m - 1) as Player, k)
        }
    }

    /// Every stone belongs to a player below `n`.
    pub open spec fn stones_below(&self, n: usize) -> bool {
        forall|i: int| #[trigger] self.stone(i) ==> (self@[i]->0 as int) < n
    }

    proof fn lemma_score_empty(&self, m: int)
        ensures
            self.score_total(m, 0) == 0,
        decreases m,
    {
        if m > 0 {
            self.lemma_score_empty(m - 1);
        }
    }

    proof fn lemma_score_step(&self, m: int, k: int)
        requires
            0 <= m <= 256,
            k >= 1,
        ensures
            self.score_total(m, k) == self.score_total(m, k - 1) + if self.claimant(
                self.coord_of(k - 1),
            ) matches Some(q) && (q as int) < m {
                1int
            } else {
                0int
            },
        decreases m,
    {
        if m > 0 {
            self.lemma_score_step(m - 1, k);
        }
    }

    proof fn lemma_claimant_has_stone(&self, c: Coord)
        requires
            self.wf(),
            self.in_bounds(c),
        ensures
            self.claimant(c) matches Some(q) ==> exists|i: int| #[trigger] self.stone_of(i, q),
    {
        if let Some(q) = self.claimant(c) {
            assert(self.claims(c, q));
            self.lemma_index_of(c);
            if self.occupied(c) {
                assert(self.stone_of(self.index_of(c), q));
            }
        }
    }

    /// The scores of all players add up to the number of claimed cells: a
    /// neutral cell counts for nobody, and a claimed one for its claimant alone.
    pub proof fn lemma_points_add_up(&self, n: usize)
        requires
            self.wf(),
            n <= 256,
            self.stones_below(n),
        ensures
            self.score_total(n as int, self@.len() as int) == self.claimed_count(self@.len() as int),
    {
        self.lemma_points_prefix(n, self@.len() as int);
    }

    proof fn lemma_points_prefix(&self, n: usize, k: int)
        requires
            self.wf(),
            n <= 256,
            self.stones_below(n),
            0 <= k <= self@.len(),
        ensures
            self.score_total(n as int, k) == self.claimed_count(k),
        decreases k,
    {
        if k == 0 {
            self.lemma_score_empty(n as int);
        } else {
            self.lemma_points_prefix(n, k - 1);
            self.lemma_score_step(n as int, k);
            self.lemma_coord_of(k - 1);
            self.lemma_claimant_has_stone(self.coord_of(k - 1));
            if let Some(q) = self.claimant(self.coord_of(k - 1)) {
                let i = choose|i: int| #[trigger] self.stone_of(i, q);
                assert(self.stone(i));
                assert((q as int) < n);
                assert(self.score_total(n as int, k) == self.score_total(n as int, k - 1) + 1);
                assert(self.claimed_count(k) == self.claimed_count(k - 1) + 1);
            } else {
                assert(self.score_total(n as int, k) == self.score_total(n as int, k - 1));
                assert(self.claimed_count(k) == self.claimed_count(k - 1));
            }
        }
    }

    proof fn lemma_same_place(&self, j: int, c: Coord)
        requires
            self.wf(),
            self.in_bounds(c),
            0 <= j < self@.len(),
            self.dist(j, c) == 0,
        ensures
            j == self.index_of(c),
    {
        let w = self.width as int;
        vstd::arithmetic::div_mod::lemma_fundamental_div_mod(j, w);
        assert(w * (j / w) == c.y * w) by (nonlinear_arith)
            requires
                j / w == c.y,
        ;
    }

    /// A claimant is strictly nearer to the cell than every other player: some
    /// stone of it is nearer than each rival stone. When the nearest stones of
    /// two players lie at the same distance, nobody claims the cell.
    pub proof fn lemma_claimant_strictly_nearest(&self, c: Coord)
        requires
            self.wf(),
            self.in_bounds(c),
        ensures
            self.claimant(c) matches Some(q) ==> forall|j: int|
                #[trigger] self.rival_stone(j, q) ==> exists|i: int|
                    #[trigger] self.stone_of(i, q) && self.dist(i, c) < self.dist(j, c),
            forall|i: int, j: int|
                #![trigger self.stone(i), self.stone(j)]
                self.stone(i) && self.stone(j) && self@[i] != self@[j] && self.dist(i, c) == self.dist(j, c)
                    && (forall|k: int| #[trigger] self.stone(k) ==> self.dist(k, c) >= self.dist(i, c))
                    ==> self.claimant(c) is None,
    {
        self.lemma_index_of(c);
        let t = self.index_of(c);
        if let Some(q) = self.claimant(c) {
            assert(self.claims(c, q));
            assert forall|j: int| #[trigger] self.rival_stone(j, q) implies exists|i: int|
                #[trigger] self.stone_of(i, q) && self.dist(i, c) < self.dist(j, c) by {
                if self.occupied(c) {
                    assert(self.stone_of(t, q));
                    assert(self.dist(t, c) == 0);
                    if self.dist(j, c) == 0 {
                        self.lemma_same_place(j, c);
                    }
                } else {
                    let i = choose|i: int|
                        #![trigger self.stone_of(i, q)]
                        self.stone_of(i, q) && forall|j: int|
                            #![trigger self.rival_stone(j, q)]
                            self.rival_stone(j, q) ==> self.dist(i, c) < self.dist(j, c);
                    assert(self.stone_of(i, q));
                }
            }
        }
        assert forall|i: int, j: int|
            #![trigger self.stone(i), self.stone(j)]
            self.stone(i) && self.stone(j) && self@[i] != self@[j] && self.dist(i, c) == self.dist(j, c)
                && (forall|k: int| #[trigger] self.stone(k) ==> self.dist(k, c) >= self.dist(i, c))
                implies self.claimant(c) is None by {
            if self.occupied(c) {
                assert(self.stone(t));
                assert(self.dist(t, c) == 0);
                self.lemma_same_place(i, c);
                self.lemma_same_place(j, c);
            } else {
                assert forall|q: Player| !#[trigger] self.claims(c, q) by {
                    if self.claims_open(c, q) {
                        let m = choose|m: int|
                            #![trigger self.stone_of(m, q)]
                            self.stone_of(m, q) && forall|l: int|
                                #![trigger self.rival_stone(l, q)]
                                self.rival_stone(l, q) ==> self.dist(m, c) < self.dist(l, c);
                        assert(self.stone(m));
                        if self@[i] != Some(q) {
                            assert(self.rival_stone(i, q));
                        } else {
                            assert(self.rival_stone(j, q));
                        }
                    }
                }
            }
        }
    }

    /// A valid move goes to an open cell that `volatile_cells` marks, at the
    /// cell's index; an occupied cell is never a valid target.
    pub proof fn lemma_valid_move_is_open_and_volatile(&self, c: Coord, p: Player, n: usize)
        requires
            self.wf(),
        ensures
            self.valid_move(c, p, n) ==> !self.occupied(c) && 0 <= self.index_of(c) < self@.len()
                && self.volatile(self.coord_of(self.index_of(c)), n),
            self.in_bounds(c) && self.occupied(c) ==> !self.valid_move(c, p, n),
    {
        if self.in_bounds(c) {
            self.lemma_index_of(c);
        }
    }

    /// Once the game is over no placement is valid, so play can only pass
    /// and the game stays over.
    pub proof fn lemma_game_over_stays(&self, n: usize, c: Coord, p: Player)
        requires
            self.wf(),
            self.game_over(n),
        ensures
            !self.valid_move(c, p, n),
    {
    }

    /// Cells that are not volatile stay so: after any valid placement, such a
    /// cell is still not volatile and has the same claimant.
    pub proof fn lemma_settled_stays_settled(&self, after: &Board, e: Coord, p: Player, n: usize, c: Coord)
        requires
            self.wf(),
            self.valid_move(e, p, n),
            self.in_bounds(c),
            !self.volatile(c, n),
            after.width == self.width,
            after.height == self.height,
            after@ == self@.update(self.index_of(e), Some(p)),
        ensures
            after.wf(),
            !after.volatile(c, n),
            forall|q: Player| #[trigger] after.claims(c, q) == self.claims(c, q),
    {
        self.lemma_index_of(e);
        self.lemma_index_of(c);
        let te = self.index_of(e);
        let tc = self.index_of(c);
        assert(after.index_of(c) == tc);
        if self.occupied(c) {
            assert(te != tc);
            assert(after@[tc] == self@[tc]);
        } else {
            assert(self.settled(c));
            let (q, i) = choose|q: Player, i: int|
                #![trigger self.claims(c, q), self.stone_of(i, q)]
                self.claims(c, q) && self.stone_of(i, q) && (forall|k: int|
                    #[trigger] self.stone(k) ==> self.dist(k, c) >= self.dist(i, c)) && self.enclosed(
                    c,
                    self.dist(i, c),
                );
            let m = self.dist(i, c);
            assert(te != tc);
            assert(after@[tc] == self@[tc]);
            assert(self.dist(te, c) > m) by {
                if self.dist(te, c) <= m {
                    assert(self@[te] is Some);
                }
            }
            assert(after.dist(te, c) == self.dist(te, c));
            assert forall|k: int| #[trigger] after.stone(k) implies (k == te || self.stone(k)) && after.dist(k, c)
                == self.dist(k, c) && after.dist(k, c) >= m by {
                if k != te {
                    assert(self.stone(k));
                }
            }
            assert(self.claims_open(c, q));
            let j0 = choose|j: int| #![trigger self.rival_stone(j, q)] self.rival_stone(j, q);
            assert(self.stone(i));
            assert(after.stone_of(i, q));
            assert(after.rival_stone(j0, q));
            assert forall|j: int| #[trigger] after.rival_stone(j, q) implies after.dist(i, c) < after.dist(j, c) by {
                if j != te {
                    assert(self.rival_stone(j, q));
                    let i0 = choose|i0: int|
                        #![trigger self.stone_of(i0, q)]
                        self.stone_of(i0, q) && forall|j: int|
                            #![trigger self.rival_stone(j, q)]
                            self.rival_stone(j, q) ==> self.dist(i0, c) < self.dist(j, c);
                    assert(self.stone(i0));
                }
            }
            assert(after.claims_open(c, q));
            assert forall|q2: Player| #[trigger] after.claims(c, q2) == self.claims(c, q2) by {
                if q2 != q {
                    if after.claims_open(c, q2) {
                        let i2 = choose|i2: int|
                            #![trigger after.stone_of(i2, q2)]
                            after.stone_of(i2, q2) && forall|j: int|
                                #![trigger after.rival_stone(j, q2)]
                                after.rival_stone(j, q2) ==> after.dist(i2, c) < after.dist(j, c);
                        assert(after.stone(i2));
                        assert(after.rival_stone(i, q2));
                    }
                    if self.claims_open(c, q2) {
                        let i2 = choose|i2: int|
                            #![trigger self.stone_of(i2, q2)]
                            self.stone_of(i2, q2) && forall|j: int|
                                #![trigger self.rival_stone(j, q2)]
                                self.rival_stone(j, q2) ==> self.dist(i2, c) < self.dist(j, c);
                        assert(self.stone(i2));
                        assert(self.rival_stone(i, q2));
                    }
                }
            }
            assert forall|x: int|
                #![trigger after.dist(x, c)]
                0 <= x < after@.len() && x != after.index_of(c) && after.dist(x, c) <= m implies after@[x] is Some by {
                assert(self.dist(x, c) <= m);
                if x != te {
                    assert(self@[x] is Some);
                }
            }
            assert(after.enclosed(c, after.dist(i, c)));
            assert(after.claims(c, q) && after.stone_of(i, q));
            assert(after.settled(c));
        }
    }

    /// Who claims `c`, or `None` when `c` lies outside the board.
    pub fn influence_at(&self, c: Coord) -> (r: Option<Influence>)
        requires
            self.wf(),
        ensures
            r is Some <==> self.in_bounds(c),
            r matches Some(infl) ==> infl.occupied == self.occupied(c) && forall|q: Player|
                (infl.claimer == Some(q)) == self.claims(c, q),
    {
        if self.index(c).is_some() {
            Some(self.influence(c))
        } else {
            None
        }
    }

    pub fn new(width: i32, height: i32) -> (r: Board)
        requires
            width > 0,
            height > 0,
            width * height <= usize::MAX,
        ensures
            r.wf(),
            r.width == width,
            r.height == height,
            forall|i: int| 0 <= i < r@.len() ==> r@[i] is None,
    {
        let n: usize = (width as usize) * (height as usize);
        let mut cells: Vec<Option<Player>> = Vec::new();
        let mut i: usize = 0;
        while i < n
            invariant
                i <= n,
                cells@.len() == i,
                forall|k: int| 0 <= k < i ==> cells@[k] is None,
            decreases n - i,
        {
            cells.push(None);
            i = i + 1;
        }
        Board { width, height, cells }
    }

    /// Linear index of `c`, or `None` when `c` lies outside the board.
    pub fn index(&self, c: Coord) -> (r: Option<usize>)
        requires
            self.wf(),
        ensures
            r is Some <==> self.in_bounds(c),
            r is Some ==> r->0 == self.index_of(c) && r->0 < self@.len(),
    {
        if 0 <= c.x && c.x < self.width && 0 <= c.y && c.y < self.height {
            proof {
                assert(c.y * self.width + c.x < self.width * self.height) by (nonlinear_arith)
                    requires
                        0 <= c.x < self.width,
                        0 <= c.y < self.height,
                ;
                assert(0 <= c.y * self.width) by (nonlinear_arith)
                    requires
                        0 <= c.y,
                        0 < self.width,
                ;
            }
            Some((c.y as usize) * (self.width as usize) + (c.x as usize))
        } else {
            None
        }
    }

    /// What stands on `c`: `None` outside the board, else the cell.
    pub fn get(&self, c: Coord) -> (r: Option<Option<Player>>)
        requires
            self.wf(),
        ensures
            r is Some <==> self.in_bounds(c),
            r is Some ==> r->0 == self@[self.index_of(c)],
    {
        match self.index(c) {
            Some(i) => Some(self.cells[i]),
            None => None,
        }
    }

    /// True while no stone has been placed.
    pub fn is_empty(&self) -> (r: bool)
        ensures
            r <==> forall|i: int| 0 <= i < self@.len() ==> self@[i] is None,
    {
        let mut i: usize = 0;
        while i < self.cells.len()
            invariant
                i <= self@.len(),
                forall|k: int| 0 <= k < i ==> self@[k] is None,
            decreases self@.len() - i,
        {
            if self.cells[i].is_some() {
                return false;
            }
            i = i + 1;
        }
        true
    }
}

} // verus!
