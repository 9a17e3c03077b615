use vstd::prelude::*;
use rand::Rng;
use rand::rngs::SmallRng;
use crate::board::Player;
use crate::game::{apply_view, Action, GameState};

verus! {

#[verifier::external_type_specification]
#[verifier::external_body]
pub struct ExSmallRng(SmallRng);

/// Relies on rand's `Rng::gen_range`: on a non-empty range it returns a value
/// inside the range.
#[verifier::external_body]
fn random_below(rng: &mut SmallRng, n: usize) -> (r: usize)
    requires
        n > 0,
    ensures
        r < n,
{
    rng.gen_range(0..n)
}

/// Reward units a player earns for owning the whole board.
pub const FULL_REWARD: u128 = 1000;

/// Scaled exploration weight: `2 * ln 2 * 10^6`, so that the square root below
/// is `1000 * sqrt(2 * ln(N) / n)` with `ln(N)` taken as `ln 2 * log2(N)`.
pub const EXPLORE: u128 = 1386294;

/// Largest `k` with `2^k <= x`, and 0 for 0.
pub open spec fn log2_floor(x: nat) -> nat
    decreases x,
{
    if x <= 1 {
        0
    } else {
        1 + log2_floor(x / 2)
    }
}

pub open spec fn is_root(x: nat, r: nat) -> bool {
    r * r <= x && x < (r + 1) * (r + 1)
}

/// Largest `r` with `r * r <= x`.
pub open spec fn root_floor(x: nat) -> nat {
    choose|r: nat| is_root(x, r)
}

/// Selection score of a child with `total` reward in `visits` visits, under a
/// parent visited `parent_visits` times; an unvisited child comes first.
pub open spec fn ucb(total: nat, visits: nat, parent_visits: nat) -> nat {
    if visits == 0 {
        0x1_0000_0000_0000_0000_0000
    } else {
        total / visits + root_floor(EXPLORE as nat * log2_floor(parent_visits) / visits)
    }
}

proof fn lemma_log2_le(x: nat)
    ensures
        log2_floor(x) <= x,
    decreases x,
{
    if x > 1 {
        lemma_log2_le(x / 2);
    }
}

fn log2_of(x: u64) -> (r: u64)
    ensures
        r == log2_floor(x as nat),
{
    let mut v: u64 = x;
    let mut k: u64 = 0;
    proof {
        lemma_log2_le(x as nat);
    }
    while v > 1
        invariant
            k + log2_floor(v as nat) == log2_floor(x as nat),
            log2_floor(x as nat) <= x,
        decreases v,
    {
        v = v / 2;
        k = k + 1;
    }
    k
}

proof fn lemma_root_unique(x: nat, r: nat, s: nat)
    requires
        r * r <= x < (r + 1) * (r + 1),
        s * s <= x < (s + 1) * (s + 1),
    ensures
        r == s,
{
    if r < s {
        assert((r + 1) * (r + 1) <= s * s) by (nonlinear_arith)
            requires
                r + 1 <= s,
        ;
    } else if s < r {
        assert((s + 1) * (s + 1) <= r * r) by (nonlinear_arith)
            requires
                s + 1 <= r,
        ;
    }
}

fn root_of(x: u128) -> (r: u128)
    ensures
        r == root_floor(x as nat),
        r < 0x1_0000_0000_0000_0000,
{
    let mut lo: u128 = 0;
    let mut hi: u128 = if x < 0x1_0000_0000_0000_0000 { x + 1 } else { 0x1_0000_0000_0000_0000 };
    assert(x < hi * hi) by (nonlinear_arith)
        requires
            x < 0x1_0000_0000_0000_0000 ==> hi == x + 1,
            x >= 0x1_0000_0000_0000_0000 ==> hi == 0x1_0000_0000_0000_0000,
            x < 0x1_0000_0000_0000_0000_0000_0000_0000_0000,
    ;
    while hi - lo > 1
        invariant
            lo < hi <= 0x1_0000_0000_0000_0000,
            lo * lo <= x,
            x < hi * hi,
        decreases hi - lo,
    {
        let mid: u128 = lo + (hi - lo) / 2;
        assert(mid * mid < 0x1_0000_0000_0000_0000 * 0x1_0000_0000_0000_0000) by (nonlinear_arith)
            requires
                mid < 0x1_0000_0000_0000_0000,
        ;
        if mid * mid <= x {
            lo = mid;
        } else {
            hi = mid;
        }
    }
    proof {
        assert(is_root(x as nat, lo as nat));
        let r = root_floor(x as nat);
        lemma_root_unique(x as nat, r, lo as nat);
    }
    lo
}

/// The selection score, computed.
fn ucb_of(total: u64, visits: u64, parent_visits: u64) -> (r: u128)
    ensures
        r == ucb(total as nat, visits as nat, parent_visits as nat),
{
    if visits == 0 {
        return 0x1_0000_0000_0000_0000_0000;
    }
    let l = log2_of(parent_visits) as u128;
    assert(EXPLORE * l < 0x1_0000_0000_0000_0000_0000_0000) by (nonlinear_arith)
        requires
            l < 0x1_0000_0000_0000_0000,
    ;
    let v: u128 = visits as u128;
    let x: u128 = EXPLORE * l / v;
    proof {
        let a: int = EXPLORE as int * l as int;
        let d: int = v as int;
        assert(a / d <= a) by (nonlinear_arith)
            requires
                d >= 1,
                a >= 0,
        ;
    }
    (total as u128) / (visits as u128) + root_of(x)
}

} // verus!

verus! {

/// A search tree kept in an arena: node 0 is the root, and each other node
/// was reached from its parent, which stands before it, by one action.
pub struct Mcts {
    /// The state of each node.
    pub states: Vec<GameState>,
    /// The actions of each node's state, in the random order they are tried.
    pub actions: Vec<Vec<Action>>,
    /// How many of each node's actions have a child.
    pub tried: Vec<usize>,
    /// Each node's parent (the root names itself).
    pub parent: Vec<usize>,
    /// The action that led from the parent to each node.
    pub via: Vec<Action>,
    /// How often each node was passed through.
    pub visits: Vec<u64>,
    /// Reward summed per node and player: entry `node * num_players + player`.
    pub rewards: Vec<u64>,
    pub num_players: usize,
}

impl Mcts {
    pub open spec fn len(&self) -> int {
        self.states@.len() as int
    }

    pub open spec fn child_of(&self, j: int, i: int) -> bool {
        1 <= j < self.len() && self.parent@[j] == i
    }

    pub open spec fn wf(&self) -> bool {
        &&& self.len() >= 1
        &&& self.actions@.len() == self.len()
        &&& self.tried@.len() == self.len()
        &&& self.parent@.len() == self.len()
        &&& self.via@.len() == self.len()
        &&& self.visits@.len() == self.len()
        &&& self.rewards@.len() == self.len() * self.num_players
        &&& self.num_players >= 1
        &&& forall|i: int|
            0 <= i < self.len() ==> {
                &&& (#[trigger] self.states@[i]).wf()
                &&& self.states@[i].num_players == self.num_players
                &&& self.states@[i].board.width == self.states@[0].board.width
                &&& self.states@[i].board.height == self.states@[0].board.height
                &&& self.tried@[i] <= self.actions@[i]@.len()
                &&& forall|k: int|
                    0 <= k < self.actions@[i]@.len() ==> self.states@[i].legal(#[trigger] self.actions@[i]@[k])
            }
        &&& forall|j: int|
            1 <= j < self.len() ==> {
                &&& #[trigger] self.parent@[j] < j
                &&& self.states@[self.parent@[j] as int].legal(self.via@[j])
                &&& self.states@[j]@ == apply_view(self.states@[self.parent@[j] as int]@, self.via@[j])
            }
    }

    /// `path` runs from the root down through children, each of highest score
    /// among its siblings, and every node before the last has all its actions
    /// tried and its game still going.
    pub open spec fn descent(&self, path: Seq<usize>) -> bool {
        &&& path.len() >= 1
        &&& path[0] == 0
        &&& forall|k: int|
            1 <= k < path.len() ==> {
                &&& self.child_of(#[trigger] path[k] as int, path[k - 1] as int)
                &&& forall|j: int|
                    #[trigger] self.child_of(j, path[k - 1] as int) ==> self.score(j, path[k - 1] as int)
                        <= self.score(path[k] as int, path[k - 1] as int)
            }
        &&& forall|k: int|
            0 <= k < path.len() - 1 ==> {
                &&& self.tried@[#[trigger] path[k] as int] == self.actions@[path[k] as int]@.len()
                &&& !self.states@[path[k] as int].board.game_over(self.num_players)
            }
    }

    /// The rewards `g` are those of a finished game on a board of the root's size.
    pub open spec fn end_rewards(&self, g: Seq<u64>) -> bool {
        exists|fin: GameState|
            #![trigger fin.wf(), fin.board.game_over(self.num_players)]
            fin.wf() && fin.board.game_over(self.num_players) && fin.num_players == self.num_players
                && fin.board.width == self.states@[0].board.width && fin.board.height
                == self.states@[0].board.height && g.len() == self.num_players && forall|p: Player|
                (p as int) < self.num_players ==> g[p as int] == share(
                    fin.board.owned_count(p, fin.board@.len() as int),
                    fin.board@.len() as int,
                )
    }

    /// A tree of the root alone, for `state`.
    pub fn new(state: GameState, rng: &mut SmallRng) -> (r: Mcts)
        requires
            state.wf(),
        ensures
            r.wf(),
            r.len() == 1,
            r.states@[0]@ == state@,
            r.visits@[0] == 0,
            r.tried@[0] == 0,
            r.actions@[0]@.len() > 0,
            r.num_players == state.num_players,
    {
        let n = state.num_players;
        let acts = shuffled_actions(&state, rng);
        let mut rewards: Vec<u64> = Vec::new();
        let mut p: usize = 0;
        while p < n
            invariant
                p <= n,
                rewards@.len() == p,
            decreases n - p,
        {
            rewards.push(0);
            p = p + 1;
        }
        let mcts = Mcts {
            states: vec![state],
            actions: vec![acts],
            tried: vec![0],
            parent: vec![0],
            via: vec![Action::Pass],
            visits: vec![0],
            rewards,
            num_players: n,
        };
        assert(mcts.states@[0]@ == state@);
        mcts
    }
}

/// The legal actions of `state`, in random order.
fn shuffled_actions(state: &GameState, rng: &mut SmallRng) -> (r: Vec<Action>)
    requires
        state.wf(),
    ensures
        forall|k: int| 0 <= k < r@.len() ==> state.legal(#[trigger] r@[k]),
        r@.len() > 0,
{
    let mut acts = state.legal_actions();
    proof {
        assert forall|k: int| 0 <= k < acts@.len() implies state.legal(#[trigger] acts@[k]) by {
            if !state.has_move() {
                assert(acts@ == seq![Action::Pass]);
            }
        }
    }
    let len = acts.len();
    let mut i: usize = len;
    while i > 1
        invariant
            i <= len,
            acts@.len() == len,
            forall|k: int| 0 <= k < acts@.len() ==> state.legal(#[trigger] acts@[k]),
        decreases i,
    {
        let j = random_below(rng, i);
        let a = acts[i - 1];
        let b = acts[j];
        acts.set(i - 1, b);
        acts.set(j, a);
        proof {
            assert forall|k: int| 0 <= k < acts@.len() implies state.legal(#[trigger] acts@[k]) by {
                if k == i - 1 {
                    assert(state.legal(b));
                } else if k == j {
                    assert(state.legal(a));
                }
            }
        }
        i = i - 1;
    }
    acts
}

} // verus!

verus! {

fn append_zeros(v: &mut Vec<u64>, n: usize)
    ensures
        final(v)@.len() == old(v)@.len() + n,
        forall|k: int| 0 <= k < final(v)@.len() ==> #[trigger] final(v)@[k] == if k < old(v)@.len() {
            old(v)@[k]
        } else {
            0
        },
{
    let mut p: usize = 0;
    while p < n
        invariant
            p <= n,
            v@.len() == old(v)@.len() + p,
            forall|k: int| 0 <= k < v@.len() ==> #[trigger] v@[k] == if k < old(v)@.len() {
                old(v)@[k]
            } else {
                0
            },
        decreases n - p,
    {
        v.push(0);
        p = p + 1;
    }
}

/// Reward units for `owned` cells of a board of `total` cells.
pub open spec fn share(owned: int, total: int) -> int {
    owned * FULL_REWARD / total
}

/// Plays uniformly random valid moves from `state` until the game is over.
fn rollout(state: GameState, rng: &mut SmallRng) -> (r: GameState)
    requires
        state.wf(),
    ensures
        r.wf(),
        r.board.game_over(r.num_players),
        r.num_players == state.num_players,
        r.board.width == state.board.width,
        r.board.height == state.board.height,
{
    let mut s = state;
    while !s.is_terminal()
        invariant
            s.wf(),
            s.num_players == state.num_players,
            s.board.width == state.board.width,
            s.board.height == state.board.height,
        decreases crate::game::open_count(s.board@),
    {
        proof {
            s.lemma_mover_can_move();
        }
        let acts = s.legal_actions();
        let k = random_below(rng, acts.len());
        let a = acts[k];
        let ghost before = s.board@;
        proof {
            assert(a matches Action::Move(c) && s.board.valid_move(c, s.next_player, s.num_players));
            if let Action::Move(c) = a {
                s.board.lemma_index_of(c);
                crate::game::lemma_fill_one(before, s.board.index_of(c), s.next_player);
            }
        }
        s = s.apply(a);
    }
    s
}

/// Each player's reward at the end of a game: its share of the board.
fn final_rewards(s: &GameState) -> (r: Vec<u64>)
    requires
        s.wf(),
    ensures
        r@.len() == s.num_players,
        forall|p: Player|
            (p as int) < s.num_players ==> r@[p as int] == share(
                s.board.owned_count(p, s.board@.len() as int),
                s.board@.len() as int,
            ),
{
    let pts = s.board.points(s.num_players);
    let total = s.board.cells.len();
    assert(s.board.width * s.board.height > 0) by (nonlinear_arith)
        requires
            s.board.width > 0,
            s.board.height > 0,
    ;
    let mut r: Vec<u64> = Vec::new();
    let mut p: usize = 0;
    while p < s.num_players
        invariant
            s.wf(),
            p <= s.num_players,
            pts@.len() == s.num_players,
            total == s.board@.len(),
            total > 0,
            forall|q: Player| (q as int) < s.num_players ==> pts@[q as int] == s.board.owned_count(q, total as int),
            r@.len() == p,
            forall|q: Player|
                (q as int) < p ==> r@[q as int] == share(s.board.owned_count(q, total as int), total as int),
        decreases s.num_players - p,
    {
        proof {
            s.board.lemma_owned_count_le(p as Player, total as int);
        }
        let v: u128 = (pts[p] as u128) * FULL_REWARD / (total as u128);
        proof {
            let o = pts@[p as int] as int;
            assert(o * 1000 / (total as int) <= 1000) by (nonlinear_arith)
                requires
                    0 <= o <= total,
                    total > 0,
            ;
        }
        r.push(v as u64);
        p = p + 1;
    }
    r
}

} // verus!

verus! {

impl Mcts {
    /// Selection score of node `j` as a child of `i`, for the player to move at `i`.
    pub open spec fn score(&self, j: int, i: int) -> nat {
        ucb(
            self.rewards@[j * self.num_players + self.states@[i].next_player] as nat,
            self.visits@[j] as nat,
            self.visits@[i] as nat,
        )
    }

    proof fn lemma_slot(&self, j: int, p: int)
        requires
            self.wf(),
            0 <= j < self.len(),
            0 <= p < self.num_players,
        ensures
            0 <= j * self.num_players + p < self.rewards@.len(),
    {
        let n = self.num_players as int;
        assert(0 <= j * n + p < self.len() * n) by (nonlinear_arith)
            requires
                0 <= j < self.len(),
                0 <= p < n,
        ;
    }

    /// A child of `i` with the highest score, ties drawn at random; `None` when
    /// `i` has no child.
    fn select_child(&self, i: usize, rng: &mut SmallRng) -> (r: Option<usize>)
        requires
            self.wf(),
            i < self.len(),
        ensures
            r is None ==> forall|j: int| !#[trigger] self.child_of(j, i as int),
            r is Some ==> self.child_of(r->0 as int, i as int),
            r is Some ==> forall|j: int|
                #[trigger] self.child_of(j, i as int) ==> self.score(j, i as int) <= self.score(r->0 as int, i as int),
    {
        let n = self.num_players;
        let pl = self.states[i].next_player as usize;
        let mut best: Option<usize> = None;
        let mut best_score: u128 = 0;
        let mut ties: usize = 0;
        let count = self.states.len();
        let slots = self.rewards.len();
        let mut k: usize = i + 1;
        while k < count
            invariant
                self.wf(),
                count == self.len(),
                i < k <= self.len(),
                pl == self.states@[i as int].next_player,
                n == self.num_players,
                slots == self.rewards@.len(),
                best is None ==> forall|j: int| i < j < k ==> !#[trigger] self.child_of(j, i as int),
                best is Some ==> self.child_of(best->0 as int, i as int) && best_score == self.score(best->0 as int, i as int),
                best is Some ==> forall|j: int|
                    i < j < k && #[trigger] self.child_of(j, i as int) ==> self.score(j, i as int) <= best_score,
            decreases self.len() - k,
        {
            if self.parent[k] == i {
                proof {
                    self.lemma_slot(k as int, pl as int);
                }
                let sc = ucb_of(self.rewards[k * n + pl], self.visits[k], self.visits[i]);
                if best.is_none() || sc > best_score {
                    best = Some(k);
                    best_score = sc;
                    ties = 1;
                } else if sc == best_score {
                    if ties < usize::MAX {
                        ties = ties + 1;
                    }
                    if random_below(rng, ties) == 0 {
                        best = Some(k);
                    }
                }
            }
            k = k + 1;
        }
        proof {
            assert forall|j: int| #[trigger] self.child_of(j, i as int) implies i < j < k by {
                assert(self.parent@[j] < j);
            }
        }
        best
    }
}

} // verus!

verus! {

impl Mcts {
    /// Adds one visit and the rewards `gains` to each node on `path`, saturating.
    fn record(&mut self, path: &Vec<usize>, gains: &Vec<u64>)
        requires
            old(self).wf(),
            gains@.len() == old(self).num_players,
            forall|k: int| 0 <= k < path@.len() ==> #[trigger] path@[k] < old(self).len(),
            forall|a: int, b: int| 0 <= a < b < path@.len() ==> path@[a] < path@[b],
        ensures
            final(self).wf(),
            final(self).states@ == old(self).states@,
            final(self).actions@ == old(self).actions@,
            final(self).tried@ == old(self).tried@,
            final(self).parent@ == old(self).parent@,
            final(self).via@ == old(self).via@,
            final(self).num_players == old(self).num_players,
            forall|i: int|
                0 <= i < old(self).len() ==> #[trigger] final(self).visits@[i] == if path@.contains(i as usize) {
                    old(self).visits@[i].saturating_add(1)
                } else {
                    old(self).visits@[i]
                },
            forall|s: int|
                0 <= s < old(self).rewards@.len() ==> #[trigger] final(self).rewards@[s] == if path@.contains(
                    (s / old(self).num_players as int) as usize,
                ) {
                    old(self).rewards@[s].saturating_add(gains@[s % old(self).num_players as int])
                } else {
                    old(self).rewards@[s]
                },
    {
        let n = self.num_players;
        let slots = self.rewards.len();
        let count = self.visits.len();
        let ghost n0 = n as int;
        let mut k: usize = 0;
        while k < path.len()
            invariant
                self.wf(),
                n == self.num_players,
                gains@.len() == n,
                k <= path@.len(),
                forall|m: int| 0 <= m < path@.len() ==> #[trigger] path@[m] < self.len(),
                forall|a: int, b: int| 0 <= a < b < path@.len() ==> path@[a] < path@[b],
                n0 == n as int,
                n0 >= 1,
                count == old(self).visits@.len(),
                self.states@ == old(self).states@,
                self.actions@ == old(self).actions@,
                self.tried@ == old(self).tried@,
                self.parent@ == old(self).parent@,
                self.via@ == old(self).via@,
                self.num_players == old(self).num_players,
                self.visits@.len() == old(self).visits@.len(),
                slots == self.rewards@.len(),
                forall|i: int|
                    0 <= i < self.len() ==> #[trigger] self.visits@[i] == if path@.subrange(0, k as int).contains(
                        i as usize,
                    ) {
                        old(self).visits@[i].saturating_add(1)
                    } else {
                        old(self).visits@[i]
                    },
                forall|s: int|
                    0 <= s < slots ==> #[trigger] self.rewards@[s] == if path@.subrange(0, k as int).contains(
                        (s / n0) as usize,
                    ) {
                        old(self).rewards@[s].saturating_add(gains@[s % n0])
                    } else {
                        old(self).rewards@[s]
                    },
            decreases path@.len() - k,
        {
            let node = path[k];
            let ghost before = path@.subrange(0, k as int);
            let ghost after = path@.subrange(0, k + 1);
            proof {
                assert(!before.contains(node)) by {
                    if before.contains(node) {
                        let m = choose|m: int| 0 <= m < before.len() && before[m] == node;
                        assert(path@[m] < path@[k as int]);
                    }
                }
                assert forall|x: usize| after.contains(x) == (before.contains(x) || x == node) by {
                    if after.contains(x) {
                        let m = choose|m: int| 0 <= m < after.len() && after[m] == x;
                        if m < k {
                            assert(before[m] == x);
                        }
                    }
                    if before.contains(x) {
                        let m = choose|m: int| 0 <= m < before.len() && before[m] == x;
                        assert(after[m] == x);
                    }
                    if x == node {
                        assert(after[k as int] == x);
                    }
                }
            }
            let ghost pre = self.visits@;
            let v = self.visits[node];
            self.visits.set(node, v.saturating_add(1));
            let ghost vis = self.visits@;
            let mut p: usize = 0;
            while p < n
                invariant
                    self.wf(),
                    n == self.num_players,
                    n0 == n as int,
                    n0 >= 1,
                    gains@.len() == n,
                    node < self.len(),
                    node == path@[k as int],
                    k < path@.len(),
                    p <= n,
                    !before.contains(node),
                    forall|x: usize| after.contains(x) == (before.contains(x) || x == node),
                    self.states@ == old(self).states@,
                    self.actions@ == old(self).actions@,
                    self.tried@ == old(self).tried@,
                    self.parent@ == old(self).parent@,
                    self.via@ == old(self).via@,
                    self.num_players == old(self).num_players,
                    self.visits@ == vis,
                    slots == self.rewards@.len(),
                    forall|s: int|
                        0 <= s < slots ==> #[trigger] self.rewards@[s] == if before.contains((s / n0) as usize)
                            || (s / n0 == node && s % n0 < p) {
                            old(self).rewards@[s].saturating_add(gains@[s % n0])
                        } else {
                            old(self).rewards@[s]
                        },
                decreases n - p,
            {
                proof {
                    self.lemma_slot(node as int, p as int);
                    vstd::arithmetic::div_mod::lemma_fundamental_div_mod_converse_div(
                        node * n0 + p, n0, node as int, p as int);
                    vstd::arithmetic::div_mod::lemma_fundamental_div_mod_converse_mod(
                        node * n0 + p, n0, node as int, p as int);
                }
                let slot = node * n + p;
                let t = self.rewards[slot];
                self.rewards.set(slot, t.saturating_add(gains[p]));
                proof {
                    assert forall|s: int| 0 <= s < slots && s != slot implies !(#[trigger] (s / n0) == node && s
                        % n0 == p) by {
                        vstd::arithmetic::div_mod::lemma_fundamental_div_mod(s, n0);
                    }
                }
                p = p + 1;
            }
            proof {
                assert forall|s: int| 0 <= s < slots implies #[trigger] self.rewards@[s] == if after.contains(
                    (s / n0) as usize,
                ) {
                    old(self).rewards@[s].saturating_add(gains@[s % n0])
                } else {
                    old(self).rewards@[s]
                } by {
                    vstd::arithmetic::div_mod::lemma_mod_bound(s, n0);
                }
                assert forall|i: int| 0 <= i < self.len() implies #[trigger] self.visits@[i] == if after.contains(
                    i as usize,
                ) {
                    old(self).visits@[i].saturating_add(1)
                } else {
                    old(self).visits@[i]
                } by {
                    assert(i < count);
                    assert(after.contains(i as usize) == (before.contains(i as usize) || i as usize == node));
                    assert(pre[i] == if before.contains(i as usize) {
                        old(self).visits@[i].saturating_add(1)
                    } else {
                        old(self).visits@[i]
                    });
                    if i == node as int {
                        assert(!before.contains(i as usize));
                    } else {
                        assert(self.visits@[i] == pre[i]);
                    }
                }
            }
            k = k + 1;
        }
        proof {
            assert(path@.subrange(0, k as int) == path@);
        }
    }

    /// One round of search: descend by score to a node with an untried action,
    /// add the child for the next one (unless the game is over there), play
    /// randomly to the end, and credit the result along the way down.
    pub fn iterate(&mut self, rng: &mut SmallRng)
        requires
            old(self).wf(),
        ensures
            final(self).wf(),
            final(self).num_players == old(self).num_players,
            final(self).len() == old(self).len() || final(self).len() == old(self).len() + 1,
            forall|i: int| 0 <= i < old(self).len() ==> #[trigger] final(self).states@[i] == old(self).states@[i],
            forall|j: int| 1 <= j < old(self).len() ==> #[trigger] final(self).parent@[j] == old(self).parent@[j] && final(self).via@[j] == old(self).via@[j],
            old(self).states@[0].board.game_over(old(self).num_players) ==> final(self).len() == old(self).len(),
            final(self).visits@[0] == old(self).visits@[0].saturating_add(1),
            final(self).len() == old(self).len() + 1 ==> {
                let q = final(self).parent@[old(self).len()] as int;
                &&& 0 <= q < old(self).len()
                &&& !old(self).states@[q].board.game_over(old(self).num_players)
                &&& old(self).tried@[q] < old(self).actions@[q]@.len()
                &&& final(self).via@[old(self).len()] == old(self).actions@[q]@[old(self).tried@[q] as int]
                &&& final(self).tried@[q] == old(self).tried@[q] + 1
            },
            !old(self).states@[0].board.game_over(old(self).num_players) && old(self).tried@[0]
                < old(self).actions@[0]@.len() ==> final(self).len() == old(self).len() + 1
                && final(self).parent@[old(self).len()] == 0,
            exists|path: Seq<usize>, g: Seq<u64>|
                #![trigger old(self).descent(path), old(self).end_rewards(g)]
                {
                    let e = path[path.len() - 1] as int;
                    let grew = final(self).len() == old(self).len() + 1;
                    let n = old(self).num_players as int;
                    &&& old(self).descent(path)
                    &&& old(self).end_rewards(g)
                    &&& grew == (!old(self).states@[e].board.game_over(old(self).num_players)
                        && old(self).tried@[e] < old(self).actions@[e]@.len())
                    &&& grew ==> final(self).parent@[old(self).len()] == e
                    &&& forall|i: int|
                        0 <= i < final(self).len() ==> #[trigger] final(self).visits@[i] == if path.contains(
                            i as usize,
                        ) || (grew && i as usize == old(self).len() as usize) {
                            (if i < old(self).len() { old(self).visits@[i] } else { 0u64 }).saturating_add(1)
                        } else {
                            if i < old(self).len() { old(self).visits@[i] } else { 0u64 }
                        }
                    &&& forall|x: int|
                        0 <= x < final(self).rewards@.len() ==> #[trigger] final(self).rewards@[x] == if path.contains(
                            (x / n) as usize,
                        ) || (grew && (x / n) as usize == old(self).len() as usize) {
                            (if x < old(self).rewards@.len() { old(self).rewards@[x] } else { 0u64 }).saturating_add(
                                g[x % n],
                            )
                        } else {
                            if x < old(self).rewards@.len() { old(self).rewards@[x] } else { 0u64 }
                        }
                },
    {
        let n = self.num_players;
        let ghost root_over = self.states@[0].board.game_over(n);
        let mut cur: usize = 0;
        let mut path: Vec<usize> = vec![0];
        while self.tried[cur] == self.actions[cur].len() && !self.states[cur].is_terminal()
            invariant
                self.wf(),
                self.num_players == n,
                cur < self.len(),
                self == old(self),
                forall|k: int| 0 <= k < path@.len() ==> #[trigger] path@[k] < self.len(),
                forall|a: int, b: int| 0 <= a < b < path@.len() ==> path@[a] < path@[b],
                path@.len() >= 1,
                path@[0] == 0,
                path@[path@.len() - 1] == cur,
                root_over ==> cur == 0,
                root_over == self.states@[0].board.game_over(n),
                !root_over && self.tried@[0] < self.actions@[0]@.len() ==> cur == 0,
                self.descent(path@),
            decreases self.len() - cur,
        {
            match self.select_child(cur, rng) {
                Some(j) => {
                    proof {
                        assert(self.parent@[j as int] < j);
                    }
                    cur = j;
                    path.push(j);
                },
                None => {
                    break;
                },
            }
        }
        let len = self.states.len();
        let ghost sel = path@;
        let ghost grew = !self.states@[cur as int].board.game_over(n) && self.tried@[cur as int]
            < self.actions@[cur as int]@.len();
        assert(self.states@ == old(self).states@);
        assert(self.actions@ == old(self).actions@);
        assert(self.parent@ == old(self).parent@);
        assert(self.rewards@.len() == old(self).len() * n);
        if !self.states[cur].is_terminal() && self.tried[cur] < self.actions[cur].len() {
            let a = self.actions[cur][self.tried[cur]];
            let next = self.states[cur].apply(a);
            let acts = shuffled_actions(&next, rng);
            let t = self.tried[cur];
            self.tried.set(cur, t + 1);
            self.states.push(next);
            self.actions.push(acts);
            self.tried.push(0);
            self.parent.push(cur);
            self.via.push(a);
            self.visits.push(0);
            append_zeros(&mut self.rewards, n);
            proof {
                assert(self.rewards@.len() == self.len() * n) by (nonlinear_arith)
                    requires
                        self.rewards@.len() == (self.len() - 1) * n + n,
                ;
                assert forall|i: int| 0 <= i < self.len() implies {
                    &&& (#[trigger] self.states@[i]).wf()
                    &&& self.states@[i].num_players == self.num_players
                    &&& self.states@[i].board.width == self.states@[0].board.width
                    &&& self.states@[i].board.height == self.states@[0].board.height
                    &&& self.tried@[i] <= self.actions@[i]@.len()
                    &&& forall|k: int|
                        0 <= k < self.actions@[i]@.len() ==> self.states@[i].legal(#[trigger] self.actions@[i]@[k])
                } by {
                    if i < len {
                        assert(self.states@[i] == old(self).states@[i]);
                        assert(self.actions@[i] == old(self).actions@[i]);
                    }
                }
                assert forall|j: int| 1 <= j < self.len() implies {
                    &&& #[trigger] self.parent@[j] < j
                    &&& self.states@[self.parent@[j] as int].legal(self.via@[j])
                    &&& self.states@[j]@ == apply_view(self.states@[self.parent@[j] as int]@, self.via@[j])
                } by {
                    if j < len {
                        assert(self.parent@[j] == old(self).parent@[j]);
                    }
                }
            }
            cur = len;
            path.push(len);
        }
        let end = rollout(self.states[cur].copy(), rng);
        let gains = final_rewards(&end);
        proof {
            assert(self.len() == old(self).len() + if grew { 1int } else { 0int });
            assert forall|i: int| 0 <= i < self.len() implies #[trigger] self.visits@[i] == if i < old(self).len() {
                old(self).visits@[i]
            } else {
                0u64
            } by {}
            assert forall|x: usize| #[trigger] path@.contains(x) == (sel.contains(x) || (grew && x == len)) by {
                if grew {
                    assert(path@ == sel.push(len));
                    if path@.contains(x) {
                        let m = choose|m: int| 0 <= m < path@.len() && path@[m] == x;
                        if m < sel.len() {
                            assert(sel[m] == x);
                        }
                    }
                    if sel.contains(x) {
                        let m = choose|m: int| 0 <= m < sel.len() && sel[m] == x;
                        assert(path@[m] == x);
                    }
                    if x == len {
                        assert(path@[sel.len() as int] == x);
                    }
                } else {
                    assert(path@ == sel);
                }
            }
        }
        self.record(&path, &gains);
        proof {
            assert(path@.contains(0usize)) by {
                assert(path@[0] == 0);
            }
            assert(old(self).end_rewards(gains@)) by {
                assert(end.wf() && end.board.game_over(n));
            }
            assert(old(self).descent(sel));
        }
    }

    /// The action at the root whose child was visited most, the earliest made
    /// among equals; `None` when the root has no child yet.
    pub fn best_action(&self) -> (r: Option<Action>)
        requires
            self.wf(),
        ensures
            r is None <==> forall|j: int| !#[trigger] self.child_of(j, 0),
            r is Some ==> exists|j: int|
                #[trigger] self.child_of(j, 0) && self.via@[j] == r->0 && forall|k: int|
                    #[trigger] self.child_of(k, 0) ==> self.visits@[k] <= self.visits@[j],
            r matches Some(a) ==> self.states@[0].legal(a),
    {
        let mut best: Option<usize> = None;
        let mut k: usize = 1;
        while k < self.states.len()
            invariant
                self.wf(),
                1 <= k <= self.len(),
                best is None ==> forall|j: int| 1 <= j < k ==> !#[trigger] self.child_of(j, 0),
                best is Some ==> self.child_of(best->0 as int, 0),
                best is Some ==> forall|j: int|
                    1 <= j < k && #[trigger] self.child_of(j, 0) ==> self.visits@[j] <= self.visits@[best->0 as int],
            decreases self.len() - k,
        {
            if self.parent[k] == 0 {
                match best {
                    None => {
                        best = Some(k);
                    },
                    Some(b) => {
                        if self.visits[k] > self.visits[b] {
                            best = Some(k);
                        }
                    },
                }
            }
            k = k + 1;
        }
        match best {
            None => None,
            Some(b) => {
                let a = self.via[b];
                assert(self.child_of(b as int, 0));
                Some(a)
            },
        }
    }
}

} // verus!
