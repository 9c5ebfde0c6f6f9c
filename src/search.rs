//! The search engine: alpha-beta search over the player's moves and the
//! spawns of a new tile, scored at the leaves by the static heuristic.
use vstd::prelude::*;
use crate::grid::{Direction, Grid, is_full, moved};
use crate::heuristic::{evaluation, max_int, max_score, min_int, min_score, LOWEST_SCORE, SCORE_UNIT};

verus! {

/// Stands for minus infinity: below every score.
pub const NEG_INF: i64 = i64::MIN;

/// Stands for plus infinity: above every score.
pub const POS_INF: i64 = i64::MAX;

/// The `i`-th move in search order: Left, Right, Down, Up.
pub open spec fn move_at(i: int) -> Direction {
    if i == 0 {
        Direction::Left
    } else if i == 1 {
        Direction::Right
    } else if i == 2 {
        Direction::Down
    } else {
        Direction::Up
    }
}

/// The value of board `g` with `rem` layers left to search, without pruning:
/// the player's layer takes the best of the four moves, the spawn layer the
/// worst of the boards with a 2 on an empty cell; a full board at the spawn
/// layer, and any board with no layer left, is scored as it stands.
pub open spec fn minimax(g: Seq<u32>, rem: nat, max_player: bool) -> int
    decreases rem, 17nat,
{
    if rem == 0 {
        evaluation(g)
    } else if max_player {
        best_of_moves(g, rem, 4)
    } else if is_full(g) {
        evaluation(g)
    } else {
        worst_of_spawns(g, rem, 16)
    }
}

/// The largest value over the first `k` moves (minus infinity for none).
pub open spec fn best_of_moves(g: Seq<u32>, rem: nat, k: nat) -> int
    decreases rem, k,
{
    if rem == 0 || k == 0 {
        NEG_INF as int
    } else {
        max_int(
            best_of_moves(g, rem, (k - 1) as nat),
            minimax(moved(g, move_at(k - 1)), (rem - 1) as nat, false),
        )
    }
}

/// The smallest value over the spawns on the empty cells among the first `k`
/// (plus infinity for none).
pub open spec fn worst_of_spawns(g: Seq<u32>, rem: nat, k: nat) -> int
    decreases rem, k,
{
    if rem == 0 || k == 0 {
        POS_INF as int
    } else if g[k - 1] == 0 {
        min_int(
            worst_of_spawns(g, rem, (k - 1) as nat),
            minimax(g.update(k - 1, 2), (rem - 1) as nat, true),
        )
    } else {
        worst_of_spawns(g, rem, (k - 1) as nat)
    }
}


/// Left-to-right scan for the best score: starting from score 0 at index 0,
/// each score at least as large as the best so far takes its place. Gives
/// `(best score, its index)` over the first `k` scores.
pub open spec fn scan_best(s: Seq<int>, k: nat) -> (int, int)
    decreases k,
{
    if k == 0 {
        (0, 0)
    } else {
        let prev = scan_best(s, (k - 1) as nat);
        if s[k - 1] >= prev.0 {
            (s[k - 1], k - 1)
        } else {
            prev
        }
    }
}

/// The index of the chosen score: the latest of the largest, or 0 when every
/// score is below 0.
pub open spec fn pick_best(s: Seq<int>) -> int {
    scan_best(s, s.len()).1
}

/// The unpruned value of each move from board `g`, in search order.
pub open spec fn top_scores(g: Seq<u32>, depth: nat) -> Seq<int> {
    Seq::new(4, |i: int| minimax(moved(g, move_at(i)), depth, false))
}

/// The move the engine picks for board `g` searched `depth` layers deep.
pub open spec fn suggested(g: Seq<u32>, depth: nat) -> Direction {
    move_at(pick_best(top_scores(g, depth)))
}

proof fn lemma_best_grows(g: Seq<u32>, rem: nat, i: nat, k: nat)
    requires
        i <= k,
    ensures
        best_of_moves(g, rem, i) <= best_of_moves(g, rem, k),
    decreases k,
{
    if i < k {
        lemma_best_grows(g, rem, i, (k - 1) as nat);
    }
}

proof fn lemma_worst_shrinks(g: Seq<u32>, rem: nat, i: nat, k: nat)
    requires
        i <= k,
    ensures
        worst_of_spawns(g, rem, i) >= worst_of_spawns(g, rem, k),
    decreases k,
{
    if i < k {
        lemma_worst_shrinks(g, rem, i, (k - 1) as nat);
    }
}

proof fn lemma_scan_bounded(s: Seq<int>, k: nat, top: int)
    requires
        k <= s.len(),
        top >= 0,
        forall|j: int| 0 <= j < k ==> s[j] <= top,
    ensures
        scan_best(s, k).0 <= top,
        0 <= scan_best(s, k).1 < k || (k == 0 && scan_best(s, k).1 == 0),
    decreases k,
{
    if k > 0 {
        lemma_scan_bounded(s, (k - 1) as nat, top);
    }
}

proof fn lemma_scan_keeps(s: Seq<int>, i: int, k: nat)
    requires
        0 <= i < k <= s.len(),
        s[i] >= 0,
        forall|j: int| 0 <= j < s.len() ==> s[j] <= s[i],
        forall|j: int| i < j < s.len() ==> s[j] != s[i],
    ensures
        scan_best(s, k) == (s[i], i),
    decreases k,
{
    if k == i + 1 {
        lemma_scan_bounded(s, i as nat, s[i]);
    } else {
        lemma_scan_keeps(s, i, (k - 1) as nat);
    }
}

/// When the largest of the four move scores is at least 0, the engine picks
/// the latest move in search order that reaches it: among equal best scores
/// the later move wins.
pub proof fn lemma_ties_go_to_later_move(g: Seq<u32>, depth: nat, i: int)
    requires
        0 <= i < 4,
        top_scores(g, depth)[i] >= 0,
        forall|j: int| 0 <= j < 4 ==> top_scores(g, depth)[j] <= top_scores(g, depth)[i],
        forall|j: int| i < j < 4 ==> top_scores(g, depth)[j] != top_scores(g, depth)[i],
    ensures
        suggested(g, depth) == move_at(i),
{
    lemma_scan_keeps(top_scores(g, depth), i, 4);
}

/// The engine's choice depends on the board and the search depth alone: two
/// engines built alike suggest the same move.
pub proof fn lemma_suggestion_deterministic(e1: BoardEval, e2: BoardEval)
    requires
        e1.board() == e2.board(),
        e1.depth_bound() == e2.depth_bound(),
    ensures
        suggested(e1.board(), e1.depth_bound()) == suggested(e2.board(), e2.depth_bound()),
{
}

/// A board with no empty cell is scored as it stands at the spawn layer,
/// however many layers are left.
pub proof fn lemma_full_board_spawn_layer(g: Seq<u32>, rem: nat)
    requires
        is_full(g),
    ensures
        minimax(g, rem, false) == evaluation(g),
{
}

/// The engine for one decision: a root board, the moves in search order and
/// the number of layers to search.
pub struct BoardEval {
    grid: Grid,
    moves: [Direction; 4],
    max_depth: u8,
}

impl BoardEval {
    #[verifier::type_invariant]
    spec fn moves_in_order(&self) -> bool {
        &&& self.moves@[0] == Direction::Left
        &&& self.moves@[1] == Direction::Right
        &&& self.moves@[2] == Direction::Down
        &&& self.moves@[3] == Direction::Up
    }

    /// The root board.
    pub closed spec fn board(&self) -> Seq<u32> {
        self.grid@
    }

    /// The number of layers the search looks ahead.
    pub closed spec fn depth_bound(&self) -> nat {
        self.max_depth as nat
    }

    /// An engine for `grid` that searches `max_depth` layers.
    pub fn new(grid: Grid, max_depth: u8) -> (r: BoardEval)
        ensures
            r.board() == grid@,
            r.depth_bound() == max_depth,
    {
        let moves: [Direction; 4] = [Direction::Left, Direction::Right, Direction::Down, Direction::Up];
        BoardEval { grid, moves, max_depth }
    }

    /// Alpha-beta search from `root` at layer `depth`, with the window
    /// `(alpha, beta)`. A result inside the window is the board's unpruned
    /// value; one at or below `alpha` bounds it from above, one at or above
    /// `beta` from below.
    pub fn alphabeta(&self, root: &Grid, depth: u8, alpha: i64, beta: i64, max_player: bool) -> (r: i64)
        requires
            depth <= self.depth_bound(),
            alpha < beta,
        ensures
            LOWEST_SCORE <= r <= SCORE_UNIT,
            r <= alpha ==> minimax(root@, (self.depth_bound() - depth) as nat, max_player) <= r,
            r >= beta ==> minimax(root@, (self.depth_bound() - depth) as nat, max_player) >= r,
            alpha < r < beta ==> minimax(root@, (self.depth_bound() - depth) as nat, max_player) == r,
            alpha == NEG_INF && beta == POS_INF ==> r == minimax(
                root@,
                (self.depth_bound() - depth) as nat,
                max_player,
            ),
            !max_player && is_full(root@) ==> r == evaluation(root@),
        decreases self.depth_bound() - depth,
    {
        proof {
            use_type_invariant(self);
            root.lemma_sixteen_cells();
        }
        let ghost g = root@;
        let ghost rem = (self.depth_bound() - depth) as nat;
        if depth == self.max_depth {
            return root.evaluate();
        }
        if max_player {
            let mut value: i64 = NEG_INF;
            let mut a: i64 = alpha;
            let mut i: usize = 0;
            while i < 4 && a < beta
                invariant
                    i <= 4,
                    depth < self.depth_bound(),
                    g == root@,
                    rem == self.depth_bound() - depth,
                    alpha < beta,
                    a == max_int(alpha as int, value as int),
                    value <= SCORE_UNIT,
                    i > 0 ==> LOWEST_SCORE <= value,
                    i == 0 ==> value == NEG_INF,
                    a < beta ==> best_of_moves(g, rem, i as nat) <= value,
                    value > alpha ==> best_of_moves(g, rem, i as nat) >= value,
                decreases 4 - i,
            {
                proof {
                    use_type_invariant(self);
                }
                let mut new_grid = root.clone();
                new_grid.move_in(self.moves[i]);
                assert(self.moves@[i as int] == move_at(i as int));
                let child = self.alphabeta(&new_grid, depth + 1, a, beta, false);
                value = max_score(value, child);
                a = max_score(a, value);
                i += 1;
            }
            proof {
                if a < beta {
                    assert(i == 4);
                } else {
                    lemma_best_grows(g, rem, i as nat, 4);
                }
            }
            value
        } else {
            if let Some(empty) = root.empty_positions() {
                let mut value: i64 = POS_INF;
                let mut b: i64 = beta;
                let mut i: usize = 0;
                while i < 16 && alpha < b
                    invariant
                        i <= 16,
                        depth < self.depth_bound(),
                        g == root@,
                        g.len() == 16,
                        rem == self.depth_bound() - depth,
                        alpha < beta,
                        forall|p: int| 0 <= p < 16 ==> empty@[p] == (g[p] == 0),
                        b == min_int(beta as int, value as int),
                        LOWEST_SCORE <= value,
                        (exists|p: int| 0 <= p < i && g[p] == 0) ==> value <= SCORE_UNIT,
                        !(exists|p: int| 0 <= p < i && g[p] == 0) ==> value == POS_INF,
                        alpha < b ==> worst_of_spawns(g, rem, i as nat) >= value,
                        value < beta ==> worst_of_spawns(g, rem, i as nat) <= value,
                    decreases 16 - i,
                {
                    if empty[i] {
                        let mut new_grid = root.clone();
                        new_grid.add_tile(2, i);
                        let child = self.alphabeta(&new_grid, depth + 1, alpha, b, true);
                        value = min_score(value, child);
                        b = min_score(b, value);
                        assert(g[i as int] == 0);
                    }
                    i += 1;
                }
                proof {
                    if alpha < b {
                        assert(i == 16);
                        assert(!is_full(g));
                        let p = choose|p: int| 0 <= p < g.len() && g[p] == 0;
                        assert(0 <= p < i && g[p] == 0);
                    } else {
                        lemma_worst_shrinks(g, rem, i as nat, 16);
                    }
                }
                value
            } else {
                root.evaluate()
            }
        }
    }

    /// The move with the best searched score. Ties go to the later move in
    /// the order Left, Right, Down, Up; when every score is below 0 the
    /// answer is Left.
    pub fn suggest_move(&self) -> (r: Direction)
        ensures
            r == suggested(self.board(), self.depth_bound()),
    {
        proof {
            use_type_invariant(self);
        }
        let ghost tops = top_scores(self.board(), self.depth_bound());
        let mut scores: [i64; 4] = [0; 4];
        let mut idx: usize = 0;
        while idx < 4
            invariant
                idx <= 4,
                tops == top_scores(self.board(), self.depth_bound()),
                forall|j: int| 0 <= j < idx ==> scores@[j] == tops[j],
            decreases 4 - idx,
        {
            proof {
                use_type_invariant(self);
            }
            let mut grid_clone = self.grid.clone();
            grid_clone.move_in(self.moves[idx]);
            assert(self.moves@[idx as int] == move_at(idx as int));
            scores[idx] = self.alphabeta(&grid_clone, 0, NEG_INF, POS_INF, false);
            idx += 1;
        }
        let mut best_score: i64 = 0;
        let mut pos: usize = 0;
        let mut k: usize = 0;
        while k < 4
            invariant
                k <= 4,
                pos < 4,
                forall|j: int| 0 <= j < 4 ==> scores@[j] == tops[j],
                scan_best(tops, k as nat) == (best_score as int, pos as int),
            decreases 4 - k,
        {
            if scores[k] >= best_score {
                best_score = scores[k];
                pos = k;
            }
            k += 1;
        }
        proof {
            use_type_invariant(self);
        }
        assert(self.moves@[pos as int] == move_at(pos as int));
        self.moves[pos]
    }
}

} // verus!
