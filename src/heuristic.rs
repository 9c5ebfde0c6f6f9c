//! The static score of a board: a weighted sum of monotonicity, smoothness and
//! whether the largest tile sits in a corner cell.
//!
//! Scores are exact fixed-point integers. A sub-score `v` stands for
//! `v / UNIT`; the composite score `v` stands for `v / SCORE_UNIT`. `UNIT` is
//! the least common multiple of the two normalisers 19 and 72, so no score is
//! rounded.
use vstd::prelude::*;
use vstd::arithmetic::power2::{pow2, lemma2_to64, lemma_pow2_unfold};
use crate::grid::Grid;

verus! {

/// One whole sub-score: a sub-score `v` stands for `v / UNIT`.
pub const UNIT: i64 = 1368;

/// One whole composite score: a score `v` stands for `v / SCORE_UNIT`.
pub const SCORE_UNIT: i64 = 13680;

/// A bound below the composite score of every board.
pub const LOWEST_SCORE: i64 = -1_000_000;

/// The base-2 logarithm of a tile, rounded down; exact on powers of two.
pub open spec fn log2(n: nat) -> nat
    decreases n,
{
    if n < 2 {
        0
    } else {
        1 + log2(n / 2)
    }
}

/// The logarithms of the non-empty cells of `s`, in order.
pub open spec fn tile_logs(s: Seq<u32>) -> Seq<int>
    decreases s.len(),
{
    if s.len() == 0 {
        Seq::empty()
    } else if s.last() != 0 {
        tile_logs(s.drop_last()).push(log2(s.last() as nat) as int)
    } else {
        tile_logs(s.drop_last())
    }
}

/// Sum of `a - b` over the adjacent pairs `(a, b)` of `s` with `a > b`.
pub open spec fn falls(s: Seq<int>) -> int
    decreases s.len(),
{
    if s.len() < 2 {
        0
    } else {
        let a = s[s.len() - 2];
        let b = s.last();
        falls(s.drop_last()) + if a > b {
            a - b
        } else {
            0
        }
    }
}

/// Sum of `b - a` over the adjacent pairs `(a, b)` of `s` with `a <= b`.
pub open spec fn rises(s: Seq<int>) -> int
    decreases s.len(),
{
    if s.len() < 2 {
        0
    } else {
        let a = s[s.len() - 2];
        let b = s.last();
        rises(s.drop_last()) + if a > b {
            0
        } else {
            b - a
        }
    }
}

/// Row `i` of the board (`vertical == false`) or column `i` (`vertical == true`),
/// from left to right or from top to bottom.
pub open spec fn board_line(g: Seq<u32>, vertical: bool, i: int) -> Seq<u32> {
    if vertical {
        Seq::new(4, |k: int| g[4 * k + i])
    } else {
        Seq::new(4, |k: int| g[4 * i + k])
    }
}

/// `falls` summed over the first `n` rows or columns.
pub open spec fn axis_falls(g: Seq<u32>, vertical: bool, n: int) -> int
    decreases n,
{
    if n <= 0 {
        0
    } else {
        axis_falls(g, vertical, n - 1) + falls(tile_logs(board_line(g, vertical, n - 1)))
    }
}

/// `rises` summed over the first `n` rows or columns.
pub open spec fn axis_rises(g: Seq<u32>, vertical: bool, n: int) -> int
    decreases n,
{
    if n <= 0 {
        0
    } else {
        axis_rises(g, vertical, n - 1) + rises(tile_logs(board_line(g, vertical, n - 1)))
    }
}

pub open spec fn max_int(a: int, b: int) -> int {
    if a > b {
        a
    } else {
        b
    }
}

pub open spec fn min_int(a: int, b: int) -> int {
    if a < b {
        a
    } else {
        b
    }
}

/// How far the rows and the columns are from running one way each.
pub open spec fn mono_penalty(g: Seq<u32>) -> int {
    min_int(axis_falls(g, false, 4), axis_rises(g, false, 4)) + min_int(
        axis_falls(g, true, 4),
        axis_rises(g, true, 4),
    )
}

/// Monotonicity in units of `1 / UNIT`: `1 - penalty / 19`.
pub open spec fn monotonicity_score(g: Seq<u32>) -> int {
    UNIT - 72 * mono_penalty(g)
}

pub open spec fn abs_int(a: int) -> int {
    if a < 0 {
        -a
    } else {
        a
    }
}

/// What cell `q` adds to the roughness around a tile of logarithm `v`.
pub open spec fn gap(g: Seq<u32>, v: int, q: int) -> int {
    if g[q] != 0 {
        abs_int(v - log2(g[q] as nat))
    } else {
        0
    }
}

/// Sum of `gap(g, v, base + step * i)` for `lo <= i < hi`.
pub open spec fn scan_sum(g: Seq<u32>, v: int, base: int, step: int, lo: int, hi: int) -> int
    decreases hi - lo,
{
    if hi <= lo {
        0
    } else {
        scan_sum(g, v, base, step, lo, hi - 1) + gap(g, v, base + step * (hi - 1))
    }
}

/// The roughness around cell `p`: from its own row on down its column unless
/// it is in the last row, and from its own column on along its row unless it
/// is in the last column (the cell itself adds 0).
pub open spec fn cell_roughness(g: Seq<u32>, p: int) -> int {
    let r = p / 4;
    let c = p % 4;
    if g[p] == 0 {
        0
    } else {
        let v = log2(g[p] as nat) as int;
        (if r != 3 {
            scan_sum(g, v, c, 4, r, 4)
        } else {
            0
        }) + (if c != 3 {
            scan_sum(g, v, 4 * r, 1, c, 4)
        } else {
            0
        })
    }
}

/// Roughness summed over the first `n` cells in row-major order.
pub open spec fn roughness(g: Seq<u32>, n: int) -> int
    decreases n,
{
    if n <= 0 {
        0
    } else {
        roughness(g, n - 1) + cell_roughness(g, n - 1)
    }
}

/// Smoothness in units of `1 / UNIT`: `1 - roughness / 72`.
pub open spec fn smoothness_score(g: Seq<u32>) -> int {
    UNIT - 19 * roughness(g, 16)
}

/// The cells the corner rule looks at.
pub open spec fn is_corner(p: int) -> bool {
    p == 0 || p == 4 || p == 8 || p == 12
}

/// Whether some corner cell holds the largest value on the board.
pub open spec fn corner_max(g: Seq<u32>) -> bool {
    exists|c: int| #[trigger] is_corner(c) && forall|q: int| 0 <= q < 16 ==> g[q] <= g[c]
}

/// The composite score in units of `1 / SCORE_UNIT`:
/// `0.6 * monotonicity + 0.3 * smoothness + 0.1 * corner`.
pub open spec fn evaluation(g: Seq<u32>) -> int {
    6 * monotonicity_score(g) + 3 * smoothness_score(g) + if corner_max(g) {
        UNIT
    } else {
        0
    }
}

/// Whether the tiles of `s` (empty cells skipped) never decrease (`ascending`)
/// or never increase (`!ascending`) along `s`.
pub open spec fn tiles_ordered(s: Seq<u32>, ascending: bool) -> bool {
    forall|a: int, b: int|
        0 <= a < b < s.len() && s[a] != 0 && s[b] != 0 ==> if ascending {
            #[trigger] s[a] <= #[trigger] s[b]
        } else {
            s[a] >= s[b]
        }
}

proof fn lemma_log2_monotone(a: nat, b: nat)
    requires
        a <= b,
    ensures
        log2(a) <= log2(b),
    decreases b,
{
    if a >= 2 {
        lemma_log2_monotone(a / 2, b / 2);
    }
}

proof fn lemma_falls_rises_nonneg(s: Seq<int>)
    ensures
        falls(s) >= 0,
        rises(s) >= 0,
    decreases s.len(),
{
    if s.len() >= 2 {
        lemma_falls_rises_nonneg(s.drop_last());
    }
}

proof fn lemma_ordered_line(s: Seq<u32>, ascending: bool)
    requires
        tiles_ordered(s, ascending),
    ensures
        ascending ==> falls(tile_logs(s)) == 0,
        !ascending ==> rises(tile_logs(s)) == 0,
        tile_logs(s).len() > 0 ==> exists|j: int|
            0 <= j < s.len() && s[j] != 0 && tile_logs(s).last() == log2(#[trigger] s[j] as nat),
    decreases s.len(),
{
    if s.len() > 0 {
        let t = s.drop_last();
        assert(tiles_ordered(t, ascending)) by {
            assert forall|a: int, b: int|
                0 <= a < b < t.len() && t[a] != 0 && t[b] != 0 implies if ascending {
                #[trigger] t[a] <= #[trigger] t[b]
            } else {
                t[a] >= t[b]
            } by {
                assert(s[a] == t[a] && s[b] == t[b]);
            }
        }
        lemma_ordered_line(t, ascending);
        let x = s.last();
        if x != 0 {
            let prev = tile_logs(t);
            assert(prev.push(log2(x as nat) as int).drop_last() =~= prev);
            if prev.len() > 0 {
                let j = choose|j: int|
                    0 <= j < t.len() && t[j] != 0 && prev.last() == log2(#[trigger] t[j] as nat);
                assert(s[j] == t[j]);
                assert(s[j] != 0 && s[s.len() - 1] != 0);
                if ascending {
                    assert(s[j] <= s[s.len() - 1]);
                    lemma_log2_monotone(t[j] as nat, x as nat);
                } else {
                    assert(s[j] >= s[s.len() - 1]);
                    lemma_log2_monotone(x as nat, t[j] as nat);
                }
            }
            assert(s[s.len() - 1] == x);
        } else {
            if tile_logs(t).len() > 0 {
                let j = choose|j: int|
                    0 <= j < t.len() && t[j] != 0 && tile_logs(t).last() == log2(
                        #[trigger] t[j] as nat,
                    );
                assert(s[j] == t[j]);
            }
        }
    }
}

proof fn lemma_ordered_axis(g: Seq<u32>, vertical: bool, ascending: bool, n: int)
    requires
        0 <= n <= 4,
        forall|i: int| 0 <= i < 4 ==> tiles_ordered(#[trigger] board_line(g, vertical, i), ascending),
    ensures
        ascending ==> axis_falls(g, vertical, n) == 0,
        !ascending ==> axis_rises(g, vertical, n) == 0,
        axis_falls(g, vertical, n) >= 0,
        axis_rises(g, vertical, n) >= 0,
    decreases n,
{
    if n > 0 {
        lemma_ordered_axis(g, vertical, ascending, n - 1);
        lemma_ordered_line(board_line(g, vertical, n - 1), ascending);
        lemma_falls_rises_nonneg(tile_logs(board_line(g, vertical, n - 1)));
    }
}

/// A board whose rows all run one way and whose columns all run one way
/// (empty cells skipped) has monotonicity exactly 1.
pub proof fn lemma_ordered_board_is_monotone(g: Seq<u32>, rows_ascending: bool, cols_ascending: bool)
    requires
        g.len() == 16,
        forall|i: int| 0 <= i < 4 ==> tiles_ordered(#[trigger] board_line(g, false, i), rows_ascending),
        forall|i: int| 0 <= i < 4 ==> tiles_ordered(#[trigger] board_line(g, true, i), cols_ascending),
    ensures
        mono_penalty(g) == 0,
        monotonicity_score(g) == UNIT,
{
    lemma_ordered_axis(g, false, rows_ascending, 4);
    lemma_ordered_axis(g, true, cols_ascending, 4);
}

proof fn lemma_scan_zero(g: Seq<u32>, p: int, base: int, step: int, lo: int, hi: int)
    requires
        0 <= p < g.len(),
        forall|q: int| 0 <= q < g.len() && g[q] != 0 ==> q == p,
        forall|i: int| lo <= i < hi ==> 0 <= #[trigger] (base + step * i) < g.len(),
    ensures
        scan_sum(g, log2(g[p] as nat) as int, base, step, lo, hi) == 0,
    decreases hi - lo,
{
    if hi > lo {
        lemma_scan_zero(g, p, base, step, lo, hi - 1);
        assert(0 <= base + step * (hi - 1) < g.len());
    }
}

proof fn lemma_roughness_zero(g: Seq<u32>, n: int)
    requires
        g.len() == 16,
        0 <= n <= 16,
        forall|p: int, q: int| 0 <= p < 16 && 0 <= q < 16 && g[p] != 0 && g[q] != 0 ==> p == q,
    ensures
        roughness(g, n) == 0,
    decreases n,
{
    if n > 0 {
        lemma_roughness_zero(g, n - 1);
        let p = n - 1;
        if g[p] != 0 {
            let r = p / 4;
            let c = p % 4;
            assert forall|i: int| r <= i < 4 implies 0 <= #[trigger] (c + 4 * i) < g.len() by {}
            assert forall|i: int| c <= i < 4 implies 0 <= #[trigger] (4 * r + 1 * i) < g.len() by {}
            lemma_scan_zero(g, p, c, 4, r, 4);
            lemma_scan_zero(g, p, 4 * r, 1, c, 4);
        }
    }
}

/// A board with at most one tile has smoothness exactly 1.
pub proof fn lemma_single_tile_is_smooth(g: Seq<u32>)
    requires
        g.len() == 16,
        forall|p: int, q: int| 0 <= p < 16 && 0 <= q < 16 && g[p] != 0 && g[q] != 0 ==> p == q,
    ensures
        roughness(g, 16) == 0,
        smoothness_score(g) == UNIT,
{
    lemma_roughness_zero(g, 16);
}

/// When one cell holds a value larger than every other cell's, the corner rule
/// holds exactly when that cell is a corner cell.
pub proof fn lemma_unique_max_corner(g: Seq<u32>, p: int)
    requires
        g.len() == 16,
        0 <= p < 16,
        forall|q: int| 0 <= q < 16 && q != p ==> g[q] < g[p],
    ensures
        corner_max(g) == is_corner(p),
{
    if is_corner(p) {
        assert(forall|q: int| 0 <= q < 16 ==> g[q] <= g[p]);
    }
    if corner_max(g) {
        let c = choose|c: int| #[trigger] is_corner(c) && forall|q: int| 0 <= q < 16 ==> g[q] <= g[c];
        assert(g[p] <= g[c]);
    }
}

proof fn lemma_log2_below(n: nat, k: nat)
    requires
        n < pow2(k),
        k >= 1,
    ensures
        log2(n) < k,
    decreases k,
{
    if n >= 2 {
        lemma_pow2_unfold(k);
        if k == 1 {
            lemma2_to64();
        } else {
            lemma_pow2_unfold((k - 1) as nat);
            lemma_log2_below(n / 2, (k - 1) as nat);
        }
    }
}

proof fn lemma_log2_u32(n: u32)
    ensures
        log2(n as nat) < 32,
{
    lemma2_to64();
    lemma_log2_below(n as nat, 32);
}

/// Base-2 logarithm of a tile value, rounded down.
pub fn tile_log2(n: u32) -> (r: u32)
    ensures
        r == log2(n as nat),
        r < 32,
{
    proof {
        lemma_log2_u32(n);
    }
    let mut m: u32 = n;
    let mut r: u32 = 0;
    while m >= 2
        invariant
            r + log2(m as nat) == log2(n as nat),
            log2(n as nat) < 32,
        decreases m,
    {
        m = m / 2;
        r = r + 1;
    }
    r
}

proof fn lemma_tile_logs_bounded(s: Seq<u32>)
    ensures
        tile_logs(s).len() <= s.len(),
        forall|i: int| 0 <= i < tile_logs(s).len() ==> 0 <= #[trigger] tile_logs(s)[i] < 32,
    decreases s.len(),
{
    if s.len() > 0 {
        lemma_tile_logs_bounded(s.drop_last());
        lemma_log2_u32(s.last());
    }
}

/// `falls` and `rises` of the tile logarithms of row or column `i` of `grid`.
fn line_violations(grid: &[u32; 16], vertical: bool, i: usize) -> (r: (u32, u32))
    requires
        i < 4,
    ensures
        r.0 == falls(tile_logs(board_line(grid@, vertical, i as int))),
        r.1 == rises(tile_logs(board_line(grid@, vertical, i as int))),
        r.0 <= 96,
        r.1 <= 96,
{
    let ghost line = board_line(grid@, vertical, i as int);
    let mut fall: u32 = 0;
    let mut rise: u32 = 0;
    let mut prev: Option<u32> = None;
    let mut k: usize = 0;
    while k < 4
        invariant
            i < 4,
            k <= 4,
            line == board_line(grid@, vertical, i as int),
            fall == falls(tile_logs(line.take(k as int))),
            rise == rises(tile_logs(line.take(k as int))),
            fall + rise <= 32 * (if tile_logs(line.take(k as int)).len() == 0 {
                0
            } else {
                tile_logs(line.take(k as int)).len() - 1
            }),
            tile_logs(line.take(k as int)).len() <= k,
            prev is None <==> tile_logs(line.take(k as int)).len() == 0,
            prev matches Some(p) ==> p == tile_logs(line.take(k as int)).last(),
        decreases 4 - k,
    {
        let idx: usize = if vertical {
            4 * k + i
        } else {
            4 * i + k
        };
        let cell = grid[idx];
        assert(line.take(k + 1).drop_last() =~= line.take(k as int));
        assert(line.take(k + 1).last() == cell);
        if cell != 0 {
            let v = tile_log2(cell);
            proof {
                lemma_tile_logs_bounded(line.take(k as int));
            }
            let ghost before = tile_logs(line.take(k as int));
            assert(tile_logs(line.take(k + 1)) == before.push(v as int));
            assert(before.push(v as int).drop_last() =~= before);
            if let Some(p) = prev {
                assert(before.len() > 0);
                assert(0 <= before[before.len() - 1] < 32);
                if p > v {
                    fall = fall + (p - v);
                } else {
                    rise = rise + (v - p);
                }
            }
            prev = Some(v);
        }
        k += 1;
    }
    assert(line.take(4) =~= line);
    (fall, rise)
}

/// The larger of two scores: `a` when `a > b`, else `b`.
pub fn max_score(a: i64, b: i64) -> (r: i64)
    ensures
        r == max_int(a as int, b as int),
{
    if a > b {
        a
    } else {
        b
    }
}

/// The smaller of two scores: `a` when `a < b`, else `b`.
pub fn min_score(a: i64, b: i64) -> (r: i64)
    ensures
        r == min_int(a as int, b as int),
{
    if a < b {
        a
    } else {
        b
    }
}

impl Grid {
    /// Monotonicity of the flat board `grid`, in units of `1 / UNIT`.
    pub fn monotonicity(&self, grid: &[u32; 16]) -> (r: i64)
        ensures
            r == monotonicity_score(grid@),
            UNIT - 72 * 768 <= r <= UNIT,
    {
        let mut acc: [u32; 4] = [0; 4];
        let mut i: usize = 0;
        while i < 4
            invariant
                i <= 4,
                acc@[0] == axis_falls(grid@, false, i as int),
                acc@[1] == axis_rises(grid@, false, i as int),
                acc@[2] == axis_falls(grid@, true, i as int),
                acc@[3] == axis_rises(grid@, true, i as int),
                forall|j: int| 0 <= j < 4 ==> acc@[j] <= 96 * i,
            decreases 4 - i,
        {
            let (f, r) = line_violations(grid, false, i);
            acc[0] = acc[0] + f;
            acc[1] = acc[1] + r;
            let (f, r) = line_violations(grid, true, i);
            acc[2] = acc[2] + f;
            acc[3] = acc[3] + r;
            i += 1;
        }
        let penalty = min_score(acc[0] as i64, acc[1] as i64) + min_score(acc[2] as i64, acc[3] as i64);
        UNIT - 72 * penalty
    }

    /// Smoothness of the flat board `grid`, in units of `1 / UNIT`.
    pub fn smoothness(&self, grid: &[u32; 16]) -> (r: i64)
        ensures
            r == smoothness_score(grid@),
            UNIT - 19 * 4096 <= r <= UNIT,
    {
        let mut total: u32 = 0;
        let mut row: usize = 0;
        while row < 4
            invariant
                row <= 4,
                total == roughness(grid@, 4 * row as int),
                total <= 1024 * row,
            decreases 4 - row,
        {
            let mut col: usize = 0;
            while col < 4
                invariant
                    row < 4,
                    col <= 4,
                    total == roughness(grid@, 4 * row + col),
                    total <= 1024 * row + 256 * col,
                decreases 4 - col,
            {
                let pos = row * 4 + col;
                let ghost p = pos as int;
                assert(p / 4 == row && p % 4 == col);
                let mut here: u32 = 0;
                if grid[pos] != 0 {
                    let v = tile_log2(grid[pos]);
                    if row != 3 {
                        let mut k: usize = row;
                        while k < 4
                            invariant
                                row <= k <= 4,
                                col < 4,
                                v < 32,
                                here == scan_sum(grid@, v as int, col as int, 4, row as int, k as int),
                                here <= 32 * (k - row),
                            decreases 4 - k,
                        {
                            let q = grid[k * 4 + col];
                            if q != 0 {
                                let w = tile_log2(q);
                                here = here + if v > w {
                                    v - w
                                } else {
                                    w - v
                                };
                            }
                            k += 1;
                        }
                    }
                    let ghost down = here;
                    if col != 3 {
                        let mut k: usize = col;
                        while k < 4
                            invariant
                                col <= k <= 4,
                                row < 4,
                                v < 32,
                                here == down + scan_sum(grid@, v as int, 4 * row as int, 1, col as int, k as int),
                                down <= 128,
                                here <= down + 32 * (k - col),
                            decreases 4 - k,
                        {
                            let q = grid[row * 4 + k];
                            if q != 0 {
                                let w = tile_log2(q);
                                here = here + if v > w {
                                    v - w
                                } else {
                                    w - v
                                };
                            }
                            k += 1;
                        }
                    }
                }
                assert(here == cell_roughness(grid@, p));
                total = total + here;
                col += 1;
            }
            row += 1;
        }
        UNIT - 19 * total as i64
    }

    /// Whether some corner cell of the flat board `grid` holds its largest value.
    pub fn max_cornered(&self, grid: &[u32; 16]) -> (r: bool)
        ensures
            r == corner_max(grid@),
    {
        let mut top: u32 = grid[0];
        let mut i: usize = 1;
        while i < 16
            invariant
                1 <= i <= 16,
                forall|q: int| 0 <= q < i ==> grid@[q] <= top,
                exists|q: int| 0 <= q < i && grid@[q] == top,
            decreases 16 - i,
        {
            if grid[i] > top {
                top = grid[i];
            }
            i += 1;
        }
        let r = grid[0] == top || grid[4] == top || grid[8] == top || grid[12] == top;
        proof {
            if r {
                let c = if grid@[0] == top {
                    0
                } else if grid@[4] == top {
                    4
                } else if grid@[8] == top {
                    8
                } else {
                    12int
                };
                assert(is_corner(c));
            } else {
                assert forall|c: int| #[trigger] is_corner(c) implies !(forall|q: int|
                    0 <= q < 16 ==> grid@[q] <= grid@[c]) by {
                    let w = choose|q: int| 0 <= q < 16 && grid@[q] == top;
                    assert(grid@[w] > grid@[c]);
                }
            }
        }
        r
    }

    /// The static score of the board, in units of `1 / SCORE_UNIT`.
    pub fn evaluate(&self) -> (r: i64)
        ensures
            r == evaluation(self@),
            LOWEST_SCORE <= r <= SCORE_UNIT,
    {
        let grid_array: [u32; 16] = self.get_grid_as_array();
        let mut score: i64 = 6 * self.monotonicity(&grid_array);
        score = score + 3 * self.smoothness(&grid_array);
        if self.max_cornered(&grid_array) {
            score = score + UNIT;
        }
        score
    }
}

} // verus!
