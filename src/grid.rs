//! The 4x4 board: cells in row-major order, 0 for an empty cell, otherwise the
//! tile's value.
use vstd::prelude::*;

verus! {

/// The four sliding moves, in the order in which the engine tries them.
#[derive(Clone, Copy, PartialEq, Eq, Debug, Structural)]
pub enum Direction {
    Left,
    Right,
    Down,
    Up,
}

/// Flat index of the `k`-th cell of line `line` when sliding towards `d`;
/// `k == 0` is the cell against the wall the tiles slide to.
pub open spec fn cell_index(d: Direction, line: int, k: int) -> int {
    match d {
        Direction::Left => 4 * line + k,
        Direction::Right => 4 * line + 3 - k,
        Direction::Up => 4 * k + line,
        Direction::Down => 4 * (3 - k) + line,
    }
}

/// The line that flat index `p` belongs to when sliding towards `d`.
pub open spec fn line_of(d: Direction, p: int) -> int {
    match d {
        Direction::Left | Direction::Right => p / 4,
        Direction::Up | Direction::Down => p % 4,
    }
}

/// The position of flat index `p` within its line when sliding towards `d`.
pub open spec fn pos_in_line(d: Direction, p: int) -> int {
    match d {
        Direction::Left => p % 4,
        Direction::Right => 3 - p % 4,
        Direction::Up => p / 4,
        Direction::Down => 3 - p / 4,
    }
}

/// The four cells of a line, ordered from the wall outwards.
pub open spec fn line_cells(g: Seq<u32>, d: Direction, line: int) -> Seq<u32> {
    Seq::new(4, |k: int| g[cell_index(d, line, k)])
}

/// The non-empty cells of `s`, in order.
pub open spec fn tiles_of(s: Seq<u32>) -> Seq<u32>
    decreases s.len(),
{
    if s.len() == 0 {
        Seq::empty()
    } else if s.last() != 0 {
        tiles_of(s.drop_last()).push(s.last())
    } else {
        tiles_of(s.drop_last())
    }
}

/// Two equal tiles merge into one of twice the value, as long as that value
/// fits in a `u32`.
pub open spec fn mergeable(a: u32, b: u32) -> bool {
    a == b && a <= 0x7fff_ffff
}

/// Merges adjacent equal tiles from the front; a merged tile does not merge again.
pub open spec fn merge_tiles(t: Seq<u32>) -> Seq<u32>
    decreases t.len(),
{
    if t.len() < 2 {
        t
    } else if mergeable(t[0], t[1]) {
        seq![(2 * t[0]) as u32] + merge_tiles(t.subrange(2, t.len() as int))
    } else {
        seq![t[0]] + merge_tiles(t.subrange(1, t.len() as int))
    }
}

/// A line after a slide: its tiles packed against the wall and merged, then
/// padded with empty cells.
pub open spec fn slide(s: Seq<u32>) -> Seq<u32> {
    let m = merge_tiles(tiles_of(s));
    m + Seq::new((s.len() - m.len()) as nat, |k: int| 0u32)
}

/// The board after sliding every line towards `d`.
pub open spec fn moved(g: Seq<u32>, d: Direction) -> Seq<u32> {
    Seq::new(16, |p: int| slide(line_cells(g, d, line_of(d, p)))[pos_in_line(d, p)])
}

/// Whether no cell of the board is empty.
pub open spec fn is_full(g: Seq<u32>) -> bool {
    forall|p: int| 0 <= p < g.len() ==> g[p] != 0
}

proof fn lemma_tiles_len(s: Seq<u32>)
    ensures
        tiles_of(s).len() <= s.len(),
    decreases s.len(),
{
    if s.len() > 0 {
        lemma_tiles_len(s.drop_last());
    }
}

proof fn lemma_merge_len(t: Seq<u32>)
    ensures
        merge_tiles(t).len() <= t.len(),
        t.len() > 0 ==> merge_tiles(t).len() > 0,
    decreases t.len(),
{
    if t.len() >= 2 {
        lemma_merge_len(t.subrange(2, t.len() as int));
        lemma_merge_len(t.subrange(1, t.len() as int));
    }
}

proof fn lemma_index_roundtrip(d: Direction)
    ensures
        forall|l: int, k: int|
            0 <= l < 4 && 0 <= k < 4 ==> {
                let p = #[trigger] cell_index(d, l, k);
                0 <= p < 16 && line_of(d, p) == l && pos_in_line(d, p) == k
            },
        forall|p: int|
            0 <= p < 16 ==> {
                let l = #[trigger] line_of(d, p);
                0 <= l < 4 && 0 <= pos_in_line(d, p) < 4 && cell_index(d, l, pos_in_line(d, p))
                    == p
            },
{
}

/// Flat index of the `k`-th cell of line `line` when sliding towards `d`.
fn index_in(d: Direction, line: usize, k: usize) -> (r: usize)
    requires
        line < 4,
        k < 4,
    ensures
        r == cell_index(d, line as int, k as int),
        r < 16,
{
    match d {
        Direction::Left => 4 * line + k,
        Direction::Right => 4 * line + 3 - k,
        Direction::Up => 4 * k + line,
        Direction::Down => 4 * (3 - k) + line,
    }
}

/// Slides one line of four cells towards its first cell.
pub fn slide_line(line: [u32; 4]) -> (r: [u32; 4])
    ensures
        r@ == slide(line@),
{
    let mut tiles: Vec<u32> = Vec::new();
    let mut i: usize = 0;
    while i < 4
        invariant
            i <= 4,
            tiles@ == tiles_of(line@.take(i as int)),
        decreases 4 - i,
    {
        assert(line@.take(i + 1).drop_last() =~= line@.take(i as int));
        if line[i] != 0 {
            tiles.push(line[i]);
        }
        i += 1;
    }
    assert(line@.take(4) =~= line@);
    proof {
        lemma_tiles_len(line@);
        lemma_merge_len(tiles@);
    }
    let ghost whole = tiles@;
    let mut out: [u32; 4] = [0; 4];
    assert(whole.subrange(0, whole.len() as int) =~= whole);
    assert(out@.take(0) + merge_tiles(whole) =~= merge_tiles(whole));
    let mut n: usize = 0;
    let mut j: usize = 0;
    while j < tiles.len()
        invariant
            tiles@ == whole,
            whole.len() <= 4,
            merge_tiles(whole).len() <= 4,
            n <= 4,
            j <= whole.len(),
            out@.take(n as int) + merge_tiles(whole.subrange(j as int, whole.len() as int))
                == merge_tiles(whole),
            forall|k: int| n <= k < 4 ==> out@[k] == 0,
        decreases whole.len() - j,
    {
        let ghost rest = whole.subrange(j as int, whole.len() as int);
        proof {
            lemma_merge_len(rest);
        }
        if j + 1 < tiles.len() && tiles[j] == tiles[j + 1] && tiles[j] <= 0x7fff_ffff {
            assert(rest.subrange(2, rest.len() as int) =~= whole.subrange(
                j + 2,
                whole.len() as int,
            ));
            proof {
                lemma_merge_len(rest.subrange(2, rest.len() as int));
            }
            out[n] = 2 * tiles[j];
            assert(out@.take(n + 1) =~= out@.take(n as int).push((2 * whole[j as int]) as u32));
            assert(out@.take(n + 1) + merge_tiles(whole.subrange(j + 2, whole.len() as int))
                =~= out@.take(n as int) + merge_tiles(rest));
            n += 1;
            j += 2;
        } else {
            assert(rest.subrange(1, rest.len() as int) =~= whole.subrange(
                j + 1,
                whole.len() as int,
            ));
            proof {
                lemma_merge_len(rest.subrange(1, rest.len() as int));
                if rest.len() < 2 {
                    assert(merge_tiles(rest.subrange(1, rest.len() as int)) =~= Seq::<u32>::empty());
                    assert(seq![rest[0]] + Seq::<u32>::empty() =~= rest);
                }
            }
            out[n] = tiles[j];
            assert(out@.take(n + 1) =~= out@.take(n as int).push(whole[j as int]));
            assert(out@.take(n + 1) + merge_tiles(whole.subrange(j + 1, whole.len() as int))
                =~= out@.take(n as int) + merge_tiles(rest));
            n += 1;
            j += 1;
        }
    }
    assert(whole.subrange(whole.len() as int, whole.len() as int) =~= Seq::<u32>::empty());
    assert(out@ =~= slide(line@));
    out
}

/// A 4x4 board. Each cell is 0 when empty, otherwise a tile's value
/// (a power of two in play, though any positive value is accepted).
#[derive(Clone, Copy, Debug)]
pub struct Grid {
    cells: [u32; 16],
}

impl View for Grid {
    type V = Seq<u32>;

    closed spec fn view(&self) -> Seq<u32> {
        self.cells@
    }
}

impl Grid {
    /// Every board has sixteen cells.
    pub proof fn lemma_sixteen_cells(&self)
        ensures
            self@.len() == 16,
    {
    }

    /// A board from its sixteen cells in row-major order (0 for empty).
    pub fn new(cells: [u32; 16]) -> (r: Grid)
        ensures
            r@ == cells@,
    {
        Grid { cells }
    }

    /// A board from a list of cells in row-major order; `None` unless the list
    /// holds exactly sixteen cells.
    pub fn from_cells(cells: &Vec<u32>) -> (r: Option<Grid>)
        ensures
            r is None <==> cells@.len() != 16,
            r matches Some(g) ==> g@ == cells@,
    {
        if cells.len() != 16 {
            return None;
        }
        let mut a: [u32; 16] = [0; 16];
        let mut i: usize = 0;
        while i < 16
            invariant
                cells@.len() == 16,
                i <= 16,
                forall|k: int| 0 <= k < i ==> a@[k] == cells@[k],
            decreases 16 - i,
        {
            a[i] = cells[i];
            i += 1;
        }
        assert(a@ =~= cells@);
        Some(Grid { cells: a })
    }

    /// The cells as a flat array in row-major order, 0 for an empty cell.
    pub fn get_grid_as_array(&self) -> (r: [u32; 16])
        ensures
            r@ == self@,
    {
        self.cells
    }

    /// Slides and merges every line towards `d`; a move that changes nothing
    /// leaves the board as it was.
    pub fn move_in(&mut self, d: Direction)
        ensures
            final(self)@ == moved(old(self)@, d),
    {
        let ghost start = self@;
        proof {
            lemma_index_roundtrip(d);
        }
        let mut l: usize = 0;
        while l < 4
            invariant
                l <= 4,
                start == old(self)@,
                start.len() == 16,
                forall|p: int|
                    0 <= p < 16 ==> #[trigger] self@[p] == if line_of(d, p) < l {
                        moved(start, d)[p]
                    } else {
                        start[p]
                    },
                forall|l2: int, k: int|
                    0 <= l2 < 4 && 0 <= k < 4 ==> {
                        let p = #[trigger] cell_index(d, l2, k);
                        0 <= p < 16 && line_of(d, p) == l2 && pos_in_line(d, p) == k
                    },
                forall|p: int|
                    0 <= p < 16 ==> {
                        let l2 = #[trigger] line_of(d, p);
                        0 <= l2 < 4 && 0 <= pos_in_line(d, p) < 4 && cell_index(
                            d,
                            l2,
                            pos_in_line(d, p),
                        ) == p
                    },
            decreases 4 - l,
        {
            let mut line: [u32; 4] = [0; 4];
            let mut k: usize = 0;
            while k < 4
                invariant
                    l < 4,
                    k <= 4,
                    start.len() == 16,
                    forall|p: int|
                        0 <= p < 16 ==> #[trigger] self@[p] == if line_of(d, p) < l {
                            moved(start, d)[p]
                        } else {
                            start[p]
                        },
                    forall|l2: int, k2: int|
                        0 <= l2 < 4 && 0 <= k2 < 4 ==> {
                            let p = #[trigger] cell_index(d, l2, k2);
                            0 <= p < 16 && line_of(d, p) == l2 && pos_in_line(d, p) == k2
                        },
                    forall|j: int| 0 <= j < k ==> line@[j] == start[cell_index(d, l as int, j)],
                decreases 4 - k,
            {
                let idx = index_in(d, l, k);
                assert(self@[idx as int] == start[idx as int]);
                line[k] = self.cells[idx];
                k += 1;
            }
            assert(line@ =~= line_cells(start, d, l as int));
            let s = slide_line(line);
            let ghost before = self@;
            k = 0;
            while k < 4
                invariant
                    l < 4,
                    k <= 4,
                    start.len() == 16,
                    s@ == slide(line_cells(start, d, l as int)),
                    before.len() == 16,
                    forall|p: int|
                        0 <= p < 16 ==> #[trigger] self@[p] == if line_of(d, p) == l
                            && pos_in_line(d, p) < k {
                            moved(start, d)[p]
                        } else {
                            before[p]
                        },
                    forall|l2: int, k2: int|
                        0 <= l2 < 4 && 0 <= k2 < 4 ==> {
                            let p = #[trigger] cell_index(d, l2, k2);
                            0 <= p < 16 && line_of(d, p) == l2 && pos_in_line(d, p) == k2
                        },
                    forall|p: int|
                        0 <= p < 16 ==> {
                            let l2 = #[trigger] line_of(d, p);
                            0 <= l2 < 4 && 0 <= pos_in_line(d, p) < 4 && cell_index(
                                d,
                                l2,
                                pos_in_line(d, p),
                            ) == p
                        },
                decreases 4 - k,
            {
                let idx = index_in(d, l, k);
                assert(moved(start, d)[idx as int] == s@[k as int]);
                let ghost mid = self@;
                self.cells[idx] = s[k];
                assert forall|p: int| 0 <= p < 16 implies #[trigger] self@[p] == if line_of(d, p)
                    == l && pos_in_line(d, p) < k + 1 {
                    moved(start, d)[p]
                } else {
                    before[p]
                } by {
                    if p != idx {
                        assert(self@[p] == mid[p]);
                        assert(line_of(d, p) == l && pos_in_line(d, p) == k ==> cell_index(
                            d,
                            line_of(d, p),
                            pos_in_line(d, p),
                        ) == idx);
                    }
                }
                k += 1;
            }
            l += 1;
        }
    }

    /// Which cells are empty, in row-major order; `None` when no cell is empty.
    pub fn empty_positions(&self) -> (r: Option<[bool; 16]>)
        ensures
            r is None <==> is_full(self@),
            r matches Some(e) ==> forall|p: int| 0 <= p < 16 ==> e@[p] == (self@[p] == 0),
    {
        let mut e: [bool; 16] = [false; 16];
        let mut any: bool = false;
        let mut i: usize = 0;
        while i < 16
            invariant
                i <= 16,
                forall|p: int| 0 <= p < i ==> e@[p] == (self@[p] == 0),
                any <==> exists|p: int| 0 <= p < i && self@[p] == 0,
            decreases 16 - i,
        {
            e[i] = self.cells[i] == 0;
            if self.cells[i] == 0 {
                any = true;
                assert(self@[i as int] == 0);
            }
            i += 1;
        }
        assert(self@.len() == 16);
        if any {
            Some(e)
        } else {
            None
        }
    }

    /// Places a tile of `value` on the empty cell at flat index `index`.
    pub fn add_tile(&mut self, value: u32, index: usize)
        requires
            index < 16,
            old(self)@[index as int] == 0,
        ensures
            final(self)@ == old(self)@.update(index as int, value),
    {
        self.cells[index] = value;
    }
}

} // verus!
