//! The board: an 8x8 grid of tile ranks with the score earned so far.

use vstd::prelude::*;
use crate::score::{end_bonus, get_end_bonus};

verus! {

/// Width and height of the board.
pub const BOARD_SIZE: usize = 8;

/// A grid as a sequence of columns, each a sequence of ranks from the top
/// (index 0) to the floor (index 7). Rank 0 is an empty cell.
pub type Grid = Seq<Seq<u8>>;

/// A grid has eight columns of eight cells.
pub open spec fn grid_wf(g: Grid) -> bool {
    &&& g.len() == 8
    &&& forall|x: int| 0 <= x < 8 ==> (#[trigger] g[x]).len() == 8
}

/// Both coordinates lie on the board.
pub open spec fn on_board(x: int, y: int) -> bool {
    0 <= x < 8 && 0 <= y < 8
}

/// The grid held by an array of columns.
pub open spec fn grid_of(cells: [[u8; 8]; 8]) -> Grid {
    Seq::new(8, |x: int| cells[x]@)
}

/// The occupied cells of a grid.
pub open spec fn tile_set(g: Grid) -> Set<(int, int)> {
    Set::new(|c: (int, int)| on_board(c.0, c.1) && g[c.0][c.1] != 0)
}

/// The number of tiles on a grid.
pub open spec fn tile_count(g: Grid) -> nat {
    tile_set(g).len()
}

/// The test for a cell that holds the rank `r`.
pub open spec fn holding(r: u8) -> spec_fn(u8) -> bool {
    |v: u8| v == r
}

/// The cells of a grid whose content passes `pred`.
pub open spec fn cells_where(g: Grid, pred: spec_fn(u8) -> bool) -> Set<(int, int)> {
    Set::new(|c: (int, int)| on_board(c.0, c.1) && pred(g[c.0][c.1]))
}

/// The number of tiles of rank `r` on a grid.
pub open spec fn rank_count(g: Grid, r: u8) -> nat {
    cells_where(g, holding(r)).len()
}

/// The value of the `k`-th hexadecimal digit of `w`, counted from the least
/// significant one.
pub open spec fn hex_digit(w: u32, k: int) -> u8 {
    ((w >> ((4 * k) as u32)) & 0xf) as u8
}

/// The cells of the board as the set of all coordinates.
pub open spec fn all_cells() -> Set<(int, int)> {
    Set::new(|c: (int, int)| on_board(c.0, c.1))
}

/// The cells that come before `(x, y)` when the board is read row by row.
pub open spec fn cells_before_in_rows(x: int, y: int) -> Set<(int, int)> {
    Set::new(|c: (int, int)| on_board(c.0, c.1) && (c.1 < y || (c.1 == y && c.0 < x)))
}

/// The board has 64 cells.
pub proof fn lemma_all_cells_finite()
    ensures
        all_cells().finite(),
        all_cells().len() == 64,
{
    lemma_row_cells(8, 7);
    assert(cells_before_in_rows(8, 7) =~= all_cells());
}

/// Reading row by row, `8 * y + x` cells come before `(x, y)`.
pub proof fn lemma_row_cells(x: int, y: int)
    requires
        0 <= x <= 8,
        0 <= y < 8,
    ensures
        cells_before_in_rows(x, y).finite(),
        cells_before_in_rows(x, y).len() == 8 * y + x,
    decreases y, x,
{
    if x == 0 {
        if y == 0 {
            assert(cells_before_in_rows(0, 0) =~= Set::<(int, int)>::empty());
        } else {
            lemma_row_cells(8, y - 1);
            assert(cells_before_in_rows(0, y) =~= cells_before_in_rows(8, y - 1));
        }
    } else {
        lemma_row_cells(x - 1, y);
        assert(cells_before_in_rows(x, y) =~= cells_before_in_rows(x - 1, y).insert((x - 1, y)));
    }
}

/// Any set of on-board cells is finite and has at most 64 members.
pub proof fn lemma_cell_set_bounded(s: Set<(int, int)>)
    requires
        forall|c: (int, int)| s.contains(c) ==> on_board(c.0, c.1),
    ensures
        s.finite(),
        s.len() <= 64,
{
    lemma_all_cells_finite();
    vstd::set_lib::lemma_len_subset(s, all_cells());
}

/// The tiles of a grid are finite in number, at most 64.
pub proof fn lemma_tile_count_bounded(g: Grid)
    ensures
        tile_set(g).finite(),
        tile_count(g) <= 64,
{
    lemma_cell_set_bounded(tile_set(g));
}

/// A board position: the ranks on the grid and the score earned so far.
#[derive(Clone, Copy, Debug)]
pub struct Board {
    /// `board[x][y]` is the rank in column `x` (0 is leftmost) at height `y`
    /// (0 is the top, 7 the floor); 0 means the cell is empty.
    pub board: [[u8; BOARD_SIZE]; BOARD_SIZE],
    /// The points earned by the merges that led to this position.
    pub score: u32,
}

impl Board {
    /// The grid of the board.
    pub open spec fn grid(&self) -> Grid {
        grid_of(self.board)
    }

    /// An empty board with no score.
    pub fn new() -> (b: Board)
        ensures
            b.score == 0,
            forall|x: int, y: int| on_board(x, y) ==> b.board[x][y] == 0,
    {
        Board { board: [[0; BOARD_SIZE]; BOARD_SIZE], score: 0 }
    }

    /// Builds a board from eight rows written as hexadecimal numbers: row `y`
    /// is `rows[y]`, and its leftmost cell is the most significant digit.
    pub fn from_rows(rows: [u32; BOARD_SIZE]) -> (b: Board)
        ensures
            b.score == 0,
            forall|x: int, y: int| on_board(x, y) ==> b.board[x][y] == hex_digit(rows[y], 7 - x),
    {
        let mut board = Board::new();
        let mut x: usize = 0;
        while x < BOARD_SIZE
            invariant
                x <= 8,
                board.score == 0,
                forall|i: int, y: int|
                    8 - x <= i < 8 && 0 <= y < 8 ==> board.board[i][y] == hex_digit(rows[y], 7 - i),
            decreases 8 - x,
        {
            let mut y: usize = 0;
            while y < BOARD_SIZE
                invariant
                    x < 8,
                    y <= 8,
                    board.score == 0,
                    forall|i: int, j: int|
                        8 - x <= i < 8 && 0 <= j < 8 ==> board.board[i][j] == hex_digit(
                            rows[j],
                            7 - i,
                        ),
                    forall|j: int|
                        0 <= j < y ==> board.board[7 - x][j] == hex_digit(rows[j], x as int),
                decreases 8 - y,
            {
                let shift: u32 = 4 * x as u32;
                let w: u32 = rows[y];
                let digit: u32 = (w & (0xfu32 << shift)) >> shift;
                assert(digit == (w >> shift) & 0xf && digit < 16) by (bit_vector)
                    requires
                        digit == (w & (0xfu32 << shift)) >> shift,
                        shift < 32,
                ;
                board.board[BOARD_SIZE - x - 1][y] = digit as u8;
                y += 1;
            }
            x += 1;
        }
        board
    }

    /// The board row by row, as it is shown: row `y` holds the cells at
    /// height `y` from the leftmost column to the rightmost.
    pub fn rows(&self) -> (r: [[u8; BOARD_SIZE]; BOARD_SIZE])
        ensures
            forall|x: int, y: int| on_board(x, y) ==> r[y][x] == self.board[x][y],
    {
        let mut r: [[u8; 8]; 8] = [[0; BOARD_SIZE]; BOARD_SIZE];
        let mut y: usize = 0;
        while y < BOARD_SIZE
            invariant
                y <= 8,
                forall|i: int, j: int| 0 <= i < 8 && 0 <= j < y ==> r[j][i] == self.board[i][j],
            decreases 8 - y,
        {
            let mut x: usize = 0;
            while x < BOARD_SIZE
                invariant
                    y < 8,
                    x <= 8,
                    forall|i: int, j: int|
                        0 <= i < 8 && 0 <= j < y ==> r[j][i] == self.board[i][j],
                    forall|i: int| 0 <= i < x ==> r[y as int][i] == self.board[i][y as int],
                decreases 8 - x,
            {
                r[y][x] = self.board[x][y];
                x += 1;
            }
            y += 1;
        }
        r
    }

    /// Whether at most one tile is left, judged from two cells: on a board
    /// whose tiles have fallen and whose columns have closed up, a second tile
    /// would sit above the corner tile or at the foot of the next column.
    pub fn is_cleared(&self) -> (r: bool)
        ensures
            r == (self.board[0][6] == 0 && self.board[1][7] == 0),
    {
        self.board[0][BOARD_SIZE - 2] == 0 && self.board[1][BOARD_SIZE - 1] == 0
    }

    /// Counts the tiles on the board.
    pub fn get_tiles_remaining(&self) -> (count: u8)
        ensures
            count == tile_count(self.grid()),
    {
        let mut count: u8 = 0;
        let mut i: usize = 0;
        let ghost g = self.grid();
        proof {
            lemma_row_cells(0, 0);
            assert(tile_set(g).intersect(cells_before_in_rows(0, 0)) =~= Set::<
                (int, int),
            >::empty());
        }
        while i < BOARD_SIZE
            invariant
                i <= 8,
                g == self.grid(),
                i < 8 ==> count == tile_set(g).intersect(cells_before_in_rows(0, i as int)).len(),
                i == 8 ==> count == tile_count(g),
                count <= 8 * i,
            decreases 8 - i,
        {
            let mut j: usize = 0;
            while j < BOARD_SIZE
                invariant
                    i < 8,
                    j <= 8,
                    g == self.grid(),
                    count == tile_set(g).intersect(cells_before_in_rows(j as int, i as int)).len(),
                    count <= 8 * i + j,
                decreases 8 - j,
            {
                proof {
                    lemma_row_cells(j as int, i as int);
                    lemma_row_cells(j + 1, i as int);
                    let before = tile_set(g).intersect(cells_before_in_rows(j as int, i as int));
                    let after = tile_set(g).intersect(cells_before_in_rows(j + 1, i as int));
                    vstd::set_lib::lemma_len_intersect(
                        cells_before_in_rows(j as int, i as int),
                        tile_set(g),
                    );
                    assert(before =~= cells_before_in_rows(j as int, i as int).intersect(
                        tile_set(g),
                    ));
                    assert(before.finite());
                    assert(g[j as int][i as int] == self.board[j as int][i as int]);
                    if self.board[j as int][i as int] > 0 {
                        assert(after =~= before.insert((j as int, i as int)));
                    } else {
                        assert(after =~= before);
                    }
                }
                if self.board[j][i] > 0 {
                    count += 1;
                }
                j += 1;
            }
            proof {
                if i < 7 {
                    assert(cells_before_in_rows(8, i as int) =~= cells_before_in_rows(0, i + 1));
                } else {
                    assert(tile_set(g).intersect(cells_before_in_rows(8, 7)) =~= tile_set(g));
                }
            }
            i += 1;
        }
        count
    }

    /// The bonus for ending the game on this board at difficulty `level`.
    /// An empty board has no end bonus of this kind, so at least one tile
    /// must be left.
    pub fn get_bonus(&self, level: u32) -> (r: u32)
        requires
            tile_count(self.grid()) >= 1,
            500 * (level + 1) <= u32::MAX,
        ensures
            r == end_bonus(tile_count(self.grid()) as int, level as int),
    {
        let n: u32 = self.get_tiles_remaining() as u32;
        get_end_bonus(n, level)
    }
}

} // verus!
