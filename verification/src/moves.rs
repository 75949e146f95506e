//! Move generation: the cells whose click merges at least two tiles.

use vstd::prelude::*;
use arrayvec::ArrayVec;
use crate::bitboard::{bit, bit_index, lemma_bit_set};
use crate::board::{Board, Grid, on_board, BOARD_SIZE};
use crate::cluster::Cell;
use crate::collapse::lemma_filter_three_parts;
use crate::lists::{cells_of, cells_new, cells_push, STACK_SIZE};

verus! {

/// The tile at `(p, y)` and its right neighbour hold the same rank.
pub open spec fn pair_across(g: Grid, p: int, y: int) -> bool {
    g[p][y] != 0 && g[p][y] == g[p + 1][y]
}

/// The tile at `(x, q)` and the cell below it hold the same rank.
pub open spec fn pair_down(g: Grid, x: int, q: int) -> bool {
    g[x][q] != 0 && g[x][q] == g[x][q + 1]
}

/// The cell holds a tile, and a cell that shares an edge with it holds the
/// same rank.
pub open spec fn has_twin(g: Grid, x: int, y: int) -> bool {
    ||| (x >= 1 && pair_across(g, x - 1, y))
    ||| (x <= 6 && pair_across(g, x, y))
    ||| (y >= 1 && pair_down(g, x, y - 1))
    ||| (y <= 6 && pair_down(g, x, y))
}

/// The cell right above holds the same rank. Of a run of equal tiles in one
/// column only the top one is offered as a move.
pub open spec fn shadowed(g: Grid, x: int, y: int) -> bool {
    y >= 1 && g[x][y - 1] == g[x][y]
}

/// Clicking `(x, y)` is offered as a move.
pub open spec fn is_move(g: Grid, x: int, y: int) -> bool {
    on_board(x, y) && has_twin(g, x, y) && !shadowed(g, x, y)
}

/// The cells of the board column by column, each column from the top.
pub open spec fn scan_order() -> Seq<(usize, usize)> {
    Seq::new(64, |i: int| ((i / 8) as usize, (i % 8) as usize))
}

/// The test that picks the moves out of the cells.
pub open spec fn move_test(g: Grid) -> spec_fn((usize, usize)) -> bool {
    |m: (usize, usize)| is_move(g, m.0 as int, m.1 as int)
}

/// The moves on a grid, in scan order.
pub open spec fn valid_moves(g: Grid) -> Seq<(usize, usize)> {
    scan_order().filter(move_test(g))
}

/// The moves among the first `n` cells in scan order.
pub open spec fn moves_among(g: Grid, n: int) -> Seq<(usize, usize)> {
    scan_order().take(n).filter(move_test(g))
}

/// The moves found among a prefix of the cells are a prefix of all moves.
pub proof fn lemma_moves_among(g: Grid, n: int)
    requires
        0 <= n <= 64,
    ensures
        moves_among(g, n).len() <= valid_moves(g).len() <= 64,
        n == 64 ==> moves_among(g, n) == valid_moves(g),
        n < 64 ==> moves_among(g, n + 1) == if is_move(g, n / 8, n % 8) {
            moves_among(g, n).push(scan_order()[n])
        } else {
            moves_among(g, n)
        },
        n == 0 ==> moves_among(g, n) == Seq::<(usize, usize)>::empty(),
{
    let s = scan_order();
    lemma_filter_three_parts(s, move_test(g), 0, n);
    assert(s.subrange(0, n) =~= s.take(n));
    s.lemma_filter_len(move_test(g));
    assert(s.take(64) =~= s);
    if n < 64 {
        reveal(Seq::filter);
        assert(s.take(n + 1).drop_last() =~= s.take(n));
        assert(s.take(n + 1).last() == s[n]);
    }
    if n == 0 {
        reveal(Seq::filter);
        assert(s.take(0).filter(move_test(g)) =~= Seq::<(usize, usize)>::empty());
    }
}

/// Every move names a cell on the board that is offered, and every offered
/// cell is among the moves.
pub proof fn lemma_valid_moves_exact(g: Grid)
    ensures
        forall|i: int|
            0 <= i < valid_moves(g).len() ==> is_move(
                g,
                (#[trigger] valid_moves(g)[i]).0 as int,
                valid_moves(g)[i].1 as int,
            ),
        forall|x: int, y: int|
            is_move(g, x, y) ==> valid_moves(g).contains((x as usize, y as usize)),
{
    let s = scan_order();
    assert forall|i: int| 0 <= i < valid_moves(g).len() implies is_move(
        g,
        (#[trigger] valid_moves(g)[i]).0 as int,
        valid_moves(g)[i].1 as int,
    ) by {
        s.lemma_filter_pred(move_test(g), i);
    }
    assert forall|x: int, y: int| is_move(g, x, y) implies valid_moves(g).contains(
        (x as usize, y as usize),
    ) by {
        let i = 8 * x + y;
        assert(s[i] == (x as usize, y as usize));
        assert(move_test(g)(s[i]));
        s.lemma_filter_contains(move_test(g), i);
    }
}

/// Of a run of equal tiles in one column, from height `top` down to height
/// `bottom`, with another rank or nothing above it, the top tile is a move
/// and no tile below it is.
pub proof fn lemma_run_offers_its_top(g: Grid, x: int, top: int, bottom: int)
    requires
        0 <= x < 8,
        0 <= top < bottom < 8,
        g[x][top] != 0,
        forall|y: int| top <= y <= bottom ==> g[x][y] == g[x][top],
        top > 0 ==> g[x][top - 1] != g[x][top],
    ensures
        is_move(g, x, top),
        forall|y: int| top < y <= bottom ==> !is_move(g, x, y),
{
    assert(g[x][top + 1] == g[x][top]);
    assert(pair_down(g, x, top));
    assert forall|y: int| top < y <= bottom implies !is_move(g, x, y) by {
        assert(g[x][y - 1] == g[x][top]);
        assert(shadowed(g, x, y));
    }
}

/// Two equal tiles side by side are both moves, unless the tile right above
/// one of them holds their rank.
pub proof fn lemma_pair_offers_both(g: Grid, x: int, y: int)
    requires
        0 <= x < 7,
        0 <= y < 8,
        g[x][y] != 0,
        g[x][y] == g[x + 1][y],
    ensures
        is_move(g, x, y) <==> !shadowed(g, x, y),
        is_move(g, x + 1, y) <==> !shadowed(g, x + 1, y),
{
    assert(pair_across(g, x, y));
}

/// The pair `(p, y)` comes before `(hx, hy)` in the order in which the pairs
/// across columns are looked at.
pub open spec fn across_done(p: int, y: int, hx: int, hy: int) -> bool {
    p < hx || (p == hx && y < hy)
}

/// The pair `(x, q)` comes before `(vx, vy)` in the order in which the pairs
/// within columns are looked at.
pub open spec fn down_done(x: int, q: int, vx: int, vy: int) -> bool {
    q < vy || (q == vy && x < vx)
}

/// The cell belongs to a pair that has been looked at.
pub open spec fn marked(g: Grid, x: int, y: int, hx: int, hy: int, vx: int, vy: int) -> bool {
    ||| (x >= 1 && pair_across(g, x - 1, y) && across_done(x - 1, y, hx, hy))
    ||| (x <= 6 && pair_across(g, x, y) && across_done(x, y, hx, hy))
    ||| (y >= 1 && pair_down(g, x, y - 1) && down_done(x, y - 1, vx, vy))
    ||| (y <= 6 && pair_down(g, x, y) && down_done(x, y, vx, vy))
}

/// The marks agree with the pairs looked at so far.
pub open spec fn marks_agree(
    g: Grid,
    valid: [[bool; 8]; 8],
    hx: int,
    hy: int,
    vx: int,
    vy: int,
) -> bool {
    forall|x: int, y: int|
        on_board(x, y) ==> (#[trigger] valid[x][y] <==> marked(g, x, y, hx, hy, vx, vy))
}

/// The marks after the runs within the columns before `(cx, cy)` have been
/// thinned out.
pub open spec fn culled_agree(g: Grid, valid: [[bool; 8]; 8], cx: int, cy: int) -> bool {
    forall|x: int, y: int|
        on_board(x, y) ==> (#[trigger] valid[x][y] <==> has_twin(g, x, y) && !(shadowed(g, x, y)
            && (x < cx || (x == cx && y <= cy))))
}

impl Board {
    /// Marks both cells of the pair across columns `p` and `p + 1` in row `y`.
    fn mark_across(&self, valid: &mut [[bool; 8]; 8], p: usize, y: usize, Ghost(vx): Ghost<int>, Ghost(vy): Ghost<int>)
        requires
            p < 7,
            y < 8,
            marks_agree(self.grid(), *old(valid), p as int, y as int, vx, vy),
        ensures
            marks_agree(self.grid(), *final(valid), p as int, y + 1, vx, vy),
    {
        let ghost before = *valid;
        if self.board[p][y] != 0 && self.board[p][y] == self.board[p + 1][y] {
            valid[p][y] = true;
            valid[p + 1][y] = true;
        }
        assert forall|i: int, j: int| on_board(i, j) implies (#[trigger] valid[i][j] <==> marked(
            self.grid(),
            i,
            j,
            p as int,
            y + 1,
            vx,
            vy,
        )) by {
            assert(before[i][j] <==> marked(self.grid(), i, j, p as int, y as int, vx, vy));
        }
    }

    /// Marks both cells of the pair in column `x` at heights `q` and `q + 1`.
    fn mark_down(&self, valid: &mut [[bool; 8]; 8], x: usize, q: usize)
        requires
            x < 8,
            q < 7,
            marks_agree(self.grid(), *old(valid), 7, 0, x as int, q as int),
        ensures
            marks_agree(self.grid(), *final(valid), 7, 0, x + 1, q as int),
    {
        let ghost before = *valid;
        if self.board[x][q] != 0 && self.board[x][q] == self.board[x][q + 1] {
            valid[x][q] = true;
            valid[x][q + 1] = true;
        }
        assert forall|i: int, j: int| on_board(i, j) implies (#[trigger] valid[i][j] <==> marked(
            self.grid(),
            i,
            j,
            7,
            0,
            x + 1,
            q as int,
        )) by {
            assert(before[i][j] <==> marked(self.grid(), i, j, 7, 0, x as int, q as int));
        }
    }

    /// Appends the moves of this board to `valid_moves`, in scan order: column
    /// by column, each from the top. A cell is a move when its tile has a
    /// neighbour of the same rank, unless the tile right above it has that
    /// rank too.
    pub fn get_valid_moves(&self, valid_moves: &mut ArrayVec<(usize, usize), STACK_SIZE>)
        requires
            cells_of(*old(valid_moves)).len() + crate::moves::valid_moves(self.grid()).len() <= 64,
        ensures
            cells_of(*final(valid_moves)) == cells_of(*old(valid_moves)) + crate::moves::valid_moves(
                self.grid(),
            ),
    {
        let ghost g = self.grid();
        let ghost start = cells_of(*valid_moves);
        let mut valid: [[bool; 8]; 8] = [[false; BOARD_SIZE]; BOARD_SIZE];

        let mut x: usize = 0;
        while x < BOARD_SIZE - 2
            invariant
                x <= 6,
                g == self.grid(),
                marks_agree(g, valid, x as int, 0, 0, 0),
            decreases 6 - x,
        {
            let mut y: usize = 0;
            while y < BOARD_SIZE
                invariant
                    x < 6,
                    y <= 8,
                    g == self.grid(),
                    marks_agree(g, valid, x as int, y as int, 0, 0),
                decreases 8 - y,
            {
                self.mark_across(&mut valid, x, y, Ghost(0), Ghost(0));
                y += 1;
            }
            assert(marks_agree(g, valid, x + 1, 0, 0, 0)) by {
                assert forall|i: int, j: int| on_board(i, j) implies (#[trigger] valid[i][j]
                    <==> marked(g, i, j, x + 1, 0, 0, 0)) by {
                    assert(valid[i][j] <==> marked(g, i, j, x as int, 8, 0, 0));
                }
            }
            x += 1;
        }
        let mut y: usize = 0;
        while y < BOARD_SIZE
            invariant
                y <= 8,
                g == self.grid(),
                marks_agree(g, valid, 6, y as int, 0, 0),
            decreases 8 - y,
        {
            self.mark_across(&mut valid, 6, y, Ghost(0), Ghost(0));
            y += 1;
        }
        assert(marks_agree(g, valid, 7, 0, 0, 0)) by {
            assert forall|i: int, j: int| on_board(i, j) implies (#[trigger] valid[i][j] <==> marked(
                g,
                i,
                j,
                7,
                0,
                0,
                0,
            )) by {
                assert(valid[i][j] <==> marked(g, i, j, 6, 8, 0, 0));
            }
        }

        let mut y: usize = 0;
        while y < BOARD_SIZE - 2
            invariant
                y <= 6,
                g == self.grid(),
                marks_agree(g, valid, 7, 0, 0, y as int),
            decreases 6 - y,
        {
            let mut x: usize = 0;
            while x < BOARD_SIZE
                invariant
                    y < 6,
                    x <= 8,
                    g == self.grid(),
                    marks_agree(g, valid, 7, 0, x as int, y as int),
                decreases 8 - x,
            {
                self.mark_down(&mut valid, x, y);
                x += 1;
            }
            assert(marks_agree(g, valid, 7, 0, 0, y + 1)) by {
                assert forall|i: int, j: int| on_board(i, j) implies (#[trigger] valid[i][j]
                    <==> marked(g, i, j, 7, 0, 0, y + 1)) by {
                    assert(valid[i][j] <==> marked(g, i, j, 7, 0, 8, y as int));
                }
            }
            y += 1;
        }
        let mut x: usize = 0;
        while x < BOARD_SIZE
            invariant
                x <= 8,
                g == self.grid(),
                marks_agree(g, valid, 7, 0, x as int, 6),
            decreases 8 - x,
        {
            self.mark_down(&mut valid, x, 6);
            x += 1;
        }
        assert(culled_agree(g, valid, 0, 0)) by {
            assert forall|i: int, j: int| on_board(i, j) implies (#[trigger] valid[i][j]
                <==> has_twin(g, i, j) && !(shadowed(g, i, j) && (i < 0 || (i == 0 && j <= 0)))) by {
                assert(valid[i][j] <==> marked(g, i, j, 7, 0, 8, 6));
            }
        }

        let mut x: usize = 0;
        while x < BOARD_SIZE
            invariant
                x <= 8,
                g == self.grid(),
                culled_agree(g, valid, x as int, 0),
            decreases 8 - x,
        {
            let mut y: usize = 0;
            while y < BOARD_SIZE - 1
                invariant
                    x < 8,
                    y <= 7,
                    g == self.grid(),
                    culled_agree(g, valid, x as int, y as int),
                decreases 7 - y,
            {
                let ghost before = valid;
                if self.board[x][y] == self.board[x][y + 1] {
                    valid[x][y + 1] = false;
                }
                assert(culled_agree(g, valid, x as int, y + 1)) by {
                    assert forall|i: int, j: int| on_board(i, j) implies (#[trigger] valid[i][j]
                        <==> has_twin(g, i, j) && !(shadowed(g, i, j) && (i < x || (i == x && j <= y
                        + 1)))) by {
                        assert(before[i][j] <==> has_twin(g, i, j) && !(shadowed(g, i, j) && (i < x
                            || (i == x && j <= y))));
                    }
                }
                y += 1;
            }
            assert(culled_agree(g, valid, x + 1, 0)) by {
                assert forall|i: int, j: int| on_board(i, j) implies (#[trigger] valid[i][j]
                    <==> has_twin(g, i, j) && !(shadowed(g, i, j) && (i < x + 1 || (i == x + 1 && j
                    <= 0)))) by {
                    assert(valid[i][j] <==> has_twin(g, i, j) && !(shadowed(g, i, j) && (i < x || (i
                        == x && j <= 7))));
                }
            }
            x += 1;
        }

        proof {
            lemma_moves_among(g, 0);
            assert(start + moves_among(g, 0) =~= start);
        }
        let mut x: usize = 0;
        while x < BOARD_SIZE
            invariant
                x <= 8,
                g == self.grid(),
                culled_agree(g, valid, 8, 0),
                start.len() + crate::moves::valid_moves(g).len() <= 64,
                cells_of(*valid_moves) == start + moves_among(g, 8 * x),
            decreases 8 - x,
        {
            let mut y: usize = 0;
            while y < BOARD_SIZE
                invariant
                    x < 8,
                    y <= 8,
                    g == self.grid(),
                    culled_agree(g, valid, 8, 0),
                    start.len() + crate::moves::valid_moves(g).len() <= 64,
                    cells_of(*valid_moves) == start + moves_among(g, 8 * x + y),
                decreases 8 - y,
            {
                proof {
                    let n = 8 * x + y;
                    lemma_moves_among(g, n);
                    lemma_moves_among(g, n + 1);
                    assert(n / 8 == x && n % 8 == y);
                    assert(scan_order()[n] == (x, y));
                    assert(valid[x as int][y as int] <==> is_move(g, x as int, y as int));
                }
                if valid[x][y] {
                    cells_push(valid_moves, (x, y));
                    assert(cells_of(*valid_moves) =~= start + moves_among(g, 8 * x + y + 1));
                }
                y += 1;
            }
            x += 1;
        }
        proof {
            lemma_moves_among(g, 64);
        }
    }
}

impl Board {
    /// The moves of this board as a fresh list, in scan order.
    pub fn valid_move_list(&self) -> (list: ArrayVec<(usize, usize), STACK_SIZE>)
        ensures
            cells_of(list) == crate::moves::valid_moves(self.grid()),
    {
        let mut list = cells_new();
        proof {
            lemma_moves_among(self.grid(), 64);
        }
        self.get_valid_moves(&mut list);
        assert(cells_of(list) =~= crate::moves::valid_moves(self.grid()));
        list
    }

    /// The moves of this board as a bitboard: the bit of a cell is set when
    /// the cell is a move. Each cell is judged by the four cells around it.
    pub fn get_valid_moves_simd(&self) -> (mask: u64)
        ensures
            forall|c: Cell|
                on_board(c.0, c.1) ==> (#[trigger] bit(mask, bit_index(c)) <==> is_move(
                    self.grid(),
                    c.0,
                    c.1,
                )),
    {
        let ghost g = self.grid();
        let mut mask: u64 = 0;
        let mut x: usize = 0;
        proof {
            assert forall|i: int| 0 <= i < 64 implies !bit(mask, i) by {
                lemma_bit_set(0, 0, i as u64);
            }
        }
        while x < BOARD_SIZE
            invariant
                x <= 8,
                g == self.grid(),
                forall|i: int| 8 * x <= i < 64 ==> !bit(mask, i),
                forall|c: Cell|
                    on_board(c.0, c.1) && c.0 < x ==> (#[trigger] bit(mask, bit_index(c))
                        <==> is_move(g, c.0, c.1)),
            decreases 8 - x,
        {
            let mut y: usize = 0;
            while y < BOARD_SIZE
                invariant
                    x < 8,
                    y <= 8,
                    g == self.grid(),
                    forall|i: int| 8 * x + y <= i < 64 ==> !bit(mask, i),
                    forall|c: Cell|
                        on_board(c.0, c.1) && (c.0 < x || (c.0 == x && c.1 < y)) ==> (#[trigger] bit(
                            mask,
                            bit_index(c),
                        ) <==> is_move(g, c.0, c.1)),
                decreases 8 - y,
            {
                let ghost before = mask;
                let v: u8 = self.board[x][y];
                let k: u64 = (x * 8 + y) as u64;
                let above: bool = y > 0 && self.board[x][y - 1] == v;
                let beside: bool = (x > 0 && self.board[x - 1][y] == v) || (x < 7 && self.board[x
                    + 1][y] == v);
                let below: bool = y < 7 && self.board[x][y + 1] == v;
                let offered: bool = v != 0 && !above && (beside || below);
                if offered {
                    mask = mask | (1u64 << k);
                }
                proof {
                    assert(offered == is_move(g, x as int, y as int));
                    assert forall|i: int| 0 <= i < 64 implies (bit(mask, i) <==> (bit(before, i) || (
                    i == k && offered))) by {
                        lemma_bit_set(before, k, i as u64);
                    }
                    assert forall|c: Cell|
                        on_board(c.0, c.1) && (c.0 < x || (c.0 == x && c.1 < y + 1)) implies (#[trigger] bit(
                        mask,
                        bit_index(c),
                    ) <==> is_move(g, c.0, c.1)) by {
                        if c.0 == x && c.1 == y {
                            assert(bit_index(c) == k);
                        } else {
                            assert(bit(before, bit_index(c)) <==> is_move(g, c.0, c.1));
                        }
                    }
                }
                y += 1;
            }
            x += 1;
        }
        mask
    }
}

} // verus!
