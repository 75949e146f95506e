//! Fingerprints: a 256-bit digest of the whole grid, the key under which the
//! search remembers the positions it has met. Grids whose ranks fit in half
//! a byte never share one.

use vstd::prelude::*;
use crate::board::{Board, Grid, grid_of, grid_wf, on_board, BOARD_SIZE};

verus! {

/// The digest of a grid, as two 128-bit words.
#[derive(Clone, Copy, Debug)]
pub struct BoardHash {
    /// The two words of the digest.
    pub board_hash: [u128; 2],
}

/// The cells of a column read as one number, the top cell in the lowest byte.
pub open spec fn column_word(c: Seq<u8>) -> u64 {
    (c[0] as u64) | (c[1] as u64) << 8 | (c[2] as u64) << 16 | (c[3] as u64) << 24 | (c[4] as u64)
        << 32 | (c[5] as u64) << 40 | (c[6] as u64) << 48 | (c[7] as u64) << 56
}

/// Two column words folded into one, the second moved up by half a byte.
pub open spec fn fold(a: u64, b: u64) -> u64 {
    a ^ (b << 4)
}

/// Two 64-bit words side by side.
pub open spec fn join(low: u64, high: u64) -> u128 {
    (low as u128) ^ ((high as u128) << 64)
}

/// The digest of a grid. It is made of all eight columns, folded in pairs:
/// the first word holds the four leftmost columns, the second the four
/// rightmost. Ranks that fit in half a byte each keep their own four bits.
pub open spec fn fingerprint(g: Grid) -> (u128, u128) {
    (
        join(
            fold(column_word(g[0]), column_word(g[1])),
            fold(column_word(g[2]), column_word(g[3])),
        ),
        join(
            fold(column_word(g[4]), column_word(g[5])),
            fold(column_word(g[6]), column_word(g[7])),
        ),
    )
}

/// A grid whose ranks all fit in half a byte.
pub open spec fn low_ranked(g: Grid) -> bool {
    &&& grid_wf(g)
    &&& forall|x: int, y: int| on_board(x, y) ==> #[trigger] g[x][y] < 16
}

proof fn lemma_word_tells_bytes(
    a0: u8,
    a1: u8,
    a2: u8,
    a3: u8,
    a4: u8,
    a5: u8,
    a6: u8,
    a7: u8,
    b0: u8,
    b1: u8,
    b2: u8,
    b3: u8,
    b4: u8,
    b5: u8,
    b6: u8,
    b7: u8,
)
    by (bit_vector)
    requires
        (a0 as u64) | (a1 as u64) << 8 | (a2 as u64) << 16 | (a3 as u64) << 24 | (a4 as u64) << 32
            | (a5 as u64) << 40 | (a6 as u64) << 48 | (a7 as u64) << 56 == (b0 as u64) | (b1 as u64)
            << 8 | (b2 as u64) << 16 | (b3 as u64) << 24 | (b4 as u64) << 32 | (b5 as u64) << 40 | (
        b6 as u64) << 48 | (b7 as u64) << 56,
    ensures
        a0 == b0,
        a1 == b1,
        a2 == b2,
        a3 == b3,
        a4 == b4,
        a5 == b5,
        a6 == b6,
        a7 == b7,
{
}

proof fn lemma_word_of_small_ranks(
    a0: u8,
    a1: u8,
    a2: u8,
    a3: u8,
    a4: u8,
    a5: u8,
    a6: u8,
    a7: u8,
)
    by (bit_vector)
    requires
        a0 < 16,
        a1 < 16,
        a2 < 16,
        a3 < 16,
        a4 < 16,
        a5 < 16,
        a6 < 16,
        a7 < 16,
    ensures
        ((a0 as u64) | (a1 as u64) << 8 | (a2 as u64) << 16 | (a3 as u64) << 24 | (a4 as u64) << 32
            | (a5 as u64) << 40 | (a6 as u64) << 48 | (a7 as u64) << 56) & 0xf0f0f0f0f0f0f0f0u64
            == 0,
{
}

proof fn lemma_fold_tells(a: u64, b: u64, c: u64, d: u64)
    by (bit_vector)
    requires
        a & 0xf0f0f0f0f0f0f0f0u64 == 0,
        b & 0xf0f0f0f0f0f0f0f0u64 == 0,
        c & 0xf0f0f0f0f0f0f0f0u64 == 0,
        d & 0xf0f0f0f0f0f0f0f0u64 == 0,
    ensures
        a ^ (b << 4) == c ^ (d << 4) ==> a == c && b == d,
{
}

proof fn lemma_join_tells(a: u64, b: u64, c: u64, d: u64)
    by (bit_vector)
    ensures
        (a as u128) ^ ((b as u128) << 64) == (c as u128) ^ ((d as u128) << 64) ==> a == c && b == d,
{
}

/// Columns of small ranks with the same word are the same column.
proof fn lemma_small_columns(c: Seq<u8>, d: Seq<u8>)
    requires
        c.len() == 8,
        d.len() == 8,
        column_word(c) == column_word(d),
    ensures
        c == d,
{
    lemma_word_tells_bytes(
        c[0],
        c[1],
        c[2],
        c[3],
        c[4],
        c[5],
        c[6],
        c[7],
        d[0],
        d[1],
        d[2],
        d[3],
        d[4],
        d[5],
        d[6],
        d[7],
    );
    assert(c =~= d);
}

proof fn lemma_small_word(c: Seq<u8>)
    requires
        c.len() == 8,
        forall|y: int| 0 <= y < 8 ==> #[trigger] c[y] < 16,
    ensures
        column_word(c) & 0xf0f0f0f0f0f0f0f0u64 == 0,
{
    lemma_word_of_small_ranks(c[0], c[1], c[2], c[3], c[4], c[5], c[6], c[7]);
}

/// Grids of low ranks with the same fingerprint are the same grid: the
/// fingerprint tells every two of them apart.
pub proof fn lemma_low_ranked_fingerprints(c: Grid, d: Grid)
    requires
        low_ranked(c),
        low_ranked(d),
        fingerprint(c) == fingerprint(d),
    ensures
        c == d,
{
    assert forall|x: int| 0 <= x < 8 implies column_word(#[trigger] c[x]) & 0xf0f0f0f0f0f0f0f0u64
        == 0 && column_word(d[x]) & 0xf0f0f0f0f0f0f0f0u64 == 0 by {
        assert forall|y: int| 0 <= y < 8 implies #[trigger] c[x][y] < 16 by {
            assert(on_board(x, y));
        }
        assert forall|y: int| 0 <= y < 8 implies #[trigger] d[x][y] < 16 by {
            assert(on_board(x, y));
        }
        lemma_small_word(c[x]);
        lemma_small_word(d[x]);
    }
    let cw = |i: int| column_word(c[i]);
    let dw = |i: int| column_word(d[i]);
    assert(column_word(c[0]) & 0xf0f0f0f0f0f0f0f0u64 == 0);
    assert(column_word(c[1]) & 0xf0f0f0f0f0f0f0f0u64 == 0);
    assert(column_word(c[2]) & 0xf0f0f0f0f0f0f0f0u64 == 0);
    assert(column_word(c[3]) & 0xf0f0f0f0f0f0f0f0u64 == 0);
    assert(column_word(c[4]) & 0xf0f0f0f0f0f0f0f0u64 == 0);
    assert(column_word(c[5]) & 0xf0f0f0f0f0f0f0f0u64 == 0);
    assert(column_word(c[6]) & 0xf0f0f0f0f0f0f0f0u64 == 0);
    assert(column_word(c[7]) & 0xf0f0f0f0f0f0f0f0u64 == 0);
    lemma_join_tells(
        fold(cw(0), cw(1)),
        fold(cw(2), cw(3)),
        fold(dw(0), dw(1)),
        fold(dw(2), dw(3)),
    );
    lemma_join_tells(
        fold(cw(4), cw(5)),
        fold(cw(6), cw(7)),
        fold(dw(4), dw(5)),
        fold(dw(6), dw(7)),
    );
    lemma_fold_tells(cw(0), cw(1), dw(0), dw(1));
    lemma_fold_tells(cw(2), cw(3), dw(2), dw(3));
    lemma_fold_tells(cw(4), cw(5), dw(4), dw(5));
    lemma_fold_tells(cw(6), cw(7), dw(6), dw(7));
    assert forall|x: int| 0 <= x < 8 implies c[x] == d[x] by {
        assert(column_word(c[x]) == column_word(d[x]));
        lemma_small_columns(c[x], d[x]);
    }
    assert(c =~= d);
}

/// Reads a column as one number, the top cell in the lowest byte.
pub fn word_of_column(col: &[u8; BOARD_SIZE]) -> (w: u64)
    ensures
        w == column_word(col@),
{
    (col[0] as u64) | (col[1] as u64) << 8 | (col[2] as u64) << 16 | (col[3] as u64) << 24 | (
    col[4] as u64) << 32 | (col[5] as u64) << 40 | (col[6] as u64) << 48 | (col[7] as u64) << 56
}

impl BoardHash {
    /// The digest as a pair of words.
    pub open spec fn view(&self) -> (u128, u128) {
        (self.board_hash[0], self.board_hash[1])
    }
}

/// Whether two arrays of columns hold the same grid.
pub fn same_cells(a: &[[u8; BOARD_SIZE]; BOARD_SIZE], b: &[[u8; BOARD_SIZE]; BOARD_SIZE]) -> (r:
    bool)
    ensures
        r == (grid_of(*a) == grid_of(*b)),
{
    let mut x: usize = 0;
    while x < BOARD_SIZE
        invariant
            x <= 8,
            forall|i: int, j: int| 0 <= i < x && 0 <= j < 8 ==> a[i][j] == b[i][j],
        decreases 8 - x,
    {
        let mut y: usize = 0;
        while y < BOARD_SIZE
            invariant
                x < 8,
                y <= 8,
                forall|i: int, j: int| 0 <= i < x && 0 <= j < 8 ==> a[i][j] == b[i][j],
                forall|j: int| 0 <= j < y ==> a[x as int][j] == b[x as int][j],
            decreases 8 - y,
        {
            if a[x][y] != b[x][y] {
                assert(grid_of(*a)[x as int][y as int] != grid_of(*b)[x as int][y as int]);
                return false;
            }
            y += 1;
        }
        x += 1;
    }
    assert(grid_of(*a) =~~= grid_of(*b));
    true
}

impl Board {
    /// The fingerprint of the board. The score is no part of it.
    pub fn hash(&self) -> (h: BoardHash)
        ensures
            h@ == fingerprint(self.grid()),
    {
        let w0: u64 = word_of_column(&self.board[0]);
        let w1: u64 = word_of_column(&self.board[1]);
        let w2: u64 = word_of_column(&self.board[2]);
        let w3: u64 = word_of_column(&self.board[3]);
        let w4: u64 = word_of_column(&self.board[4]);
        let w5: u64 = word_of_column(&self.board[5]);
        let w6: u64 = word_of_column(&self.board[6]);
        let w7: u64 = word_of_column(&self.board[7]);
        let first: u128 = ((w0 ^ (w1 << 4)) as u128) ^ (((w2 ^ (w3 << 4)) as u128) << 64);
        let second: u128 = ((w4 ^ (w5 << 4)) as u128) ^ (((w6 ^ (w7 << 4)) as u128) << 64);
        BoardHash { board_hash: [first, second] }
    }
}

} // verus!
