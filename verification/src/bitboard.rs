//! Bitboards: the 64 cells of the board as the bits of one word, and the
//! flood fill that grows a cluster by shifting the word one cell at a time.

use vstd::prelude::*;
use crate::board::{Board, on_board, lemma_cell_set_bounded, BOARD_SIZE};
use crate::cluster::{Cell, adjacent, cluster, merged, closed_under_edges, lemma_cluster_grows, lemma_cluster_has_anchor, lemma_cluster_is_least};
use crate::score::{delta_score, get_score};

verus! {

/// Every bit but the one of the floor cell of each column: the cells that
/// have a cell below them.
pub const LMASK: u64 = 0x7f7f7f7f7f7f7f7f;

/// Every bit but the one of the top cell of each column: the cells that have
/// a cell above them.
pub const RMASK: u64 = 0xfefefefefefefefe;

/// Bit `i` of `w` is set.
pub open spec fn bit(w: u64, i: int) -> bool {
    0 <= i < 64 && (w >> (i as u64)) & 1 == 1
}

/// The bit that stands for a cell: columns take a byte each, the top cell
/// the lowest bit.
pub open spec fn bit_index(c: Cell) -> int {
    8 * c.0 + c.1
}

/// The cells whose bits are set.
pub open spec fn cells_of_bits(w: u64) -> Set<Cell> {
    Set::new(|c: Cell| on_board(c.0, c.1) && bit(w, bit_index(c)))
}

/// The number of set bits among the lowest `n`.
pub open spec fn ones(w: u64, n: int) -> nat
    decreases n,
{
    if n <= 0 {
        0
    } else {
        ones(w, n - 1) + if bit(w, n - 1) {
            1nat
        } else {
            0nat
        }
    }
}

/// The word after one step of the flood: every set bit spreads to the four
/// cells around its own.
pub open spec fn dilate(f: u64) -> u64 {
    f | (f << 8) | (f >> 8) | ((f & LMASK) << 1) | ((f & RMASK) >> 1)
}

proof fn lemma_dilate_bit(f: u64, i: u64)
    by (bit_vector)
    requires
        i < 64,
    ensures
        ((f | (f << 8) | (f >> 8) | ((f & 0x7f7f7f7f7f7f7f7fu64) << 1) | ((f
            & 0xfefefefefefefefeu64) >> 1)) >> i) & 1 == 1 <==> ((f >> i) & 1 == 1 || (i >= 8 && (f
            >> ((i - 8) as u64)) & 1 == 1) || (i < 56 && (f >> ((i + 8) as u64)) & 1 == 1) || (i
            % 8 != 0 && (f >> ((i - 1) as u64)) & 1 == 1) || (i % 8 != 7 && (f >> ((i + 1) as u64))
            & 1 == 1)),
{
}

proof fn lemma_and_bit(a: u64, b: u64, i: u64)
    by (bit_vector)
    requires
        i < 64,
    ensures
        ((a & b) >> i) & 1 == 1 <==> ((a >> i) & 1 == 1 && (b >> i) & 1 == 1),
{
}

proof fn lemma_set_bit(w: u64, k: u64, i: u64)
    by (bit_vector)
    requires
        i < 64,
        k < 64,
    ensures
        ((w | (1u64 << k)) >> i) & 1 == 1 <==> ((w >> i) & 1 == 1 || i == k),
        ((1u64 << k) >> i) & 1 == 1 <==> i == k,
        (0u64 >> i) & 1 == 0,
{
}

/// Setting bit `k` of a word sets that bit and leaves the others; the word 0
/// has no bit set.
pub proof fn lemma_bit_set(w: u64, k: u64, i: u64)
    requires
        i < 64,
        k < 64,
    ensures
        bit((w | (1u64 << k)), i as int) <==> (bit(w, i as int) || i == k),
        !bit(0, i as int),
{
    lemma_set_bit(w, k, i);
}

proof fn lemma_flood_grows(f: u64, b: u64)
    by (bit_vector)
    requires
        f & b == f,
    ensures
        ({
            let m = (f | (f << 8) | (f >> 8) | ((f & 0x7f7f7f7f7f7f7f7fu64) << 1) | ((f
                & 0xfefefefefefefefeu64) >> 1)) & b;
            m & b == m && (m != f ==> m > f)
        }),
{
}

/// What a step of the flood does to the bit of a cell: it is set when the bit
/// of the cell or of one of the four cells around it was.
pub proof fn lemma_dilate_cell(f: u64, c: Cell)
    requires
        on_board(c.0, c.1),
    ensures
        bit(dilate(f), bit_index(c)) <==> (bit(f, bit_index(c)) || (c.0 >= 1 && bit(
            f,
            bit_index((c.0 - 1, c.1)),
        )) || (c.0 <= 6 && bit(f, bit_index((c.0 + 1, c.1)))) || (c.1 >= 1 && bit(
            f,
            bit_index((c.0, c.1 - 1)),
        )) || (c.1 <= 6 && bit(f, bit_index((c.0, c.1 + 1))))),
{
    let i = (8 * c.0 + c.1) as u64;
    lemma_dilate_bit(f, i);
    assert(i % 8 == c.1);
    assert(i >= 8 <==> c.0 >= 1);
    assert(i < 56 <==> c.0 <= 6);
}

/// The set bits of a word are as many as the cells they stand for.
pub proof fn lemma_ones_counts_cells(w: u64, n: int)
    requires
        0 <= n <= 64,
    ensures
        ones(w, n) == cells_of_bits(w).filter(|c: Cell| bit_index(c) < n).len(),
        cells_of_bits(w).filter(|c: Cell| bit_index(c) < n).finite(),
    decreases n,
{
    let lower = |c: Cell| bit_index(c) < n;
    let here = cells_of_bits(w).filter(lower);
    lemma_cell_set_bounded(here);
    if n == 0 {
        assert(here =~= Set::<Cell>::empty());
    } else {
        lemma_ones_counts_cells(w, n - 1);
        let before = cells_of_bits(w).filter(|c: Cell| bit_index(c) < n - 1);
        let c: Cell = ((n - 1) / 8, (n - 1) % 8);
        assert(bit_index(c) == n - 1);
        if bit(w, n - 1) {
            assert(here =~= before.insert(c));
        } else {
            assert(here =~= before);
        }
    }
}

/// `u64::count_ones`: the number of ones in the binary representation.
#[verifier::external_body]
fn count_ones(w: u64) -> (n: u32)
    ensures
        n == ones(w, 64),
{
    w.count_ones()
}

impl Board {
    /// The bitboard of the cells that hold the rank `val`.
    pub fn rank_mask(&self, val: u8) -> (mask: u64)
        ensures
            forall|c: Cell|
                on_board(c.0, c.1) ==> (#[trigger] bit(mask, bit_index(c))
                    <==> self.board[c.0][c.1] == val),
    {
        let mut mask: u64 = 0;
        let mut x: usize = 0;
        proof {
            assert forall|i: int| 0 <= i < 64 implies !bit(mask, i) by {
                lemma_set_bit(0, 0, i as u64);
            }
        }
        while x < BOARD_SIZE
            invariant
                x <= 8,
                forall|i: int| 8 * x <= i < 64 ==> !bit(mask, i),
                forall|c: Cell|
                    on_board(c.0, c.1) && c.0 < x ==> (#[trigger] bit(mask, bit_index(c))
                        <==> self.board[c.0][c.1] == val),
            decreases 8 - x,
        {
            let mut y: usize = 0;
            while y < BOARD_SIZE
                invariant
                    x < 8,
                    y <= 8,
                    forall|i: int| 8 * x + y <= i < 64 ==> !bit(mask, i),
                    forall|c: Cell|
                        on_board(c.0, c.1) && (c.0 < x || (c.0 == x && c.1 < y)) ==> (#[trigger] bit(
                            mask,
                            bit_index(c),
                        ) <==> self.board[c.0][c.1] == val),
                decreases 8 - y,
            {
                let ghost before = mask;
                let k: u64 = (x * 8 + y) as u64;
                if self.board[x][y] == val {
                    mask = mask | (1u64 << k);
                }
                proof {
                    assert forall|i: int| 0 <= i < 64 implies (bit(mask, i) <==> (bit(before, i) || (
                    i == k && self.board[x as int][y as int] == val))) by {
                        lemma_set_bit(before, k, i as u64);
                    }
                    assert forall|c: Cell|
                        on_board(c.0, c.1) && (c.0 < x || (c.0 == x && c.1 < y + 1)) implies (#[trigger] bit(
                        mask,
                        bit_index(c),
                    ) <==> self.board[c.0][c.1] == val) by {
                        if c.0 == x && c.1 == y {
                            assert(bit_index(c) == k);
                        } else {
                            assert(bit(before, bit_index(c)) <==> self.board[c.0][c.1] == val);
                        }
                    }
                }
                y += 1;
            }
            x += 1;
        }
        mask
    }

    /// Merges the cluster of the tile at `pos` as `click` does, finding the
    /// cluster on bitboards: the flood starts from the bit of the clicked
    /// cell and spreads one cell at a time over the cells of its rank until
    /// it stops growing.
    pub fn click3(&self, pos: (usize, usize)) -> (b: Board)
        requires
            on_board(pos.0 as int, pos.1 as int),
            0 < self.board[pos.0 as int][pos.1 as int] < 255,
            self.score + delta_score(
                cluster(self.grid(), crate::cluster::pos(pos)).len() as int,
                self.board[pos.0 as int][pos.1 as int] as int,
            ) <= u32::MAX,
        ensures
            b.grid() == merged(self.grid(), crate::cluster::pos(pos)),
            b.score == self.score + delta_score(
                cluster(self.grid(), crate::cluster::pos(pos)).len() as int,
                self.board[pos.0 as int][pos.1 as int] as int,
            ),
    {
        let (x, y) = pos;
        let val: u8 = self.board[x][y];
        let ghost g = self.grid();
        let ghost a: Cell = (x as int, y as int);
        let bools: u64 = self.rank_mask(val);
        let start: u64 = (x * 8 + y) as u64;
        let mut flood: u64 = 1u64 << start;
        let mut done: bool = false;
        proof {
            lemma_cluster_has_anchor(g, a);
            assert forall|i: int| 0 <= i < 64 implies (bit(flood, i) <==> i == start) by {
                lemma_set_bit(0, start, i as u64);
            }
            assert(bit(bools, bit_index(a)));
            assert(flood & bools == flood) by (bit_vector)
                requires
                    flood == 1u64 << start,
                    start < 64,
                    (bools >> start) & 1 == 1,
            ;
            assert forall|c: Cell| cells_of_bits(flood).contains(c) implies cluster(g, a).contains(
                c,
            ) by {
                assert(bit_index(c) == start);
                assert(c == a);
            }
        }
        while !done
            invariant
                g == self.grid(),
                a == (x as int, y as int),
                on_board(a.0, a.1),
                val == g[a.0][a.1],
                forall|c: Cell|
                    on_board(c.0, c.1) ==> (#[trigger] bit(bools, bit_index(c))
                        <==> self.board[c.0][c.1] == val),
                flood & bools == flood,
                bit(flood, bit_index(a)),
                cells_of_bits(flood).subset_of(cluster(g, a)),
                done ==> flood == dilate(flood) & bools,
            decreases
                    (if done {
                        0int
                    } else {
                        1int
                    }),
                    u64::MAX - flood,
        {
            let dilated: u64 = flood | (flood << 8) | (flood >> 8) | ((flood & LMASK) << 1) | ((
            flood & RMASK) >> 1);
            let masked: u64 = dilated & bools;
            proof {
                lemma_flood_grows(flood, bools);
                assert(dilated == dilate(flood));
            }
            if masked == flood {
                done = true;
            } else {
                proof {
                    assert forall|c: Cell| cells_of_bits(masked).contains(c) implies cluster(
                        g,
                        a,
                    ).contains(c) by {
                        lemma_and_bit(dilated, bools, bit_index(c) as u64);
                        lemma_dilate_cell(flood, c);
                        assert(bit(bools, bit_index(c)));
                        let d: Cell = if bit(flood, bit_index(c)) {
                            c
                        } else if c.0 >= 1 && bit(flood, bit_index((c.0 - 1, c.1))) {
                            (c.0 - 1, c.1)
                        } else if c.0 <= 6 && bit(flood, bit_index((c.0 + 1, c.1))) {
                            (c.0 + 1, c.1)
                        } else if c.1 >= 1 && bit(flood, bit_index((c.0, c.1 - 1))) {
                            (c.0, c.1 - 1)
                        } else {
                            (c.0, c.1 + 1)
                        };
                        assert(cells_of_bits(flood).contains(d));
                        if d != c {
                            lemma_cluster_grows(g, a, d, c);
                        }
                    }
                    lemma_and_bit(dilated, bools, bit_index(a) as u64);
                    lemma_dilate_cell(flood, a);
                    assert(bit(bools, bit_index(a)));
                    assert(bit(masked, bit_index(a)));
                }
                flood = masked;
            }
        }
        proof {
            let s = cells_of_bits(flood);
            assert(closed_under_edges(g, a, s)) by {
                assert forall|c: Cell, d: Cell|
                    #![trigger s.contains(c), adjacent(c, d)]
                    s.contains(c) && on_board(d.0, d.1) && adjacent(c, d) && g[d.0][d.1]
                        == g[a.0][a.1] implies s.contains(d) by {
                    lemma_dilate_cell(flood, d);
                    lemma_and_bit(dilate(flood), bools, bit_index(d) as u64);
                    assert(bit(bools, bit_index(d)));
                    assert(bit(flood, bit_index(c)));
                }
            }
            lemma_cluster_is_least(g, a, s);
            assert(s =~= cluster(g, a));
            lemma_ones_counts_cells(flood, 64);
            assert(s.filter(|c: Cell| bit_index(c) < 64) =~= s);
        }
        let count: u32 = count_ones(flood);
        let mut result: [[u8; 8]; 8] = self.board;
        let mut i: usize = 0;
        while i < BOARD_SIZE
            invariant
                i <= 8,
                forall|c: Cell|
                    on_board(c.0, c.1) ==> #[trigger] result[c.0][c.1] == if c.0 < i && bit(
                        flood,
                        bit_index(c),
                    ) {
                        0u8
                    } else {
                        self.board[c.0][c.1]
                    },
            decreases 8 - i,
        {
            let mut j: usize = 0;
            while j < BOARD_SIZE
                invariant
                    i < 8,
                    j <= 8,
                    forall|c: Cell|
                        on_board(c.0, c.1) ==> #[trigger] result[c.0][c.1] == if (c.0 < i || (c.0
                            == i && c.1 < j)) && bit(flood, bit_index(c)) {
                            0u8
                        } else {
                            self.board[c.0][c.1]
                        },
                decreases 8 - j,
            {
                let k: u64 = (i * 8 + j) as u64;
                if (flood >> k) & 1 == 1 {
                    result[i][j] = 0;
                }
                j += 1;
            }
            i += 1;
        }
        let ghost cleared = result;
        result[x][y] = val + 1;
        let gained: u32 = get_score(count, val);
        let b = Board { board: result, score: gained + self.score };
        proof {
            assert forall|p: int, q: int| 0 <= p < 8 && 0 <= q < 8 implies b.grid()[p][q] == merged(
                g,
                a,
            )[p][q] by {
                let c: Cell = (p, q);
                assert(cleared[c.0][c.1] == if bit(flood, bit_index(c)) {
                    0u8
                } else {
                    self.board[c.0][c.1]
                });
                assert(cells_of_bits(flood).contains(c) == cluster(g, a).contains(c));
                assert(g[p][q] == self.board[p][q]);
            }
            assert(b.grid() =~~= merged(g, a));
        }
        b
    }
}

} // verus!
