//! Compaction by shuffle: the mask of the occupied lanes of a column picks
//! the permutation that moves its tiles to the floor.

use vstd::prelude::*;
use crate::board::{Board, BOARD_SIZE};
use crate::collapse::{occupied, settle, settle_all, collapsed, floor_tells, lemma_collapsed_wf, lemma_floor_tells, lemma_filter_single};

verus! {

/// The entry of a shuffle for a lane that is left empty.
pub const NO_LANE: u8 = 0x80;

/// Bit `i` of a lane mask is set.
pub open spec fn lane_bit(m: u8, i: int) -> bool {
    0 <= i < 8 && (m >> (i as u8)) & 1 == 1
}

/// The lanes of a column, from the top.
pub open spec fn lanes() -> Seq<u8> {
    Seq::new(8, |i: int| i as u8)
}

/// The test for a lane that the mask names.
pub open spec fn named(mask: u8) -> spec_fn(u8) -> bool {
    |i: u8| lane_bit(mask, i as int)
}

/// The lanes that the mask names, in order.
pub open spec fn picked(mask: u8) -> Seq<u8> {
    lanes().filter(named(mask))
}

/// The shuffle for a mask: the named lanes in order at the high end, no
/// lane before them.
pub open spec fn shuffle_for(mask: u8) -> Seq<u8> {
    Seq::new((8 - picked(mask).len()) as nat, |j: int| NO_LANE) + picked(mask)
}

/// The column that a shuffle makes of a column: each lane takes the cell of
/// the lane that the shuffle names for it, or is left empty.
pub open spec fn apply_shuffle(c: Seq<u8>, s: Seq<u8>) -> Seq<u8> {
    Seq::new(
        s.len(),
        |j: int|
            if s[j] < 8 {
                c[s[j] as int]
            } else {
                0u8
            },
    )
}

/// The mask names the lanes of the column that hold a tile.
pub open spec fn mask_of_column(mask: u8, c: Seq<u8>) -> bool {
    forall|y: int| 0 <= y < 8 ==> (#[trigger] lane_bit(mask, y) <==> c[y] != 0)
}

proof fn lemma_picked_prefix(c: Seq<u8>, mask: u8, n: int)
    requires
        c.len() == 8,
        mask_of_column(mask, c),
        0 <= n <= 8,
    ensures
        lanes().take(n).filter(named(mask)).len() == c.take(n).filter(occupied()).len(),
        forall|t: int|
            0 <= t < c.take(n).filter(occupied()).len() ==> (#[trigger] lanes().take(n).filter(
                named(mask),
            )[t]) < 8 && c[lanes().take(n).filter(named(mask))[t] as int] == c.take(n).filter(
                occupied(),
            )[t],
    decreases n,
{
    reveal(Seq::filter);
    if n > 0 {
        lemma_picked_prefix(c, mask, n - 1);
        assert(lanes().take(n).drop_last() =~= lanes().take(n - 1));
        assert(c.take(n).drop_last() =~= c.take(n - 1));
        assert(lanes().take(n).last() == (n - 1) as u8);
        assert(c.take(n).last() == c[n - 1]);
        assert(lane_bit(mask, n - 1) <==> c[n - 1] != 0);
    }
}

/// The shuffle for the mask of a column settles the column.
pub proof fn lemma_shuffle_settles(c: Seq<u8>, mask: u8)
    requires
        c.len() == 8,
        mask_of_column(mask, c),
    ensures
        apply_shuffle(c, shuffle_for(mask)) == settle(c),
{
    lemma_picked_prefix(c, mask, 8);
    assert(lanes().take(8) =~= lanes());
    assert(c.take(8) =~= c);
    c.lemma_filter_len(occupied());
    let tiles = c.filter(occupied());
    let n = 8 - tiles.len();
    let s = shuffle_for(mask);
    assert forall|j: int| 0 <= j < 8 implies apply_shuffle(c, s)[j] == settle(c)[j] by {
        if j >= n {
            assert(s[j] == picked(mask)[j - n]);
        }
    }
    assert(apply_shuffle(c, s) =~= settle(c));
}

proof fn lemma_lane_set(m: u8, k: u8, i: u8)
    by (bit_vector)
    requires
        i < 8,
        k < 8,
    ensures
        ((m | (1u8 << k)) >> i) & 1 == 1 <==> ((m >> i) & 1 == 1 || i == k),
        (0u8 >> i) & 1 == 0,
        ((!m) >> i) & 1 == 1 <==> (m >> i) & 1 == 0,
{
}

/// The mask of the lanes of a column that hold a tile.
pub fn lane_mask(col: &[u8; BOARD_SIZE]) -> (mask: u8)
    ensures
        mask_of_column(mask, col@),
{
    let mut mask: u8 = 0;
    let mut y: usize = 0;
    proof {
        assert forall|i: int| 0 <= i < 8 implies !lane_bit(mask, i) by {
            lemma_lane_set(0, 0, i as u8);
        }
    }
    while y < BOARD_SIZE
        invariant
            y <= 8,
            forall|i: int| 0 <= i < y ==> (#[trigger] lane_bit(mask, i) <==> col[i] != 0),
            forall|i: int| y <= i < 8 ==> !lane_bit(mask, i),
        decreases 8 - y,
    {
        let ghost before = mask;
        if col[y] != 0 {
            mask = mask | (1u8 << (y as u8));
        }
        proof {
            assert forall|i: int| 0 <= i < 8 implies (lane_bit(mask, i) <==> (lane_bit(before, i)
                || (i == y && col[y as int] != 0))) by {
                lemma_lane_set(before, y as u8, i as u8);
            }
        }
        y += 1;
    }
    mask
}

/// The mask of the lanes of a column that are empty.
pub fn empty_lane_mask(col: &[u8; BOARD_SIZE]) -> (mask: u8)
    ensures
        mask_of_column(!mask, col@),
{
    let full: u8 = lane_mask(col);
    let mask: u8 = !full;
    proof {
        assert(!mask == full) by (bit_vector)
            requires
                mask == !full,
        ;
    }
    mask
}

/// Works out the shuffle for a lane mask: the named lanes in order at the
/// high end, `NO_LANE` before them.
pub fn shuffle_of(mask: u8) -> (s: [u8; BOARD_SIZE])
    ensures
        s@ == shuffle_for(mask),
{
    let mut s: [u8; 8] = [NO_LANE; BOARD_SIZE];
    let mut w: usize = BOARD_SIZE;
    let mut i: usize = BOARD_SIZE;
    proof {
        reveal(Seq::filter);
        assert(lanes().subrange(8, 8) =~= Seq::<u8>::empty());
        assert(s@.subrange(8, 8) =~= Seq::<u8>::empty());
    }
    while i > 0
        invariant
            i <= 8,
            i <= w <= 8,
            s@.len() == 8,
            s@.subrange(w as int, 8) == lanes().subrange(i as int, 8).filter(named(mask)),
            forall|j: int| 0 <= j < w ==> s[j] == NO_LANE,
        decreases i,
    {
        i -= 1;
        let ghost before = s@;
        let ghost suffix = lanes().subrange(i + 1, 8);
        let ghost one = seq![i as u8];
        proof {
            assert(lanes().subrange(i as int, 8) =~= one + suffix);
            Seq::filter_distributes_over_add(one, suffix, named(mask));
            lemma_filter_single(one, named(mask), 0);
            assert(named(mask)(one[0]) == lane_bit(mask, i as int));
            assert(one.filter(named(mask)) =~= if lane_bit(mask, i as int) {
                one
            } else {
                Seq::<u8>::empty()
            });
        }
        if (mask >> (i as u8)) & 1 == 1 {
            w -= 1;
            s[w] = i as u8;
            assert(s@.subrange(w as int, 8) =~= one + before.subrange(w + 1, 8));
        }
    }
    proof {
        assert(lanes().subrange(0, 8) =~= lanes());
        assert(s@ =~= shuffle_for(mask));
    }
    s
}

/// Moves the cells of a column as a shuffle says.
pub fn shuffle_column(col: &[u8; BOARD_SIZE], s: &[u8; BOARD_SIZE]) -> (out: [u8; BOARD_SIZE])
    ensures
        out@ == apply_shuffle(col@, s@),
{
    let mut out: [u8; 8] = [0; BOARD_SIZE];
    let mut j: usize = 0;
    while j < BOARD_SIZE
        invariant
            j <= 8,
            forall|t: int|
                0 <= t < j ==> out[t] == if s[t] < 8 {
                    col[s[t] as int]
                } else {
                    0u8
                },
        decreases 8 - j,
    {
        let from: u8 = s[j];
        if from < 8 {
            out[j] = col[from as usize];
        } else {
            out[j] = 0;
        }
        j += 1;
    }
    assert(out@ =~= apply_shuffle(col@, s@));
    out
}

impl Board {
    /// Lets the tiles of every column fall to the floor, each column by the
    /// shuffle for the mask of its occupied lanes (`by_empty` off) or of its
    /// empty lanes turned round (`by_empty` on).
    fn settle_by_shuffle(&mut self, by_empty: bool)
        ensures
            final(self).grid() == settle_all(old(self).grid()),
            final(self).score == old(self).score,
    {
        let ghost start = self.grid();
        let mut i: usize = 0;
        while i < BOARD_SIZE
            invariant
                i <= 8,
                start == old(self).grid(),
                self.score == old(self).score,
                forall|x: int| 0 <= x < i ==> #[trigger] self.grid()[x] == settle(start[x]),
                forall|x: int| i <= x < 8 ==> #[trigger] self.grid()[x] == start[x],
            decreases 8 - i,
        {
            let ghost before = self.grid();
            let col: [u8; 8] = self.board[i];
            let mask: u8 = if by_empty {
                !empty_lane_mask(&col)
            } else {
                lane_mask(&col)
            };
            let s: [u8; 8] = shuffle_of(mask);
            self.board[i] = shuffle_column(&col, &s);
            proof {
                let after = self.grid();
                lemma_shuffle_settles(col@, mask);
                assert(before[i as int] == start[i as int]);
                assert forall|x: int| 0 <= x < i + 1 implies #[trigger] after[x] == settle(
                    start[x],
                ) by {
                    if x < i {
                        assert(after[x] == before[x]);
                    }
                }
                assert forall|x: int| i + 1 <= x < 8 implies #[trigger] after[x] == start[x] by {
                    assert(after[x] == before[x]);
                }
            }
            i += 1;
        }
        assert(self.grid() =~= settle_all(start));
    }

    /// Lets the tiles of every column fall to the floor: the mask of the
    /// occupied lanes of a column picks the shuffle that settles it.
    pub fn collapse_v_simd(&mut self)
        ensures
            final(self).grid() == settle_all(old(self).grid()),
            final(self).score == old(self).score,
    {
        self.settle_by_shuffle(false)
    }

    /// Compacts the board as `collapse_scalar` does, the tiles falling by
    /// shuffle.
    pub fn collapse_simd(&mut self)
        ensures
            final(self).grid() == collapsed(old(self).grid()),
            final(self).score == old(self).score,
    {
        self.collapse_v_simd();
        proof {
            lemma_collapsed_wf(old(self).grid());
            assert forall|x: int| 0 <= x < 8 implies floor_tells(#[trigger] self.grid()[x]) by {
                lemma_floor_tells(self.grid()[x]);
            }
        }
        self.collapse_h();
    }

    /// Lets the tiles of every column fall to the floor: the mask of the
    /// empty lanes of a column, turned round, picks the shuffle that settles
    /// it.
    pub fn collapse_v_simd2(&mut self)
        ensures
            final(self).grid() == settle_all(old(self).grid()),
            final(self).score == old(self).score,
    {
        self.settle_by_shuffle(true)
    }

    /// Compacts the board as `collapse_scalar` does, the tiles falling by
    /// the shuffle for the mask of the empty lanes.
    pub fn collapse_simd2(&mut self)
        ensures
            final(self).grid() == collapsed(old(self).grid()),
            final(self).score == old(self).score,
    {
        self.collapse_v_simd2();
        proof {
            lemma_collapsed_wf(old(self).grid());
            assert forall|x: int| 0 <= x < 8 implies floor_tells(#[trigger] self.grid()[x]) by {
                lemma_floor_tells(self.grid()[x]);
            }
        }
        self.collapse_h();
    }
}

} // verus!
