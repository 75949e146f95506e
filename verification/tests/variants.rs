use arrayvec::ArrayVec;
use jca::shuffle::{empty_lane_mask, lane_mask, shuffle_column, shuffle_of, NO_LANE};
use jca::Board;

const FILLED: [u32; 8] = [
    0x32332243, 0x24333338, 0x22333223, 0x23223422, 0x24233332, 0x22222242, 0x34332323,
    0x24222433,
];

const GAPPY: [u32; 8] = [
    0x32002203, 0x24003308, 0x02003200, 0x03003020, 0x24033030, 0x02022040, 0x34002020,
    0x04002030,
];

const SPARSE: [u32; 8] = [0, 0x10203040, 0, 0x01020304, 0, 0, 0x11000011, 0];

#[test]
fn bitboard_click_agrees_with_click() {
    for rows in [FILLED, GAPPY, SPARSE, [0x11111111; 8]] {
        let mut b = Board::from_rows(rows);
        b.score = 9;
        for x in 0..8 {
            for y in 0..8 {
                if b.board[x][y] != 0 {
                    let plain = b.click(&(x, y));
                    let bits = b.click3((x, y));
                    assert_eq!(plain.board, bits.board);
                    assert_eq!(plain.score, bits.score);
                }
            }
        }
    }
}

#[test]
fn bitboard_click_does_not_wrap_round_the_edge() {
    // The floor cell of one column and the top cell of the next are
    // neighbours as bits, not as cells.
    let mut b = Board::new();
    b.board[2][7] = 6;
    b.board[3][0] = 6;
    let after = b.click3((2, 7));
    assert_eq!(after.board[2][7], 7);
    assert_eq!(after.board[3][0], 6);
    assert_eq!(after.score, 0);
    let other = b.click3((3, 0));
    assert_eq!(other.board[2][7], 6);
    assert_eq!(other.board[3][0], 7);
}

#[test]
fn rank_mask_marks_the_cells_of_a_rank() {
    let mut b = Board::new();
    b.board[0][0] = 5;
    b.board[0][7] = 5;
    b.board[1][0] = 5;
    b.board[7][7] = 5;
    b.board[3][3] = 4;
    assert_eq!(b.rank_mask(5), 1 | 1 << 7 | 1 << 8 | 1 << 63);
    assert_eq!(b.rank_mask(4), 1 << 27);
    assert_eq!(b.rank_mask(9), 0);
}

#[test]
fn move_bitboard_agrees_with_move_list() {
    for rows in [FILLED, GAPPY, SPARSE, [0x11111111; 8], [0; 8]] {
        let b = Board::from_rows(rows);
        let mut list = ArrayVec::<(usize, usize), 64>::new();
        b.get_valid_moves(&mut list);
        let mut expected = 0u64;
        for (x, y) in list {
            expected |= 1 << (8 * x + y);
        }
        assert_eq!(b.get_valid_moves_simd(), expected);
    }
}

#[test]
fn move_bitboard_of_a_run_in_a_column() {
    let mut b = Board::new();
    b.board[2][5] = 7;
    b.board[2][6] = 7;
    b.board[2][7] = 7;
    b.board[4][7] = 3;
    b.board[5][7] = 3;
    assert_eq!(b.get_valid_moves_simd(), 1 << 21 | 1 << 39 | 1 << 47);
}

#[test]
fn collapse_variants_agree() {
    for rows in [FILLED, GAPPY, SPARSE, [0; 8]] {
        let mut scalar = Board::from_rows(rows);
        scalar.score = 3;
        let mut first = scalar;
        let mut second = scalar;
        scalar.collapse_scalar();
        first.collapse_simd();
        second.collapse_simd2();
        assert_eq!(first.board, scalar.board);
        assert_eq!(second.board, scalar.board);
        assert_eq!(first.score, 3);
        assert_eq!(second.score, 3);
    }
}

#[test]
fn shuffle_settles_columns_only() {
    let mut b = Board::from_rows(GAPPY);
    b.collapse_v_simd();
    let mut expected = Board::from_rows(GAPPY);
    expected.collapse_v();
    assert_eq!(b.board, expected.board);
    assert_eq!(b.board[2], [0u8; 8]);
    assert_eq!(b.board[3], [0, 0, 0, 0, 0, 0, 3, 2]);
}

#[test]
fn lane_masks() {
    assert_eq!(lane_mask(&[0, 0, 0, 0, 0, 0, 0, 0]), 0);
    assert_eq!(lane_mask(&[5, 0, 1, 0, 0, 1, 2, 0]), 0b0110_0101);
    assert_eq!(empty_lane_mask(&[5, 0, 1, 0, 0, 1, 2, 0]), 0b1001_1010);
    assert_eq!(lane_mask(&[1, 1, 1, 1, 1, 1, 1, 9]), 0xff);
}

#[test]
fn shuffles_for_masks() {
    let n = NO_LANE;
    assert_eq!(shuffle_of(0), [n; 8]);
    assert_eq!(shuffle_of(0b0000_0001), [n, n, n, n, n, n, n, 0]);
    assert_eq!(shuffle_of(0b0000_0011), [n, n, n, n, n, n, 0, 1]);
    assert_eq!(shuffle_of(0b0110_0101), [n, n, n, n, 0, 2, 5, 6]);
    assert_eq!(shuffle_of(0xff), [0, 1, 2, 3, 4, 5, 6, 7]);
}

#[test]
fn shuffle_moves_cells() {
    let col = [5, 0, 1, 0, 0, 1, 2, 0];
    let s = shuffle_of(lane_mask(&col));
    assert_eq!(shuffle_column(&col, &s), [0, 0, 0, 0, 5, 1, 1, 2]);
    assert_eq!(shuffle_column(&col, &[7, 6, 5, 4, 3, 2, 1, 0]), [0, 2, 1, 0, 0, 1, 0, 5]);
}

#[test]
fn rows_turn_the_board() {
    let b = Board::from_rows(FILLED);
    assert_eq!(
        b.rows(),
        [
            [3, 2, 3, 3, 2, 2, 4, 3],
            [2, 4, 3, 3, 3, 3, 3, 8],
            [2, 2, 3, 3, 3, 2, 2, 3],
            [2, 3, 2, 2, 3, 4, 2, 2],
            [2, 4, 2, 3, 3, 3, 3, 2],
            [2, 2, 2, 2, 2, 2, 4, 2],
            [3, 4, 3, 3, 2, 3, 2, 3],
            [2, 4, 2, 2, 2, 4, 3, 3],
        ]
    );
}

#[test]
fn cleared_after_compaction_means_at_most_one_tile() {
    for rows in [FILLED, GAPPY, SPARSE, [0; 8], [0, 0, 0, 0x00010000, 0, 0, 0, 0]] {
        let mut b = Board::from_rows(rows);
        b.collapse_scalar();
        assert_eq!(b.is_cleared(), b.get_tiles_remaining() <= 1);
    }
}
