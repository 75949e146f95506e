use jca::{Board, BOARD_SIZE};

const FILLED: [u32; 8] = [
    0x32332243, 0x24333338, 0x22333223, 0x23223422, 0x24233332, 0x22222242, 0x34332323,
    0x24222433,
];

const GAPPY: [u32; 8] = [
    0x32002203, 0x24003308, 0x02003200, 0x03003020, 0x24033030, 0x02022040, 0x34002020,
    0x04002030,
];

fn sorted_ranks(b: &Board) -> Vec<u8> {
    let mut v: Vec<u8> = Vec::new();
    for x in 0..BOARD_SIZE {
        for y in 0..BOARD_SIZE {
            if b.board[x][y] != 0 {
                v.push(b.board[x][y]);
            }
        }
    }
    v.sort();
    v
}

#[test]
fn new_board_is_empty() {
    let b = Board::new();
    assert_eq!(b.board, [[0u8; 8]; 8]);
    assert_eq!(b.score, 0);
    assert_eq!(b.get_tiles_remaining(), 0);
}

#[test]
fn from_rows_reads_hex_digits() {
    let b = Board::from_rows(FILLED);
    assert_eq!(b.score, 0);
    assert_eq!(
        b.board,
        [
            [3, 2, 2, 2, 2, 2, 3, 2],
            [2, 4, 2, 3, 4, 2, 4, 4],
            [3, 3, 3, 2, 2, 2, 3, 2],
            [3, 3, 3, 2, 3, 2, 3, 2],
            [2, 3, 3, 3, 3, 2, 2, 2],
            [2, 3, 2, 4, 3, 2, 3, 4],
            [4, 3, 2, 2, 3, 4, 2, 3],
            [3, 8, 3, 2, 2, 2, 3, 3],
        ]
    );
}

#[test]
fn from_rows_places_digits() {
    let b = Board::from_rows([0xf0000000, 0, 0, 0, 0, 0, 0, 0x0000000a]);
    assert_eq!(b.board[0][0], 15);
    assert_eq!(b.board[7][7], 10);
    assert_eq!(b.get_tiles_remaining(), 2);
}

#[test]
fn counts_tiles() {
    assert_eq!(Board::from_rows(FILLED).get_tiles_remaining(), 64);
    assert_eq!(Board::from_rows(GAPPY).get_tiles_remaining(), 32);
}

#[test]
fn cleared_looks_at_two_cells() {
    let mut b = Board::new();
    assert!(b.is_cleared());
    b.board[0][7] = 3;
    assert!(b.is_cleared());
    b.board[0][6] = 1;
    assert!(!b.is_cleared());
    b.board[0][6] = 0;
    b.board[1][7] = 1;
    assert!(!b.is_cleared());
}

#[test]
fn collapse_lets_tiles_fall_and_columns_close() {
    let mut b = Board::from_rows(GAPPY);
    b.score = 77;
    b.collapse_scalar();
    assert_eq!(
        b.board,
        [
            [0, 0, 0, 0, 3, 2, 2, 3],
            [2, 4, 2, 3, 4, 2, 4, 4],
            [0, 0, 0, 0, 0, 0, 3, 2],
            [2, 3, 3, 3, 3, 2, 2, 2],
            [0, 0, 0, 0, 0, 2, 3, 2],
            [0, 0, 0, 2, 3, 4, 2, 3],
            [0, 0, 0, 0, 0, 0, 3, 8],
            [0, 0, 0, 0, 0, 0, 0, 0],
        ]
    );
    assert_eq!(b.score, 77);
}

#[test]
fn collapse_in_two_passes() {
    let mut whole = Board::from_rows(GAPPY);
    whole.collapse_scalar();
    let mut parts = Board::from_rows(GAPPY);
    parts.collapse_v();
    assert_eq!(parts.board[0], [0, 0, 0, 0, 3, 2, 2, 3]);
    assert_eq!(parts.board[2], [0u8; 8]);
    assert_eq!(parts.board[7], [0, 0, 0, 0, 0, 0, 3, 8]);
    parts.collapse_h();
    assert_eq!(parts.board, whole.board);
}

#[test]
fn collapse_twice_is_collapse_once() {
    for rows in [FILLED, GAPPY, [0u32; 8], [0, 0x10203040, 0, 0x01020304, 0, 0, 0x11000011, 0]] {
        let mut once = Board::from_rows(rows);
        once.collapse_scalar();
        let mut twice = once;
        twice.collapse_scalar();
        assert_eq!(once.board, twice.board);
    }
}

#[test]
fn collapse_of_empty_board() {
    let mut b = Board::new();
    b.collapse_scalar();
    assert_eq!(b.board, [[0u8; 8]; 8]);
}

#[test]
fn collapse_keeps_every_tile() {
    for rows in [FILLED, GAPPY, [0, 0x10203040, 0, 0x01020304, 0, 0, 0x11000011, 0]] {
        let before = Board::from_rows(rows);
        let mut after = before;
        after.collapse_scalar();
        assert_eq!(before.get_tiles_remaining(), after.get_tiles_remaining());
        assert_eq!(sorted_ranks(&before), sorted_ranks(&after));
    }
}

#[test]
fn collapse_keeps_order_within_a_column() {
    let mut b = Board::new();
    b.board[3] = [5, 0, 1, 0, 0, 1, 2, 0];
    b.collapse_scalar();
    assert_eq!(b.board[0], [0, 0, 0, 0, 5, 1, 1, 2]);
    assert_eq!(b.board[3], [0u8; 8]);
}

#[test]
fn fingerprint_reads_all_columns() {
    let b = Board::from_rows(FILLED);
    let h = b.hash();
    assert_eq!(h.board_hash[0], 0x22332232223333334243224232224223);
    assert_eq!(h.board_hash[1], 0x33322423223283344232223343233322);
    let mut scored = b;
    scored.score = 5;
    assert_eq!(scored.hash().board_hash, h.board_hash);
    for x in 0..BOARD_SIZE {
        for y in 0..BOARD_SIZE {
            let mut other = b;
            other.board[x][y] = 9;
            assert_ne!(other.hash().board_hash, h.board_hash);
        }
    }
}

#[test]
fn fingerprint_tells_boards_of_low_ranks_apart() {
    let mut boards: Vec<Board> = Vec::new();
    let mut seed: u64 = 5;
    for _ in 0..300 {
        let mut b = Board::new();
        for x in 0..BOARD_SIZE {
            for y in 0..BOARD_SIZE {
                seed = seed.wrapping_mul(6364136223846793005).wrapping_add(1442695040888963407);
                b.board[x][y] = ((seed >> 33) % 16) as u8;
            }
        }
        boards.push(b);
        let mut near = b;
        near.board[(seed >> 40) as usize % 8][(seed >> 50) as usize % 8] ^= 1;
        boards.push(near);
    }
    for i in 0..boards.len() {
        for j in 0..i {
            assert_eq!(
                boards[i].board == boards[j].board,
                boards[i].hash().board_hash == boards[j].hash().board_hash
            );
        }
    }
}
