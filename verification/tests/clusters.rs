use jca::Board;

const FILLED: [u32; 8] = [
    0x32332243, 0x24333338, 0x22333223, 0x23223422, 0x24233332, 0x22222242, 0x34332323,
    0x24222433,
];

/// A board with an L-shaped region of six tiles of rank 4, a tile of rank 4
/// that touches it only at a corner, and tiles of other ranks around it.
fn region_board() -> Board {
    let mut b = Board::new();
    for (x, y) in [(2, 3), (2, 4), (2, 5), (3, 5), (4, 5), (4, 6)] {
        b.board[x][y] = 4;
    }
    b.board[5][7] = 4;
    b.board[3][4] = 1;
    b.board[2][6] = 2;
    b.board[4][4] = 3;
    b
}

const REGION: [(usize, usize); 6] = [(2, 3), (2, 4), (2, 5), (3, 5), (4, 5), (4, 6)];

#[test]
fn click_takes_the_whole_region_from_any_member() {
    let b = region_board();
    for anchor in REGION {
        let after = b.click(&anchor);
        for cell in REGION {
            let expected = if cell == anchor { 5 } else { 0 };
            assert_eq!(after.board[cell.0][cell.1], expected);
        }
        assert_eq!(after.board[5][7], 4);
        assert_eq!(after.board[3][4], 1);
        assert_eq!(after.board[2][6], 2);
        assert_eq!(after.board[4][4], 3);
        assert_eq!(after.score, 4 * 5 * 6 * 2);
        assert_eq!(after.get_tiles_remaining(), b.get_tiles_remaining() - 6 + 1);
    }
}

#[test]
fn click_on_a_lone_tile_promotes_it() {
    let mut b = region_board();
    b.score = 40;
    let after = b.click(&(5, 7));
    assert_eq!(after.board[5][7], 5);
    assert_eq!(after.score, 40);
    assert_eq!(after.get_tiles_remaining(), b.get_tiles_remaining());
    let mut expected = b.board;
    expected[5][7] = 5;
    assert_eq!(after.board, expected);
}

#[test]
fn click_does_not_cross_corners_or_edges() {
    let mut b = Board::new();
    b.board[0][7] = 2;
    b.board[1][0] = 2;
    b.board[7][3] = 2;
    b.board[0][4] = 2;
    b.board[1][6] = 2;
    let after = b.click(&(0, 7));
    assert_eq!(after.board[0][7], 3);
    assert_eq!(after.board[1][0], 2);
    assert_eq!(after.board[7][3], 2);
    assert_eq!(after.board[0][4], 2);
    assert_eq!(after.board[1][6], 2);
    assert_eq!(after.score, 0);
}

#[test]
fn click_on_a_full_board() {
    let b = Board::from_rows(FILLED);
    let corner = b.click(&(7, 7));
    assert_eq!(corner.score, 45);
    assert_eq!(corner.get_tiles_remaining(), 62);
    let lone = b.click(&(0, 0));
    assert_eq!(lone.score, 0);
    assert_eq!(lone.board[0][0], 4);
    assert_eq!(lone.get_tiles_remaining(), 64);
    let middle = b.click(&(3, 3));
    assert_eq!(middle.score, 540);
    assert_eq!(
        middle.board,
        [
            [3, 0, 0, 0, 0, 0, 3, 2],
            [2, 4, 0, 3, 4, 0, 4, 4],
            [3, 3, 3, 0, 0, 0, 3, 0],
            [3, 3, 3, 3, 3, 0, 3, 0],
            [2, 3, 3, 3, 3, 0, 0, 0],
            [2, 3, 2, 4, 3, 0, 3, 4],
            [4, 3, 2, 2, 3, 4, 2, 3],
            [3, 8, 3, 2, 2, 2, 3, 3],
        ]
    );
}

#[test]
fn click_and_collapse() {
    let b = Board::from_rows(FILLED);
    let mut after = b.click(&(3, 3));
    after.collapse_scalar();
    assert_eq!(
        after.board,
        [
            [0, 0, 0, 0, 0, 3, 3, 2],
            [0, 0, 2, 4, 3, 4, 4, 4],
            [0, 0, 0, 0, 3, 3, 3, 3],
            [0, 0, 3, 3, 3, 3, 3, 3],
            [0, 0, 0, 2, 3, 3, 3, 3],
            [0, 2, 3, 2, 4, 3, 3, 4],
            [4, 3, 2, 2, 3, 4, 2, 3],
            [3, 8, 3, 2, 2, 2, 3, 3],
        ]
    );
    assert_eq!(after.get_tiles_remaining(), 47);
}

#[test]
fn click_merges_a_whole_board_of_one_rank() {
    let b = Board::from_rows([0x11111111; 8]);
    let after = b.click(&(4, 4));
    assert_eq!(after.get_tiles_remaining(), 1);
    assert_eq!(after.board[4][4], 2);
    assert_eq!(after.score, 5 * 64 * 3);
}

#[test]
fn merge_on_the_grid_alone_needs_no_room_in_the_score() {
    let mut b = region_board();
    b.score = u32::MAX;
    for anchor in REGION {
        let (cells, size) = b.merge_cluster(&anchor);
        assert_eq!(size, 6);
        let mut expected = b.board;
        for cell in REGION {
            expected[cell.0][cell.1] = 0;
        }
        expected[anchor.0][anchor.1] = 5;
        assert_eq!(cells, expected);
    }
    let (cells, size) = b.merge_cluster(&(5, 7));
    assert_eq!(size, 1);
    assert_eq!(cells[5][7], 5);
}

#[test]
fn merge_changes_the_count_of_two_ranks_only() {
    let b = Board::from_rows(FILLED);
    let count = |cells: &[[u8; 8]; 8], rank: u8| {
        cells.iter().flatten().filter(|r| **r == rank).count()
    };
    let (cells, size) = b.merge_cluster(&(3, 3));
    assert_eq!(size, 18);
    assert_eq!(b.board[3][3], 2);
    assert_eq!(count(&cells, 2), count(&b.board, 2) - 18);
    assert_eq!(count(&cells, 3), count(&b.board, 3) + 1);
    assert_eq!(count(&cells, 4), count(&b.board, 4));
    assert_eq!(count(&cells, 8), count(&b.board, 8));
}
