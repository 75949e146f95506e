use arrayvec::ArrayVec;
use jca::Board;

fn moves_of(b: &Board) -> Vec<(usize, usize)> {
    let mut list = ArrayVec::<(usize, usize), 64>::new();
    b.get_valid_moves(&mut list);
    list.iter().copied().collect()
}

#[test]
fn only_the_top_of_a_run_in_a_column_is_a_move() {
    let mut b = Board::new();
    b.board[2][5] = 7;
    b.board[2][6] = 7;
    b.board[2][7] = 7;
    assert_eq!(moves_of(&b), vec![(2, 5)]);
}

#[test]
fn pairs_across_columns_are_kept_whole() {
    let mut b = Board::new();
    b.board[2][5] = 7;
    b.board[2][6] = 7;
    b.board[2][7] = 7;
    b.board[4][7] = 3;
    b.board[5][7] = 3;
    b.board[6][2] = 1;
    b.board[7][2] = 1;
    assert_eq!(moves_of(&b), vec![(2, 5), (4, 7), (5, 7), (6, 2), (7, 2)]);
}

#[test]
fn a_tile_below_its_twin_is_no_move_even_with_a_twin_beside_it() {
    let mut b = Board::new();
    b.board[0][6] = 2;
    b.board[0][7] = 2;
    b.board[1][7] = 2;
    assert_eq!(moves_of(&b), vec![(0, 6), (1, 7)]);
}

#[test]
fn lone_tiles_and_empty_cells_are_no_moves() {
    let mut b = Board::new();
    assert_eq!(moves_of(&b), vec![]);
    b.board[0][0] = 1;
    b.board[1][1] = 1;
    b.board[7][7] = 1;
    b.board[3][3] = 2;
    b.board[3][4] = 3;
    assert_eq!(moves_of(&b), vec![]);
}

#[test]
fn moves_come_in_scan_order() {
    let b = Board::from_rows([
        0x32332243, 0x24333338, 0x22333223, 0x23223422, 0x24233332, 0x22222242, 0x34332323,
        0x24222433,
    ]);
    assert_eq!(
        moves_of(&b),
        vec![
            (0, 1), (1, 2), (1, 5), (1, 6), (2, 0), (2, 3), (2, 6), (2, 7), (3, 0), (3, 3),
            (3, 4), (3, 5), (3, 6), (3, 7), (4, 0), (4, 1), (4, 5), (5, 0), (5, 1), (5, 2),
            (5, 4), (5, 5), (6, 1), (6, 2), (6, 4), (6, 7), (7, 3), (7, 6),
        ]
    );
}

#[test]
fn moves_are_appended() {
    let mut b = Board::new();
    b.board[4][7] = 3;
    b.board[5][7] = 3;
    let mut list = ArrayVec::<(usize, usize), 64>::new();
    list.push((9, 9));
    b.get_valid_moves(&mut list);
    assert_eq!(list.as_slice(), &[(9, 9), (4, 7), (5, 7)]);
}

#[test]
fn every_move_merges_at_least_two_tiles() {
    let b = Board::from_rows([
        0x32002203, 0x24003308, 0x02003200, 0x03003020, 0x24033030, 0x02022040, 0x34002020,
        0x04002030,
    ]);
    let moves = moves_of(&b);
    assert!(!moves.is_empty());
    for m in moves {
        let after = b.click(&m);
        assert!(after.get_tiles_remaining() < b.get_tiles_remaining());
        assert!(after.score > 0);
    }
}
