use jca::score::{get_end_bonus, get_score};
use jca::Board;

#[test]
fn lone_tile_scores_nothing() {
    for v in 0..=255u8 {
        assert_eq!(get_score(1, v), 0);
    }
}

#[test]
fn seven_tiles_of_rank_three() {
    assert_eq!(get_score(7, 3), 3 * 5 * 7 * 2);
    assert_eq!(get_score(7, 3), 210);
}

#[test]
fn twelve_tiles_of_rank_four() {
    assert_eq!(get_score(12, 4), 4 * 5 * 12 * 3);
    assert_eq!(get_score(12, 4), 720);
}

#[test]
fn multiplier_tiers() {
    assert_eq!(get_score(2, 1), 10);
    assert_eq!(get_score(4, 1), 20);
    assert_eq!(get_score(5, 1), 50);
    assert_eq!(get_score(9, 1), 90);
    assert_eq!(get_score(10, 1), 150);
    assert_eq!(get_score(64, 1), 960);
    assert_eq!(get_score(64, 255), 244_800);
}

#[test]
fn end_bonus_by_tiles_left() {
    assert_eq!(get_end_bonus(1, 0), 500);
    assert_eq!(get_end_bonus(1, 3), 2000);
    assert_eq!(get_end_bonus(2, 3), 1000);
    assert_eq!(get_end_bonus(3, 3), 800);
    assert_eq!(get_end_bonus(4, 3), 600);
    assert_eq!(get_end_bonus(5, 3), 400);
    assert_eq!(get_end_bonus(6, 3), 0);
    assert_eq!(get_end_bonus(64, 3), 0);
}

#[test]
fn bonus_of_a_board() {
    let mut b = Board::new();
    b.board[0][7] = 4;
    assert_eq!(b.get_bonus(2), 1500);
    b.board[1][7] = 5;
    assert_eq!(b.get_bonus(2), 750);
    b.board[2][7] = 5;
    b.board[3][7] = 1;
    b.board[4][7] = 1;
    assert_eq!(b.get_bonus(2), 300);
    b.board[5][7] = 9;
    assert_eq!(b.get_bonus(2), 0);
}
