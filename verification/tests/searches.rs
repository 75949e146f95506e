use jca::cache::TranspositionCache;
use jca::search::{SolveError, MAX_LEVEL, MAX_RANK, MAX_START_SCORE};
use jca::Board;

/// Replays a path and returns the total of the position it ends on.
fn replay(start: &Board, path: &[(usize, usize)], level: u32) -> u32 {
    let mut b = *start;
    for m in path {
        b = b.click(m);
        b.collapse_scalar();
    }
    if b.get_tiles_remaining() == 0 {
        b.score
    } else {
        b.score + b.get_bonus(level)
    }
}

#[test]
fn two_clusters_and_a_tile_between_them() {
    // Five tiles of rank 2 left of a tile of rank 7, five more right of it.
    let b = Board::from_rows([0, 0, 0, 0, 0, 0x20, 0x22, 0x22222722]);
    let level = 2;
    let sol = b.solve(level).unwrap();
    let cluster = 2 * 5 * 5 * 2;
    let bonus_for_three = (250 - 50) * (level + 1);
    assert_eq!(sol.score, cluster + cluster + bonus_for_three);
    assert_eq!(sol.score, 800);
    assert_eq!(sol.path, vec![(7, 6), (4, 7)]);
    assert_eq!(replay(&b, &sol.path, level), sol.score);
}

#[test]
fn merging_down_to_one_tile() {
    let b = Board::from_rows([0, 0, 0, 0, 0, 0, 0x22200000, 0x22300000]);
    let sol = b.solve(3).unwrap();
    // five tiles of rank 2, two of rank 3, and the bonus for a single tile
    assert_eq!(sol.score, 2 * 5 * 5 * 2 + 3 * 5 * 2 + 500 * 4);
    assert_eq!(sol.path, vec![(2, 6), (0, 6)]);
    assert_eq!(replay(&b, &sol.path, 3), sol.score);
}

#[test]
fn search_with_and_without_cache_agree() {
    for (level, rows, best) in [
        (0, [0, 0, 0, 0, 0, 0, 0x12120000, 0x12120000], 640),
        (1, [0, 0, 0, 0, 0, 0, 0x12122000, 0x12121000], 1125),
        (2, [0, 0, 0, 0, 0, 0x20, 0x22, 0x22222722], 800),
    ] {
        let b = Board::from_rows(rows);
        let with = b.solve(level).unwrap();
        let without = b.solve2(level).unwrap();
        assert_eq!(with.score, best);
        assert_eq!(without.score, best);
        assert_eq!(with.path, without.path);
        assert_eq!(replay(&b, &with.path, level), best);
    }
}

#[test]
fn search_reports_the_first_best_path() {
    let b = Board::from_rows([0, 0, 0, 0, 0, 0, 0x12122000, 0x12121000]);
    let sol = b.solve2(1).unwrap();
    assert_eq!(sol.path, vec![(4, 6), (3, 7), (0, 6), (2, 7), (0, 6)]);
}

#[test]
fn wide_boards_lose_nothing_by_the_cache() {
    let b = Board::from_rows([0, 0, 0, 0, 0, 0, 0x31322313, 0x12111331]);
    let without = b.solve2(0).unwrap();
    let with = b.solve(0).unwrap();
    assert_eq!(without.score, 875);
    assert_eq!(with.score, 875);
    assert_eq!(with.path, without.path);
    assert_eq!(
        with.path,
        vec![(4, 6), (2, 7), (2, 7), (0, 7), (0, 6), (2, 7), (1, 7), (1, 6), (1, 7)]
    );
    assert_eq!(b.solve(1).unwrap().score, 1375);
}

#[test]
fn positions_that_differ_on_the_right_are_told_apart() {
    let b = Board::from_rows([0, 0, 0, 0, 0, 0, 0x00000002, 0x98989112]);
    let without = b.solve2(0).unwrap();
    let with = b.solve(0).unwrap();
    assert_eq!(without.score, 40);
    assert_eq!(with.score, 40);
    assert_eq!(with.path, vec![(6, 7), (6, 6)]);
    assert_eq!(without.path, with.path);
}

#[test]
fn best_path_ends_on_a_board_without_moves() {
    for (level, rows) in [
        (0, [0, 0, 0, 0, 0, 0, 0x12120000, 0x12120000]),
        (1, [0, 0, 0, 0, 0, 0, 0x12122000, 0x12121000]),
        (2, [0, 0, 0, 0, 0, 0x20, 0x22, 0x22222722]),
        (0, [0, 0, 0, 0, 0, 0, 0x31322313, 0x12111331]),
    ] {
        let start = Board::from_rows(rows);
        for sol in [start.solve(level).unwrap(), start.solve2(level).unwrap()] {
            let mut b = start;
            for m in &sol.path {
                assert_ne!(b.get_valid_moves_simd() & (1 << (8 * m.0 + m.1)), 0);
                b = b.click(m);
                b.collapse_scalar();
            }
            assert_eq!(b.get_valid_moves_simd(), 0);
        }
    }
}

#[test]
fn board_without_moves() {
    let b = Board::from_rows([0, 0, 0, 0, 0, 0, 0, 0x50000000]);
    let sol = b.solve(5).unwrap();
    assert_eq!(sol.score, 500 * 6);
    assert_eq!(sol.path, vec![]);
}

#[test]
fn empty_board_earns_nothing() {
    let b = Board::new();
    let sol = b.solve(5).unwrap();
    assert_eq!(sol.score, 0);
    assert_eq!(sol.path, vec![]);
    assert_eq!(b.solve2(5).unwrap().score, 0);
}

#[test]
fn search_adds_to_the_score_of_the_board() {
    let mut b = Board::from_rows([0, 0, 0, 0, 0, 0, 0x22200000, 0x22300000]);
    b.score = 1000;
    assert_eq!(b.solve(3).unwrap().score, 1000 + 2130);
}

#[test]
fn rank_out_of_range_is_refused() {
    let mut b = Board::new();
    b.board[3][3] = MAX_RANK;
    assert!(b.solve(0).is_ok());
    b.board[3][3] = MAX_RANK + 1;
    assert_eq!(b.solve(0).unwrap_err(), SolveError::RankOutOfRange);
    assert_eq!(b.solve2(0).unwrap_err(), SolveError::RankOutOfRange);
    assert_eq!(b.solve(MAX_LEVEL + 1).unwrap_err(), SolveError::RankOutOfRange);
}

#[test]
fn level_out_of_range_is_refused() {
    let mut b = Board::new();
    b.board[0][7] = 1;
    assert_eq!(b.solve(MAX_LEVEL).unwrap().score, 500 * (MAX_LEVEL + 1));
    assert_eq!(b.solve(MAX_LEVEL + 1).unwrap_err(), SolveError::LevelOutOfRange);
    b.score = MAX_START_SCORE + 1;
    assert_eq!(b.solve2(MAX_LEVEL + 1).unwrap_err(), SolveError::LevelOutOfRange);
}

#[test]
fn score_out_of_range_is_refused() {
    let mut b = Board::new();
    b.score = MAX_START_SCORE;
    assert_eq!(b.solve(0).unwrap().score, MAX_START_SCORE);
    b.score = MAX_START_SCORE + 1;
    assert_eq!(b.solve(0).unwrap_err(), SolveError::ScoreOutOfRange);
}

#[test]
fn cache_keeps_the_last_position_recorded() {
    let mut a = Board::from_rows([0, 0, 0, 0, 0, 0, 0x12120000, 0x12120000]);
    let mut b = Board::from_rows([0, 0, 0, 0, 0, 0, 0x12120000, 0x12100000]);
    let mut cache = TranspositionCache::new();
    assert_eq!(cache.get(&a.hash(), &a), None);
    a.score = 10;
    cache.insert(a.hash(), a);
    assert_eq!(cache.get(&a.hash(), &a), Some(10));
    assert_eq!(cache.get(&b.hash(), &b), None);
    b.score = 20;
    cache.insert(b.hash(), b);
    a.score = 5;
    cache.insert(a.hash(), a);
    assert_eq!(cache.get(&a.hash(), &a), Some(5));
    assert_eq!(cache.get(&b.hash(), &b), Some(20));
}

#[test]
fn cache_answers_only_for_the_grid_it_holds() {
    // Ranks above 15 spill into the bits of the column beside them, so
    // these two grids share a fingerprint.
    let mut a = Board::new();
    a.board[0][0] = 16;
    a.score = 7;
    let mut b = Board::new();
    b.board[1][0] = 1;
    assert_eq!(a.hash().board_hash, b.hash().board_hash);
    let mut cache = TranspositionCache::new();
    cache.insert(a.hash(), a);
    assert_eq!(cache.get(&a.hash(), &a), Some(7));
    assert_eq!(cache.get(&b.hash(), &b), None);
}
