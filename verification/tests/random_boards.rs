use arrayvec::ArrayVec;
use jca::Board;

/// A small generator of repeatable pseudo-random numbers.
struct Lcg(u64);

impl Lcg {
    fn next(&mut self) -> u64 {
        self.0 = self.0.wrapping_mul(6364136223846793005).wrapping_add(1442695040888963407);
        self.0 >> 33
    }

    /// A board whose cells are empty with chance `gaps` in 8 and hold a rank
    /// from 1 to `ranks` otherwise, in the leftmost `columns` columns and the
    /// lowest `rows` rows.
    fn board(&mut self, columns: usize, rows: usize, ranks: u64, gaps: u64) -> Board {
        let mut b = Board::new();
        for x in 0..columns {
            for y in 8 - rows..8 {
                if self.next() % 8 >= gaps {
                    b.board[x][y] = (1 + self.next() % ranks) as u8;
                }
            }
        }
        b
    }
}

fn sorted_ranks(b: &Board) -> Vec<u8> {
    let mut v: Vec<u8> = b.board.iter().flatten().copied().filter(|r| *r != 0).collect();
    v.sort();
    v
}

fn replay(start: &Board, path: &[(usize, usize)], level: u32) -> u32 {
    let mut b = *start;
    for m in path {
        b = b.click(m);
        b.collapse_scalar();
    }
    if b.get_tiles_remaining() == 0 {
        b.score
    } else {
        b.score + b.get_bonus(level)
    }
}

#[test]
fn random_clicks_agree_and_conserve_tiles() {
    let mut rng = Lcg(7);
    for _ in 0..200 {
        let b = rng.board(8, 8, 3, 2);
        for x in 0..8 {
            for y in 0..8 {
                let v = b.board[x][y];
                if v == 0 {
                    continue;
                }
                let plain = b.click(&(x, y));
                let bits = b.click3((x, y));
                assert_eq!(plain.board, bits.board);
                assert_eq!(plain.score, bits.score);
                let removed = b.get_tiles_remaining() - plain.get_tiles_remaining() + 1;
                assert_eq!(plain.score, jca::get_score(removed as u32, v));
                assert_eq!(plain.board[x][y], v + 1);
                let mut before = sorted_ranks(&b);
                for _ in 0..removed {
                    let at = before.iter().position(|r| *r == v).unwrap();
                    before.remove(at);
                }
                before.push(v + 1);
                before.sort();
                assert_eq!(before, sorted_ranks(&plain));
            }
        }
    }
}

#[test]
fn random_collapses_agree_and_are_idempotent() {
    let mut rng = Lcg(11);
    for _ in 0..2000 {
        let b = rng.board(8, 8, 5, 4);
        let mut scalar = b;
        let mut first = b;
        let mut second = b;
        scalar.collapse_scalar();
        first.collapse_simd();
        second.collapse_simd2();
        assert_eq!(first.board, scalar.board);
        assert_eq!(second.board, scalar.board);
        assert_eq!(sorted_ranks(&b), sorted_ranks(&scalar));
        let mut again = scalar;
        again.collapse_scalar();
        assert_eq!(again.board, scalar.board);
        assert_eq!(scalar.is_cleared(), scalar.get_tiles_remaining() <= 1);
        for x in 0..8 {
            let tiles: Vec<u8> = b.board[x].iter().copied().filter(|r| *r != 0).collect();
            if !tiles.is_empty() {
                assert!(scalar.board.iter().any(|c| c[8 - tiles.len()..] == tiles[..]
                    && c[..8 - tiles.len()].iter().all(|r| *r == 0)));
            }
        }
    }
}

#[test]
fn random_move_lists_agree_with_bitboards() {
    let mut rng = Lcg(13);
    for _ in 0..2000 {
        let b = rng.board(8, 8, 3, 2);
        let mut list = ArrayVec::<(usize, usize), 64>::new();
        b.get_valid_moves(&mut list);
        let mut bits = 0u64;
        let mut last = None;
        for (x, y) in list.iter().copied() {
            bits |= 1 << (8 * x + y);
            assert!(last < Some(8 * x + y));
            last = Some(8 * x + y);
            let after = b.click(&(x, y));
            assert!(after.get_tiles_remaining() < b.get_tiles_remaining());
        }
        assert_eq!(b.get_valid_moves_simd(), bits);
    }
}

#[test]
fn random_small_boards_lose_nothing_by_the_cache() {
    let mut rng = Lcg(17);
    for _ in 0..60 {
        let b = rng.board(5, 2, 3, 1);
        let level = (rng.next() % 4) as u32;
        let with = b.solve(level).unwrap();
        let without = b.solve2(level).unwrap();
        assert_eq!(with.score, without.score);
        assert_eq!(replay(&b, &with.path, level), with.score);
        assert_eq!(replay(&b, &without.path, level), without.score);
    }
}

#[test]
fn random_wide_boards_lose_nothing_by_the_cache() {
    let mut rng = Lcg(19);
    for _ in 0..12 {
        let b = rng.board(8, 2, 3, 1);
        let with = b.solve(1).unwrap();
        let without = b.solve2(1).unwrap();
        assert_eq!(with.score, without.score);
        assert_eq!(with.path, without.path);
        assert_eq!(replay(&b, &with.path, 1), with.score);
    }
}

#[test]
fn random_boards_of_high_ranks_lose_nothing_by_the_cache() {
    let mut rng = Lcg(23);
    for _ in 0..12 {
        let mut b = rng.board(7, 2, 3, 1);
        for x in 0..8 {
            for y in 0..8 {
                if b.board[x][y] != 0 {
                    b.board[x][y] += 13;
                }
            }
        }
        let with = b.solve(0).unwrap();
        let without = b.solve2(0).unwrap();
        assert_eq!(with.score, without.score);
        assert_eq!(replay(&b, &with.path, 0), with.score);
    }
}
