//! Scoring rules: what a merge earns, and the bonus for a nearly empty board.

use vstd::prelude::*;

verus! {

/// Tier multiplier of a cluster of `n` tiles: one more for every five tiles,
/// never more than three.
pub open spec fn multiplier(n: int) -> int {
    if 1 + n / 5 < 3 {
        1 + n / 5
    } else {
        3
    }
}

/// Points earned by merging a cluster of `n` tiles of rank `v`.
/// Promoting a lone tile earns nothing.
pub open spec fn delta_score(n: int, v: int) -> int {
    if n == 1 {
        0
    } else {
        v * 5 * n * multiplier(n)
    }
}

/// Bonus for ending the game with `r >= 1` tiles left at difficulty `level`.
pub open spec fn end_bonus(r: int, level: int) -> int {
    if r == 1 {
        500 * (level + 1)
    } else if r < 6 {
        (250 - 50 * (r - 2)) * (level + 1)
    } else {
        0
    }
}

/// The largest amount a single merge on an 8x8 board can earn per tile that
/// it removes: a cluster of `n >= 2` tiles removes `n - 1` of them.
pub const MERGE_GAIN_PER_TILE: u32 = 7650;

/// A merge of `n` tiles of rank `v` earns nothing for `n == 1`, and for
/// `n >= 2` a positive amount of at most `MERGE_GAIN_PER_TILE` for each tile
/// removed.
pub proof fn lemma_delta_score_bounds(n: int, v: int)
    requires
        1 <= n,
        1 <= v <= 255,
    ensures
        n == 1 ==> delta_score(n, v) == 0,
        n >= 2 ==> 0 < delta_score(n, v) <= MERGE_GAIN_PER_TILE * (n - 1),
{
    if n >= 2 {
        let m = multiplier(n);
        assert(1 <= m <= 3);
        assert(0 < v * 5 * n <= 1275 * n) by (nonlinear_arith)
            requires
                2 <= n,
                1 <= v <= 255,
        ;
        assert(v * 5 * n * m == (v * 5 * n) * m);
        assert(0 < (v * 5 * n) * m <= 3825 * n) by (nonlinear_arith)
            requires
                0 < v * 5 * n <= 1275 * n,
                1 <= m <= 3,
        ;
    }
}

/// The end bonus is never negative and never more than the bonus for a single
/// tile.
pub proof fn lemma_end_bonus_bounds(r: int, level: int)
    requires
        1 <= r,
        0 <= level,
    ensures
        0 <= end_bonus(r, level) <= 500 * (level + 1),
{
    if 1 < r < 6 {
        let per_level = 250 - 50 * (r - 2);
        assert(0 <= per_level * (level + 1) <= 500 * (level + 1)) by (nonlinear_arith)
            requires
                0 <= per_level <= 500,
                0 <= level,
        ;
    }
}

/// Fewer tiles never earn a smaller end bonus.
pub proof fn lemma_end_bonus_falls(fewer: int, more: int, level: int)
    requires
        1 <= fewer <= more,
        0 <= level,
    ensures
        end_bonus(fewer, level) >= end_bonus(more, level),
{
    lemma_end_bonus_bounds(fewer, level);
    lemma_end_bonus_bounds(more, level);
    if 1 < fewer && more < 6 {
        let a = 250 - 50 * (fewer - 2);
        let b = 250 - 50 * (more - 2);
        assert(a * (level + 1) >= b * (level + 1)) by (nonlinear_arith)
            requires
                a >= b,
                0 <= level,
        ;
    } else if fewer == 1 && more < 6 && more > 1 {
        let b = 250 - 50 * (more - 2);
        assert(500 * (level + 1) >= b * (level + 1)) by (nonlinear_arith)
            requires
                b <= 500,
                0 <= level,
        ;
    }
}

/// Computes `delta_score` for a cluster of `num_tiles` tiles of rank
/// `tile_value`.
pub fn get_score(num_tiles: u32, tile_value: u8) -> (r: u32)
    requires
        delta_score(num_tiles as int, tile_value as int) <= u32::MAX,
    ensures
        r == delta_score(num_tiles as int, tile_value as int),
        num_tiles == 1 ==> r == 0,
{
    if num_tiles == 1 {
        0
    } else {
        let tier: u32 = 1 + num_tiles / 5;
        let m: u32 = if tier < 3 { tier } else { 3 };
        let base: u32 = tile_value as u32 * 5;
        proof {
            let n = num_tiles as int;
            let v = tile_value as int;
            assert(m == multiplier(n));
            assert(v * 5 * n * (m as int) == ((v * 5) * n) * (m as int));
            assert((v * 5) * n <= ((v * 5) * n) * (m as int)) by (nonlinear_arith)
                requires
                    0 <= (v * 5) * n,
                    1 <= m,
            ;
            assert(0 <= (v * 5) * n) by (nonlinear_arith)
                requires
                    0 <= v,
                    0 <= n,
            ;
        }
        base * num_tiles * m
    }
}

/// Computes `end_bonus` for `tiles_remaining >= 1` tiles at `level`.
pub fn get_end_bonus(tiles_remaining: u32, level: u32) -> (r: u32)
    requires
        tiles_remaining >= 1,
        500 * (level + 1) <= u32::MAX,
    ensures
        r == end_bonus(tiles_remaining as int, level as int),
{
    if tiles_remaining == 1 {
        500 * (level + 1)
    } else if tiles_remaining < 6 {
        let per_level: u32 = 250 - 50 * (tiles_remaining - 2);
        assert(per_level * (level + 1) <= 500 * (level + 1)) by (nonlinear_arith)
            requires
                per_level <= 500,
                0 <= level,
        ;
        per_level * (level + 1)
    } else {
        0
    }
}

} // verus!
