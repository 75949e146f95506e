//! The search as mathematics: what playing a move does to a position, and
//! the walk of the search over every sequence of moves.

use vstd::prelude::*;
use crate::board::{Grid, grid_wf, on_board, tile_set, tile_count, lemma_tile_count_bounded, lemma_cell_set_bounded};
use crate::cluster::{Cell, pos, adjacent, cluster, merged, lemma_cluster_grows, lemma_cluster_has_anchor, lemma_cluster_size, lemma_cluster_members, lemma_merged_tile_count, lemma_len_of_difference};
use crate::collapse::{collapsed, lemma_collapsed_wf, lemma_collapsed_tile_count, lemma_collapsed_ranks};
use crate::fingerprint::fingerprint;
use crate::moves::{is_move, pair_across, pair_down, valid_moves, lemma_valid_moves_exact};
use crate::score::{delta_score, end_bonus, lemma_delta_score_bounds, MERGE_GAIN_PER_TILE};

verus! {

/// A move: the column and the height of the cell to click.
pub type Move = (usize, usize);

/// The bonus for a board without tiles. Only a board that starts empty ends
/// empty, since every merge leaves a tile; it earns nothing.
pub const EMPTY_BOARD_BONUS: u32 = 0;

/// The grid after the move `m`: its cluster merges, and the grid compacts.
pub open spec fn play(g: Grid, m: Move) -> Grid {
    collapsed(merged(g, pos(m)))
}

/// The points that the move `m` earns.
pub open spec fn gain(g: Grid, m: Move) -> int {
    delta_score(cluster(g, pos(m)).len() as int, g[m.0 as int][m.1 as int] as int)
}

/// The total of a game that ends on grid `g` with `score` points.
pub open spec fn final_total(g: Grid, score: int, level: int) -> int {
    if tile_count(g) == 0 {
        score + EMPTY_BOARD_BONUS
    } else {
        score + end_bonus(tile_count(g) as int, level)
    }
}

/// Every entry of `moves` is a move on `g`.
pub open spec fn moves_fit(g: Grid, moves: Seq<Move>) -> bool {
    forall|i: int| 0 <= i < moves.len() ==> is_move(g, (#[trigger] moves[i]).0 as int, moves[i].1 as int)
}

/// Every rank, with the number of tiles added to it, stays within `cap`.
/// With `t` tiles on the grid at most `t - 1` merges are left, each of which
/// raises one rank by one: no rank will reach `cap`.
pub open spec fn ranks_within(g: Grid, cap: int) -> bool {
    forall|x: int, y: int| on_board(x, y) ==> (#[trigger] g[x][y]) + tile_count(g) <= cap
}

/// No merge can overflow a rank: every rank has room below 255 for all the
/// merges that are left.
pub open spec fn ranks_fit(g: Grid) -> bool {
    ranks_within(g, 256)
}

/// A move merges at least two tiles.
pub proof fn lemma_move_merges_two(g: Grid, m: Move)
    requires
        is_move(g, m.0 as int, m.1 as int),
    ensures
        cluster(g, pos(m)).finite(),
        2 <= cluster(g, pos(m)).len() <= tile_count(g),
        g[m.0 as int][m.1 as int] != 0,
{
    let a = pos(m);
    let x = a.0;
    let y = a.1;
    lemma_cluster_size(g, a);
    lemma_cluster_has_anchor(g, a);
    let d: Cell = if x >= 1 && pair_across(g, x - 1, y) {
        (x - 1, y)
    } else if x <= 6 && pair_across(g, x, y) {
        (x + 1, y)
    } else if y >= 1 && pair_down(g, x, y - 1) {
        (x, y - 1)
    } else {
        (x, y + 1)
    };
    assert(on_board(d.0, d.1) && adjacent(a, d) && g[d.0][d.1] == g[x][y]);
    lemma_cluster_grows(g, a, a, d);
    let rest = cluster(g, a).remove(a);
    assert(rest.contains(d));
    if rest.len() == 0 {
        assert(rest =~= Set::<Cell>::empty());
    }
}

/// The grid keeps its shape under a merge.
pub proof fn lemma_merged_wf(g: Grid, a: Cell)
    ensures
        grid_wf(merged(g, a)),
{
}

/// A move leaves fewer tiles than it found.
pub proof fn lemma_play_shrinks(g: Grid, m: Move)
    requires
        grid_wf(g),
        is_move(g, m.0 as int, m.1 as int),
    ensures
        grid_wf(play(g, m)),
        tile_count(play(g, m)) < tile_count(g),
{
    let a = pos(m);
    lemma_move_merges_two(g, m);
    lemma_merged_wf(g, a);
    lemma_collapsed_wf(merged(g, a));
    lemma_collapsed_tile_count(merged(g, a));
    let gone = cluster(g, a).remove(a);
    let left = tile_set(g).difference(gone);
    lemma_tile_count_bounded(g);
    lemma_cell_set_bounded(tile_set(merged(g, a)));
    assert(tile_set(merged(g, a)).subset_of(left)) by {
        assert forall|c: Cell| tile_set(merged(g, a)).contains(c) implies left.contains(c) by {
            if cluster(g, a).contains(c) {
                lemma_cluster_members(g, a, c);
            }
        }
    }
    assert(gone.subset_of(tile_set(g))) by {
        assert forall|c: Cell| gone.contains(c) implies tile_set(g).contains(c) by {
            lemma_cluster_members(g, a, c);
        }
    }
    lemma_len_of_difference(tile_set(g), gone);
    vstd::set_lib::lemma_len_subset(tile_set(merged(g, a)), left);
}

/// On a grid whose ranks stay within `cap`, a move overflows nothing: it
/// removes the cluster but for one tile, earns a positive amount within the
/// bound per tile removed, and leaves a grid whose ranks stay within `cap`.
pub proof fn lemma_play_within(g: Grid, m: Move, cap: int)
    requires
        grid_wf(g),
        ranks_within(g, cap),
        cap <= 256,
        is_move(g, m.0 as int, m.1 as int),
    ensures
        0 < g[m.0 as int][m.1 as int] < cap - 1,
        grid_wf(play(g, m)),
        ranks_within(play(g, m), cap),
        1 <= tile_count(play(g, m)) == tile_count(g) - cluster(g, pos(m)).len() + 1 < tile_count(g),
        0 < gain(g, m) <= MERGE_GAIN_PER_TILE * (tile_count(g) - tile_count(play(g, m))),
{
    let a = pos(m);
    let v = g[a.0][a.1];
    lemma_move_merges_two(g, m);
    assert(v + tile_count(g) <= cap);
    lemma_merged_wf(g, a);
    lemma_merged_tile_count(g, a);
    let mg = merged(g, a);
    lemma_collapsed_wf(mg);
    lemma_collapsed_tile_count(mg);
    lemma_delta_score_bounds(cluster(g, a).len() as int, v as int);
    let p = play(g, m);
    assert forall|x: int, y: int| on_board(x, y) implies (#[trigger] p[x][y]) + tile_count(p)
        <= cap by {
        if p[x][y] != 0 {
            lemma_collapsed_ranks(mg, x, y);
            let (i, j) = choose|i: int, j: int| on_board(i, j) && #[trigger] mg[i][j] == p[x][y];
            assert(g[i][j] + tile_count(g) <= cap);
        }
    }
}

/// On a grid whose ranks have room, a move overflows nothing.
pub proof fn lemma_play_fits(g: Grid, m: Move)
    requires
        grid_wf(g),
        ranks_fit(g),
        is_move(g, m.0 as int, m.1 as int),
    ensures
        0 < g[m.0 as int][m.1 as int] < 255,
        grid_wf(play(g, m)),
        ranks_fit(play(g, m)),
        1 <= tile_count(play(g, m)) == tile_count(g) - cluster(g, pos(m)).len() + 1 < tile_count(g),
        0 < gain(g, m) <= MERGE_GAIN_PER_TILE * (tile_count(g) - tile_count(play(g, m))),
{
    lemma_play_within(g, m, 256);
}

/// What the search knows at a point of its walk.
pub struct SearchState {
    /// For each fingerprint met, the grid last met with it and the score at
    /// which it was met.
    pub cache: Map<(u128, u128), (Grid, int)>,
    /// The best total found so far.
    pub best: int,
    /// The moves that led to the best total.
    pub path: Seq<Move>,
    /// The number of steps taken: moves tried and positions closed.
    pub steps: nat,
}

/// The state before the search: nothing met, a best total of 0 by no moves.
pub open spec fn initial_state() -> SearchState {
    SearchState { cache: Map::empty(), best: 0, path: Seq::empty(), steps: 0 }
}

/// Closes a position: its total becomes the best if it beats the best.
pub open spec fn close_position(st: SearchState, total: int, trail: Seq<Move>) -> SearchState {
    if total > st.best {
        SearchState { best: total, path: trail, steps: st.steps + 1, ..st }
    } else {
        SearchState { steps: st.steps + 1, ..st }
    }
}

/// Whether the search skips the grid `g` with fingerprint `key` reached
/// with `score` points: it has met this very grid at a higher score.
pub open spec fn dominated(st: SearchState, key: (u128, u128), g: Grid, score: int) -> bool {
    st.cache.contains_key(key) && st.cache[key].0 == g && st.cache[key].1 > score
}

/// The walk of the search from the position `(g, score)`, reached by the
/// moves `trail`, with the moves `moves` still to try, last one first.
///
/// Each move is played. Unless the search remembers and the new position is
/// dominated, the position is remembered and searched in turn with all its
/// moves. When no move is left the position is closed with its total.
pub open spec fn explore(
    g: Grid,
    score: int,
    moves: Seq<Move>,
    trail: Seq<Move>,
    level: int,
    cached: bool,
    st: SearchState,
) -> SearchState
    decreases tile_count(g), moves.len(),
    when grid_wf(g) && moves_fit(g, moves)
{
    if moves.len() == 0 {
        close_position(st, final_total(g, score, level), trail)
    } else {
        let m = moves.last();
        let rest = moves.drop_last();
        let child = play(g, m);
        let child_score = score + gain(g, m);
        let key = fingerprint(child);
        let tried = SearchState { steps: st.steps + 1, ..st };
        if cached && dominated(st, key, child, child_score) {
            explore(g, score, rest, trail, level, cached, tried)
        } else {
            proof {
                lemma_play_shrinks(g, m);
            }
            let noted = if cached {
                SearchState { cache: tried.cache.insert(key, (child, child_score)), ..tried }
            } else {
                tried
            };
            let after = explore(
                child,
                child_score,
                valid_moves(child),
                trail.push(m),
                level,
                cached,
                noted,
            );
            explore(g, score, rest, trail, level, cached, after)
        }
    }
}

/// What is left of a list of moves that fit a grid fits it too, and all the
/// moves of a grid fit it.
pub proof fn lemma_moves_fit(g: Grid, moves: Seq<Move>)
    ensures
        moves_fit(g, valid_moves(g)),
        moves_fit(g, moves) && moves.len() > 0 ==> moves_fit(g, moves.drop_last()) && is_move(
            g,
            moves.last().0 as int,
            moves.last().1 as int,
        ),
{
    lemma_valid_moves_exact(g);
    if moves_fit(g, moves) && moves.len() > 0 {
        assert forall|i: int| 0 <= i < moves.drop_last().len() implies is_move(
            g,
            (#[trigger] moves.drop_last()[i]).0 as int,
            moves.drop_last()[i].1 as int,
        ) by {
            assert(moves.drop_last()[i] == moves[i]);
        }
        assert(moves.last() == moves[moves.len() - 1]);
    }
}

/// Every walk takes at least one step.
pub proof fn lemma_explore_steps(
    g: Grid,
    score: int,
    moves: Seq<Move>,
    trail: Seq<Move>,
    level: int,
    cached: bool,
    st: SearchState,
)
    requires
        grid_wf(g),
        moves_fit(g, moves),
    ensures
        explore(g, score, moves, trail, level, cached, st).steps > st.steps,
    decreases tile_count(g), moves.len(),
{
    if moves.len() > 0 {
        let m = moves.last();
        let rest = moves.drop_last();
        let child = play(g, m);
        let child_score = score + gain(g, m);
        let key = fingerprint(child);
        let tried = SearchState { steps: st.steps + 1, ..st };
        lemma_moves_fit(g, moves);
        if cached && dominated(st, key, child, child_score) {
            lemma_explore_steps(g, score, rest, trail, level, cached, tried);
        } else {
            lemma_play_shrinks(g, m);
            lemma_moves_fit(child, moves);
            let noted = if cached {
                SearchState { cache: tried.cache.insert(key, (child, child_score)), ..tried }
            } else {
                tried
            };
            lemma_explore_steps(child, child_score, valid_moves(child), trail.push(m), level, cached, noted);
            let after = explore(child, child_score, valid_moves(child), trail.push(m), level, cached, noted);
            lemma_explore_steps(g, score, rest, trail, level, cached, after);
        }
    }
}

} // verus!
