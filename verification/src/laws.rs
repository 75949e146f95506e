//! What the search finds: the total it reports is attained by the path it
//! reports, which ends on a board without moves; the exhaustive search finds
//! the highest total there is; and the cache loses nothing.

use vstd::prelude::*;
use crate::board::{Grid, grid_wf, tile_count};
use crate::cluster::{cluster, pos};
use crate::fingerprint::fingerprint;
use crate::model::{Move, SearchState, explore, dominated, final_total, play, gain, moves_fit, ranks_fit, lemma_moves_fit, lemma_play_shrinks, lemma_play_fits, initial_state};
use crate::moves::{is_move, valid_moves, lemma_valid_moves_exact};
use crate::score::{delta_score, end_bonus, lemma_end_bonus_falls};
use crate::search::search_result;

verus! {

/// Every move of `q` is a move on the grid that the moves before it lead to.
pub open spec fn follows(g: Grid, q: Seq<Move>) -> bool
    decreases q.len(),
{
    q.len() == 0 || (is_move(g, q[0].0 as int, q[0].1 as int) && follows(
        play(g, q[0]),
        q.drop_first(),
    ))
}

/// The grid after the moves `q`.
pub open spec fn replay_grid(g: Grid, q: Seq<Move>) -> Grid
    decreases q.len(),
{
    if q.len() == 0 {
        g
    } else {
        replay_grid(play(g, q[0]), q.drop_first())
    }
}

/// The score after the moves `q`, starting from `score`.
pub open spec fn replay_score(g: Grid, score: int, q: Seq<Move>) -> int
    decreases q.len(),
{
    if q.len() == 0 {
        score
    } else {
        replay_score(play(g, q[0]), score + gain(g, q[0]), q.drop_first())
    }
}

/// The total of the game that plays the moves `q` and stops.
pub open spec fn total_after(g: Grid, score: int, q: Seq<Move>, level: int) -> int {
    final_total(replay_grid(g, q), replay_score(g, score, q), level)
}

/// The best total of `st` is the total after some moves from `g`, and its
/// path is the trail followed by those moves.
pub open spec fn attained(g: Grid, score: int, trail: Seq<Move>, level: int, st: SearchState) -> bool {
    exists|q: Seq<Move>|
        follows(g, q) && st.path == trail + q && st.best == #[trigger] total_after(
            g,
            score,
            q,
            level,
        )
}

/// Playing `m` and the moves `q` is playing the moves `m` followed by `q`.
pub proof fn lemma_replay_step(g: Grid, score: int, m: Move, q: Seq<Move>, level: int)
    ensures
        follows(g, seq![m] + q) == (is_move(g, m.0 as int, m.1 as int) && follows(play(g, m), q)),
        total_after(g, score, seq![m] + q, level) == total_after(
            play(g, m),
            score + gain(g, m),
            q,
            level,
        ),
        replay_grid(g, seq![m] + q) == replay_grid(play(g, m), q),
{
    let whole = seq![m] + q;
    assert(whole[0] == m);
    assert(whole.drop_first() =~= q);
}

/// Starting with more points ends with as many more.
pub proof fn lemma_replay_shift(g: Grid, score: int, extra: int, q: Seq<Move>, level: int)
    ensures
        replay_score(g, score + extra, q) == replay_score(g, score, q) + extra,
        total_after(g, score + extra, q, level) == total_after(g, score, q, level) + extra,
    decreases q.len(),
{
    if q.len() > 0 {
        lemma_replay_shift(play(g, q[0]), score + gain(g, q[0]), extra, q.drop_first(), level);
    }
}

/// A walk never lowers the best total. It closes its own position, so the
/// best total is at least the total of that. And whenever it changes the
/// best total, it is to the total after some moves from its position, with
/// the path to match.
pub proof fn lemma_explore_attains(
    g: Grid,
    score: int,
    moves: Seq<Move>,
    trail: Seq<Move>,
    level: int,
    cached: bool,
    st: SearchState,
)
    requires
        grid_wf(g),
        moves_fit(g, moves),
    ensures
        explore(g, score, moves, trail, level, cached, st).best >= st.best,
        explore(g, score, moves, trail, level, cached, st).best >= final_total(g, score, level),
        ({
            let end = explore(g, score, moves, trail, level, cached, st);
            (end.best == st.best && end.path == st.path) || attained(g, score, trail, level, end)
        }),
    decreases tile_count(g), moves.len(),
{
    let end = explore(g, score, moves, trail, level, cached, st);
    if moves.len() == 0 {
        if final_total(g, score, level) > st.best {
            let q = Seq::<Move>::empty();
            assert(trail + q =~= trail);
            assert(follows(g, q));
            assert(end.best == total_after(g, score, q, level));
        }
    } else {
        let m = moves.last();
        let rest = moves.drop_last();
        let child = play(g, m);
        let child_score = score + gain(g, m);
        let key = fingerprint(child);
        let tried = SearchState { steps: st.steps + 1, ..st };
        lemma_moves_fit(g, moves);
        if cached && dominated(st, key, child, child_score) {
            lemma_explore_attains(g, score, rest, trail, level, cached, tried);
        } else {
            lemma_play_shrinks(g, m);
            lemma_moves_fit(child, moves);
            let noted = if cached {
                SearchState { cache: tried.cache.insert(key, (child, child_score)), ..tried }
            } else {
                tried
            };
            let after = explore(child, child_score, valid_moves(child), trail.push(m), level, cached, noted);
            lemma_explore_attains(child, child_score, valid_moves(child), trail.push(m), level, cached, noted);
            lemma_explore_attains(g, score, rest, trail, level, cached, after);
            if !(after.best == st.best && after.path == st.path) {
                let q1 = choose|q: Seq<Move>|
                    follows(child, q) && after.path == trail.push(m) + q && after.best
                        == #[trigger] total_after(child, child_score, q, level);
                let q = seq![m] + q1;
                lemma_replay_step(g, score, m, q1, level);
                assert(trail + q =~= trail.push(m) + q1);
                assert(after.best == total_after(g, score, q, level));
                assert(attained(g, score, trail, level, after));
            }
        }
    }
}

/// The total that a search reports is the total after the moves of the path
/// that it reports, and these are moves that can be played one after the
/// other from the starting grid.
pub proof fn lemma_search_attains(g: Grid, score: u32, level: u32, cached: bool)
    requires
        grid_wf(g),
    ensures
        follows(g, search_result(g, score, level, cached).path),
        search_result(g, score, level, cached).best == total_after(
            g,
            score as int,
            search_result(g, score, level, cached).path,
            level as int,
        ),
{
    let end = search_result(g, score, level, cached);
    lemma_moves_fit(g, Seq::empty());
    lemma_explore_attains(
        g,
        score as int,
        valid_moves(g),
        Seq::empty(),
        level as int,
        cached,
        initial_state(),
    );
    if end.best == 0 && end.path == Seq::<Move>::empty() {
        crate::board::lemma_tile_count_bounded(g);
        if tile_count(g) > 0 {
            crate::score::lemma_end_bonus_bounds(tile_count(g) as int, level as int);
        }
        assert(follows(g, Seq::<Move>::empty()));
        assert(total_after(g, score as int, Seq::<Move>::empty(), level as int) == final_total(
            g,
            score as int,
            level as int,
        ));
    } else {
        let q = choose|q: Seq<Move>|
            follows(g, q) && end.path == Seq::<Move>::empty() + q && end.best
                == #[trigger] total_after(g, score as int, q, level as int);
        assert(Seq::<Move>::empty() + q =~= q);
    }
}

/// A walk that remembers nothing passes by every game that begins with one
/// of its moves: the best total is at least the total of each.
pub proof fn lemma_explore_covers(
    g: Grid,
    score: int,
    moves: Seq<Move>,
    trail: Seq<Move>,
    level: int,
    st: SearchState,
    q: Seq<Move>,
)
    requires
        grid_wf(g),
        moves_fit(g, moves),
        follows(g, q),
        q.len() == 0 || moves.contains(q[0]),
    ensures
        total_after(g, score, q, level) <= explore(g, score, moves, trail, level, false, st).best,
    decreases tile_count(g), moves.len(),
{
    lemma_explore_attains(g, score, moves, trail, level, false, st);
    if moves.len() == 0 {
        assert(q.len() == 0);
    } else {
        let m = moves.last();
        let rest = moves.drop_last();
        let child = play(g, m);
        let child_score = score + gain(g, m);
        let tried = SearchState { steps: st.steps + 1, ..st };
        lemma_moves_fit(g, moves);
        lemma_play_shrinks(g, m);
        lemma_moves_fit(child, moves);
        let after = explore(child, child_score, valid_moves(child), trail.push(m), level, false, tried);
        if q.len() > 0 && q[0] == m {
            let q1 = q.drop_first();
            assert(follows(child, q1));
            assert(q1.len() == 0 || valid_moves(child).contains(q1[0])) by {
                lemma_valid_moves_exact(child);
                if q1.len() > 0 {
                    assert(is_move(child, q1[0].0 as int, q1[0].1 as int));
                    assert((q1[0].0 as int) as usize == q1[0].0);
                }
            }
            lemma_explore_covers(child, child_score, valid_moves(child), trail.push(m), level, tried, q1);
            lemma_explore_attains(g, score, rest, trail, level, false, after);
        } else {
            if q.len() > 0 {
                let i = choose|i: int| 0 <= i < moves.len() && moves[i] == q[0];
                assert(rest[i] == q[0]);
            }
            lemma_explore_covers(g, score, rest, trail, level, after, q);
        }
    }
}

/// The exhaustive search finds the highest total: no sequence of moves from
/// the starting grid ends with more than it reports.
pub proof fn lemma_exhaustive_search_is_optimal(g: Grid, score: u32, level: u32, q: Seq<Move>)
    requires
        grid_wf(g),
        follows(g, q),
    ensures
        total_after(g, score as int, q, level as int) <= search_result(g, score, level, false).best,
{
    lemma_moves_fit(g, Seq::empty());
    if q.len() > 0 {
        lemma_valid_moves_exact(g);
        assert((q[0].0 as int) as usize == q[0].0);
    }
    lemma_explore_covers(
        g,
        score as int,
        valid_moves(g),
        Seq::empty(),
        level as int,
        initial_state(),
        q,
    );
}

/// Playing one more move after the moves `p`.
pub proof fn lemma_replay_push(g: Grid, score: int, p: Seq<Move>, m: Move)
    requires
        follows(g, p),
        is_move(replay_grid(g, p), m.0 as int, m.1 as int),
    ensures
        follows(g, p.push(m)),
        replay_grid(g, p.push(m)) == play(replay_grid(g, p), m),
        replay_score(g, score, p.push(m)) == replay_score(g, score, p) + gain(
            replay_grid(g, p),
            m,
        ),
    decreases p.len(),
{
    let longer = p.push(m);
    if p.len() == 0 {
        assert(longer.drop_first() =~= Seq::<Move>::empty());
        assert(longer[0] == m);
        assert(follows(play(g, m), longer.drop_first()));
        assert(replay_grid(play(g, m), longer.drop_first()) == play(g, m));
        assert(replay_score(play(g, m), score + gain(g, m), longer.drop_first()) == score + gain(
            g,
            m,
        ));
    } else {
        lemma_replay_push(play(g, p[0]), score + gain(g, p[0]), p.drop_first(), m);
        assert(longer.drop_first() =~= p.drop_first().push(m));
        assert(longer[0] == p[0]);
    }
}

/// The ranks of every grid that moves lead to have room if those of the
/// starting grid have.
pub proof fn lemma_replay_fits(g: Grid, q: Seq<Move>)
    requires
        grid_wf(g),
        ranks_fit(g),
        follows(g, q),
    ensures
        grid_wf(replay_grid(g, q)),
        ranks_fit(replay_grid(g, q)),
    decreases q.len(),
{
    if q.len() > 0 {
        lemma_play_fits(g, q[0]);
        lemma_replay_fits(play(g, q[0]), q.drop_first());
    }
}

/// A move raises the total: it earns points, and fewer tiles never earn a
/// smaller bonus.
pub proof fn lemma_move_raises_total(g: Grid, score: int, m: Move, level: int)
    requires
        grid_wf(g),
        ranks_fit(g),
        is_move(g, m.0 as int, m.1 as int),
        0 <= level,
    ensures
        final_total(play(g, m), score + gain(g, m), level) > final_total(g, score, level),
{
    lemma_play_fits(g, m);
    lemma_end_bonus_falls(tile_count(play(g, m)) as int, tile_count(g) as int, level);
}

/// No game from the grid `c` with `s` points ends with more than `best`.
pub open spec fn covered(c: Grid, s: int, level: int, best: int) -> bool {
    forall|q: Seq<Move>| follows(c, q) ==> #[trigger] total_after(c, s, q, level) <= best
}

/// No game from `(g, score)` that begins with one of `moves`, or with no
/// move at all, ends with more than `best`.
pub open spec fn passed(g: Grid, score: int, moves: Seq<Move>, level: int, best: int) -> bool {
    forall|q: Seq<Move>|
        follows(g, q) && (q.len() == 0 || moves.contains(q[0])) ==> #[trigger] total_after(
            g,
            score,
            q,
            level,
        ) <= best
}

/// Every entry of the cache is settled, in that no game from its grid with
/// its score beats the best total, or its grid holds at least `t` tiles.
pub open spec fn cache_sound(level: int, st: SearchState, t: int) -> bool {
    forall|k: (u128, u128)| #[trigger]
        st.cache.contains_key(k) ==> covered(st.cache[k].0, st.cache[k].1, level, st.best)
            || tile_count(st.cache[k].0) >= t
}

/// Every entry of the cache at the end of a walk is settled, or its grid
/// holds at least `t` tiles and the entry is as it was at the start of the
/// walk.
pub open spec fn cache_kept(level: int, st: SearchState, end: SearchState, t: int) -> bool {
    forall|k: (u128, u128)| #[trigger]
        end.cache.contains_key(k) ==> covered(end.cache[k].0, end.cache[k].1, level, end.best) || (
        tile_count(end.cache[k].0) >= t && st.cache.contains_key(k) && end.cache[k]
            == st.cache[k])
}

/// Every game from a grid begins with one of its moves, or with none.
proof fn lemma_passed_all_is_covered(g: Grid, score: int, level: int, best: int)
    requires
        passed(g, score, valid_moves(g), level, best),
    ensures
        covered(g, score, level, best),
{
    assert forall|q: Seq<Move>| follows(g, q) implies #[trigger] total_after(g, score, q, level)
        <= best by {
        if q.len() > 0 {
            lemma_valid_moves_exact(g);
            assert((q[0].0 as int) as usize == q[0].0);
        }
    }
}

/// With a cache whose entries are sound, a walk that remembers loses no
/// game: the best total is at least the total of every game that begins
/// with one of its moves, and the cache is sound at the end.
proof fn lemma_explore_remembers(
    g: Grid,
    score: int,
    moves: Seq<Move>,
    trail: Seq<Move>,
    level: int,
    st: SearchState,
)
    requires
        grid_wf(g),
        moves_fit(g, moves),
        cache_sound(level, st, tile_count(g) as int),
    ensures
        ({
            let end = explore(g, score, moves, trail, level, true, st);
            &&& end.best >= st.best
            &&& passed(g, score, moves, level, end.best)
            &&& cache_kept(level, st, end, tile_count(g) as int)
        }),
    decreases tile_count(g), moves.len(),
{
    let end = explore(g, score, moves, trail, level, true, st);
    let t = tile_count(g) as int;
    lemma_explore_attains(g, score, moves, trail, level, true, st);
    if moves.len() == 0 {
        assert(passed(g, score, moves, level, end.best)) by {
            assert forall|q: Seq<Move>|
                follows(g, q) && (q.len() == 0 || moves.contains(q[0])) implies #[trigger] total_after(
                g,
                score,
                q,
                level,
            ) <= end.best by {
                assert(q.len() == 0);
            }
        }
        assert(cache_kept(level, st, end, t)) by {
            assert forall|k: (u128, u128)| #[trigger] end.cache.contains_key(k) implies covered(
                end.cache[k].0,
                end.cache[k].1,
                level,
                end.best,
            ) || (tile_count(end.cache[k].0) >= t && st.cache.contains_key(k) && end.cache[k]
                == st.cache[k]) by {
                assert(st.cache.contains_key(k));
                if covered(st.cache[k].0, st.cache[k].1, level, st.best) {
                    assert(covered(end.cache[k].0, end.cache[k].1, level, end.best));
                }
            }
        }
    } else {
        let m = moves.last();
        let rest = moves.drop_last();
        let d = play(g, m);
        let ds = score + gain(g, m);
        let key = fingerprint(d);
        let tried = SearchState { steps: st.steps + 1, ..st };
        lemma_moves_fit(g, moves);
        lemma_play_shrinks(g, m);
        lemma_moves_fit(d, moves);
        if dominated(st, key, d, ds) {
            assert(cache_sound(level, tried, t)) by {
                assert forall|k: (u128, u128)| #[trigger] tried.cache.contains_key(k) implies covered(
                    tried.cache[k].0,
                    tried.cache[k].1,
                    level,
                    tried.best,
                ) || tile_count(tried.cache[k].0) >= t by {
                    assert(st.cache.contains_key(k));
                }
            }
            lemma_explore_remembers(g, score, rest, trail, level, tried);
            assert(st.cache.contains_key(key));
            assert(covered(d, st.cache[key].1, level, st.best));
            assert(passed(g, score, moves, level, end.best)) by {
                assert forall|q: Seq<Move>|
                    follows(g, q) && (q.len() == 0 || moves.contains(q[0])) implies #[trigger] total_after(
                    g,
                    score,
                    q,
                    level,
                ) <= end.best by {
                    if q.len() > 0 && q[0] == m {
                        let q1 = q.drop_first();
                        assert(follows(d, q1));
                        assert(total_after(d, st.cache[key].1, q1, level) <= st.best);
                        lemma_replay_shift(d, st.cache[key].1, ds - st.cache[key].1, q1, level);
                        assert(total_after(g, score, q, level) == total_after(d, ds, q1, level));
                    } else if q.len() > 0 {
                        let i = choose|i: int| 0 <= i < moves.len() && moves[i] == q[0];
                        assert(rest[i] == q[0]);
                        assert(rest.contains(q[0]));
                    }
                }
            }
            assert(cache_kept(level, st, end, t)) by {
                assert forall|k: (u128, u128)| #[trigger] end.cache.contains_key(k) implies covered(
                    end.cache[k].0,
                    end.cache[k].1,
                    level,
                    end.best,
                ) || (tile_count(end.cache[k].0) >= t && st.cache.contains_key(k) && end.cache[k]
                    == st.cache[k]) by {
                    if !covered(end.cache[k].0, end.cache[k].1, level, end.best) {
                        assert(tried.cache.contains_key(k));
                    }
                }
            }
        } else {
            let noted = SearchState { cache: tried.cache.insert(key, (d, ds)), ..tried };
            assert(cache_sound(level, noted, tile_count(d) as int)) by {
                assert forall|k: (u128, u128)| #[trigger] noted.cache.contains_key(k) implies covered(
                    noted.cache[k].0,
                    noted.cache[k].1,
                    level,
                    noted.best,
                ) || tile_count(noted.cache[k].0) >= tile_count(d) by {
                    if k != key {
                        assert(st.cache.contains_key(k));
                    }
                }
            }
            lemma_explore_remembers(d, ds, valid_moves(d), trail.push(m), level, noted);
            let after = explore(d, ds, valid_moves(d), trail.push(m), level, true, noted);
            lemma_passed_all_is_covered(d, ds, level, after.best);
            assert(cache_sound(level, after, t)) by {
                assert forall|k: (u128, u128)| #[trigger] after.cache.contains_key(k) implies covered(
                    after.cache[k].0,
                    after.cache[k].1,
                    level,
                    after.best,
                ) || tile_count(after.cache[k].0) >= t by {
                    if !covered(after.cache[k].0, after.cache[k].1, level, after.best) {
                        assert(noted.cache.contains_key(k));
                        if k != key {
                            assert(st.cache.contains_key(k));
                            if covered(st.cache[k].0, st.cache[k].1, level, st.best) {
                                assert(covered(after.cache[k].0, after.cache[k].1, level, after.best));
                            }
                        }
                    }
                }
            }
            lemma_explore_remembers(g, score, rest, trail, level, after);
            assert(passed(g, score, moves, level, end.best)) by {
                assert forall|q: Seq<Move>|
                    follows(g, q) && (q.len() == 0 || moves.contains(q[0])) implies #[trigger] total_after(
                    g,
                    score,
                    q,
                    level,
                ) <= end.best by {
                    if q.len() > 0 && q[0] == m {
                        let q1 = q.drop_first();
                        assert(follows(d, q1));
                        assert(total_after(d, ds, q1, level) <= after.best);
                        assert(total_after(g, score, q, level) == total_after(d, ds, q1, level));
                    } else if q.len() > 0 {
                        let i = choose|i: int| 0 <= i < moves.len() && moves[i] == q[0];
                        assert(rest[i] == q[0]);
                        assert(rest.contains(q[0]));
                    }
                }
            }
            assert(cache_kept(level, st, end, t)) by {
                assert forall|k: (u128, u128)| #[trigger] end.cache.contains_key(k) implies covered(
                    end.cache[k].0,
                    end.cache[k].1,
                    level,
                    end.best,
                ) || (tile_count(end.cache[k].0) >= t && st.cache.contains_key(k) && end.cache[k]
                    == st.cache[k]) by {
                    if !covered(end.cache[k].0, end.cache[k].1, level, end.best) {
                        assert(after.cache.contains_key(k));
                        if covered(after.cache[k].0, after.cache[k].1, level, after.best) {
                            assert(covered(end.cache[k].0, end.cache[k].1, level, end.best));
                        }
                        assert(noted.cache.contains_key(k));
                    }
                }
            }
        }
    }
}

/// Pruning loses nothing: the search with the cache finds the highest
/// total, the same that the search without it reports. A position is only
/// skipped when its very grid was met at a higher score, and at that point no game
/// from that grid can beat the best total.
pub proof fn lemma_pruning_keeps_optimum(g: Grid, score: u32, level: u32)
    requires
        grid_wf(g),
    ensures
        search_result(g, score, level, true).best == search_result(g, score, level, false).best,
        forall|q: Seq<Move>|
            follows(g, q) ==> #[trigger] total_after(g, score as int, q, level as int)
                <= search_result(g, score, level, true).best,
{
    let with = search_result(g, score, level, true);
    let without = search_result(g, score, level, false);
    let none = Seq::<Move>::empty();
    lemma_moves_fit(g, none);
    assert(cache_sound(level as int, initial_state(), tile_count(g) as int));
    lemma_explore_remembers(g, score as int, valid_moves(g), none, level as int, initial_state());
    lemma_passed_all_is_covered(g, score as int, level as int, with.best);
    lemma_search_attains(g, score, level, true);
    lemma_search_attains(g, score, level, false);
    lemma_exhaustive_search_is_optimal(g, score, level, with.path);
    assert(total_after(g, score as int, without.path, level as int) <= with.best);
}

/// The path that a search reports ends on a board without moves: were a
/// move left, playing it would beat the best total.
pub proof fn lemma_search_ends_without_moves(g: Grid, score: u32, level: u32, cached: bool)
    requires
        grid_wf(g),
        ranks_fit(g),
    ensures
        valid_moves(replay_grid(g, search_result(g, score, level, cached).path)).len() == 0,
{
    let end = search_result(g, score, level, cached);
    let q = end.path;
    let last = replay_grid(g, q);
    lemma_search_attains(g, score, level, cached);
    lemma_pruning_keeps_optimum(g, score, level);
    if valid_moves(last).len() > 0 {
        let m = valid_moves(last)[0];
        lemma_valid_moves_exact(last);
        lemma_replay_fits(g, q);
        lemma_replay_push(g, score as int, q, m);
        lemma_move_raises_total(last, replay_score(g, score as int, q), m, level as int);
        lemma_exhaustive_search_is_optimal(g, score, level, q.push(m));
        assert(total_after(g, score as int, q.push(m), level as int) > end.best);
    }
}

/// The move `m` is offered on the grid `g`.
pub open spec fn offered(g: Grid, m: Move) -> bool {
    is_move(g, m.0 as int, m.1 as int)
}

/// The move `m` merges five tiles of rank 2.
pub open spec fn merges_five_twos(g: Grid, m: Move) -> bool {
    g[m.0 as int][m.1 as int] == 2 && cluster(g, pos(m)).len() == 5
}

/// The grid holds two clusters of five tiles of rank 2 and nothing else that
/// can merge, now or later: there is a move, every move merges five tiles of
/// rank 2 and leaves a move, and every move after it merges five tiles of
/// rank 2 and leaves none.
pub open spec fn two_clusters_of_five(g: Grid) -> bool {
    &&& valid_moves(g).len() > 0
    &&& forall|m: Move| #[trigger]
        offered(g, m) ==> {
            &&& merges_five_twos(g, m)
            &&& valid_moves(play(g, m)).len() > 0
            &&& forall|n: Move| #[trigger]
                offered(play(g, m), n) ==> merges_five_twos(play(g, m), n) && valid_moves(
                    play(play(g, m), n),
                ).len() == 0
        }
}

/// A search of a board with two clusters of five tiles of rank 2 and nothing
/// else that can merge reports what the two merges earn, 100 points each,
/// and the end bonus for the tiles that are left, eight fewer than at the
/// start.
pub proof fn lemma_two_clusters_of_five(g: Grid, score: u32, level: u32, cached: bool)
    requires
        grid_wf(g),
        ranks_fit(g),
        two_clusters_of_five(g),
    ensures
        tile_count(g) >= 9,
        search_result(g, score, level, cached).best == score + 2 * delta_score(5, 2) + end_bonus(
            tile_count(g) - 8,
            level as int,
        ),
        delta_score(5, 2) == 100,
{
    let end = search_result(g, score, level, cached);
    let q = end.path;
    lemma_search_attains(g, score, level, cached);
    lemma_search_ends_without_moves(g, score, level, cached);
    assert(crate::score::multiplier(5) == 2);
    assert(delta_score(5, 2) == 100);
    assert(q.len() >= 1);
    let m = q[0];
    let d = play(g, m);
    let q1 = q.drop_first();
    assert(offered(g, m));
    assert(follows(d, q1));
    assert(replay_grid(g, q) == replay_grid(d, q1));
    assert(q1.len() >= 1);
    let n = q1[0];
    let e = play(d, n);
    let q2 = q1.drop_first();
    assert(offered(d, n));
    assert(follows(e, q2));
    assert(replay_grid(d, q1) == replay_grid(e, q2));
    if q2.len() > 0 {
        lemma_valid_moves_exact(e);
        assert(valid_moves(e).contains(((q2[0].0 as int) as usize, (q2[0].1 as int) as usize)));
    }
    assert(q2.len() == 0);
    lemma_play_fits(g, m);
    lemma_play_fits(d, n);
    assert(replay_score(e, score + gain(g, m) + gain(d, n), q2) == score + gain(g, m) + gain(d, n));
    assert(replay_score(d, score + gain(g, m), q1) == score + gain(g, m) + gain(d, n));
    assert(replay_score(g, score as int, q) == score + gain(g, m) + gain(d, n));
}

} // verus!
