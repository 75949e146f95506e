//! The search engine: a depth-first walk over every sequence of moves, on an
//! explicit stack of frames, which remembers the positions it has met.

use vstd::prelude::*;
use arrayvec::ArrayVec;
use crate::board::{Board, Grid, grid_wf, on_board, tile_count, lemma_tile_count_bounded, BOARD_SIZE};
use crate::cache::TranspositionCache;
use crate::lists::{cells_of, cells_pop, frames_of, frames_new, frames_len, frames_push, frames_pop, frames_last_mut, STACK_SIZE};
use crate::model::{Move, SearchState, explore, initial_state, close_position, dominated, final_total, play, gain, moves_fit, ranks_fit, lemma_moves_fit, lemma_play_fits, lemma_explore_steps, EMPTY_BOARD_BONUS};
use crate::moves::valid_moves;
use crate::fingerprint::fingerprint;
use crate::laws::{follows, total_after, replay_grid, lemma_search_attains, lemma_exhaustive_search_is_optimal, lemma_pruning_keeps_optimum, lemma_search_ends_without_moves};
use crate::score::{MERGE_GAIN_PER_TILE, lemma_end_bonus_bounds};

verus! {

/// The highest rank that a board may hold when a search starts. A merge
/// raises a rank by one and removes a tile, so from 64 tiles of this rank no
/// rank can pass 255.
pub const MAX_RANK: u8 = 192;

/// The highest difficulty level.
pub const MAX_LEVEL: u32 = 1_000_000;

/// The highest score that a board may carry when a search starts.
pub const MAX_START_SCORE: u32 = 1_000_000_000;

/// Why a search was refused.
#[derive(Clone, Copy, Debug, PartialEq, Eq)]
pub enum SolveError {
    /// A cell holds a rank above `MAX_RANK`.
    RankOutOfRange,
    /// The level is above `MAX_LEVEL`.
    LevelOutOfRange,
    /// The board carries a score above `MAX_START_SCORE`.
    ScoreOutOfRange,
}

/// The result of a search.
#[derive(Debug)]
pub struct Solution {
    /// The best total found: the score of a position plus its end bonus.
    pub score: u32,
    /// The moves that lead from the starting board to that position.
    pub path: Vec<(usize, usize)>,
}

/// One level of the search: a position and the moves not yet tried from it.
pub struct Frame {
    /// The position.
    pub board: Board,
    /// The moves of the position that are still to be tried, the next one
    /// last.
    pub moves: ArrayVec<(usize, usize), STACK_SIZE>,
}

/// The first fault of the input, if it has one.
pub open spec fn input_error(g: Grid, score: u32, level: u32) -> Option<SolveError> {
    if exists|x: int, y: int| on_board(x, y) && #[trigger] g[x][y] > MAX_RANK {
        Some(SolveError::RankOutOfRange)
    } else if level > MAX_LEVEL {
        Some(SolveError::LevelOutOfRange)
    } else if score > MAX_START_SCORE {
        Some(SolveError::ScoreOutOfRange)
    } else {
        None
    }
}

/// What a search of `(g, score)` at `level` finds: the state at the end of
/// the walk over all moves from the starting position.
pub open spec fn search_result(g: Grid, score: u32, level: u32, cached: bool) -> SearchState {
    explore(g, score as int, valid_moves(g), Seq::empty(), level as int, cached, initial_state())
}

/// A frame as the walk sees it.
pub struct FrameModel {
    /// The grid of the position.
    pub grid: Grid,
    /// The score of the position.
    pub score: int,
    /// The moves still to be tried, the next one last.
    pub moves: Seq<Move>,
}

spec fn frame_model(f: Frame) -> FrameModel {
    FrameModel { grid: f.board.grid(), score: f.board.score as int, moves: cells_of(f.moves) }
}

spec fn stack_model(s: Seq<Frame>) -> Seq<FrameModel> {
    Seq::new(s.len(), |i: int| frame_model(s[i]))
}

/// The entries of the cache as grids with their scores.
spec fn widen(c: Map<(u128, u128), Board>) -> Map<(u128, u128), (Grid, int)> {
    Map::new(
        |k: (u128, u128)| c.contains_key(k),
        |k: (u128, u128)| (c[k].grid(), c[k].score as int),
    )
}

/// The rest of the walk: the frames are finished from the top down, each
/// with the moves it has left.
spec fn finish(
    frames: Seq<FrameModel>,
    trail: Seq<Move>,
    level: int,
    cached: bool,
    st: SearchState,
) -> SearchState
    decreases frames.len(),
{
    if frames.len() == 0 {
        st
    } else {
        let top = frames.last();
        finish(
            frames.drop_last(),
            trail.drop_last(),
            level,
            cached,
            explore(top.grid, top.score, top.moves, trail, level, cached, st),
        )
    }
}

/// The limits that keep every number of the search in range at a frame
/// `depth` levels below the root.
spec fn frame_ok(f: FrameModel, depth: int, level: int) -> bool {
    &&& grid_wf(f.grid)
    &&& moves_fit(f.grid, f.moves)
    &&& ranks_fit(f.grid)
    &&& tile_count(f.grid) + depth <= 64
    &&& 0 <= f.score
    &&& f.score + MERGE_GAIN_PER_TILE * tile_count(f.grid) + 500 * (level + 1) <= u32::MAX
}

spec fn frames_ok(frames: Seq<FrameModel>, level: int) -> bool {
    forall|i: int| 0 <= i < frames.len() ==> frame_ok(#[trigger] frames[i], i, level)
}

proof fn lemma_finish_unfold(
    frames: Seq<FrameModel>,
    trail: Seq<Move>,
    level: int,
    cached: bool,
    st: SearchState,
)
    ensures
        frames.len() == 0 ==> finish(frames, trail, level, cached, st) == st,
        frames.len() > 0 ==> finish(frames, trail, level, cached, st) == finish(
            frames.drop_last(),
            trail.drop_last(),
            level,
            cached,
            explore(
                frames.last().grid,
                frames.last().score,
                frames.last().moves,
                trail,
                level,
                cached,
                st,
            ),
        ),
{
}

proof fn lemma_finish_steps(
    frames: Seq<FrameModel>,
    trail: Seq<Move>,
    level: int,
    cached: bool,
    st: SearchState,
)
    requires
        frames_ok(frames, level),
    ensures
        finish(frames, trail, level, cached, st).steps >= st.steps + frames.len(),
    decreases frames.len(),
{
    if frames.len() > 0 {
        let top = frames.last();
        assert(frame_ok(frames[frames.len() - 1], frames.len() - 1, level));
        lemma_explore_steps(top.grid, top.score, top.moves, trail, level, cached, st);
        let st1 = explore(top.grid, top.score, top.moves, trail, level, cached, st);
        assert(frames_ok(frames.drop_last(), level)) by {
            assert forall|i: int| 0 <= i < frames.drop_last().len() implies frame_ok(
                #[trigger] frames.drop_last()[i],
                i,
                level,
            ) by {
                assert(frames.drop_last()[i] == frames[i]);
            }
        }
        lemma_finish_steps(frames.drop_last(), trail.drop_last(), level, cached, st1);
    }
}

/// A copy of a list of moves.
fn copy_moves(v: &Vec<(usize, usize)>) -> (r: Vec<(usize, usize)>)
    ensures
        r@ == v@,
{
    let mut r: Vec<(usize, usize)> = Vec::new();
    let mut i: usize = 0;
    while i < v.len()
        invariant
            i <= v.len(),
            r@ == v@.take(i as int),
        decreases v.len() - i,
    {
        r.push(v[i]);
        assert(v@.take(i + 1) =~= v@.take(i as int).push(v@[i as int]));
        i += 1;
    }
    assert(v@.take(v.len() as int) =~= v@);
    r
}

impl Board {
    /// Looks for the first fault of the board or the level.
    fn check_input(&self, level: u32) -> (r: Option<SolveError>)
        ensures
            r == input_error(self.grid(), self.score, level),
    {
        let mut x: usize = 0;
        while x < BOARD_SIZE
            invariant
                x <= 8,
                forall|i: int, j: int| 0 <= i < x && 0 <= j < 8 ==> self.board[i][j] <= MAX_RANK,
            decreases 8 - x,
        {
            let mut y: usize = 0;
            while y < BOARD_SIZE
                invariant
                    x < 8,
                    y <= 8,
                    forall|i: int, j: int|
                        0 <= i < x && 0 <= j < 8 ==> self.board[i][j] <= MAX_RANK,
                    forall|j: int| 0 <= j < y ==> self.board[x as int][j] <= MAX_RANK,
                decreases 8 - y,
            {
                if self.board[x][y] > MAX_RANK {
                    assert(on_board(x as int, y as int) && self.grid()[x as int][y as int]
                        > MAX_RANK);
                    return Some(SolveError::RankOutOfRange);
                }
                y += 1;
            }
            x += 1;
        }
        assert forall|i: int, j: int| on_board(i, j) implies !(#[trigger] self.grid()[i][j]
            > MAX_RANK) by {
            assert(self.board[i][j] <= MAX_RANK);
        }
        if level > MAX_LEVEL {
            Some(SolveError::LevelOutOfRange)
        } else if self.score > MAX_START_SCORE {
            Some(SolveError::ScoreOutOfRange)
        } else {
            None
        }
    }

    /// The walk itself, with or without the cache.
    fn search(&self, level: u32, cached: bool) -> (sol: Solution)
        requires
            input_error(self.grid(), self.score, level) is None,
        ensures
            sol.score == search_result(self.grid(), self.score, level, cached).best,
            sol.path@ == search_result(self.grid(), self.score, level, cached).path,
    {
        let ghost goal = search_result(self.grid(), self.score, level, cached);
        let ghost lv = level as int;
        let mut stack = frames_new();
        proof {
            lemma_moves_fit(self.grid(), Seq::empty());
            lemma_tile_count_bounded(self.grid());
            assert forall|x: int, y: int| on_board(x, y) implies (#[trigger] self.grid()[x][y])
                <= MAX_RANK by {
                if self.grid()[x][y] > MAX_RANK {
                    assert(on_board(x, y) && self.grid()[x][y] > MAX_RANK);
                }
            }
        }
        let first = self.valid_move_list();
        frames_push(&mut stack, Frame { board: *self, moves: first });
        let mut trail: Vec<(usize, usize)> = Vec::new();
        let mut best_score: u32 = 0;
        let mut best_path: Vec<(usize, usize)> = Vec::new();
        let mut cache = TranspositionCache::new();
        let ghost mut steps: nat = 0;
        proof {
            let frames = stack_model(frames_of(stack));
            assert(cells_of(first) =~= valid_moves(self.grid()));
            assert(frames[0] == frame_model(frames_of(stack)[0]));
            assert(frames.drop_last() =~= Seq::<FrameModel>::empty());
            assert(widen(cache@) =~= Map::<(u128, u128), (Grid, int)>::empty());
            assert(frame_ok(frames[0], 0, lv));
            let st0 = SearchState {
                cache: widen(cache@),
                best: best_score as int,
                path: best_path@,
                steps,
            };
            assert(st0 == initial_state());
            lemma_finish_unfold(frames, trail@, lv, cached, st0);
            lemma_finish_unfold(
                frames.drop_last(),
                trail@.drop_last(),
                lv,
                cached,
                explore(
                    frames.last().grid,
                    frames.last().score,
                    frames.last().moves,
                    trail@,
                    lv,
                    cached,
                    st0,
                ),
            );
            assert(trail@ =~= Seq::<Move>::empty());
        }
        while frames_len(&stack) > 0
            invariant
                lv == level as int,
                level <= MAX_LEVEL,
                frames_ok(stack_model(frames_of(stack)), lv),
                frames_of(stack).len() == 0 || trail@.len() + 1 == frames_of(stack).len(),
                goal == finish(
                    stack_model(frames_of(stack)),
                    trail@,
                    lv,
                    cached,
                    SearchState {
                        cache: widen(cache@),
                        best: best_score as int,
                        path: best_path@,
                        steps,
                    },
                ),
            decreases goal.steps - steps,
        {
            let ghost before = frames_of(stack);
            let ghost frames = stack_model(before);
            let ghost top = frames.last();
            let ghost st = SearchState {
                cache: widen(cache@),
                best: best_score as int,
                path: best_path@,
                steps,
            };
            let ghost below = frames.drop_last();
            proof {
                lemma_finish_steps(frames, trail@, lv, cached, st);
                assert(frame_ok(frames[frames.len() - 1], frames.len() - 1, lv));
                assert(top == frame_model(before[before.len() - 1]));
                lemma_moves_fit(top.grid, top.moves);
                lemma_tile_count_bounded(top.grid);
                lemma_finish_unfold(frames, trail@, lv, cached, st);
            }
            let ghost whole = explore(top.grid, top.score, top.moves, trail@, lv, cached, st);
            let frame = frames_last_mut(&mut stack);
            let board: Board = frame.board;
            let popped = cells_pop(&mut frame.moves);
            let ghost middle = frames_of(stack);
            match popped {
                None => {
                    proof {
                        assert(board.grid() == top.grid && board.score == top.score);
                        if tile_count(top.grid) > 0 {
                            lemma_end_bonus_bounds(tile_count(top.grid) as int, lv);
                        }
                        assert(MERGE_GAIN_PER_TILE * tile_count(top.grid) >= 0) by (nonlinear_arith)
                            requires
                                tile_count(top.grid) >= 0,
                        ;
                    }
                    let tiles: u8 = board.get_tiles_remaining();
                    let bonus: u32 = if tiles == 0 {
                        EMPTY_BOARD_BONUS
                    } else {
                        board.get_bonus(level)
                    };
                    let total: u32 = board.score + bonus;
                    if total > best_score {
                        best_score = total;
                        best_path = copy_moves(&trail);
                    }
                    let ghost old_trail = trail@;
                    let _ = frames_pop(&mut stack);
                    if trail.len() > 0 {
                        let _ = trail.pop();
                    }
                    proof {
                        steps = steps + 1;
                        let now = stack_model(frames_of(stack));
                        assert(now =~= below);
                        assert(top.moves.len() == 0);
                        let closed = SearchState {
                            cache: widen(cache@),
                            best: best_score as int,
                            path: best_path@,
                            steps,
                        };
                        assert(whole == close_position(
                            st,
                            final_total(top.grid, top.score, lv),
                            old_trail,
                        ));
                        assert(closed == whole);
                        if below.len() > 0 {
                            assert(trail@ == old_trail.drop_last());
                        } else {
                            lemma_finish_unfold(below, old_trail.drop_last(), lv, cached, closed);
                            lemma_finish_unfold(now, trail@, lv, cached, closed);
                        }
                        assert(frames_ok(now, lv)) by {
                            assert forall|i: int| 0 <= i < now.len() implies frame_ok(
                                #[trigger] now[i],
                                i,
                                lv,
                            ) by {
                                assert(now[i] == frames[i]);
                            }
                        }
                    }
                },
                Some(m) => {
                    proof {
                        assert(m == top.moves.last());
                        lemma_play_fits(top.grid, m);
                        assert(MERGE_GAIN_PER_TILE * (tile_count(top.grid) - tile_count(
                            play(top.grid, m),
                        )) == MERGE_GAIN_PER_TILE * tile_count(top.grid) - MERGE_GAIN_PER_TILE
                            * tile_count(play(top.grid, m))) by (nonlinear_arith);
                    }
                    let mut child: Board = board.click(&m);
                    child.collapse_simd2();
                    let key = child.hash();
                    let known: Option<u32> = if cached {
                        cache.get(&key, &child)
                    } else {
                        None
                    };
                    let skip: bool = match known {
                        Some(v) => v > child.score,
                        None => false,
                    };
                    let ghost rest = top.moves.drop_last();
                    let ghost kept = FrameModel { moves: rest, ..top };
                    let ghost tried = SearchState { steps: st.steps + 1, ..st };
                    let ghost noted = if cached {
                        SearchState {
                            cache: tried.cache.insert(
                                fingerprint(child.grid()),
                                (child.grid(), child.score as int),
                            ),
                            ..tried
                        }
                    } else {
                        tried
                    };
                    let ghost after = explore(
                        child.grid(),
                        child.score as int,
                        valid_moves(child.grid()),
                        trail@.push(m),
                        lv,
                        cached,
                        noted,
                    );
                    proof {
                        assert(board.grid() == top.grid && board.score == top.score);
                        assert(child.grid() == play(top.grid, m));
                        assert(child.score == top.score + gain(top.grid, m));
                        assert(skip == (cached && dominated(
                            st,
                            fingerprint(child.grid()),
                            child.grid(),
                            child.score as int,
                        )));
                        let mid = stack_model(middle);
                        assert(mid =~= below.push(kept)) by {
                            assert(mid.len() == frames.len());
                            assert forall|i: int| 0 <= i < mid.len() implies mid[i] == below.push(
                                kept,
                            )[i] by {
                                if i < below.len() {
                                    assert(middle[i] == before[i]);
                                    assert(mid[i] == frames[i]);
                                } else {
                                    assert(mid[i] == frame_model(middle[i]));
                                }
                            }
                        }
                        assert(below.push(kept).drop_last() =~= below);
                        assert(frame_ok(kept, frames.len() - 1, lv));
                        assert(frames_ok(below.push(kept), lv)) by {
                            assert forall|i: int| 0 <= i < below.push(kept).len() implies frame_ok(
                                #[trigger] below.push(kept)[i],
                                i,
                                lv,
                            ) by {
                                if i < below.len() {
                                    assert(below.push(kept)[i] == frames[i]);
                                }
                            }
                        }
                        assert(whole == if skip {
                            explore(top.grid, top.score, rest, trail@, lv, cached, tried)
                        } else {
                            explore(top.grid, top.score, rest, trail@, lv, cached, after)
                        });
                        lemma_finish_unfold(below.push(kept), trail@, lv, cached, tried);
                        lemma_finish_unfold(below.push(kept), trail@, lv, cached, after);
                    }
                    if !skip {
                        if cached {
                            cache.insert(key, child);
                        }
                        proof {
                            lemma_moves_fit(child.grid(), Seq::empty());
                        }
                        let moves = child.valid_move_list();
                        let ghost old_trail = trail@;
                        frames_push(&mut stack, Frame { board: child, moves });
                        trail.push(m);
                        proof {
                            let now = stack_model(frames_of(stack));
                            let fresh = FrameModel {
                                grid: child.grid(),
                                score: child.score as int,
                                moves: valid_moves(child.grid()),
                            };
                            assert(cells_of(moves) =~= valid_moves(child.grid()));
                            assert(now =~= below.push(kept).push(fresh)) by {
                                assert forall|i: int| 0 <= i < now.len() implies now[i]
                                    == below.push(kept).push(fresh)[i] by {
                                    if i < frames.len() {
                                        assert(frames_of(stack)[i] == middle[i]);
                                        assert(now[i] == stack_model(middle)[i]);
                                    }
                                }
                            }
                            assert(now.drop_last() =~= below.push(kept));
                            assert(trail@.drop_last() =~= old_trail);
                            assert(trail@ == old_trail.push(m));
                            assert(widen(cache@) =~= noted.cache);
                            lemma_finish_unfold(now, trail@, lv, cached, noted);
                            assert(frame_ok(fresh, frames.len() as int, lv));
                            assert(frames_ok(now, lv)) by {
                                assert forall|i: int| 0 <= i < now.len() implies frame_ok(
                                    #[trigger] now[i],
                                    i,
                                    lv,
                                ) by {
                                    if i < frames.len() {
                                        assert(now[i] == below.push(kept)[i]);
                                    }
                                }
                            }
                        }
                    }
                    proof {
                        steps = steps + 1;
                    }
                },
            }
        }
        Solution { score: best_score, path: best_path }
    }

    /// A board that passes the check of the input has room in its ranks for
    /// every merge.
    proof fn lemma_input_fits(&self, level: u32)
        requires
            input_error(self.grid(), self.score, level) is None,
        ensures
            grid_wf(self.grid()),
            ranks_fit(self.grid()),
    {
        lemma_tile_count_bounded(self.grid());
        assert forall|x: int, y: int| on_board(x, y) implies (#[trigger] self.grid()[x][y])
            + tile_count(self.grid()) <= 256 by {
            if self.grid()[x][y] > MAX_RANK {
                assert(on_board(x, y) && self.grid()[x][y] > MAX_RANK);
            }
        }
    }

    /// Searches every sequence of moves from this board for the highest
    /// total: the score after the moves plus the bonus for the tiles left.
    /// Positions are remembered by fingerprint together with their grid, and
    /// a position whose grid was met before at a higher score is not searched
    /// again. Nothing is lost by that: the total reported is the highest that
    /// any sequence of moves reaches, the same that `solve2` reports. It is
    /// the total after the moves of the path reported, which ends on a board
    /// without moves.
    ///
    /// The board is refused if a rank, the level or the score is out of
    /// range.
    pub fn solve(&self, level: u32) -> (r: Result<Solution, SolveError>)
        ensures
            match r {
                Ok(sol) => {
                    &&& input_error(self.grid(), self.score, level) is None
                    &&& sol.score == search_result(self.grid(), self.score, level, true).best
                    &&& sol.path@ == search_result(self.grid(), self.score, level, true).path
                    &&& sol.score == search_result(self.grid(), self.score, level, false).best
                    &&& follows(self.grid(), sol.path@)
                    &&& valid_moves(replay_grid(self.grid(), sol.path@)).len() == 0
                    &&& sol.score == total_after(
                        self.grid(),
                        self.score as int,
                        sol.path@,
                        level as int,
                    )
                    &&& forall|q: Seq<Move>|
                        follows(self.grid(), q) ==> #[trigger] total_after(
                            self.grid(),
                            self.score as int,
                            q,
                            level as int,
                        ) <= sol.score
                },
                Err(e) => input_error(self.grid(), self.score, level) == Some(e),
            },
    {
        match self.check_input(level) {
            Some(e) => Err(e),
            None => {
                proof {
                    let g = self.grid();
                    self.lemma_input_fits(level);
                    lemma_search_attains(g, self.score, level, true);
                    lemma_pruning_keeps_optimum(g, self.score, level);
                    lemma_search_ends_without_moves(g, self.score, level, true);
                }
                Ok(self.search(level, true))
            },
        }
    }

    /// Searches as `solve` does, but remembers nothing: every sequence of
    /// moves is walked to its end. The total reported is the highest there
    /// is, and it is the total after the moves of the path reported, which
    /// ends on a board without moves.
    pub fn solve2(&self, level: u32) -> (r: Result<Solution, SolveError>)
        ensures
            match r {
                Ok(sol) => {
                    &&& input_error(self.grid(), self.score, level) is None
                    &&& sol.score == search_result(self.grid(), self.score, level, false).best
                    &&& sol.path@ == search_result(self.grid(), self.score, level, false).path
                    &&& follows(self.grid(), sol.path@)
                    &&& valid_moves(replay_grid(self.grid(), sol.path@)).len() == 0
                    &&& sol.score == total_after(
                        self.grid(),
                        self.score as int,
                        sol.path@,
                        level as int,
                    )
                    &&& forall|q: Seq<Move>|
                        follows(self.grid(), q) ==> #[trigger] total_after(
                            self.grid(),
                            self.score as int,
                            q,
                            level as int,
                        ) <= sol.score
                },
                Err(e) => input_error(self.grid(), self.score, level) == Some(e),
            },
    {
        match self.check_input(level) {
            Some(e) => Err(e),
            None => {
                proof {
                    let g = self.grid();
                    self.lemma_input_fits(level);
                    lemma_search_attains(g, self.score, level, false);
                    lemma_search_ends_without_moves(g, self.score, level, false);
                    assert forall|q: Seq<Move>| follows(g, q) implies #[trigger] total_after(
                        g,
                        self.score as int,
                        q,
                        level as int,
                    ) <= search_result(g, self.score, level, false).best by {
                        lemma_exhaustive_search_is_optimal(g, self.score, level, q);
                    }
                }
                Ok(self.search(level, false))
            },
        }
    }
}

} // verus!
