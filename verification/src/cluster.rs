//! Clusters: the connected region of equal rank around a cell, and the merge
//! that a click performs on it.

use vstd::prelude::*;
use arrayvec::ArrayVec;
use crate::board::{Board, Grid, on_board, grid_of, tile_set, tile_count, cells_where, holding, rank_count, lemma_cell_set_bounded, BOARD_SIZE};
use crate::lists::{cells_of, cells_new, cells_len, cells_push, cells_pop};
use crate::score::{delta_score, get_score};

verus! {

/// A board cell as a pair of mathematical integers.
pub type Cell = (int, int);

/// The cell that a move names.
pub open spec fn pos(m: (usize, usize)) -> Cell {
    (m.0 as int, m.1 as int)
}

/// Two cells share an edge.
pub open spec fn adjacent(a: Cell, b: Cell) -> bool {
    ||| (a.0 == b.0 && (a.1 == b.1 + 1 || b.1 == a.1 + 1))
    ||| (a.1 == b.1 && (a.0 == b.0 + 1 || b.0 == a.0 + 1))
}

/// Cell `i` of the walk `p` lies on the board, holds rank `v`, and shares an
/// edge with the cell before it.
pub open spec fn walk_step(g: Grid, v: u8, p: Seq<Cell>, i: int) -> bool {
    &&& on_board(p[i].0, p[i].1)
    &&& g[p[i].0][p[i].1] == v
    &&& i > 0 ==> adjacent(p[i - 1], p[i])
}

/// `p` is a walk from `a` to `b` over cells of rank `v`, each step moving to a
/// cell that shares an edge with the last.
pub open spec fn is_walk(g: Grid, v: u8, p: Seq<Cell>, a: Cell, b: Cell) -> bool {
    &&& p.len() >= 1
    &&& p[0] == a
    &&& p[p.len() - 1] == b
    &&& forall|i: int| 0 <= i < p.len() ==> #[trigger] walk_step(g, v, p, i)
}

/// `b` can be reached from `a` by a walk over cells of the rank of `a`.
pub open spec fn connected(g: Grid, a: Cell, b: Cell) -> bool {
    exists|p: Seq<Cell>| #[trigger] is_walk(g, g[a.0][a.1], p, a, b)
}

/// The cluster of `a`: every cell connected to it.
pub open spec fn cluster(g: Grid, a: Cell) -> Set<Cell> {
    Set::new(|c: Cell| connected(g, a, c))
}

/// The grid after the cluster of `a` has merged: its cells are emptied and
/// `a` holds the next rank.
pub open spec fn merged(g: Grid, a: Cell) -> Grid {
    Seq::new(
        8,
        |x: int|
            Seq::new(
                8,
                |y: int|
                    if (x, y) == a {
                        (g[a.0][a.1] + 1) as u8
                    } else if cluster(g, a).contains((x, y)) {
                        0u8
                    } else {
                        g[x][y]
                    },
            ),
    )
}

/// A cell on the board belongs to its own cluster.
pub proof fn lemma_cluster_has_anchor(g: Grid, a: Cell)
    requires
        on_board(a.0, a.1),
    ensures
        cluster(g, a).contains(a),
{
    let p = seq![a];
    assert(is_walk(g, g[a.0][a.1], p, a, a)) by {
        assert forall|i: int| 0 <= i < p.len() implies #[trigger] walk_step(g, g[a.0][a.1], p, i) by {
            assert(p[i] == a);
        }
    }
}

/// Every cell of a cluster lies on the board and holds the rank of the anchor.
pub proof fn lemma_cluster_members(g: Grid, a: Cell, c: Cell)
    requires
        cluster(g, a).contains(c),
    ensures
        on_board(c.0, c.1),
        g[c.0][c.1] == g[a.0][a.1],
        on_board(a.0, a.1),
{
    let p = choose|p: Seq<Cell>| #[trigger] is_walk(g, g[a.0][a.1], p, a, c);
    assert(walk_step(g, g[a.0][a.1], p, p.len() - 1));
    assert(walk_step(g, g[a.0][a.1], p, 0));
}

/// A cluster grows along edges: a neighbour of a member that holds the same
/// rank is a member too.
pub proof fn lemma_cluster_grows(g: Grid, a: Cell, c: Cell, d: Cell)
    requires
        cluster(g, a).contains(c),
        on_board(d.0, d.1),
        adjacent(c, d),
        g[d.0][d.1] == g[a.0][a.1],
    ensures
        cluster(g, a).contains(d),
{
    let v = g[a.0][a.1];
    let p = choose|p: Seq<Cell>| #[trigger] is_walk(g, v, p, a, c);
    let q = p.push(d);
    assert(is_walk(g, v, q, a, d)) by {
        assert forall|i: int| 0 <= i < q.len() implies #[trigger] walk_step(g, v, q, i) by {
            if i < p.len() {
                assert(walk_step(g, v, p, i));
                assert(q[i] == p[i]);
                if i > 0 {
                    assert(q[i - 1] == p[i - 1]);
                }
            } else {
                assert(q[i] == d);
                assert(q[i - 1] == c);
            }
        }
    }
}

/// `s` holds `a` and, with each cell, its neighbours of the rank of `a`.
pub open spec fn closed_under_edges(g: Grid, a: Cell, s: Set<Cell>) -> bool {
    &&& s.contains(a)
    &&& forall|c: Cell, d: Cell|
        #![trigger s.contains(c), adjacent(c, d)]
        s.contains(c) && on_board(d.0, d.1) && adjacent(c, d) && g[d.0][d.1] == g[a.0][a.1]
            ==> s.contains(d)
}

proof fn lemma_walk_stays_inside(g: Grid, a: Cell, s: Set<Cell>, p: Seq<Cell>, b: Cell, i: int)
    requires
        closed_under_edges(g, a, s),
        is_walk(g, g[a.0][a.1], p, a, b),
        0 <= i < p.len(),
    ensures
        s.contains(p[i]),
    decreases i,
{
    if i > 0 {
        lemma_walk_stays_inside(g, a, s, p, b, i - 1);
        assert(walk_step(g, g[a.0][a.1], p, i));
        assert(adjacent(p[i - 1], p[i]));
    }
}

/// The cluster is the least set that holds the anchor and is closed under
/// edges between cells of its rank.
pub proof fn lemma_cluster_is_least(g: Grid, a: Cell, s: Set<Cell>)
    requires
        closed_under_edges(g, a, s),
    ensures
        cluster(g, a).subset_of(s),
{
    assert forall|c: Cell| cluster(g, a).contains(c) implies s.contains(c) by {
        let p = choose|p: Seq<Cell>| #[trigger] is_walk(g, g[a.0][a.1], p, a, c);
        lemma_walk_stays_inside(g, a, s, p, c, p.len() - 1);
    }
}

/// A walk can be walked back.
proof fn lemma_walk_back(g: Grid, v: u8, p: Seq<Cell>, a: Cell, b: Cell)
    requires
        is_walk(g, v, p, a, b),
    ensures
        is_walk(g, v, p.reverse(), b, a),
{
    let q = p.reverse();
    assert forall|i: int| 0 <= i < q.len() implies #[trigger] walk_step(g, v, q, i) by {
        assert(q[i] == p[p.len() - 1 - i]);
        assert(walk_step(g, v, p, p.len() - 1 - i));
        if i > 0 {
            assert(q[i - 1] == p[p.len() - i]);
            assert(walk_step(g, v, p, p.len() - i));
        }
    }
}

/// The cluster is the same from whichever of its cells it is taken.
pub proof fn lemma_cluster_from_any_member(g: Grid, a: Cell, b: Cell)
    requires
        cluster(g, a).contains(b),
    ensures
        cluster(g, b) == cluster(g, a),
{
    lemma_cluster_members(g, a, b);
    lemma_cluster_has_anchor(g, a);
    lemma_cluster_has_anchor(g, b);
    let p = choose|p: Seq<Cell>| #[trigger] is_walk(g, g[a.0][a.1], p, a, b);
    lemma_walk_back(g, g[a.0][a.1], p, a, b);
    assert(cluster(g, b).contains(a));
    assert(closed_under_edges(g, b, cluster(g, a))) by {
        assert forall|c: Cell, d: Cell|
            #![trigger cluster(g, a).contains(c), adjacent(c, d)]
            cluster(g, a).contains(c) && on_board(d.0, d.1) && adjacent(c, d) && g[d.0][d.1]
                == g[b.0][b.1] implies cluster(g, a).contains(d) by {
            lemma_cluster_grows(g, a, c, d);
        }
    }
    assert(closed_under_edges(g, a, cluster(g, b))) by {
        assert forall|c: Cell, d: Cell|
            #![trigger cluster(g, b).contains(c), adjacent(c, d)]
            cluster(g, b).contains(c) && on_board(d.0, d.1) && adjacent(c, d) && g[d.0][d.1]
                == g[a.0][a.1] implies cluster(g, b).contains(d) by {
            lemma_cluster_grows(g, b, c, d);
        }
    }
    lemma_cluster_is_least(g, b, cluster(g, a));
    lemma_cluster_is_least(g, a, cluster(g, b));
    assert(cluster(g, b) =~= cluster(g, a));
}

/// The merge is the same from whichever cell of the cluster it is made, but
/// for the place of the tile that is left: the clusters are the same, so are
/// their sizes and what the merge earns, and the grids after the merge agree
/// on every cell other than the two clicked ones.
pub proof fn lemma_merged_from_any_member(g: Grid, a: Cell, b: Cell)
    requires
        cluster(g, a).contains(b),
    ensures
        cluster(g, b) == cluster(g, a),
        g[b.0][b.1] == g[a.0][a.1],
        forall|c: Cell|
            on_board(c.0, c.1) && c != a && c != b ==> #[trigger] merged(g, a)[c.0][c.1] == merged(
                g,
                b,
            )[c.0][c.1],
        merged(g, a)[b.0][b.1] == if a == b {
            (g[a.0][a.1] + 1) as u8
        } else {
            0u8
        },
{
    lemma_cluster_from_any_member(g, a, b);
    lemma_cluster_members(g, a, b);
}

/// A tile without a neighbour of its rank is a cluster by itself.
pub proof fn lemma_lone_tile_cluster(g: Grid, a: Cell)
    requires
        on_board(a.0, a.1),
        forall|d: Cell|
            on_board(d.0, d.1) && #[trigger] adjacent(a, d) ==> g[d.0][d.1] != g[a.0][a.1],
    ensures
        cluster(g, a) == set![a],
        cluster(g, a).len() == 1,
{
    lemma_cluster_has_anchor(g, a);
    assert(closed_under_edges(g, a, set![a]));
    lemma_cluster_is_least(g, a, set![a]);
    assert(cluster(g, a) =~= set![a]);
}

/// A cluster is finite, holds at least its anchor and at most every tile.
pub proof fn lemma_cluster_size(g: Grid, a: Cell)
    requires
        on_board(a.0, a.1),
        g[a.0][a.1] != 0,
    ensures
        cluster(g, a).finite(),
        1 <= cluster(g, a).len() <= tile_count(g),
        cluster(g, a).subset_of(tile_set(g)),
{
    assert forall|c: Cell| cluster(g, a).contains(c) implies tile_set(g).contains(c) by {
        lemma_cluster_members(g, a, c);
    }
    lemma_cell_set_bounded(tile_set(g));
    vstd::set_lib::lemma_len_subset(cluster(g, a), tile_set(g));
    lemma_cluster_has_anchor(g, a);
    if cluster(g, a).len() == 0 {
        assert(cluster(g, a) =~= Set::<Cell>::empty());
    }
}

/// A merge removes the cluster and leaves one tile in its place: the number
/// of tiles drops by the size of the cluster less one.
pub proof fn lemma_merged_tile_count(g: Grid, a: Cell)
    requires
        on_board(a.0, a.1),
        0 < g[a.0][a.1] < 255,
    ensures
        tile_count(merged(g, a)) == tile_count(g) - cluster(g, a).len() + 1,
{
    let cl = cluster(g, a);
    lemma_cluster_size(g, a);
    lemma_cluster_has_anchor(g, a);
    lemma_cell_set_bounded(tile_set(g));
    let gone = cl.remove(a);
    assert(tile_set(merged(g, a)) =~= tile_set(g).difference(gone)) by {
        assert forall|c: Cell| tile_set(merged(g, a)).contains(c) == tile_set(g).difference(
            gone,
        ).contains(c) by {
            if on_board(c.0, c.1) {
                assert(merged(g, a)[c.0][c.1] == if c == a {
                    (g[a.0][a.1] + 1) as u8
                } else if cl.contains(c) {
                    0u8
                } else {
                    g[c.0][c.1]
                });
            }
        }
    }
    assert(gone.subset_of(tile_set(g)));
    vstd::set_lib::lemma_len_difference(tile_set(g), gone);
    vstd::set_lib::lemma_len_subset(gone, tile_set(g));
    assert(tile_set(g).difference(gone).len() == tile_set(g).len() - gone.len()) by {
        lemma_len_of_difference(tile_set(g), gone);
    }
}

/// A merge takes the tiles of the cluster from their rank and adds one tile
/// to the next rank; the tiles of every other rank stay as many as they
/// were.
pub proof fn lemma_merged_rank_count(g: Grid, a: Cell, r: u8)
    requires
        on_board(a.0, a.1),
        0 < g[a.0][a.1] < 255,
        r != 0,
    ensures
        rank_count(merged(g, a), r) == rank_count(g, r) - (if r == g[a.0][a.1] {
            cluster(g, a).len() as int
        } else {
            0
        }) + (if r == g[a.0][a.1] + 1 {
            1int
        } else {
            0
        }),
{
    let v = g[a.0][a.1];
    let cl = cluster(g, a);
    let was = cells_where(g, holding(r));
    let now = cells_where(merged(g, a), holding(r));
    lemma_cluster_size(g, a);
    lemma_cluster_has_anchor(g, a);
    lemma_cell_set_bounded(was);
    lemma_cell_set_bounded(now);
    assert forall|c: Cell| cl.contains(c) implies on_board(c.0, c.1) && g[c.0][c.1] == v by {
        lemma_cluster_members(g, a, c);
    }
    assert forall|c: Cell| on_board(c.0, c.1) implies merged(g, a)[c.0][c.1] == (if c == a {
        (v + 1) as u8
    } else if cl.contains(c) {
        0u8
    } else {
        g[c.0][c.1]
    }) by {}
    if r == v {
        assert(now =~= was.difference(cl));
        assert(cl.subset_of(was));
        lemma_len_of_difference(was, cl);
    } else if r == v + 1 {
        assert(now =~= was.insert(a));
    } else {
        assert(now =~= was);
    }
}

/// No merge earns more than 481,950 points: a board whose score is that much
/// below the largest number can take any click.
pub proof fn lemma_merge_gain_bounded(g: Grid, a: Cell)
    requires
        on_board(a.0, a.1),
        g[a.0][a.1] != 0,
    ensures
        0 <= delta_score(cluster(g, a).len() as int, g[a.0][a.1] as int) <= 481_950,
{
    lemma_cluster_size(g, a);
    crate::board::lemma_tile_count_bounded(g);
    crate::score::lemma_delta_score_bounds(cluster(g, a).len() as int, g[a.0][a.1] as int);
}

/// Removing a subset from a finite set lowers its size by the size of the
/// subset.
pub proof fn lemma_len_of_difference(s: Set<Cell>, t: Set<Cell>)
    requires
        s.finite(),
        t.subset_of(s),
    ensures
        s.difference(t).len() == s.len() - t.len(),
    decreases t.len(),
{
    vstd::set_lib::lemma_len_subset(t, s);
    if t.len() == 0 {
        assert(t =~= Set::<Cell>::empty());
        assert(s.difference(t) =~= s);
    } else {
        let c = t.choose();
        lemma_len_of_difference(s.remove(c), t.remove(c));
        assert(s.remove(c).difference(t.remove(c)) =~= s.difference(t));
    }
}

/// What holds while a flood from `a` is under way. `closed` are the cells
/// taken off the worklist, `seen` every cell of the rank of `a` that was ever
/// put on it, and `current` the cell whose neighbours are being looked at
/// (a cell off the board when there is none).
spec fn flood_inv(
    g: Grid,
    a: Cell,
    visited: [[bool; 8]; 8],
    open: Seq<(usize, usize)>,
    closed: Set<Cell>,
    seen: Set<Cell>,
    current: Cell,
) -> bool {
    &&& on_board(a.0, a.1)
    &&& seen.finite()
    &&& closed.finite()
    &&& closed.subset_of(seen)
    &&& seen.contains(a)
    &&& seen.len() == closed.len() + open.len()
    &&& forall|c: Cell|
        on_board(c.0, c.1) && #[trigger] visited[c.0][c.1] && g[c.0][c.1] == g[a.0][a.1]
            ==> seen.contains(c)
    &&& forall|c: Cell| #[trigger]
        seen.contains(c) ==> on_board(c.0, c.1) && visited[c.0][c.1] && cluster(g, a).contains(c)
    &&& forall|i: int|
        0 <= i < open.len() ==> seen.contains(pos(#[trigger] open[i])) && !closed.contains(
            pos(open[i]),
        )
    &&& forall|i: int, j: int|
        0 <= i < j < open.len() ==> pos(#[trigger] open[i]) != pos(#[trigger] open[j])
    &&& forall|c: Cell, d: Cell|
        #![trigger closed.contains(c), adjacent(c, d)]
        closed.contains(c) && c != current && on_board(d.0, d.1) && adjacent(c, d)
            ==> visited[d.0][d.1]
}

/// Looks at the neighbour `(nx, ny)` of the cell being closed: marks it, and
/// puts it on the worklist if it is new and holds the rank `val`.
fn probe(
    cells: &[[u8; 8]; 8],
    val: u8,
    nx: usize,
    ny: usize,
    visited: &mut [[bool; 8]; 8],
    open: &mut ArrayVec<(usize, usize), 64>,
    Ghost(a): Ghost<Cell>,
    Ghost(current): Ghost<Cell>,
    Ghost(closed): Ghost<Set<Cell>>,
    Ghost(seen): Ghost<Set<Cell>>,
) -> (out: Ghost<Set<Cell>>)
    requires
        flood_inv(grid_of(*cells), a, *old(visited), cells_of(*old(open)), closed, seen, current),
        val == grid_of(*cells)[a.0][a.1],
        closed.contains(current),
        nx < 8,
        ny < 8,
        adjacent(current, (nx as int, ny as int)),
    ensures
        flood_inv(grid_of(*cells), a, *final(visited), cells_of(*final(open)), closed, out@, current),
        final(visited)[nx as int][ny as int],
        forall|c: Cell|
            on_board(c.0, c.1) && old(visited)[c.0][c.1] ==> #[trigger] final(visited)[c.0][c.1],
{
    let ghost g = grid_of(*cells);
    let ghost d: Cell = (nx as int, ny as int);
    let ghost before = *visited;
    if !visited[nx][ny] {
        visited[nx][ny] = true;
        assert(forall|c: Cell|
            on_board(c.0, c.1) ==> visited[c.0][c.1] == (before[c.0][c.1] || c == d));
        assert(!seen.contains(d));
        if cells[nx][ny] == val {
            proof {
                lemma_cluster_grows(g, a, current, d);
                lemma_cell_set_bounded(seen.insert(d));
            }
            cells_push(open, (nx, ny));
            proof {
                let now = cells_of(*open);
                let was = now.drop_last();
                assert(forall|i: int| 0 <= i < was.len() ==> now[i] == was[i]);
                assert(now[now.len() - 1] == (nx, ny));
            }
            return Ghost(seen.insert(d));
        }
    }
    Ghost(seen)
}

impl Board {
    /// Merges the cluster of the tile at `m` on the grid alone: returns the
    /// cells after the merge and the size of the cluster. Every cell of the
    /// cluster is emptied but the clicked one, which holds the next rank; all
    /// other cells stay as they are. The tiles of the clicked rank become
    /// fewer by the size of the cluster, those of the next rank one more, and
    /// those of every other rank stay as many.
    pub fn merge_cluster(&self, m: &(usize, usize)) -> (r: ([[u8; BOARD_SIZE]; BOARD_SIZE], u32))
        requires
            on_board(m.0 as int, m.1 as int),
            0 < self.board[m.0 as int][m.1 as int] < 255,
        ensures
            grid_of(r.0) == merged(self.grid(), pos(*m)),
            r.1 == cluster(self.grid(), pos(*m)).len(),
            1 <= r.1 <= 64,
            forall|c: Cell|
                on_board(c.0, c.1) ==> #[trigger] r.0[c.0][c.1] == (if c == pos(*m) {
                    (self.board[m.0 as int][m.1 as int] + 1) as u8
                } else if cluster(self.grid(), pos(*m)).contains(c) {
                    0u8
                } else {
                    self.board[c.0][c.1]
                }),
            tile_count(grid_of(r.0)) == tile_count(self.grid()) - r.1 + 1,
            forall|k: u8|
                k != 0 ==> #[trigger] rank_count(grid_of(r.0), k) == rank_count(self.grid(), k) - (
                if k == self.board[m.0 as int][m.1 as int] {
                    r.1 as int
                } else {
                    0
                }) + (if k == self.board[m.0 as int][m.1 as int] + 1 {
                    1int
                } else {
                    0
                }),
    {
        proof {
            lemma_merged_tile_count(self.grid(), pos(*m));
            lemma_cluster_size(self.grid(), pos(*m));
            crate::board::lemma_tile_count_bounded(self.grid());
            assert forall|k: u8| k != 0 implies #[trigger] rank_count(
                merged(self.grid(), pos(*m)),
                k,
            ) == rank_count(self.grid(), k) - (if k == self.grid()[m.0 as int][m.1 as int] {
                cluster(self.grid(), pos(*m)).len() as int
            } else {
                0
            }) + (if k == self.grid()[m.0 as int][m.1 as int] + 1 {
                1int
            } else {
                0
            }) by {
                lemma_merged_rank_count(self.grid(), pos(*m), k);
            }
        }
        let (x, y) = *m;
        let val: u8 = self.board[x][y];
        let ghost g = self.grid();
        let ghost a: Cell = pos(*m);
        let ghost off: Cell = (-1, -1);
        let mut visited: [[bool; 8]; 8] = [[false; BOARD_SIZE]; BOARD_SIZE];
        visited[x][y] = true;
        let mut new_board: [[u8; 8]; 8] = self.board;
        let mut open_cells = cells_new();
        let mut closed_count: u32 = 0;
        cells_push(&mut open_cells, *m);
        let ghost mut closed: Set<Cell> = Set::empty();
        let ghost mut seen: Set<Cell> = Set::empty().insert(a);
        proof {
            lemma_cluster_has_anchor(g, a);
            assert(cells_of(open_cells)[0] == *m);
        }
        while cells_len(&open_cells) > 0
            invariant
                g == grid_of(self.board),
                a == pos(*m),
                off == (-1int, -1int),
                val == g[a.0][a.1],
                flood_inv(g, a, visited, cells_of(open_cells), closed, seen, off),
                closed_count == closed.len(),
                forall|c: Cell|
                    on_board(c.0, c.1) ==> #[trigger] new_board[c.0][c.1] == if closed.contains(c) {
                        0u8
                    } else {
                        self.board[c.0][c.1]
                    },
            decreases 64 - closed.len(),
        {
            proof {
                lemma_cell_set_bounded(seen);
                lemma_cell_set_bounded(closed);
            }
            let ghost was = cells_of(open_cells);
            let popped = cells_pop(&mut open_cells);
            let (cx, cy) = popped.unwrap();
            let ghost cur: Cell = (cx as int, cy as int);
            proof {
                assert(cur == pos(was[was.len() - 1]));
                assert(seen.contains(cur) && !closed.contains(cur));
                let now = cells_of(open_cells);
                assert(forall|i: int| 0 <= i < now.len() ==> now[i] == was[i]);
                closed = closed.insert(cur);
                lemma_cell_set_bounded(closed);
            }
            closed_count += 1;
            new_board[cx][cy] = 0;
            if cy > 0 {
                let out = probe(
                    &self.board,
                    val,
                    cx,
                    cy - 1,
                    &mut visited,
                    &mut open_cells,
                    Ghost(a),
                    Ghost(cur),
                    Ghost(closed),
                    Ghost(seen),
                );
                proof {
                    seen = out@;
                }
            }
            if cx < 7 {
                let out = probe(
                    &self.board,
                    val,
                    cx + 1,
                    cy,
                    &mut visited,
                    &mut open_cells,
                    Ghost(a),
                    Ghost(cur),
                    Ghost(closed),
                    Ghost(seen),
                );
                proof {
                    seen = out@;
                }
            }
            if cy < 7 {
                let out = probe(
                    &self.board,
                    val,
                    cx,
                    cy + 1,
                    &mut visited,
                    &mut open_cells,
                    Ghost(a),
                    Ghost(cur),
                    Ghost(closed),
                    Ghost(seen),
                );
                proof {
                    seen = out@;
                }
            }
            if cx > 0 {
                let out = probe(
                    &self.board,
                    val,
                    cx - 1,
                    cy,
                    &mut visited,
                    &mut open_cells,
                    Ghost(a),
                    Ghost(cur),
                    Ghost(closed),
                    Ghost(seen),
                );
                proof {
                    seen = out@;
                }
            }
        }
        proof {
            lemma_cell_set_bounded(seen);
            vstd::set_lib::lemma_subset_equality(closed, seen);
            assert(closed_under_edges(g, a, closed));
            lemma_cluster_is_least(g, a, closed);
            assert(closed =~= cluster(g, a));
        }
        let ghost cleared = new_board;
        new_board[x][y] = val + 1;
        proof {
            assert forall|c: Cell| on_board(c.0, c.1) implies #[trigger] new_board[c.0][c.1] == (if c
                == a {
                (val + 1) as u8
            } else if cluster(g, a).contains(c) {
                0u8
            } else {
                self.board[c.0][c.1]
            }) by {
                assert(cleared[c.0][c.1] == if closed.contains(c) {
                    0u8
                } else {
                    self.board[c.0][c.1]
                });
            }
            assert forall|i: int, j: int| 0 <= i < 8 && 0 <= j < 8 implies grid_of(new_board)[i][j]
                == merged(g, a)[i][j] by {
                let c: Cell = (i, j);
                assert(new_board[c.0][c.1] == merged(g, a)[i][j]);
                assert(g[i][j] == self.board[i][j]);
            }
            assert(grid_of(new_board) =~~= merged(g, a));
        }
        (new_board, closed_count)
    }

    /// Merges the cluster of the tile at `m`: every tile of the cluster is
    /// removed, the clicked cell holds the next rank, and the score grows by
    /// what the merge earns. The score after the merge must fit.
    pub fn click(&self, m: &(usize, usize)) -> (b: Board)
        requires
            on_board(m.0 as int, m.1 as int),
            0 < self.board[m.0 as int][m.1 as int] < 255,
            self.score + delta_score(
                cluster(self.grid(), pos(*m)).len() as int,
                self.board[m.0 as int][m.1 as int] as int,
            ) <= u32::MAX,
        ensures
            b.grid() == merged(self.grid(), pos(*m)),
            b.score == self.score + delta_score(
                cluster(self.grid(), pos(*m)).len() as int,
                self.board[m.0 as int][m.1 as int] as int,
            ),
            forall|c: Cell|
                on_board(c.0, c.1) ==> #[trigger] b.board[c.0][c.1] == (if c == pos(*m) {
                    (self.board[m.0 as int][m.1 as int] + 1) as u8
                } else if cluster(self.grid(), pos(*m)).contains(c) {
                    0u8
                } else {
                    self.board[c.0][c.1]
                }),
            tile_count(b.grid()) == tile_count(self.grid()) - cluster(self.grid(), pos(*m)).len()
                + 1,
            forall|k: u8|
                k != 0 ==> #[trigger] rank_count(b.grid(), k) == rank_count(self.grid(), k) - (if k
                    == self.board[m.0 as int][m.1 as int] {
                    cluster(self.grid(), pos(*m)).len() as int
                } else {
                    0
                }) + (if k == self.board[m.0 as int][m.1 as int] + 1 {
                    1int
                } else {
                    0
                }),
    {
        let (cells, count) = self.merge_cluster(m);
        let gained: u32 = get_score(count, self.board[m.0][m.1]);
        Board { board: cells, score: gained + self.score }
    }
}

} // verus!
