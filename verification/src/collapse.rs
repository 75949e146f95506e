//! Compaction: tiles fall to the floor of their column, and the columns that
//! still hold tiles close up to the left.

use vstd::prelude::*;
use crate::board::{Board, Grid, grid_wf, on_board, tile_set, tile_count, cells_where, holding, rank_count, lemma_cell_set_bounded, BOARD_SIZE};

verus! {

/// The test for a tile: a cell with a rank other than 0.
pub open spec fn occupied() -> spec_fn(u8) -> bool {
    |v: u8| v != 0
}

/// `n` empty cells.
pub open spec fn blanks(n: int) -> Seq<u8> {
    Seq::new(n as nat, |i: int| 0u8)
}

/// A column after its tiles have fallen: the tiles in their old order at the
/// high indices, every empty cell above them.
pub open spec fn settle(c: Seq<u8>) -> Seq<u8> {
    let tiles = c.filter(occupied());
    blanks(c.len() - tiles.len()) + tiles
}

/// A column without tiles.
pub open spec fn vacant(c: Seq<u8>) -> bool {
    forall|y: int| 0 <= y < c.len() ==> c[y] == 0
}

/// The test for a column that holds a tile.
pub open spec fn in_use() -> spec_fn(Seq<u8>) -> bool {
    |c: Seq<u8>| !vacant(c)
}

/// The grid after the tiles of every column have fallen.
pub open spec fn settle_all(g: Grid) -> Grid {
    Seq::new(g.len(), |x: int| settle(g[x]))
}

/// The grid after its columns have closed up: the columns in use in their
/// old order at the low indices, empty columns after them.
pub open spec fn close_up(g: Grid) -> Grid {
    let used = g.filter(in_use());
    used + Seq::new((g.len() - used.len()) as nat, |i: int| blanks(8))
}

/// The grid after compaction: tiles fall, and the columns close up.
pub open spec fn collapsed(g: Grid) -> Grid {
    close_up(settle_all(g))
}

/// Every entry of `s` from `from` up to, not counting, `to` fails `pred`.
pub open spec fn none_kept<A>(s: Seq<A>, pred: spec_fn(A) -> bool, from: int, to: int) -> bool {
    forall|k: int| from <= k < to ==> !pred(#[trigger] s[k])
}

/// Every entry of `s` from `from` up to, not counting, `to` passes `pred`.
pub open spec fn all_kept<A>(s: Seq<A>, pred: spec_fn(A) -> bool, from: int, to: int) -> bool {
    forall|k: int| from <= k < to ==> pred(#[trigger] s[k])
}

/// A filter keeps all of a sequence whose entries all pass.
pub proof fn lemma_filter_keeps_all<A>(s: Seq<A>, pred: spec_fn(A) -> bool)
    requires
        all_kept(s, pred, 0, s.len() as int),
    ensures
        s.filter(pred) == s,
    decreases s.len(),
{
    reveal(Seq::filter);
    if s.len() > 0 {
        let rest = s.drop_last();
        assert(all_kept(rest, pred, 0, rest.len() as int)) by {
            assert forall|k: int| 0 <= k < rest.len() implies pred(#[trigger] rest[k]) by {
                assert(rest[k] == s[k]);
            }
        }
        lemma_filter_keeps_all(rest, pred);
        assert(pred(s[s.len() - 1]));
        assert(rest.push(s.last()) =~= s);
    } else {
        assert(s.filter(pred) =~= s);
    }
}

/// A filter keeps nothing of a sequence whose entries all fail.
pub proof fn lemma_filter_drops_all<A>(s: Seq<A>, pred: spec_fn(A) -> bool)
    requires
        none_kept(s, pred, 0, s.len() as int),
    ensures
        s.filter(pred) == Seq::<A>::empty(),
{
    assert forall|i: int| 0 <= i < s.len() implies !pred(s[i]) by {
        assert(!pred(s[i]));
    }
    s.lemma_all_neg_filter_empty(pred);
    assert(s.filter(pred) =~= Seq::<A>::empty());
}

/// What a filter keeps of a sequence is what it keeps of each of three
/// consecutive parts, put together.
pub proof fn lemma_filter_three_parts<A>(s: Seq<A>, pred: spec_fn(A) -> bool, i: int, j: int)
    requires
        0 <= i <= j <= s.len(),
    ensures
        s.filter(pred) == s.subrange(0, i).filter(pred) + s.subrange(i, j).filter(pred)
            + s.subrange(j, s.len() as int).filter(pred),
{
    let a = s.subrange(0, i);
    let b = s.subrange(i, j);
    let c = s.subrange(j, s.len() as int);
    assert(s =~= (a + b) + c);
    Seq::filter_distributes_over_add(a + b, c, pred);
    Seq::filter_distributes_over_add(a, b, pred);
}

/// Of a stretch in which only the entry at `p` may pass, a filter keeps that
/// entry or nothing.
pub proof fn lemma_filter_single<A>(s: Seq<A>, pred: spec_fn(A) -> bool, p: int)
    requires
        0 <= p < s.len(),
        none_kept(s, pred, 0, p),
        none_kept(s, pred, p + 1, s.len() as int),
    ensures
        s.filter(pred) == if pred(s[p]) {
            seq![s[p]]
        } else {
            Seq::<A>::empty()
        },
{
    lemma_filter_three_parts(s, pred, p, p + 1);
    let a = s.subrange(0, p);
    let b = s.subrange(p, p + 1);
    let c = s.subrange(p + 1, s.len() as int);
    assert(none_kept(a, pred, 0, a.len() as int)) by {
        assert forall|k: int| 0 <= k < a.len() implies !pred(#[trigger] a[k]) by {
            assert(a[k] == s[k]);
        }
    }
    assert(none_kept(c, pred, 0, c.len() as int)) by {
        assert forall|k: int| 0 <= k < c.len() implies !pred(#[trigger] c[k]) by {
            assert(c[k] == s[k + p + 1]);
        }
    }
    lemma_filter_drops_all(a, pred);
    lemma_filter_drops_all(c, pred);
    assert(b =~= seq![s[p]]);
    if pred(s[p]) {
        assert(all_kept(b, pred, 0, 1));
        lemma_filter_keeps_all(b, pred);
    } else {
        assert(none_kept(b, pred, 0, 1));
        lemma_filter_drops_all(b, pred);
    }
    assert(s.filter(pred) =~= if pred(s[p]) {
        seq![s[p]]
    } else {
        Seq::<A>::empty()
    });
}

/// Swapping the ends of a stretch in which at most one end passes `pred` and
/// nothing between them does leaves what a filter keeps unchanged.
pub proof fn lemma_filter_swap<A>(s: Seq<A>, pred: spec_fn(A) -> bool, i: int, j: int)
    requires
        0 <= i < j < s.len(),
        none_kept(s, pred, i + 1, j),
        !(pred(s[i]) && pred(s[j])),
    ensures
        s.update(i, s[j]).update(j, s[i]).filter(pred) == s.filter(pred),
{
    let t = s.update(i, s[j]).update(j, s[i]);
    lemma_filter_three_parts(s, pred, i, j + 1);
    lemma_filter_three_parts(t, pred, i, j + 1);
    assert(t.subrange(0, i) =~= s.subrange(0, i));
    assert(t.subrange(j + 1, t.len() as int) =~= s.subrange(j + 1, s.len() as int));
    let ms = s.subrange(i, j + 1);
    let mt = t.subrange(i, j + 1);
    assert forall|k: int| 0 < k < j - i implies !pred(#[trigger] ms[k]) && !pred(
        #[trigger] mt[k],
    ) by {
        assert(ms[k] == s[k + i]);
        assert(mt[k] == s[k + i]);
    }
    assert(ms[0] == s[i] && ms[j - i] == s[j]);
    assert(mt[0] == s[j] && mt[j - i] == s[i]);
    if pred(s[i]) {
        lemma_filter_single(ms, pred, 0);
        lemma_filter_single(mt, pred, j - i);
    } else {
        lemma_filter_single(ms, pred, j - i);
        lemma_filter_single(mt, pred, 0);
    }
}

/// A sequence is packed high when no entry that passes `pred` comes before
/// one that fails.
pub open spec fn packed_high<A>(s: Seq<A>, pred: spec_fn(A) -> bool) -> bool {
    exists|k: int|
        0 <= k <= s.len() && #[trigger] none_kept(s, pred, 0, k) && all_kept(
            s,
            pred,
            k,
            s.len() as int,
        )
}

/// A sequence is packed low when no entry that fails `pred` comes before one
/// that passes.
pub open spec fn packed_low<A>(s: Seq<A>, pred: spec_fn(A) -> bool) -> bool {
    exists|k: int|
        0 <= k <= s.len() && #[trigger] all_kept(s, pred, 0, k) && none_kept(
            s,
            pred,
            k,
            s.len() as int,
        )
}

/// In a sequence packed high, the kept entries are its tail.
pub proof fn lemma_packed_high_tail<A>(s: Seq<A>, pred: spec_fn(A) -> bool)
    requires
        packed_high(s, pred),
    ensures
        s.filter(pred) == s.subrange(s.len() - s.filter(pred).len(), s.len() as int),
        none_kept(s, pred, 0, s.len() - s.filter(pred).len()),
        s.filter(pred).len() <= s.len(),
{
    let k = choose|k: int|
        0 <= k <= s.len() && #[trigger] none_kept(s, pred, 0, k) && all_kept(
            s,
            pred,
            k,
            s.len() as int,
        );
    lemma_filter_three_parts(s, pred, k, s.len() as int);
    let a = s.subrange(0, k);
    let b = s.subrange(k, s.len() as int);
    assert(none_kept(a, pred, 0, a.len() as int)) by {
        assert forall|i: int| 0 <= i < a.len() implies !pred(#[trigger] a[i]) by {
            assert(a[i] == s[i]);
        }
    }
    assert(all_kept(b, pred, 0, b.len() as int)) by {
        assert forall|i: int| 0 <= i < b.len() implies pred(#[trigger] b[i]) by {
            assert(b[i] == s[i + k]);
        }
    }
    lemma_filter_drops_all(a, pred);
    lemma_filter_keeps_all(b, pred);
    lemma_filter_drops_all(s.subrange(s.len() as int, s.len() as int), pred);
    assert(s.filter(pred) =~= b);
}

/// In a sequence packed low, the kept entries are its head.
pub proof fn lemma_packed_low_head<A>(s: Seq<A>, pred: spec_fn(A) -> bool)
    requires
        packed_low(s, pred),
    ensures
        s.filter(pred) == s.subrange(0, s.filter(pred).len() as int),
        none_kept(s, pred, s.filter(pred).len() as int, s.len() as int),
        s.filter(pred).len() <= s.len(),
{
    let k = choose|k: int|
        0 <= k <= s.len() && #[trigger] all_kept(s, pred, 0, k) && none_kept(
            s,
            pred,
            k,
            s.len() as int,
        );
    lemma_filter_three_parts(s, pred, 0, k);
    let a = s.subrange(0, k);
    let b = s.subrange(k, s.len() as int);
    assert(all_kept(a, pred, 0, a.len() as int)) by {
        assert forall|i: int| 0 <= i < a.len() implies pred(#[trigger] a[i]) by {
            assert(a[i] == s[i]);
        }
    }
    assert(none_kept(b, pred, 0, b.len() as int)) by {
        assert forall|i: int| 0 <= i < b.len() implies !pred(#[trigger] b[i]) by {
            assert(b[i] == s[i + k]);
        }
    }
    lemma_filter_keeps_all(a, pred);
    lemma_filter_drops_all(b, pred);
    lemma_filter_drops_all(s.subrange(0, 0), pred);
    assert(s.filter(pred) =~= a);
}

/// A column whose tiles all lie below its empty cells has settled.
pub proof fn lemma_settled_column(c: Seq<u8>)
    requires
        packed_high(c, occupied()),
    ensures
        settle(c) == c,
{
    lemma_packed_high_tail(c, occupied());
    let n = c.len() - c.filter(occupied()).len();
    assert forall|i: int| 0 <= i < n implies c[i] == 0 by {
        assert(!occupied()(c[i]));
    }
    assert(settle(c) =~= c);
}

/// A settled column is packed high, and settling it again changes nothing.
pub proof fn lemma_settle_is_packed(c: Seq<u8>)
    ensures
        packed_high(settle(c), occupied()),
        settle(c).len() == c.len(),
        settle(c).filter(occupied()) == c.filter(occupied()),
        settle(settle(c)) == settle(c),
{
    let tiles = c.filter(occupied());
    c.lemma_filter_len(occupied());
    let n = c.len() - tiles.len();
    let s = settle(c);
    assert(none_kept(s, occupied(), 0, n)) by {
        assert forall|k: int| 0 <= k < n implies !occupied()(#[trigger] s[k]) by {
            assert(s[k] == 0);
        }
    }
    assert(all_kept(s, occupied(), n, s.len() as int)) by {
        assert forall|k: int| n <= k < s.len() implies occupied()(#[trigger] s[k]) by {
            assert(s[k] == tiles[k - n]);
            c.lemma_filter_pred(occupied(), k - n);
        }
    }
    assert(packed_high(s, occupied()));
    lemma_packed_high_tail(s, occupied());
    lemma_filter_three_parts(s, occupied(), n, s.len() as int);
    assert(s.subrange(0, n) =~= blanks(n));
    assert(none_kept(blanks(n), occupied(), 0, n)) by {
        assert forall|k: int| 0 <= k < n implies !occupied()(#[trigger] blanks(n)[k]) by {}
    }
    lemma_filter_drops_all(blanks(n), occupied());
    assert(s.subrange(n, s.len() as int) =~= tiles);
    assert(all_kept(tiles, occupied(), 0, tiles.len() as int)) by {
        assert forall|k: int| 0 <= k < tiles.len() implies occupied()(#[trigger] tiles[k]) by {
            c.lemma_filter_pred(occupied(), k);
        }
    }
    lemma_filter_keeps_all(tiles, occupied());
    lemma_filter_drops_all(s.subrange(s.len() as int, s.len() as int), occupied());
    assert(s.filter(occupied()) =~= tiles);
    lemma_settled_column(s);
}

/// The number of cells in a sequence of columns that pass `pred`.
pub open spec fn weight(cols: Seq<Seq<u8>>, pred: spec_fn(u8) -> bool) -> nat
    decreases cols.len(),
{
    if cols.len() == 0 {
        0
    } else {
        weight(cols.drop_last(), pred) + cols.last().filter(pred).len()
    }
}

/// The weights of two runs of columns add up.
pub proof fn lemma_weight_adds(a: Seq<Seq<u8>>, b: Seq<Seq<u8>>, pred: spec_fn(u8) -> bool)
    ensures
        weight(a + b, pred) == weight(a, pred) + weight(b, pred),
    decreases b.len(),
{
    if b.len() == 0 {
        assert(a + b =~= a);
    } else {
        lemma_weight_adds(a, b.drop_last(), pred);
        assert((a + b).drop_last() =~= a + b.drop_last());
        assert((a + b).last() == b.last());
    }
}

/// Columns that weigh as much each weigh as much together.
pub proof fn lemma_weight_by_column(a: Seq<Seq<u8>>, b: Seq<Seq<u8>>, pred: spec_fn(u8) -> bool)
    requires
        a.len() == b.len(),
        forall|x: int|
            0 <= x < a.len() ==> (#[trigger] a[x]).filter(pred).len() == b[x].filter(pred).len(),
    ensures
        weight(a, pred) == weight(b, pred),
    decreases a.len(),
{
    if a.len() > 0 {
        assert forall|x: int| 0 <= x < a.drop_last().len() implies (#[trigger] a.drop_last()[x]).filter(
            pred,
        ).len() == b.drop_last()[x].filter(pred).len() by {
            assert(a.drop_last()[x] == a[x]);
            assert(b.drop_last()[x] == b[x]);
        }
        lemma_weight_by_column(a.drop_last(), b.drop_last(), pred);
        assert(a.last() == a[a.len() - 1]);
    }
}

/// An empty column holds nothing that passes a test which an empty cell
/// fails.
pub proof fn lemma_vacant_weighs_nothing(c: Seq<u8>, pred: spec_fn(u8) -> bool)
    requires
        vacant(c),
        !pred(0u8),
    ensures
        c.filter(pred).len() == 0,
{
    assert(none_kept(c, pred, 0, c.len() as int)) by {
        assert forall|k: int| 0 <= k < c.len() implies !pred(#[trigger] c[k]) by {
            assert(c[k] == 0);
        }
    }
    lemma_filter_drops_all(c, pred);
}

/// Leaving out the empty columns loses nothing that an empty cell is not.
pub proof fn lemma_weight_of_used(cols: Seq<Seq<u8>>, pred: spec_fn(u8) -> bool)
    requires
        !pred(0u8),
    ensures
        weight(cols.filter(in_use()), pred) == weight(cols, pred),
    decreases cols.len(),
{
    reveal(Seq::filter);
    if cols.len() > 0 {
        lemma_weight_of_used(cols.drop_last(), pred);
        let used = cols.drop_last().filter(in_use());
        if in_use()(cols.last()) {
            assert(used.push(cols.last()).drop_last() =~= used);
        } else {
            lemma_vacant_weighs_nothing(cols.last(), pred);
        }
    }
}

/// Empty columns weigh nothing under a test that an empty cell fails.
pub proof fn lemma_weight_of_blanks(n: nat, pred: spec_fn(u8) -> bool)
    requires
        !pred(0u8),
    ensures
        weight(Seq::new(n, |i: int| blanks(8)), pred) == 0,
    decreases n,
{
    let s = Seq::new(n, |i: int| blanks(8));
    if n > 0 {
        lemma_weight_of_blanks((n - 1) as nat, pred);
        assert(s.drop_last() =~= Seq::new((n - 1) as nat, |i: int| blanks(8)));
        assert(s.last() == blanks(8));
        lemma_vacant_weighs_nothing(blanks(8), pred);
    }
}

/// The cells that come before `(x, y)` when the board is read column by
/// column.
pub open spec fn cells_before_in_columns(x: int, y: int) -> Set<(int, int)> {
    Set::new(|c: (int, int)| on_board(c.0, c.1) && (c.0 < x || (c.0 == x && c.1 < y)))
}

proof fn lemma_cells_before(g: Grid, pred: spec_fn(u8) -> bool, x: int, y: int)
    requires
        grid_wf(g),
        0 <= x < 8,
        0 <= y <= 8,
    ensures
        cells_where(g, pred).intersect(cells_before_in_columns(x, y)).finite(),
        cells_where(g, pred).intersect(cells_before_in_columns(x, y)).len() == weight(
            g.take(x),
            pred,
        ) + g[x].take(y).filter(pred).len(),
    decreases x, y,
{
    reveal(Seq::filter);
    let here = cells_where(g, pred).intersect(cells_before_in_columns(x, y));
    lemma_cell_set_bounded(here);
    if y == 0 {
        assert(g[x].take(0).filter(pred).len() == 0);
        if x == 0 {
            assert(here =~= Set::<(int, int)>::empty());
            assert(g.take(0).len() == 0);
        } else {
            lemma_cells_before(g, pred, x - 1, 8);
            assert(here =~= cells_where(g, pred).intersect(cells_before_in_columns(x - 1, 8)));
            assert(g.take(x).drop_last() =~= g.take(x - 1));
            assert(g.take(x).last() == g[x - 1]);
            assert(g[x - 1].take(8) =~= g[x - 1]);
        }
    } else {
        lemma_cells_before(g, pred, x, y - 1);
        let prev = cells_where(g, pred).intersect(cells_before_in_columns(x, y - 1));
        assert(g[x].take(y).drop_last() =~= g[x].take(y - 1));
        assert(g[x].take(y).last() == g[x][y - 1]);
        if pred(g[x][y - 1]) {
            assert(here =~= prev.insert((x, y - 1)));
        } else {
            assert(here =~= prev);
        }
    }
}

/// The cells of a grid that pass a test are those of its columns.
pub proof fn lemma_cells_where_is_weight(g: Grid, pred: spec_fn(u8) -> bool)
    requires
        grid_wf(g),
    ensures
        cells_where(g, pred).finite(),
        cells_where(g, pred).len() == weight(g, pred),
{
    lemma_cells_before(g, pred, 7, 8);
    assert(cells_where(g, pred).intersect(cells_before_in_columns(7, 8)) =~= cells_where(g, pred));
    assert(g.drop_last() =~= g.take(7));
    assert(g[7].take(8) =~= g[7]);
    assert(g.last() == g[7]);
}

/// Filtering what a filter kept by a narrower test is filtering by the
/// narrower test.
pub proof fn lemma_filter_twice<A>(s: Seq<A>, wide: spec_fn(A) -> bool, narrow: spec_fn(A) -> bool)
    requires
        forall|a: A| #[trigger] narrow(a) ==> wide(a),
    ensures
        s.filter(wide).filter(narrow) == s.filter(narrow),
    decreases s.len(),
{
    reveal(Seq::filter);
    if s.len() > 0 {
        lemma_filter_twice(s.drop_last(), wide, narrow);
        let kept = s.drop_last().filter(wide);
        if wide(s.last()) {
            assert(kept.push(s.last()).drop_last() =~= kept);
        }
    }
}

/// Settling a column keeps its tiles of every rank.
pub proof fn lemma_settle_keeps_ranks(c: Seq<u8>, pred: spec_fn(u8) -> bool)
    requires
        !pred(0u8),
    ensures
        settle(c).filter(pred) == c.filter(pred),
{
    let tiles = c.filter(occupied());
    c.lemma_filter_len(occupied());
    let top = blanks(c.len() - tiles.len());
    Seq::filter_distributes_over_add(top, tiles, pred);
    assert(none_kept(top, pred, 0, top.len() as int)) by {
        assert forall|k: int| 0 <= k < top.len() implies !pred(#[trigger] top[k]) by {
            assert(top[k] == 0);
        }
    }
    lemma_filter_drops_all(top, pred);
    assert forall|a: u8| #[trigger] pred(a) implies occupied()(a) by {}
    lemma_filter_twice(c, occupied(), pred);
    assert(Seq::<u8>::empty() + tiles.filter(pred) =~= tiles.filter(pred));
}

/// Every entry that a filter keeps was in the sequence.
pub proof fn lemma_kept_was_there<A>(s: Seq<A>, pred: spec_fn(A) -> bool, i: int)
    requires
        0 <= i < s.filter(pred).len(),
    ensures
        exists|j: int| 0 <= j < s.len() && #[trigger] s[j] == s.filter(pred)[i],
{
    let e = s.filter(pred)[i];
    assert(s.filter(pred).contains(e));
    s.lemma_filter_contains_rev(pred, e);
    let j = choose|j: int| 0 <= j < s.len() && s[j] == e;
    assert(s[j] == s.filter(pred)[i]);
}

/// Compaction keeps the shape of the grid and settles every column.
pub proof fn lemma_collapsed_wf(g: Grid)
    requires
        grid_wf(g),
    ensures
        grid_wf(settle_all(g)),
        grid_wf(collapsed(g)),
        forall|x: int| 0 <= x < 8 ==> packed_high(#[trigger] settle_all(g)[x], occupied()),
        forall|x: int| 0 <= x < 8 ==> packed_high(#[trigger] collapsed(g)[x], occupied()),
        packed_low(collapsed(g), in_use()),
        collapsed(g).filter(in_use()) == settle_all(g).filter(in_use()),
{
    let h = settle_all(g);
    assert forall|x: int| 0 <= x < 8 implies (#[trigger] h[x]).len() == 8 && packed_high(
        h[x],
        occupied(),
    ) by {
        lemma_settle_is_packed(g[x]);
    }
    let used = h.filter(in_use());
    h.lemma_filter_len(in_use());
    let r = collapsed(g);
    let k = used.len() as int;
    assert(packed_high(blanks(8), occupied())) by {
        assert(none_kept(blanks(8), occupied(), 0, 8));
        assert(all_kept(blanks(8), occupied(), 8, 8));
    }
    assert forall|x: int| 0 <= x < 8 implies (#[trigger] r[x]).len() == 8 && packed_high(
        r[x],
        occupied(),
    ) by {
        if x < k {
            lemma_kept_was_there(h, in_use(), x);
            let j = choose|j: int| 0 <= j < h.len() && #[trigger] h[j] == used[x];
            assert(r[x] == h[j]);
        } else {
            assert(r[x] == blanks(8));
        }
    }
    assert(all_kept(r, in_use(), 0, k)) by {
        assert forall|x: int| 0 <= x < k implies in_use()(#[trigger] r[x]) by {
            h.lemma_filter_pred(in_use(), x);
            assert(r[x] == used[x]);
        }
    }
    assert(none_kept(r, in_use(), k, 8)) by {
        assert forall|x: int| k <= x < 8 implies !in_use()(#[trigger] r[x]) by {
            assert(r[x] == blanks(8));
        }
    }
    assert(packed_low(r, in_use()));
    lemma_filter_three_parts(r, in_use(), 0, k);
    assert(r.subrange(0, k) =~= used);
    assert(all_kept(used, in_use(), 0, k)) by {
        assert forall|x: int| 0 <= x < k implies in_use()(#[trigger] used[x]) by {
            h.lemma_filter_pred(in_use(), x);
        }
    }
    lemma_filter_keeps_all(used, in_use());
    let tail = r.subrange(k, 8);
    assert(none_kept(tail, in_use(), 0, tail.len() as int)) by {
        assert forall|x: int| 0 <= x < tail.len() implies !in_use()(#[trigger] tail[x]) by {
            assert(tail[x] == r[x + k]);
            assert(!in_use()(r[x + k]));
        }
    }
    lemma_filter_drops_all(tail, in_use());
    lemma_filter_drops_all(r.subrange(0, 0), in_use());
    assert(r.filter(in_use()) =~= used);
}

/// Compacting a compacted grid changes nothing.
pub proof fn lemma_collapse_idempotent(g: Grid)
    requires
        grid_wf(g),
    ensures
        collapsed(collapsed(g)) == collapsed(g),
{
    let r = collapsed(g);
    lemma_collapsed_wf(g);
    assert(settle_all(r) =~= r) by {
        assert forall|x: int| 0 <= x < 8 implies settle_all(r)[x] == r[x] by {
            lemma_settled_column(r[x]);
        }
    }
    lemma_collapsed_wf(r);
    lemma_packed_low_head(r, in_use());
    let used = r.filter(in_use());
    assert forall|x: int| used.len() <= x < 8 implies r[x] == blanks(8) by {
        assert(!in_use()(r[x]));
        lemma_vacant_is_blank(r[x]);
    }
    assert(close_up(r) =~= r);
}

/// Compaction keeps the number of cells that pass any test which an empty
/// cell fails.
pub proof fn lemma_collapsed_weight(g: Grid, pred: spec_fn(u8) -> bool)
    requires
        grid_wf(g),
        !pred(0u8),
    ensures
        cells_where(collapsed(g), pred).len() == cells_where(g, pred).len(),
{
    let h = settle_all(g);
    let r = collapsed(g);
    lemma_collapsed_wf(g);
    lemma_cells_where_is_weight(g, pred);
    lemma_cells_where_is_weight(r, pred);
    assert forall|x: int| 0 <= x < 8 implies (#[trigger] g[x]).filter(pred).len() == h[x].filter(
        pred,
    ).len() by {
        lemma_settle_keeps_ranks(g[x], pred);
    }
    lemma_weight_by_column(g, h, pred);
    let used = h.filter(in_use());
    h.lemma_filter_len(in_use());
    lemma_weight_of_used(h, pred);
    lemma_weight_of_blanks((8 - used.len()) as nat, pred);
    lemma_weight_adds(used, Seq::new((8 - used.len()) as nat, |i: int| blanks(8)), pred);
}

/// Compaction neither adds nor removes a tile.
pub proof fn lemma_collapsed_tile_count(g: Grid)
    requires
        grid_wf(g),
    ensures
        tile_count(collapsed(g)) == tile_count(g),
{
    lemma_collapsed_weight(g, occupied());
    assert(tile_set(g) =~= cells_where(g, occupied()));
    assert(tile_set(collapsed(g)) =~= cells_where(collapsed(g), occupied()));
}

/// Compaction keeps the tiles of every rank: as many tiles of rank `r` are
/// on the grid after it as before.
pub proof fn lemma_collapsed_rank_count(g: Grid, r: u8)
    requires
        grid_wf(g),
        r != 0,
    ensures
        rank_count(collapsed(g), r) == rank_count(g, r),
{
    lemma_collapsed_weight(g, holding(r));
}

/// Compaction moves tiles and makes none: every rank on the compacted grid
/// was on the grid before.
pub proof fn lemma_collapsed_ranks(g: Grid, x: int, y: int)
    requires
        grid_wf(g),
        on_board(x, y),
        collapsed(g)[x][y] != 0,
    ensures
        exists|i: int, j: int| on_board(i, j) && #[trigger] g[i][j] == collapsed(g)[x][y],
{
    let h = settle_all(g);
    let r = collapsed(g);
    lemma_collapsed_wf(g);
    let used = h.filter(in_use());
    h.lemma_filter_len(in_use());
    assert(x < used.len());
    lemma_kept_was_there(h, in_use(), x);
    let i = choose|i: int| 0 <= i < h.len() && #[trigger] h[i] == used[x];
    assert(r[x] == h[i]);
    let tiles = g[i].filter(occupied());
    g[i].lemma_filter_len(occupied());
    let n = 8 - tiles.len();
    assert(h[i][y] == if y < n {
        0u8
    } else {
        tiles[y - n]
    });
    lemma_kept_was_there(g[i], occupied(), y - n);
    let j = choose|j: int| 0 <= j < g[i].len() && #[trigger] g[i][j] == tiles[y - n];
    assert(g[i][j] == r[x][y]);
}

/// On a compacted grid the corner tells: the cell above the left floor cell
/// and the floor cell of the second column are both empty exactly when at
/// most one tile is left.
pub proof fn lemma_cleared_is_one_tile(h: Grid)
    requires
        grid_wf(h),
    ensures
        (collapsed(h)[0][6] == 0 && collapsed(h)[1][7] == 0) <==> tile_count(collapsed(h)) <= 1,
{
    let g = collapsed(h);
    lemma_collapsed_wf(h);
    lemma_cell_set_bounded(tile_set(g));
    let k0 = choose|k: int|
        0 <= k <= g[0].len() && #[trigger] none_kept(g[0], occupied(), 0, k) && all_kept(
            g[0],
            occupied(),
            k,
            g[0].len() as int,
        );
    let kc = choose|k: int|
        0 <= k <= g.len() && #[trigger] all_kept(g, in_use(), 0, k) && none_kept(
            g,
            in_use(),
            k,
            g.len() as int,
        );
    lemma_floor_tells(g[0]);
    lemma_floor_tells(g[1]);
    if g[0][6] == 0 && g[1][7] == 0 {
        assert(vacant(g[1]));
        assert(kc <= 1) by {
            if kc > 1 {
                assert(in_use()(g[1]));
            }
        }
        assert(k0 >= 7) by {
            if k0 < 7 {
                assert(occupied()(g[0][6]));
            }
        }
        assert(tile_set(g).subset_of(set![(0int, 7int)])) by {
            assert forall|c: (int, int)| tile_set(g).contains(c) implies c == (0int, 7int) by {
                if c.0 >= 1 {
                    assert(!in_use()(g[c.0]));
                } else if c.1 < 7 {
                    assert(!occupied()(g[0][c.1]));
                }
            }
        }
        vstd::set_lib::lemma_len_subset(tile_set(g), set![(0int, 7int)]);
    } else {
        let a: (int, int) = if g[0][6] != 0 {
            (0, 6)
        } else {
            (1, 7)
        };
        let b: (int, int) = (0, 7);
        assert(tile_set(g).contains(a));
        assert(tile_set(g).contains(b)) by {
            if g[0][6] != 0 {
                assert(k0 <= 6) by {
                    if k0 > 6 {
                        assert(!occupied()(g[0][6]));
                    }
                }
                assert(occupied()(g[0][7]));
            } else {
                assert(!vacant(g[1]));
                assert(kc >= 2) by {
                    if kc < 2 {
                        assert(!in_use()(g[1]));
                    }
                }
                assert(in_use()(g[0]));
                assert(!vacant(g[0]));
            }
        }
        assert(set![a, b].subset_of(tile_set(g)));
        vstd::set_lib::lemma_len_subset(set![a, b], tile_set(g));
        assert(set![a, b].len() == 2) by {
            assert(set![a, b] =~= set![a].insert(b));
        }
    }
}

/// Lets the tiles of one column fall to its floor, keeping their order.
pub fn settle_column(col: &mut [u8; BOARD_SIZE])
    ensures
        final(col)@ == settle(old(col)@),
{
    let ghost start = col@;
    let mut left: i8 = BOARD_SIZE as i8 - 2;
    let mut right: i8 = BOARD_SIZE as i8 - 1;
    while left >= 0 && right > 0
        invariant
            -2 <= left < right <= 7,
            col@.len() == 8,
            col@.filter(occupied()) == start.filter(occupied()),
            none_kept(col@, occupied(), left + 1, right as int),
            all_kept(col@, occupied(), right + 1, 8),
            right - left > 1 ==> right >= 0 && col@[right as int] == 0,
        decreases left + 2,
    {
        let upper: u8 = col[left as usize];
        let lower: u8 = col[right as usize];
        let ghost before = col@;
        if upper == 0 && lower == 0 {
            left -= 1;
            assert(!occupied()(before[left + 1]));
        } else if upper == 0 {
            left -= 1;
            right -= 1;
            assert(occupied()(before[right + 1]));
            assert(!occupied()(before[left + 1]));
        } else if lower == 0 {
            col[right as usize] = upper;
            col[left as usize] = lower;
            proof {
                assert(!occupied()(before[right as int]));
                lemma_filter_swap(before, occupied(), left as int, right as int);
                assert(col@ =~= before.update(left as int, before[right as int]).update(
                    right as int,
                    before[left as int],
                ));
                assert(occupied()(col@[right as int]));
                assert(!occupied()(col@[left as int]));
                assert forall|k: int| left < k < right implies !occupied()(#[trigger] col@[k]) by {
                    assert(!occupied()(before[k]));
                }
                assert forall|k: int| right < k < 8 implies occupied()(#[trigger] col@[k]) by {
                    assert(occupied()(before[k]));
                }
            }
            left -= 1;
            right -= 1;
        } else {
            assert(occupied()(before[right as int]));
            assert(occupied()(before[left as int]));
            left -= 2;
            right -= 2;
        }
    }
    proof {
        let c = col@;
        let k: int = if right >= 0 && c[right as int] == 0 {
            right + 1
        } else if right >= 0 {
            right as int
        } else {
            0
        };
        assert(none_kept(c, occupied(), 0, k)) by {
            assert forall|i: int| 0 <= i < k implies !occupied()(#[trigger] c[i]) by {
                if i < right {
                    assert(!occupied()(c[i]));
                }
            }
        }
        assert(all_kept(c, occupied(), k, 8)) by {
            assert forall|i: int| k <= i < 8 implies occupied()(#[trigger] c[i]) by {
                if i > right {
                    assert(occupied()(c[i]));
                }
            }
        }
        assert(packed_high(c, occupied()));
        lemma_settled_column(c);
    }
}

/// The floor cell of a column tells whether the column is empty.
pub open spec fn floor_tells(c: Seq<u8>) -> bool {
    vacant(c) <==> c[7] == 0
}

/// A settled column is empty exactly when its floor cell is.
pub proof fn lemma_floor_tells(c: Seq<u8>)
    requires
        c.len() == 8,
        packed_high(c, occupied()),
    ensures
        floor_tells(c),
{
    let k = choose|k: int|
        0 <= k <= c.len() && #[trigger] none_kept(c, occupied(), 0, k) && all_kept(
            c,
            occupied(),
            k,
            c.len() as int,
        );
    if c[7] == 0 {
        assert(!occupied()(c[7]));
        assert(k == 8) by {
            if k < 8 {
                assert(occupied()(c[7]));
            }
        }
        assert forall|y: int| 0 <= y < 8 implies c[y] == 0 by {
            assert(!occupied()(c[y]));
        }
    }
}

/// A column of eight cells without tiles is eight blanks.
pub proof fn lemma_vacant_is_blank(c: Seq<u8>)
    requires
        c.len() == 8,
        vacant(c),
    ensures
        c == blanks(8),
{
    assert(c =~= blanks(8));
}

/// Whether a column holds no tile.
pub fn column_is_vacant(col: &[u8; BOARD_SIZE]) -> (r: bool)
    ensures
        r == vacant(col@),
{
    let a: u8 = col[0];
    let b: u8 = col[1];
    let c: u8 = col[2];
    let d: u8 = col[3];
    let e: u8 = col[4];
    let f: u8 = col[5];
    let g: u8 = col[6];
    let h: u8 = col[7];
    let all: u8 = a | b | c | d | e | f | g | h;
    assert(all == 0 <==> (a == 0 && b == 0 && c == 0 && d == 0 && e == 0 && f == 0 && g == 0 && h
        == 0)) by (bit_vector)
        requires
            all == a | b | c | d | e | f | g | h,
    ;
    all == 0
}

impl Board {
    /// Closes the columns up to the left. A column counts as empty when all
    /// its cells are (`whole`), or when its floor cell is, which tells the
    /// same once the tiles have fallen.
    fn shift_columns(&mut self, whole: bool)
        requires
            !whole ==> forall|x: int| 0 <= x < 8 ==> floor_tells(#[trigger] old(self).grid()[x]),
        ensures
            final(self).grid() == close_up(old(self).grid()),
            final(self).score == old(self).score,
    {
        let ghost start = self.grid();
        let mut left: usize = 0;
        let mut right: usize = 1;
        while left < BOARD_SIZE - 1 && right < BOARD_SIZE
            invariant
                left < right <= 9,
                right <= 8 || right == left + 1,
                grid_wf(self.grid()),
                self.score == old(self).score,
                !whole ==> forall|x: int| 0 <= x < 8 ==> floor_tells(#[trigger] self.grid()[x]),
                self.grid().filter(in_use()) == start.filter(in_use()),
                all_kept(self.grid(), in_use(), 0, left as int),
                none_kept(self.grid(), in_use(), left + 1, right as int),
                right > left + 1 ==> vacant(self.grid()[left as int]),
            decreases 20 - left - right,
        {
            let ghost before = self.grid();
            proof {
                if !whole {
                    assert(floor_tells(before[left as int]));
                    assert(floor_tells(before[right as int]));
                }
                assert(before[left as int] == self.board[left as int]@);
                assert(before[right as int] == self.board[right as int]@);
            }
            let left_vacant: bool = if whole {
                column_is_vacant(&self.board[left])
            } else {
                self.board[left][BOARD_SIZE - 1] == 0
            };
            let right_vacant: bool = if whole {
                column_is_vacant(&self.board[right])
            } else {
                self.board[right][BOARD_SIZE - 1] == 0
            };
            if left_vacant && right_vacant {
                right += 1;
                assert(!in_use()(before[right - 1]));
            } else if left_vacant {
                let tmp: [u8; 8] = self.board[left];
                self.board[left] = self.board[right];
                self.board[right] = tmp;
                proof {
                    let after = self.grid();
                    assert(!in_use()(before[left as int]));
                    assert(in_use()(before[right as int]));
                    lemma_filter_swap(before, in_use(), left as int, right as int);
                    assert(after =~= before.update(left as int, before[right as int]).update(
                        right as int,
                        before[left as int],
                    ));
                    assert(in_use()(after[left as int]));
                    assert(!in_use()(after[right as int]));
                    assert forall|k: int| 0 <= k < left + 1 implies in_use()(#[trigger] after[k]) by {
                        if k < left {
                            assert(in_use()(before[k]));
                        }
                    }
                    assert forall|k: int| left + 2 <= k < right + 1 implies !in_use()(
                        #[trigger] after[k],
                    ) by {
                        if k < right {
                            assert(!in_use()(before[k]));
                        }
                    }
                    assert(right > left + 1 ==> vacant(after[left + 1])) by {
                        if right > left + 1 {
                            assert(!in_use()(before[left + 1]));
                        }
                    }
                    if !whole {
                        assert forall|x: int| 0 <= x < 8 implies floor_tells(#[trigger] after[x]) by {
                            if x == left {
                                assert(floor_tells(before[right as int]));
                            } else if x == right {
                                assert(floor_tells(before[left as int]));
                            } else {
                                assert(after[x] == before[x]);
                                assert(floor_tells(before[x]));
                            }
                        }
                    }
                }
                left += 1;
                right += 1;
            } else if right_vacant {
                assert(in_use()(before[left as int]));
                assert(!in_use()(before[right as int]));
                left += 1;
                right += 1;
            } else {
                assert(in_use()(before[left as int]));
                assert(in_use()(before[right as int]));
                left += 2;
                right += 2;
            }
        }
        proof {
            let g = self.grid();
            let k: int = if left < 8 && !vacant(g[left as int]) {
                left + 1
            } else {
                left as int
            };
            assert(all_kept(g, in_use(), 0, k)) by {
                assert forall|i: int| 0 <= i < k implies in_use()(#[trigger] g[i]) by {
                    if i < left {
                        assert(in_use()(g[i]));
                    }
                }
            }
            assert(none_kept(g, in_use(), k, 8)) by {
                assert forall|i: int| k <= i < 8 implies !in_use()(#[trigger] g[i]) by {
                    if i > left {
                        assert(!in_use()(g[i]));
                    }
                }
            }
            assert(packed_low(g, in_use()));
            lemma_packed_low_head(g, in_use());
            let used = g.filter(in_use());
            assert forall|i: int| used.len() <= i < 8 implies g[i] == blanks(8) by {
                assert(!in_use()(g[i]));
                lemma_vacant_is_blank(g[i]);
            }
            assert(g =~= close_up(start));
        }
    }

    /// Closes the columns up to the left: the columns that hold tiles keep
    /// their order, the empty ones end up to their right. A column is judged
    /// by its floor cell, so every column that holds a tile must hold one on
    /// its floor, as all do once the tiles have fallen.
    pub fn collapse_h(&mut self)
        requires
            forall|x: int| 0 <= x < 8 ==> floor_tells(#[trigger] old(self).grid()[x]),
        ensures
            final(self).grid() == close_up(old(self).grid()),
            final(self).score == old(self).score,
    {
        self.shift_columns(false)
    }

    /// Lets the tiles of every column fall to the floor, keeping their
    /// order within the column.
    pub fn collapse_v(&mut self)
        ensures
            final(self).grid() == settle_all(old(self).grid()),
            final(self).score == old(self).score,
    {
        let ghost start = self.grid();
        let mut i: usize = 0;
        while i < BOARD_SIZE
            invariant
                i <= 8,
                start == old(self).grid(),
                self.score == old(self).score,
                forall|x: int| 0 <= x < i ==> #[trigger] self.grid()[x] == settle(start[x]),
                forall|x: int| i <= x < 8 ==> #[trigger] self.grid()[x] == start[x],
            decreases 8 - i,
        {
            let ghost before = self.grid();
            let mut col: [u8; 8] = self.board[i];
            settle_column(&mut col);
            self.board[i] = col;
            proof {
                let after = self.grid();
                assert(before[i as int] == start[i as int]);
                assert forall|x: int| 0 <= x < i + 1 implies #[trigger] after[x] == settle(
                    start[x],
                ) by {
                    if x < i {
                        assert(after[x] == before[x]);
                    }
                }
                assert forall|x: int| i + 1 <= x < 8 implies #[trigger] after[x] == start[x] by {
                    assert(after[x] == before[x]);
                }
            }
            i += 1;
        }
        assert(self.grid() =~= settle_all(start));
    }

    /// Compacts the board: the tiles fall, and the columns that hold tiles
    /// close up to the left. The score is untouched.
    pub fn collapse_scalar(&mut self)
        ensures
            final(self).grid() == collapsed(old(self).grid()),
            final(self).score == old(self).score,
            tile_count(final(self).grid()) == tile_count(old(self).grid()),
            forall|r: u8|
                r != 0 ==> #[trigger] rank_count(final(self).grid(), r) == rank_count(
                    old(self).grid(),
                    r,
                ),
    {
        proof {
            lemma_collapsed_tile_count(self.grid());
            assert forall|r: u8| r != 0 implies #[trigger] rank_count(collapsed(self.grid()), r)
                == rank_count(self.grid(), r) by {
                lemma_collapsed_rank_count(self.grid(), r);
            }
        }
        self.collapse_v();
        self.shift_columns(true);
    }
}

} // verus!
