//! The collapse engine. After tiles are marked empty, the grid settles:
//! within each column the tiles fall to the bottom keeping their order, and
//! the occupied columns then shift left keeping theirs, so the grid always
//! presents as a dense block of tiles pushed to the bottom-left.

use vstd::prelude::*;

use crate::count::{
    grid_count, lemma_filter_all, lemma_filter_none, lemma_filter_property, lemma_filter_push,
    lemma_grid_count_add, lemma_grid_count_pointwise, lemma_seq_count_is_filter_len,
    lemma_seq_count_le_len, lemma_seq_count_zero, seq_count,
};
use crate::grid::{empty_tile, Grid, Tile};

verus! {

/// The tile is showing, that is, not empty.
pub open spec fn tile_present(t: Tile) -> bool {
    !t.empty
}

/// `tile_present` as a value, so that every filter and count names one and
/// the same predicate.
pub open spec fn present_pred() -> spec_fn(Tile) -> bool {
    |t: Tile| tile_present(t)
}

/// The column holds at least one non-empty tile.
pub open spec fn column_occupied(c: Seq<Tile>) -> bool {
    exists|i: int| 0 <= i < c.len() && tile_present(#[trigger] c[i])
}

/// `column_occupied` as a value.
pub open spec fn occupied_pred() -> spec_fn(Seq<Tile>) -> bool {
    |c: Seq<Tile>| column_occupied(c)
}

/// The non-empty tiles of a column, top to bottom.
pub open spec fn column_tiles(c: Seq<Tile>) -> Seq<Tile> {
    c.filter(present_pred())
}

/// A column of `h` empty cells.
pub open spec fn empty_column(h: nat) -> Seq<Tile> {
    Seq::new(h, |i: int| empty_tile())
}

/// One settled column: empty cells on top, then the column's tiles in their
/// original top-to-bottom order.
pub open spec fn settled_column(c: Seq<Tile>) -> Seq<Tile> {
    empty_column((c.len() - column_tiles(c).len()) as nat) + column_tiles(c)
}

/// The whole settled grid of height `h`: the occupied columns, each settled,
/// shifted to the left in their original order; every column after them is
/// fully empty.
pub open spec fn settle_spec(g: Seq<Seq<Tile>>, h: nat) -> Seq<Seq<Tile>> {
    let keep = g.filter(occupied_pred());
    Seq::new(
        g.len(),
        |x: int|
            if x < keep.len() {
                settled_column(keep[x])
            } else {
                empty_column(h)
            },
    )
}

/// The count of a column's tiles agrees with `column_tiles`.
proof fn lemma_column_tiles_count(c: Seq<Tile>)
    ensures
        column_tiles(c).len() == seq_count(c, present_pred()),
        column_tiles(c).len() <= c.len(),
        column_occupied(c) <==> column_tiles(c).len() > 0,
{
    lemma_seq_count_is_filter_len(c, present_pred());
    lemma_seq_count_le_len(c, present_pred());
    lemma_seq_count_zero(c, present_pred());
}

/// No cell of an empty column shows a tile.
proof fn lemma_empty_column_blank(h: nat)
    ensures
        forall|i: int|
            0 <= i < empty_column(h).len() ==> !tile_present(#[trigger] empty_column(h)[i]),
        !column_occupied(empty_column(h)),
        seq_count(empty_column(h), present_pred()) == 0,
{
    assert forall|i: int| 0 <= i < empty_column(h).len() implies !tile_present(
        #[trigger] empty_column(h)[i],
    ) by {
        assert(empty_column(h)[i] == empty_tile());
    }
    lemma_seq_count_zero(empty_column(h), present_pred());
}

/// A settled column has the same length and the same tiles as the column it
/// came from, and its tiles fill exactly the bottom cells.
proof fn lemma_settled_column_shape(c: Seq<Tile>)
    ensures
        settled_column(c).len() == c.len(),
        column_tiles(settled_column(c)) == column_tiles(c),
        seq_count(settled_column(c), present_pred()) == seq_count(c, present_pred()),
        forall|y: int|
            0 <= y < c.len()
                ==> (tile_present(#[trigger] settled_column(c)[y]) <==> y >= c.len()
                - column_tiles(c).len()),
{
    let k = column_tiles(c);
    let pad = (c.len() - k.len()) as nat;
    lemma_column_tiles_count(c);
    let s = settled_column(c);
    assert(s.len() == pad + k.len());
    assert forall|y: int| 0 <= y < c.len() implies (tile_present(#[trigger] s[y]) <==> y
        >= pad) by {
        if y < pad {
            assert(s[y] == empty_column(pad)[y]);
            assert(s[y] == empty_tile());
        } else {
            assert(s[y] == k[y - pad]);
            c.lemma_filter_pred(present_pred(), y - pad);
        }
    }
    lemma_empty_column_blank(pad);
    lemma_filter_none(empty_column(pad), present_pred());
    assert forall|i: int| 0 <= i < k.len() implies present_pred()(#[trigger] k[i]) by {
        c.lemma_filter_pred(present_pred(), i);
    }
    lemma_filter_all(k, present_pred());
    Seq::filter_distributes_over_add(empty_column(pad), k, present_pred());
    assert(column_tiles(s) == Seq::<Tile>::empty() + k);
    assert(Seq::<Tile>::empty() + k =~= k);
    lemma_seq_count_is_filter_len(s, present_pred());
    lemma_seq_count_is_filter_len(c, present_pred());
}

/// A grid all of whose columns count zero counts zero.
proof fn lemma_grid_count_zero<T>(g: Seq<Seq<T>>, f: spec_fn(T) -> bool)
    requires
        forall|x: int| 0 <= x < g.len() ==> seq_count(#[trigger] g[x], f) == 0,
    ensures
        grid_count(g, f) == 0,
    decreases g.len(),
{
    if g.len() > 0 {
        assert forall|x: int| 0 <= x < g.drop_last().len() implies seq_count(
            #[trigger] g.drop_last()[x],
            f,
        ) == 0 by {
            assert(g.drop_last()[x] == g[x]);
        }
        lemma_grid_count_zero(g.drop_last(), f);
        assert(seq_count(g.last(), f) == 0);
    }
}

/// Keeping only the occupied columns keeps every tile.
proof fn lemma_grid_filter_count(g: Seq<Seq<Tile>>)
    ensures
        grid_count(g.filter(occupied_pred()), present_pred()) == grid_count(g, present_pred()),
    decreases g.len(),
{
    reveal(Seq::filter);
    let occ = occupied_pred();
    let f = present_pred();
    if g.len() > 0 {
        lemma_grid_filter_count(g.drop_last());
        let c = g.last();
        if occ(c) {
            assert(g.filter(occ) == g.drop_last().filter(occ) + seq![c]);
            assert((g.drop_last().filter(occ) + seq![c]).drop_last() =~= g.drop_last().filter(
                occ,
            ));
            assert((g.drop_last().filter(occ) + seq![c]).last() == c);
        } else {
            assert(g.filter(occ) == g.drop_last().filter(occ) + seq![]);
            assert(g.drop_last().filter(occ) + seq![] =~= g.drop_last().filter(occ));
            lemma_seq_count_zero(c, f);
            assert(seq_count(c, f) == 0);
        }
    } else {
        assert(g.filter(occ) =~= g);
    }
}

/// Settling preserves the number of non-empty tiles.
pub proof fn lemma_settle_preserves_tile_count(g: Seq<Seq<Tile>>, h: nat)
    requires
        forall|x: int| 0 <= x < g.len() ==> (#[trigger] g[x]).len() == h,
    ensures
        grid_count(settle_spec(g, h), present_pred()) == grid_count(g, present_pred()),
{
    let f = present_pred();
    let occ = occupied_pred();
    let keep = g.filter(occ);
    let res = settle_spec(g, h);
    lemma_grid_filter_count(g);
    let head = Seq::new(keep.len(), |x: int| settled_column(keep[x]));
    let tail = Seq::new((g.len() - keep.len()) as nat, |x: int| empty_column(h));
    g.lemma_filter_len(occ);
    assert(res =~= head + tail);
    lemma_grid_count_add(head, tail, f);
    assert forall|x: int| 0 <= x < head.len() implies seq_count(#[trigger] head[x], f) == seq_count(
        #[trigger] keep[x],
        f,
    ) by {
        lemma_settled_column_shape(keep[x]);
    }
    lemma_grid_count_pointwise(head, keep, f);
    assert forall|x: int| 0 <= x < tail.len() implies seq_count(#[trigger] tail[x], f) == 0 by {
        lemma_empty_column_blank(h);
    }
    lemma_grid_count_zero(tail, f);
}

/// After settling, no non-empty tile sits above an empty cell in its column:
/// each column's tiles are contiguous at the bottom.
pub proof fn lemma_settle_gravity(g: Seq<Seq<Tile>>, h: nat)
    requires
        forall|x: int| 0 <= x < g.len() ==> (#[trigger] g[x]).len() == h,
    ensures
        forall|x: int| 0 <= x < g.len() ==> (#[trigger] settle_spec(g, h)[x]).len() == h,
        forall|x: int, y1: int, y2: int|
            0 <= x < g.len() && 0 <= y1 < y2 < h && tile_present(
                #[trigger] settle_spec(g, h)[x][y1],
            ) ==> tile_present(#[trigger] settle_spec(g, h)[x][y2]),
{
    let occ = occupied_pred();
    let keep = g.filter(occ);
    let res = settle_spec(g, h);
    lemma_filter_property(g, occ, |c: Seq<Tile>| c.len() == h);
    assert forall|x: int| 0 <= x < g.len() implies (#[trigger] res[x]).len() == h by {
        if x < keep.len() {
            lemma_settled_column_shape(keep[x]);
        }
    }
    assert forall|x: int, y1: int, y2: int|
        0 <= x < g.len() && 0 <= y1 < y2 < h && tile_present(
            #[trigger] res[x][y1],
        ) implies tile_present(#[trigger] res[x][y2]) by {
        if x < keep.len() {
            lemma_settled_column_shape(keep[x]);
        } else {
            assert(res[x][y1] == empty_tile());
        }
    }
}

/// After settling, the occupied columns are contiguous at the left: no fully
/// empty column lies left of an occupied one.
pub proof fn lemma_settle_left_compact(g: Seq<Seq<Tile>>, h: nat)
    requires
        forall|x: int| 0 <= x < g.len() ==> (#[trigger] g[x]).len() == h,
    ensures
        forall|x1: int, x2: int|
            0 <= x1 < x2 < g.len() && column_occupied(#[trigger] settle_spec(g, h)[x2])
                ==> column_occupied(#[trigger] settle_spec(g, h)[x1]),
{
    let occ = occupied_pred();
    let keep = g.filter(occ);
    let res = settle_spec(g, h);
    lemma_filter_property(g, occ, |c: Seq<Tile>| c.len() == h);
    assert forall|x1: int, x2: int|
        0 <= x1 < x2 < g.len() && column_occupied(#[trigger] res[x2]) implies column_occupied(
        #[trigger] res[x1],
    ) by {
        if x2 >= keep.len() {
            lemma_empty_column_blank(h);
        } else {
            g.lemma_filter_pred(occ, x1);
            lemma_settled_column_shape(keep[x1]);
            lemma_column_tiles_count(keep[x1]);
            assert(tile_present(settled_column(keep[x1])[keep[x1].len() - 1]));
        }
    }
}

/// After settling, a column holds a tile exactly when its bottom cell
/// does: reading occupancy off the bottom row is sound only because the
/// vertical pass has already run.
pub proof fn lemma_settle_bottom_row(g: Seq<Seq<Tile>>, h: nat)
    requires
        h > 0,
        forall|x: int| 0 <= x < g.len() ==> (#[trigger] g[x]).len() == h,
    ensures
        forall|x: int|
            0 <= x < g.len() ==> (column_occupied(#[trigger] settle_spec(g, h)[x])
                <==> tile_present(settle_spec(g, h)[x][h - 1])),
{
    let occ = occupied_pred();
    let keep = g.filter(occ);
    let res = settle_spec(g, h);
    lemma_filter_property(g, occ, |c: Seq<Tile>| c.len() == h);
    assert forall|x: int| 0 <= x < g.len() implies (column_occupied(#[trigger] res[x])
        <==> tile_present(res[x][h - 1])) by {
        if x < keep.len() {
            g.lemma_filter_pred(occ, x);
            lemma_settled_column_shape(keep[x]);
            lemma_column_tiles_count(keep[x]);
            assert(tile_present(settled_column(keep[x])[h - 1]));
        } else {
            lemma_empty_column_blank(h);
            assert(res[x][h - 1] == empty_tile());
        }
    }
}

/// Settling is idempotent: settling a settled grid changes nothing.
pub proof fn lemma_settle_idempotent(g: Seq<Seq<Tile>>, h: nat)
    requires
        forall|x: int| 0 <= x < g.len() ==> (#[trigger] g[x]).len() == h,
    ensures
        settle_spec(settle_spec(g, h), h) == settle_spec(g, h),
{
    let occ = occupied_pred();
    let keep = g.filter(occ);
    let res = settle_spec(g, h);
    lemma_filter_property(g, occ, |c: Seq<Tile>| c.len() == h);
    g.lemma_filter_len(occ);
    let head = Seq::new(keep.len(), |x: int| settled_column(keep[x]));
    let tail = Seq::new((g.len() - keep.len()) as nat, |x: int| empty_column(h));
    assert(res =~= head + tail);
    assert forall|x: int| 0 <= x < head.len() implies occ(#[trigger] head[x]) by {
        g.lemma_filter_pred(occ, x);
        lemma_settled_column_shape(keep[x]);
        lemma_column_tiles_count(keep[x]);
        lemma_column_tiles_count(settled_column(keep[x]));
    }
    assert forall|x: int| 0 <= x < tail.len() implies !occ(#[trigger] tail[x]) by {
        lemma_empty_column_blank(h);
    }
    Seq::filter_distributes_over_add(head, tail, occ);
    lemma_filter_all(head, occ);
    lemma_filter_none(tail, occ);
    assert(res.filter(occ) == head + Seq::<Seq<Tile>>::empty());
    assert(head + Seq::<Seq<Tile>>::empty() =~= head);
    assert forall|x: int| 0 <= x < head.len() implies settled_column(#[trigger] head[x])
        == head[x] by {
        lemma_settled_column_shape(keep[x]);
        let c = keep[x];
        let s = settled_column(c);
        assert(column_tiles(s) == column_tiles(c));
        assert(s.len() == c.len());
        assert(settled_column(s) =~= s);
    }
    assert(settle_spec(res, h) =~= res);
}

impl Grid {
    /// Settle this grid: tiles fall to the bottom of their columns, then the
    /// occupied columns close ranks to the left.
    pub fn settle(&mut self)
        requires
            old(self).wf(),
        ensures
            final(self).wf(),
            final(self).spec_width() == old(self).spec_width(),
            final(self).spec_height() == old(self).spec_height(),
            final(self)@ == settle_spec(old(self)@, old(self).spec_height() as nat),
    {
        let w = self.width();
        let h = self.height();
        let ghost gv = self@;
        proof {
            assert(gv.subrange(0, 0).filter(occupied_pred()) =~= Seq::<Seq<Tile>>::empty());
        }
        let mut keep: Vec<Vec<Tile>> = Vec::new();
        for x in 0..w
            invariant
                self.wf(),
                w == self.spec_width(),
                h == self.spec_height(),
                gv == self@,
                keep@.len() == gv.subrange(0, x as int).filter(occupied_pred()).len(),
                forall|i: int|
                    0 <= i < keep@.len() ==> (#[trigger] keep@[i])@ == settled_column(
                        gv.subrange(0, x as int).filter(occupied_pred())[i],
                    ),
        {
            let ghost col = gv[x as int];
            let mut tiles: Vec<Tile> = Vec::new();
            proof {
                assert(col.subrange(0, 0).filter(present_pred()) =~= Seq::<Tile>::empty());
            }
            for y in 0..h
                invariant
                    self.wf(),
                    w == self.spec_width(),
                    h == self.spec_height(),
                    gv == self@,
                    x < w,
                    col == gv[x as int],
                    tiles@ == col.subrange(0, y as int).filter(present_pred()),
            {
                let t = self.get(x, y);
                proof {
                    assert(col.subrange(0, y as int + 1) =~= col.subrange(0, y as int).push(
                        col[y as int],
                    ));
                    lemma_filter_push(col.subrange(0, y as int), present_pred(), col[y as int]);
                }
                if !t.empty {
                    tiles.push(t);
                }
            }
            proof {
                assert(col.subrange(0, h as int) =~= col);
                assert(tiles@ == column_tiles(col));
                lemma_column_tiles_count(col);
                assert(gv.subrange(0, x as int + 1) =~= gv.subrange(0, x as int).push(col));
                lemma_filter_push(gv.subrange(0, x as int), occupied_pred(), col);
            }
            if tiles.len() > 0 {
                let pad = h - (tiles.len() as u16);
                let mut newcol: Vec<Tile> = Vec::new();
                for i in 0..pad
                    invariant
                        newcol@.len() == i,
                        forall|j: int| 0 <= j < i ==> #[trigger] newcol@[j] == empty_tile(),
                {
                    newcol.push(Tile { kind: 0, empty: true });
                }
                let tn = tiles.len();
                for i in 0..tn
                    invariant
                        tn == tiles@.len(),
                        tn <= u16::MAX,
                        pad == h - tn,
                        newcol@.len() == pad + i,
                        forall|j: int| 0 <= j < pad ==> #[trigger] newcol@[j] == empty_tile(),
                        forall|j: int|
                            pad <= j < pad + i ==> #[trigger] newcol@[j] == tiles@[j - pad],
                {
                    newcol.push(tiles[i]);
                }
                proof {
                    assert(newcol@ =~= settled_column(col));
                    assert(column_occupied(col));
                }
                keep.push(newcol);
            } else {
                proof {
                    assert(!column_occupied(col));
                }
            }
        }
        proof {
            assert(gv.subrange(0, w as int) =~= gv);
            gv.lemma_filter_len(occupied_pred());
        }
        let kcount = keep.len();
        let mut cols = keep;
        while cols.len() < w as usize
            invariant
                kcount <= cols@.len() <= w,
                kcount == gv.filter(occupied_pred()).len(),
                forall|i: int|
                    0 <= i < kcount ==> (#[trigger] cols@[i])@ == settled_column(
                        gv.filter(occupied_pred())[i],
                    ),
                forall|i: int|
                    kcount <= i < cols@.len() ==> (#[trigger] cols@[i])@ == empty_column(h as nat),
            decreases w - cols.len(),
        {
            let mut newcol: Vec<Tile> = Vec::new();
            for i in 0..h
                invariant
                    newcol@.len() == i,
                    forall|j: int| 0 <= j < i ==> #[trigger] newcol@[j] == empty_tile(),
            {
                newcol.push(Tile { kind: 0, empty: true });
            }
            proof {
                assert(newcol@ =~= empty_column(h as nat));
            }
            cols.push(newcol);
        }
        proof {
            lemma_filter_property(gv, occupied_pred(), |c: Seq<Tile>| c.len() == h);
            assert forall|i: int| 0 <= i < cols@.len() implies (#[trigger] cols@[i])@.len()
                == h by {
                if i < kcount {
                    lemma_settled_column_shape(gv.filter(occupied_pred())[i]);
                }
            }
        }
        let ng = Grid::from_columns(w, h, cols);
        *self = ng;
        proof {
            assert(self@ =~= settle_spec(gv, h as nat));
        }
    }
}

} // verus!
