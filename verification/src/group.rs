//! The group finder: the maximal set of same-kind, non-empty tiles reachable
//! from a starting cell through 4-directional adjacency, found by an
//! iterative worklist traversal with a visited matrix.

use vstd::prelude::*;

use crate::count::{grid_count, lemma_grid_count_update, lemma_seq_count_update};
use crate::grid::{adjacent, Grid, Tile};

verus! {

/// The kind shown at `c`.
pub open spec fn kind_at(g: Seq<Seq<Tile>>, c: (int, int)) -> u8 {
    g[c.0][c.1].kind
}

/// The cell at `c` is in bounds, holds a tile, and shows kind `k`.
pub open spec fn match_cell(g: Seq<Seq<Tile>>, k: u8, c: (int, int)) -> bool {
    &&& 0 <= c.0 < g.len()
    &&& 0 <= c.1 < g[c.0].len()
    &&& !g[c.0][c.1].empty
    &&& g[c.0][c.1].kind == k
}

/// A walk of kind `k`: every cell matches `k` and consecutive cells are
/// adjacent.
pub open spec fn is_walk(g: Seq<Seq<Tile>>, k: u8, p: Seq<(int, int)>) -> bool {
    &&& p.len() > 0
    &&& forall|i: int| 0 <= i < p.len() ==> match_cell(g, k, #[trigger] p[i])
    &&& forall|i: int| 0 < i < p.len() ==> adjacent(p[i - 1], #[trigger] p[i])
}

/// `b` is reachable from `a` through non-empty tiles of `a`'s kind.
pub open spec fn connected(g: Seq<Seq<Tile>>, a: (int, int), b: (int, int)) -> bool {
    exists|p: Seq<(int, int)>|
        is_walk(g, kind_at(g, a), p) && p.first() == a && p.last() == b
}

/// The connected group through `a`: all cells reachable from `a`. Empty when
/// the cell at `a` is empty; otherwise it holds at least `a` itself.
pub open spec fn group_of(g: Seq<Seq<Tile>>, a: (int, int)) -> Set<(int, int)> {
    Set::new(|c: (int, int)| connected(g, a, c))
}

/// Both endpoints of a connection match the starting cell's kind.
pub proof fn lemma_connected_endpoints(g: Seq<Seq<Tile>>, a: (int, int), b: (int, int))
    requires
        connected(g, a, b),
    ensures
        match_cell(g, kind_at(g, a), a),
        match_cell(g, kind_at(g, a), b),
{
    let p = choose|p: Seq<(int, int)>|
        is_walk(g, kind_at(g, a), p) && p.first() == a && p.last() == b;
    assert(match_cell(g, kind_at(g, a), p[0]));
    assert(match_cell(g, kind_at(g, a), p[p.len() - 1]));
}

/// A matching cell is connected to itself.
pub proof fn lemma_connected_refl(g: Seq<Seq<Tile>>, a: (int, int))
    requires
        match_cell(g, kind_at(g, a), a),
    ensures
        connected(g, a, a),
{
    let p: Seq<(int, int)> = seq![a];
    assert(p.first() == a && p.last() == a);
    assert(is_walk(g, kind_at(g, a), p));
}

/// A connection extends by one adjacent matching cell.
pub proof fn lemma_connected_step(g: Seq<Seq<Tile>>, a: (int, int), b: (int, int), d: (int, int))
    requires
        connected(g, a, b),
        adjacent(b, d),
        match_cell(g, kind_at(g, a), d),
    ensures
        connected(g, a, d),
{
    let k = kind_at(g, a);
    let p = choose|p: Seq<(int, int)>| is_walk(g, k, p) && p.first() == a && p.last() == b;
    let q = p.push(d);
    assert(q.first() == a && q.last() == d);
    assert forall|i: int| 0 <= i < q.len() implies match_cell(g, k, #[trigger] q[i]) by {
        if i < p.len() {
            assert(q[i] == p[i]);
        }
    }
    assert forall|i: int| 0 < i < q.len() implies adjacent(q[i - 1], #[trigger] q[i]) by {
        if i < p.len() {
            assert(q[i - 1] == p[i - 1] && q[i] == p[i]);
        } else {
            assert(q[i - 1] == p[p.len() - 1] && q[i] == d);
        }
    }
    assert(is_walk(g, k, q));
}

/// Connection is symmetric.
pub proof fn lemma_connected_sym(g: Seq<Seq<Tile>>, a: (int, int), b: (int, int))
    requires
        connected(g, a, b),
    ensures
        connected(g, b, a),
{
    let k = kind_at(g, a);
    lemma_connected_endpoints(g, a, b);
    assert(kind_at(g, b) == k);
    let p = choose|p: Seq<(int, int)>| is_walk(g, k, p) && p.first() == a && p.last() == b;
    let n = p.len() as int;
    let q = Seq::new(p.len(), |i: int| p[n - 1 - i]);
    assert(q.first() == b && q.last() == a);
    assert forall|i: int| 0 <= i < q.len() implies match_cell(g, k, #[trigger] q[i]) by {
        assert(q[i] == p[n - 1 - i]);
    }
    assert forall|i: int| 0 < i < q.len() implies adjacent(q[i - 1], #[trigger] q[i]) by {
        assert(q[i - 1] == p[n - i] && q[i] == p[n - 1 - i]);
        assert(adjacent(p[(n - i) - 1], p[n - i]));
    }
    assert(is_walk(g, kind_at(g, b), q));
}

/// Connection is transitive.
pub proof fn lemma_connected_trans(g: Seq<Seq<Tile>>, a: (int, int), b: (int, int), c: (int, int))
    requires
        connected(g, a, b),
        connected(g, b, c),
    ensures
        connected(g, a, c),
{
    let k = kind_at(g, a);
    lemma_connected_endpoints(g, a, b);
    assert(kind_at(g, b) == k);
    let p1 = choose|p: Seq<(int, int)>| is_walk(g, k, p) && p.first() == a && p.last() == b;
    let p2 = choose|p: Seq<(int, int)>| is_walk(g, k, p) && p.first() == b && p.last() == c;
    if p2.len() == 1 {
        assert(b == c);
    } else {
        let n1 = p1.len() as int;
        let q = p1 + p2.subrange(1, p2.len() as int);
        assert(q.len() == n1 + p2.len() - 1);
        assert(q.first() == a);
        assert(q.last() == p2[p2.len() - 1]);
        assert forall|i: int| 0 <= i < q.len() implies match_cell(g, k, #[trigger] q[i]) by {
            if i < n1 {
                assert(q[i] == p1[i]);
            } else {
                assert(q[i] == p2[i - n1 + 1]);
            }
        }
        assert forall|i: int| 0 < i < q.len() implies adjacent(q[i - 1], #[trigger] q[i]) by {
            if i < n1 {
                assert(q[i - 1] == p1[i - 1] && q[i] == p1[i]);
            } else if i == n1 {
                assert(q[i - 1] == p1[n1 - 1] && q[i] == p2[1]);
                assert(adjacent(p2[0], p2[1]));
            } else {
                assert(q[i - 1] == p2[i - n1] && q[i] == p2[i - n1 + 1]);
                assert(adjacent(p2[(i - n1 + 1) - 1], p2[i - n1 + 1]));
            }
        }
        assert(is_walk(g, k, q));
    }
}

/// Group membership does not depend on where the traversal starts: any
/// member of a group sees exactly the same group.
pub proof fn lemma_group_start_independent(g: Seq<Seq<Tile>>, a: (int, int), b: (int, int))
    requires
        group_of(g, a).contains(b),
    ensures
        group_of(g, b) == group_of(g, a),
{
    assert(connected(g, a, b));
    assert forall|c: (int, int)| group_of(g, a).contains(c) implies group_of(g, b).contains(
        c,
    ) by {
        lemma_connected_sym(g, a, b);
        lemma_connected_trans(g, b, a, c);
    }
    assert forall|c: (int, int)| group_of(g, b).contains(c) implies group_of(g, a).contains(
        c,
    ) by {
        lemma_connected_trans(g, a, b, c);
    }
    assert(group_of(g, b) =~= group_of(g, a));
}

/// A set of cells with no matching neighbors outside it.
pub open spec fn closed_under_adjacency(g: Seq<Seq<Tile>>, k: u8, vis: Set<(int, int)>) -> bool {
    forall|c: (int, int), d: (int, int)|
        #![trigger vis.contains(c), adjacent(c, d)]
        vis.contains(c) && adjacent(c, d) && match_cell(g, k, d) ==> vis.contains(d)
}

/// A closed set holding the first cell of a walk holds its last.
proof fn lemma_closed_covers_walk(g: Seq<Seq<Tile>>, k: u8, vis: Set<(int, int)>, p: Seq<(int, int)>)
    requires
        is_walk(g, k, p),
        vis.contains(p.first()),
        closed_under_adjacency(g, k, vis),
    ensures
        vis.contains(p.last()),
    decreases p.len(),
{
    if p.len() > 1 {
        assert(adjacent(p[0], p[1]));
        assert(match_cell(g, k, p[1]));
        assert(vis.contains(p[1]));
        let q = p.subrange(1, p.len() as int);
        assert forall|i: int| 0 <= i < q.len() implies match_cell(g, k, #[trigger] q[i]) by {
            assert(q[i] == p[i + 1]);
        }
        assert forall|i: int| 0 < i < q.len() implies adjacent(q[i - 1], #[trigger] q[i]) by {
            assert(q[i - 1] == p[i] && q[i] == p[i + 1]);
        }
        assert(is_walk(g, k, q));
        lemma_closed_covers_walk(g, k, vis, q);
        assert(q.last() == p.last());
    }
}

/// The cell at `c` of the visited matrix is marked.
pub open spec fn vmark(vs: Seq<Vec<bool>>, c: (int, int)) -> bool {
    vs[c.0]@[c.1]
}

/// The visited matrix as a sequence of columns of flags.
pub open spec fn flag_grid(vs: Seq<Vec<bool>>) -> Seq<Seq<bool>> {
    vs.map_values(|v: Vec<bool>| v@)
}

/// The flag is still clear.
pub open spec fn clear_pred() -> spec_fn(bool) -> bool {
    |b: bool| !b
}

/// All marked in-bounds cells of a `w x h` visited matrix.
pub open spec fn marked_set(vs: Seq<Vec<bool>>, w: int, h: int) -> Set<(int, int)> {
    Set::new(|c: (int, int)| 0 <= c.0 < w && 0 <= c.1 < h && vmark(vs, c))
}

/// The coordinates listed in `s`, as a set of integer pairs.
pub open spec fn coords_of(s: Seq<(u16, u16)>) -> Set<(int, int)> {
    s.map_values(|c: (u16, u16)| (c.0 as int, c.1 as int)).to_set()
}

/// Some entry of `s` holds the coordinate `c`.
pub open spec fn stack_has(s: Seq<(u16, u16)>, c: (int, int)) -> bool {
    exists|i: int| 0 <= i < s.len() && (#[trigger] s[i]).0 == c.0 && s[i].1 == c.1
}

/// Appending a coordinate inserts it into the listed set.
pub proof fn lemma_coords_push(s: Seq<(u16, u16)>, v: (u16, u16))
    ensures
        coords_of(s.push(v)) == coords_of(s).insert((v.0 as int, v.1 as int)),
{
    let f = |c: (u16, u16)| (c.0 as int, c.1 as int);
    let m1 = s.push(v).map_values(f);
    let m0 = s.map_values(f);
    assert(m1 =~= m0.push((v.0 as int, v.1 as int)));
    assert forall|e: (int, int)| m1.to_set().contains(e) implies coords_of(s).insert(
        (v.0 as int, v.1 as int),
    ).contains(e) by {
        let i = choose|i: int| 0 <= i < m1.len() && m1[i] == e;
        if i < m0.len() {
            assert(m0[i] == e);
        }
    }
    assert forall|e: (int, int)| coords_of(s).insert((v.0 as int, v.1 as int)).contains(
        e,
    ) implies m1.to_set().contains(e) by {
        if coords_of(s).contains(e) {
            let i = choose|i: int| 0 <= i < m0.len() && m0[i] == e;
            assert(m1[i] == e);
        } else {
            assert(m1[m0.len() as int] == e);
        }
    }
    assert(coords_of(s.push(v)) =~= coords_of(s).insert((v.0 as int, v.1 as int)));
}

/// Distinct coordinates list a set as large as themselves.
pub proof fn lemma_coords_len(s: Seq<(u16, u16)>)
    requires
        s.no_duplicates(),
    ensures
        coords_of(s).finite(),
        coords_of(s).len() == s.len(),
{
    let f = |c: (u16, u16)| (c.0 as int, c.1 as int);
    let m = s.map_values(f);
    assert forall|i: int, j: int| 0 <= i < m.len() && 0 <= j < m.len() && i != j implies m[i]
        != m[j] by {
        assert(m[i] == f(s[i]) && m[j] == f(s[j]));
        assert(s[i] != s[j]);
    }
    assert(m.no_duplicates());
    m.unique_seq_to_set();
}

/// Mark one cell of the visited matrix.
fn mark_cell(visited: &mut Vec<Vec<bool>>, x: u16, y: u16)
    requires
        (x as int) < old(visited)@.len(),
        (y as int) < old(visited)@[x as int]@.len(),
        !vmark(old(visited)@, (x as int, y as int)),
    ensures
        final(visited)@.len() == old(visited)@.len(),
        forall|i: int|
            0 <= i < old(visited)@.len() ==> (#[trigger] final(visited)@[i])@.len() == old(
                visited,
            )@[i]@.len(),
        forall|c: (int, int)|
            0 <= c.0 < old(visited)@.len() && 0 <= c.1 < old(visited)@[c.0]@.len()
                ==> (vmark(final(visited)@, c) <==> (c == (x as int, y as int) || vmark(
                old(visited)@,
                c,
            ))),
        grid_count(flag_grid(final(visited)@), clear_pred()) == grid_count(
            flag_grid(old(visited)@),
            clear_pred(),
        ) - 1,
{
    let ghost old_vs = visited@;
    let col: &mut Vec<bool> = &mut visited[x as usize];
    col.set(y as usize, true);
    proof {
        let newcol = old_vs[x as int]@.update(y as int, true);
        assert(visited@[x as int]@ =~= newcol);
        assert(flag_grid(visited@) =~= flag_grid(old_vs).update(x as int, newcol));
        lemma_grid_count_update(flag_grid(old_vs), clear_pred(), x as int, newcol);
        lemma_seq_count_update(old_vs[x as int]@, clear_pred(), y as int, true);
        assert forall|c: (int, int)|
            0 <= c.0 < old_vs.len() && 0 <= c.1 < old_vs[c.0]@.len() implies (vmark(visited@, c)
            <==> (c == (x as int, y as int) || vmark(old_vs, c))) by {
            if c.0 == x as int {
                assert(visited@[c.0]@ == newcol);
            } else {
                assert(visited@[c.0] == old_vs[c.0]);
            }
        }
    }
}

/// Read one cell of the visited matrix.
fn read_mark(visited: &Vec<Vec<bool>>, x: u16, y: u16) -> (r: bool)
    requires
        (x as int) < visited@.len(),
        (y as int) < visited@[x as int]@.len(),
    ensures
        r == vmark(visited@, (x as int, y as int)),
{
    visited[x as usize][y as usize]
}

impl Grid {
    /// The connected group through `(x, y)`: every cell reachable from it
    /// over adjacent, non-empty tiles of the same kind, each cell listed
    /// once. An empty starting cell yields no group at all.
    #[verifier::rlimit(100)]
    pub fn connected_group(&self, x: u16, y: u16) -> (res: Vec<(u16, u16)>)
        requires
            self.wf(),
            self.spec_in_bounds(x as int, y as int),
        ensures
            res@.no_duplicates(),
            coords_of(res@) == group_of(self@, (x as int, y as int)),
            group_of(self@, (x as int, y as int)).finite(),
            group_of(self@, (x as int, y as int)).len() == res@.len(),
            forall|i: int|
                0 <= i < res@.len() ==> match_cell(
                    self@,
                    kind_at(self@, (x as int, y as int)),
                    ((#[trigger] res@[i]).0 as int, res@[i].1 as int),
                ),
    {
        let ghost gv = self@;
        let ghost start = (x as int, y as int);
        let t = self.get(x, y);
        if t.empty {
            let res: Vec<(u16, u16)> = Vec::new();
            proof {
                assert forall|c: (int, int)| !group_of(gv, start).contains(c) by {
                    if connected(gv, start, c) {
                        lemma_connected_endpoints(gv, start, c);
                    }
                }
                assert(group_of(gv, start) =~= Set::<(int, int)>::empty());
                assert forall|e: (int, int)| !coords_of(res@).contains(e) by {
                    if coords_of(res@).contains(e) {
                        let f = |c: (u16, u16)| (c.0 as int, c.1 as int);
                        let i = choose|i: int|
                            0 <= i < res@.map_values(f).len() && res@.map_values(f)[i] == e;
                    }
                }
                assert(coords_of(res@) =~= Set::<(int, int)>::empty());
            }
            return res;
        }
        let k = t.kind;
        let w = self.width();
        let h = self.height();
        let mut visited: Vec<Vec<bool>> = Vec::new();
        for i in 0..w
            invariant
                visited@.len() == i,
                forall|a: int| 0 <= a < i ==> (#[trigger] visited@[a])@.len() == h,
                forall|a: int, b: int|
                    0 <= a < i && 0 <= b < h ==> !#[trigger] (visited@[a])@[b],
        {
            let mut col: Vec<bool> = Vec::new();
            for j in 0..h
                invariant
                    col@.len() == j,
                    forall|b: int| 0 <= b < j ==> !(#[trigger] col@[b]),
            {
                col.push(false);
            }
            visited.push(col);
        }
        let mut res: Vec<(u16, u16)> = Vec::new();
        let mut stack: Vec<(u16, u16)> = Vec::new();
        proof {
            lemma_connected_refl(gv, start);
            assert forall|e: (int, int)| !coords_of(res@).contains(e) by {
                if coords_of(res@).contains(e) {
                    let f = |c: (u16, u16)| (c.0 as int, c.1 as int);
                    let i = choose|i: int|
                        0 <= i < res@.map_values(f).len() && res@.map_values(f)[i] == e;
                }
            }
            assert(coords_of(res@) =~= Set::<(int, int)>::empty());
            lemma_coords_push(res@, (x, y));
        }
        mark_cell(&mut visited, x, y);
        res.push((x, y));
        stack.push((x, y));
        proof {
            assert(marked_set(visited@, w as int, h as int) =~= Set::<(int, int)>::empty().insert(
                start,
            ));
        }
        while stack.len() > 0
            invariant
                self.wf(),
                w == self.spec_width(),
                h == self.spec_height(),
                gv == self@,
                start == (x as int, y as int),
                self.spec_in_bounds(x as int, y as int),
                k == kind_at(gv, start),
                match_cell(gv, k, start),
                visited@.len() == w,
                forall|a: int| 0 <= a < w ==> (#[trigger] visited@[a])@.len() == h,
                res@.no_duplicates(),
                coords_of(res@) == marked_set(visited@, w as int, h as int),
                marked_set(visited@, w as int, h as int).contains(start),
                forall|c: (int, int)|
                    #[trigger] marked_set(visited@, w as int, h as int).contains(c) ==> connected(
                        gv,
                        start,
                        c,
                    ),
                forall|i: int|
                    0 <= i < stack@.len() ==> marked_set(visited@, w as int, h as int).contains(
                        ((#[trigger] stack@[i]).0 as int, stack@[i].1 as int),
                    ),
                forall|c: (int, int), d: (int, int)|
                    #![trigger marked_set(visited@, w as int, h as int).contains(c), adjacent(c, d)]
                    marked_set(visited@, w as int, h as int).contains(c) && adjacent(c, d)
                        && match_cell(gv, k, d) && !stack_has(stack@, c) ==> marked_set(
                        visited@,
                        w as int,
                        h as int,
                    ).contains(d),
            decreases
                    grid_count(flag_grid(visited@), clear_pred()),
                    stack@.len(),
        {
            let ghost pre_stack = stack@;
            let c = stack.pop().unwrap();
            let ghost ci = (c.0 as int, c.1 as int);
            proof {
                assert(pre_stack[pre_stack.len() - 1] == c);
                assert(marked_set(visited@, w as int, h as int).contains(ci));
                assert forall|c2: (int, int), d: (int, int)|
                    #![trigger marked_set(visited@, w as int, h as int).contains(c2), adjacent(c2, d)]
                    marked_set(visited@, w as int, h as int).contains(c2) && adjacent(c2, d)
                        && match_cell(gv, k, d) && !stack_has(stack@, c2) && c2
                        != ci implies marked_set(visited@, w as int, h as int).contains(d) by {
                    if stack_has(pre_stack, c2) {
                        let i = choose|i: int|
                            0 <= i < pre_stack.len() && (#[trigger] pre_stack[i]).0 == c2.0
                                && pre_stack[i].1 == c2.1;
                        if i < pre_stack.len() - 1 {
                            assert(stack@[i] == pre_stack[i]);
                        }
                    }
                }
            }
            let nbrs = self.neighbors(c.0, c.1);
            let nn = nbrs.len();
            let ghost mid_count = grid_count(flag_grid(visited@), clear_pred());
            let ghost mid_stack_len = stack@.len();
            for j in 0..nn
                invariant
                    self.wf(),
                    w == self.spec_width(),
                    h == self.spec_height(),
                    gv == self@,
                    start == (x as int, y as int),
                    self.spec_in_bounds(x as int, y as int),
                    k == kind_at(gv, start),
                    match_cell(gv, k, start),
                    visited@.len() == w,
                    forall|a: int| 0 <= a < w ==> (#[trigger] visited@[a])@.len() == h,
                    res@.no_duplicates(),
                    coords_of(res@) == marked_set(visited@, w as int, h as int),
                    marked_set(visited@, w as int, h as int).contains(start),
                    marked_set(visited@, w as int, h as int).contains(ci),
                    forall|c2: (int, int)|
                        #[trigger] marked_set(visited@, w as int, h as int).contains(c2)
                            ==> connected(gv, start, c2),
                    forall|i: int|
                        0 <= i < stack@.len() ==> marked_set(visited@, w as int, h as int).contains(
                            ((#[trigger] stack@[i]).0 as int, stack@[i].1 as int),
                        ),
                    nn == nbrs@.len(),
                    forall|i: int|
                        0 <= i < nbrs@.len() ==> self.spec_in_bounds(
                            (#[trigger] nbrs@[i]).0 as int,
                            nbrs@[i].1 as int,
                        ) && adjacent(ci, (nbrs@[i].0 as int, nbrs@[i].1 as int)),
                    forall|d: (int, int)|
                        self.spec_in_bounds(d.0, d.1) && adjacent(ci, d) ==> exists|i: int|
                            0 <= i < nbrs@.len() && (#[trigger] nbrs@[i]).0 == d.0 && nbrs@[i].1
                                == d.1,
                    forall|i: int|
                        0 <= i < j && match_cell(
                            gv,
                            k,
                            ((#[trigger] nbrs@[i]).0 as int, nbrs@[i].1 as int),
                        ) ==> marked_set(visited@, w as int, h as int).contains(
                            (nbrs@[i].0 as int, nbrs@[i].1 as int),
                        ),
                    forall|c2: (int, int), d: (int, int)|
                        #![trigger marked_set(visited@, w as int, h as int).contains(c2), adjacent(c2, d)]
                        marked_set(visited@, w as int, h as int).contains(c2) && adjacent(c2, d)
                            && match_cell(gv, k, d) && !stack_has(stack@, c2) && c2 != ci
                            ==> marked_set(visited@, w as int, h as int).contains(d),
                    grid_count(flag_grid(visited@), clear_pred()) <= mid_count,
                    grid_count(flag_grid(visited@), clear_pred()) == mid_count ==> stack@.len()
                        == mid_stack_len,
            {
                let (nx, ny) = nbrs[j];
                let ghost di = (nx as int, ny as int);
                let seen = read_mark(&visited, nx, ny);
                if !seen {
                    let nt = self.get(nx, ny);
                    if !nt.empty && nt.kind == k {
                        proof {
                            lemma_coords_push(res@, (nx, ny));
                            lemma_connected_step(gv, start, ci, di);
                            assert(!marked_set(visited@, w as int, h as int).contains(di));
                            assert(!coords_of(res@).contains(di));
                            assert forall|i: int| 0 <= i < res@.len() implies res@[i] != (
                            nx,
                            ny,
                            ) by {
                                if res@[i] == (nx, ny) {
                                    let f = |cc: (u16, u16)| (cc.0 as int, cc.1 as int);
                                    assert(res@.map_values(f)[i] == di);
                                    assert(res@.map_values(f).to_set().contains(di));
                                }
                            }
                        }
                        let ghost pre_vs = visited@;
                        mark_cell(&mut visited, nx, ny);
                        res.push((nx, ny));
                        let ghost stack_pre = stack@;
                        stack.push((nx, ny));
                        proof {
                            assert(marked_set(visited@, w as int, h as int) =~= marked_set(
                                pre_vs,
                                w as int,
                                h as int,
                            ).insert(di));
                            assert(stack@[stack@.len() - 1] == (nx, ny));
                            assert(stack_has(stack@, di));
                            assert forall|i: int| 0 <= i < stack@.len() implies marked_set(
                                visited@,
                                w as int,
                                h as int,
                            ).contains(((#[trigger] stack@[i]).0 as int, stack@[i].1 as int)) by {
                                if i < stack@.len() - 1 {
                                    assert(stack@[i] == stack_pre[i]);
                                }
                            }
                            assert forall|c2: (int, int), d: (int, int)|
                                #![trigger marked_set(visited@, w as int, h as int).contains(c2), adjacent(c2, d)]
                                marked_set(visited@, w as int, h as int).contains(c2) && adjacent(
                                    c2,
                                    d,
                                ) && match_cell(gv, k, d) && !stack_has(stack@, c2) && c2
                                != ci implies marked_set(visited@, w as int, h as int).contains(
                                d,
                            ) by {
                                if c2 == di {
                                    assert(stack_has(stack@, c2));
                                }
                                assert(marked_set(pre_vs, w as int, h as int).contains(c2));
                                if stack_has(stack_pre, c2) {
                                    let i = choose|i: int|
                                        0 <= i < stack_pre.len() && (#[trigger] stack_pre[i]).0
                                            == c2.0 && stack_pre[i].1 == c2.1;
                                    assert(stack@[i] == stack_pre[i]);
                                }
                                assert(marked_set(pre_vs, w as int, h as int).contains(d));
                            }
                        }
                    }
                }
            }
            proof {
                assert forall|c2: (int, int), d: (int, int)|
                    marked_set(visited@, w as int, h as int).contains(c2) && adjacent(c2, d)
                        && match_cell(gv, k, d) && !stack_has(stack@, c2) implies marked_set(
                    visited@,
                    w as int,
                    h as int,
                ).contains(d) by {
                    if c2 == ci {
                        let i = choose|i: int|
                            0 <= i < nbrs@.len() && (#[trigger] nbrs@[i]).0 == d.0 && nbrs@[i].1
                                == d.1;
                        assert(match_cell(gv, k, (nbrs@[i].0 as int, nbrs@[i].1 as int)));
                    }
                }
            }
        }
        proof {
            let vis = marked_set(visited@, w as int, h as int);
            assert forall|c: (int, int)| group_of(gv, start).contains(c) implies vis.contains(
                c,
            ) by {
                assert(connected(gv, start, c));
                let p = choose|p: Seq<(int, int)>|
                    is_walk(gv, kind_at(gv, start), p) && p.first() == start && p.last() == c;
                assert(closed_under_adjacency(gv, k, vis)) by {
                    assert forall|c2: (int, int), d: (int, int)|
                        #![trigger vis.contains(c2), adjacent(c2, d)]
                        vis.contains(c2) && adjacent(c2, d) && match_cell(gv, k, d) implies
                        vis.contains(d) by {
                        assert(!stack_has(stack@, c2));
                    }
                }
                lemma_closed_covers_walk(gv, k, vis, p);
            }
            assert forall|c: (int, int)| vis.contains(c) implies group_of(gv, start).contains(
                c,
            ) by {
                assert(connected(gv, start, c));
            }
            assert(coords_of(res@) =~= group_of(gv, start));
            lemma_coords_len(res@);
            assert forall|i: int| 0 <= i < res@.len() implies match_cell(
                gv,
                k,
                ((#[trigger] res@[i]).0 as int, res@[i].1 as int),
            ) by {
                let f = |cc: (u16, u16)| (cc.0 as int, cc.1 as int);
                let e = (res@[i].0 as int, res@[i].1 as int);
                assert(res@.map_values(f)[i] == e);
                assert(res@.map_values(f).to_set().contains(e));
                assert(group_of(gv, start).contains(e));
                lemma_connected_endpoints(gv, start, e);
            }
        }
        res
    }
}


/// The tile at `c` could be removed: it is non-empty and some adjacent tile
/// shows the same kind.
pub open spec fn removable_at(g: Seq<Seq<Tile>>, c: (int, int)) -> bool {
    &&& match_cell(g, kind_at(g, c), c)
    &&& exists|d: (int, int)| #[trigger] adjacent(c, d) && match_cell(g, kind_at(g, c), d)
}

/// No move is left: no two adjacent non-empty tiles share a kind.
pub open spec fn is_gameover_spec(g: Seq<Seq<Tile>>) -> bool {
    forall|c: (int, int)| !#[trigger] removable_at(g, c)
}

/// A tile is removable exactly when its group reaches beyond itself.
pub proof fn lemma_removable_iff_group(g: Seq<Seq<Tile>>, c: (int, int))
    ensures
        removable_at(g, c) <==> exists|d: (int, int)|
            d != c && #[trigger] group_of(g, c).contains(d),
{
    if removable_at(g, c) {
        let d = choose|d: (int, int)| #[trigger] adjacent(c, d) && match_cell(g, kind_at(g, c), d);
        lemma_connected_refl(g, c);
        lemma_connected_step(g, c, c, d);
        assert(d != c);
        assert(group_of(g, c).contains(d));
    }
    if exists|d: (int, int)| d != c && #[trigger] group_of(g, c).contains(d) {
        let d = choose|d: (int, int)| d != c && #[trigger] group_of(g, c).contains(d);
        assert(connected(g, c, d));
        let p = choose|p: Seq<(int, int)>|
            is_walk(g, kind_at(g, c), p) && p.first() == c && p.last() == d;
        lemma_connected_endpoints(g, c, d);
        assert(p.len() > 1);
        assert(adjacent(p[0], p[1]));
        assert(match_cell(g, kind_at(g, c), p[1]));
        assert(adjacent(c, p[1]));
    }
}

/// No move is left exactly when every group is a single tile: the
/// adjacent-pair scan and the group-size test agree on every grid.
pub proof fn lemma_gameover_iff_groups_trivial(g: Seq<Seq<Tile>>)
    ensures
        is_gameover_spec(g) <==> (forall|c: (int, int), d: (int, int)|
            #[trigger] group_of(g, c).contains(d) ==> d == c),
{
    if is_gameover_spec(g) {
        assert forall|c: (int, int), d: (int, int)| #[trigger] group_of(g, c).contains(
            d,
        ) implies d == c by {
            lemma_removable_iff_group(g, c);
            if d != c {
                assert(removable_at(g, c));
            }
        }
    }
    if forall|c: (int, int), d: (int, int)| #[trigger] group_of(g, c).contains(d) ==> d == c {
        assert forall|c: (int, int)| !#[trigger] removable_at(g, c) by {
            lemma_removable_iff_group(g, c);
            if removable_at(g, c) {
                let d = choose|d: (int, int)| d != c && #[trigger] group_of(g, c).contains(d);
            }
        }
    }
}

impl Grid {
    /// Does the tile at `(x, y)` have an in-bounds neighbor of its own kind?
    fn has_matching_neighbor(&self, x: u16, y: u16) -> (r: bool)
        requires
            self.wf(),
            self.spec_in_bounds(x as int, y as int),
        ensures
            r == removable_at(self@, (x as int, y as int)),
    {
        let ghost gv = self@;
        let ghost ci = (x as int, y as int);
        let t = self.get(x, y);
        if t.empty {
            return false;
        }
        let k = t.kind;
        if x > 0 {
            let u = self.get(x - 1, y);
            if !u.empty && u.kind == k {
                proof {
                    assert(adjacent(ci, (x as int - 1, y as int)));
                    assert(match_cell(gv, kind_at(gv, ci), (x as int - 1, y as int)));
                }
                return true;
            }
        }
        let w = self.width();
        let h = self.height();
        if x < w - 1 {
            let u = self.get(x + 1, y);
            if !u.empty && u.kind == k {
                proof {
                    assert(adjacent(ci, (x as int + 1, y as int)));
                    assert(match_cell(gv, kind_at(gv, ci), (x as int + 1, y as int)));
                }
                return true;
            }
        }
        if y > 0 {
            let u = self.get(x, y - 1);
            if !u.empty && u.kind == k {
                proof {
                    assert(adjacent(ci, (x as int, y as int - 1)));
                    assert(match_cell(gv, kind_at(gv, ci), (x as int, y as int - 1)));
                }
                return true;
            }
        }
        if y < h - 1 {
            let u = self.get(x, y + 1);
            if !u.empty && u.kind == k {
                proof {
                    assert(adjacent(ci, (x as int, y as int + 1)));
                    assert(match_cell(gv, kind_at(gv, ci), (x as int, y as int + 1)));
                }
                return true;
            }
        }
        proof {
            if removable_at(gv, ci) {
                let d = choose|d: (int, int)| #[trigger] adjacent(ci, d) && match_cell(
                    gv,
                    kind_at(gv, ci),
                    d,
                );
                assert(false);
            }
        }
        false
    }

    /// The game is over when no tile anywhere has an adjacent same-kind
    /// tile. Scans the whole grid; never caches across mutations.
    pub fn is_gameover(&self) -> (r: bool)
        requires
            self.wf(),
        ensures
            r == is_gameover_spec(self@),
    {
        let ghost gv = self@;
        let w = self.width();
        let h = self.height();
        for x in 0..w
            invariant
                self.wf(),
                gv == self@,
                w == self.spec_width(),
                h == self.spec_height(),
                forall|c: (int, int)| c.0 < x ==> !#[trigger] removable_at(gv, c),
        {
            for y in 0..h
                invariant
                    self.wf(),
                    gv == self@,
                    w == self.spec_width(),
                    h == self.spec_height(),
                    x < w,
                    forall|c: (int, int)|
                        c.0 < x || (c.0 == x && c.1 < y) ==> !#[trigger] removable_at(gv, c),
            {
                if self.has_matching_neighbor(x, y) {
                    proof {
                        assert(removable_at(gv, (x as int, y as int)));
                    }
                    return false;
                }
            }
        }
        proof {
            assert forall|c: (int, int)| !#[trigger] removable_at(gv, c) by {
                if removable_at(gv, c) {
                    assert(0 <= c.0 < w);
                }
            }
        }
        true
    }
}

} // verus!
