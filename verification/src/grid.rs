//! The playing field: a fixed `width x height` matrix of tiles, stored as a
//! vector of columns, addressed by `(x, y)` with `y == 0` the top row.

use vstd::prelude::*;

verus! {

/// One cell of the playing field: a color kind and an emptiness flag.
/// Empty tiles carry no visible kind and take no part in grouping.
#[derive(Clone, Copy, PartialEq, Eq, Structural, Debug)]
pub struct Tile {
    pub kind: u8,
    pub empty: bool,
}

/// The canonical empty tile: every vacated cell is written back as this value.
pub open spec fn empty_tile() -> Tile {
    Tile { kind: 0, empty: true }
}

impl Tile {
    /// A tile showing the given kind.
    pub fn filled(kind: u8) -> (t: Tile)
        ensures
            t == (Tile { kind, empty: false }),
    {
        Tile { kind, empty: false }
    }

    /// The canonical empty tile.
    pub fn vacant() -> (t: Tile)
        ensures
            t == empty_tile(),
    {
        Tile { kind: 0, empty: true }
    }
}

/// The grid of tiles. Dimensions are fixed at creation.
pub struct Grid {
    width: u16,
    height: u16,
    cells: Vec<Vec<Tile>>,
}

impl View for Grid {
    type V = Seq<Seq<Tile>>;

    /// A grid is abstractly a sequence of columns, each a sequence of tiles
    /// from top (`y == 0`) to bottom (`y == height - 1`).
    closed spec fn view(&self) -> Seq<Seq<Tile>> {
        self.cells@.map_values(|c: Vec<Tile>| c@)
    }
}

impl Grid {
    proof fn lemma_view_layout(&self)
        ensures
            self@.len() == self.cells@.len(),
            forall|i: int| 0 <= i < self@.len() ==> #[trigger] self@[i] == self.cells@[i]@,
    {
    }

    pub closed spec fn spec_width(&self) -> int {
        self.width as int
    }

    /// Dimensions always fit the coordinate type.
    pub proof fn lemma_dims_bounded(&self)
        ensures
            0 <= self.spec_width() <= u16::MAX,
            0 <= self.spec_height() <= u16::MAX,
    {
    }

    pub closed spec fn spec_height(&self) -> int {
        self.height as int
    }

    /// Every coordinate pair maps to exactly one tile: there are `width`
    /// columns of `height` tiles each.
    pub open spec fn wf(&self) -> bool {
        &&& self@.len() == self.spec_width()
        &&& forall|x: int| 0 <= x < self@.len() ==> (#[trigger] self@[x]).len() == self.spec_height()
    }

    /// `(x, y)` addresses a tile of this grid.
    pub open spec fn spec_in_bounds(&self, x: int, y: int) -> bool {
        0 <= x < self.spec_width() && 0 <= y < self.spec_height()
    }

    /// A fresh grid with every cell empty. Tiles are placed afterwards,
    /// either one by one or by a random refill.
    pub fn new(width: u16, height: u16) -> (g: Grid)
        requires
            width > 0,
            height > 0,
        ensures
            g.wf(),
            g.spec_width() == width,
            g.spec_height() == height,
            forall|x: int, y: int| g.spec_in_bounds(x, y) ==> g@[x][y] == empty_tile(),
    {
        let mut cells: Vec<Vec<Tile>> = Vec::new();
        for x in 0..width
            invariant
                cells@.len() == x,
                forall|i: int| 0 <= i < x ==> (#[trigger] cells@[i])@.len() == height,
                forall|i: int, j: int|
                    0 <= i < x && 0 <= j < height ==> #[trigger] (cells@[i])@[j] == empty_tile(),
        {
            let mut col: Vec<Tile> = Vec::new();
            for y in 0..height
                invariant
                    col@.len() == y,
                    forall|j: int| 0 <= j < y ==> #[trigger] col@[j] == empty_tile(),
            {
                col.push(Tile { kind: 0, empty: true });
            }
            cells.push(col);
        }
        let g = Grid { width, height, cells };
        assert(g@.len() == width);
        assert(forall|x: int| 0 <= x < width ==> (#[trigger] g@[x]).len() == height);
        g
    }

    /// The number of columns.
    pub fn width(&self) -> (w: u16)
        ensures
            w == self.spec_width(),
    {
        self.width
    }

    /// The number of rows.
    pub fn height(&self) -> (h: u16)
        ensures
            h == self.spec_height(),
    {
        self.height
    }

    /// Bounds-checked read of the tile at `(x, y)`.
    pub fn get(&self, x: u16, y: u16) -> (t: Tile)
        requires
            self.wf(),
            self.spec_in_bounds(x as int, y as int),
        ensures
            t == self@[x as int][y as int],
    {
        proof {
            self.lemma_view_layout();
            assert(self.cells@.len() == self.spec_width());
            assert(self.cells@[x as int]@ == self@[x as int]);
            assert(self.cells@[x as int]@.len() == self.spec_height());
        }
        self.cells[x as usize][y as usize]
    }

    /// Bounds-checked write of the tile at `(x, y)`.
    pub fn set(&mut self, x: u16, y: u16, t: Tile)
        requires
            old(self).wf(),
            old(self).spec_in_bounds(x as int, y as int),
        ensures
            final(self).wf(),
            final(self).spec_width() == old(self).spec_width(),
            final(self).spec_height() == old(self).spec_height(),
            final(self)@ == old(self)@.update(x as int, old(self)@[x as int].update(y as int, t)),
    {
        proof {
            self.lemma_view_layout();
            assert(self.cells@.len() == self.spec_width());
            assert(self.cells@[x as int]@ == self@[x as int]);
            assert(self.cells@[x as int]@.len() == self.spec_height());
        }
        let col: &mut Vec<Tile> = &mut self.cells[x as usize];
        col.set(y as usize, t);
        assert(self@ =~= old(self)@.update(x as int, old(self)@[x as int].update(y as int, t)));
    }

    /// An exact copy of this grid, for snapshots handed to the outside.
    pub fn duplicate(&self) -> (g: Grid)
        requires
            self.wf(),
        ensures
            g.wf(),
            g.spec_width() == self.spec_width(),
            g.spec_height() == self.spec_height(),
            g@ == self@,
    {
        let mut cells: Vec<Vec<Tile>> = Vec::new();
        let w = self.width;
        let h = self.height;
        for x in 0..w
            invariant
                self.wf(),
                w == self.spec_width(),
                h == self.spec_height(),
                cells@.len() == x,
                forall|i: int| 0 <= i < x ==> (#[trigger] cells@[i])@ == self@[i],
        {
            let mut col: Vec<Tile> = Vec::new();
            for y in 0..h
                invariant
                    self.wf(),
                    w == self.spec_width(),
                    h == self.spec_height(),
                    x < w,
                    col@.len() == y,
                    forall|j: int| 0 <= j < y ==> #[trigger] col@[j] == self@[x as int][j],
            {
                proof {
                    self.lemma_view_layout();
                    assert(self.cells@.len() == self.spec_width());
                    assert(self.cells@[x as int]@ == self@[x as int]);
                    assert(self.cells@[x as int]@.len() == self.spec_height());
                }
                col.push(self.cells[x as usize][y as usize]);
            }
            assert(col@ =~= self@[x as int]);
            cells.push(col);
        }
        let g = Grid { width: w, height: h, cells };
        assert(g@ =~= self@);
        g
    }

    /// A grid assembled from ready-made columns of the stated dimensions.
    pub fn from_columns(width: u16, height: u16, cells: Vec<Vec<Tile>>) -> (g: Grid)
        requires
            cells@.len() == width,
            forall|i: int| 0 <= i < cells@.len() ==> (#[trigger] cells@[i])@.len() == height,
        ensures
            g.wf(),
            g.spec_width() == width,
            g.spec_height() == height,
            g@.len() == width,
            forall|i: int| 0 <= i < width ==> #[trigger] g@[i] == cells@[i]@,
    {
        let g = Grid { width, height, cells };
        proof {
            g.lemma_view_layout();
        }
        g
    }

    /// The in-bounds coordinates directly left, right, above and below
    /// `(x, y)`: between zero and four of them.
    pub fn neighbors(&self, x: u16, y: u16) -> (res: Vec<(u16, u16)>)
        requires
            self.wf(),
            self.spec_in_bounds(x as int, y as int),
        ensures
            forall|i: int|
                0 <= i < res@.len()
                    ==> self.spec_in_bounds((#[trigger] res@[i]).0 as int, res@[i].1 as int)
                        && adjacent((x as int, y as int), (res@[i].0 as int, res@[i].1 as int)),
            forall|c: (int, int)|
                self.spec_in_bounds(c.0, c.1) && adjacent((x as int, y as int), c)
                    ==> exists|i: int|
                        0 <= i < res@.len() && (#[trigger] res@[i]).0 == c.0 && res@[i].1 == c.1,
    {
        let mut res: Vec<(u16, u16)> = Vec::new();
        if x > 0 {
            res.push((x - 1, y));
        }
        if x + 1 < self.width {
            res.push((x + 1, y));
        }
        if y > 0 {
            res.push((x, y - 1));
        }
        if y + 1 < self.height {
            res.push((x, y + 1));
        }
        proof {
            assert forall|c: (int, int)|
                self.spec_in_bounds(c.0, c.1) && adjacent((x as int, y as int), c)
                    implies exists|i: int|
                        0 <= i < res@.len() && (#[trigger] res@[i]).0 == c.0 && res@[i].1 == c.1 by {
                if c.0 == x - 1 && c.1 == y {
                    assert(res@[0].0 == c.0 && res@[0].1 == c.1);
                } else if c.0 == x + 1 && c.1 == y {
                    let i = if x > 0 { 1int } else { 0int };
                    assert(res@[i].0 == c.0 && res@[i].1 == c.1);
                } else if c.0 == x && c.1 == y - 1 {
                    let i = (if x > 0 { 1int } else { 0int }) + (if x + 1 < self.width {
                        1int
                    } else {
                        0int
                    });
                    assert(res@[i].0 == c.0 && res@[i].1 == c.1);
                } else {
                    let i = (if x > 0 { 1int } else { 0int }) + (if x + 1 < self.width {
                        1int
                    } else {
                        0int
                    }) + (if y > 0 { 1int } else { 0int });
                    assert(res@[i].0 == c.0 && res@[i].1 == c.1);
                }
            }
        }
        res
    }
}

/// Two coordinates are adjacent when they differ by one step in exactly one
/// of the four grid directions.
pub open spec fn adjacent(a: (int, int), b: (int, int)) -> bool {
    ||| (a.0 == b.0 && (a.1 == b.1 + 1 || a.1 + 1 == b.1))
    ||| (a.1 == b.1 && (a.0 == b.0 + 1 || a.0 + 1 == b.0))
}

} // verus!
