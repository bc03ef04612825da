use samegame::{Grid, Tile};

fn grid_from_kinds(width: u16, height: u16, kinds: &[&[u8]]) -> Grid {
    // kinds is indexed [x][y]: one inner slice per column, top to bottom.
    let mut g = Grid::new(width, height);
    for x in 0..width {
        for y in 0..height {
            g.set(x, y, Tile::filled(kinds[x as usize][y as usize]));
        }
    }
    g
}

#[test]
fn new_grid_is_empty_with_the_asked_dimensions() {
    let g = Grid::new(3, 2);
    assert_eq!(g.width(), 3);
    assert_eq!(g.height(), 2);
    for x in 0..3 {
        for y in 0..2 {
            assert!(g.get(x, y).empty);
        }
    }
}

#[test]
fn set_then_get_roundtrip() {
    let mut g = Grid::new(2, 2);
    g.set(1, 0, Tile::filled(4));
    let t = g.get(1, 0);
    assert!(!t.empty);
    assert_eq!(t.kind, 4);
    assert!(g.get(0, 0).empty);
    assert!(g.get(1, 1).empty);
}

#[test]
fn duplicate_copies_every_cell() {
    let g = grid_from_kinds(2, 2, &[&[0, 1], &[2, 3]]);
    let d = g.duplicate();
    for x in 0..2 {
        for y in 0..2 {
            assert_eq!(g.get(x, y), d.get(x, y));
        }
    }
}

#[test]
fn neighbors_of_center_corner_and_edge() {
    let g = Grid::new(3, 3);
    let mut center = g.neighbors(1, 1);
    center.sort();
    assert_eq!(center, vec![(0, 1), (1, 0), (1, 2), (2, 1)]);
    let mut corner = g.neighbors(0, 0);
    corner.sort();
    assert_eq!(corner, vec![(0, 1), (1, 0)]);
    let mut edge = g.neighbors(2, 1);
    edge.sort();
    assert_eq!(edge, vec![(1, 1), (2, 0), (2, 2)]);
}

#[test]
fn single_cell_grid_has_no_neighbors() {
    let g = Grid::new(1, 1);
    assert_eq!(g.neighbors(0, 0), vec![]);
}

#[test]
fn settle_drops_tiles_to_the_column_floor() {
    // One column: tile, gap, tile; after settling the gap is on top.
    let mut g = Grid::new(1, 3);
    g.set(0, 0, Tile::filled(2));
    g.set(0, 2, Tile::filled(5));
    g.settle();
    assert!(g.get(0, 0).empty);
    let middle = g.get(0, 1);
    assert!(!middle.empty);
    assert_eq!(middle.kind, 2);
    let bottom = g.get(0, 2);
    assert!(!bottom.empty);
    assert_eq!(bottom.kind, 5);
}

#[test]
fn settle_shifts_occupied_columns_left() {
    // Columns: occupied, fully empty, occupied; the right column slides in.
    let mut g = Grid::new(3, 2);
    g.set(0, 0, Tile::filled(1));
    g.set(2, 1, Tile::filled(3));
    g.settle();
    assert!(g.get(0, 0).empty);
    let a = g.get(0, 1);
    assert!(!a.empty);
    assert_eq!(a.kind, 1);
    let b = g.get(1, 1);
    assert!(!b.empty);
    assert_eq!(b.kind, 3);
    assert!(g.get(1, 0).empty);
    assert!(g.get(2, 0).empty);
    assert!(g.get(2, 1).empty);
}

#[test]
fn settle_twice_equals_settle_once() {
    let mut g = Grid::new(4, 3);
    g.set(0, 0, Tile::filled(1));
    g.set(1, 1, Tile::filled(2));
    g.set(3, 0, Tile::filled(3));
    g.set(3, 2, Tile::filled(4));
    g.settle();
    let once = g.duplicate();
    g.settle();
    for x in 0..4 {
        for y in 0..3 {
            assert_eq!(g.get(x, y), once.get(x, y));
        }
    }
}

#[test]
fn settle_preserves_tile_count() {
    let mut g = Grid::new(3, 3);
    g.set(0, 1, Tile::filled(1));
    g.set(1, 0, Tile::filled(1));
    g.set(2, 2, Tile::filled(2));
    g.settle();
    let mut count: u32 = 0;
    for x in 0..3 {
        for y in 0..3 {
            if !g.get(x, y).empty {
                count += 1;
            }
        }
    }
    assert_eq!(count, 3);
}

#[test]
fn gameover_false_with_an_adjacent_pair() {
    let g = grid_from_kinds(2, 2, &[&[0, 1], &[0, 2]]);
    assert!(!g.is_gameover());
}

#[test]
fn gameover_true_on_empty_grid() {
    let g = Grid::new(3, 3);
    assert!(g.is_gameover());
}
