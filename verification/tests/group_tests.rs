use samegame::{Grid, Tile};

fn grid_from_kinds(width: u16, height: u16, kinds: &[&[u8]]) -> Grid {
    // kinds is indexed [x][y]: one inner slice per column, top to bottom.
    let mut g = Grid::new(width, height);
    for x in 0..width {
        for y in 0..height {
            g.set(x, y, Tile::filled(kinds[x as usize][y as usize]));
        }
    }
    g
}

fn sorted(mut v: Vec<(u16, u16)>) -> Vec<(u16, u16)> {
    v.sort();
    v
}

#[test]
fn lone_tile_is_its_own_group() {
    let g = grid_from_kinds(2, 2, &[&[0, 1], &[1, 0]]);
    assert_eq!(g.connected_group(0, 0), vec![(0, 0)]);
}

#[test]
fn empty_cell_has_no_group() {
    let mut g = Grid::new(2, 2);
    g.set(0, 0, Tile::filled(0));
    assert_eq!(g.connected_group(1, 1), vec![]);
}

#[test]
fn l_shaped_group_is_found_whole() {
    // Kind 7 forms an L: (0,0) (0,1) (1,1); the far corner differs.
    let g = grid_from_kinds(2, 2, &[&[7, 7], &[2, 7]]);
    let grp = sorted(g.connected_group(0, 0));
    assert_eq!(grp, vec![(0, 0), (0, 1), (1, 1)]);
}

#[test]
fn group_does_not_cross_empty_cells() {
    // Same kind in one column, but a hole in the middle splits the group.
    let mut g = Grid::new(1, 3);
    g.set(0, 0, Tile::filled(1));
    g.set(0, 2, Tile::filled(1));
    assert_eq!(g.connected_group(0, 0), vec![(0, 0)]);
    assert_eq!(g.connected_group(0, 2), vec![(0, 2)]);
}

#[test]
fn group_is_the_same_from_every_member() {
    // A plus-shaped group of kind 3 with distractions around it.
    let g = grid_from_kinds(
        3,
        3,
        &[&[1, 3, 2], &[3, 3, 3], &[2, 3, 1]],
    );
    let from_center = sorted(g.connected_group(1, 1));
    assert_eq!(
        from_center,
        vec![(0, 1), (1, 0), (1, 1), (1, 2), (2, 1)]
    );
    for &(x, y) in &from_center {
        assert_eq!(sorted(g.connected_group(x, y)), from_center);
    }
}

#[test]
fn diagonal_tiles_are_not_adjacent() {
    let g = grid_from_kinds(2, 2, &[&[5, 0], &[1, 5]]);
    assert_eq!(g.connected_group(0, 0), vec![(0, 0)]);
    assert_eq!(g.connected_group(1, 1), vec![(1, 1)]);
}

#[test]
fn group_spanning_the_whole_grid() {
    let g = grid_from_kinds(2, 3, &[&[4, 4, 4], &[4, 4, 4]]);
    let grp = sorted(g.connected_group(1, 2));
    assert_eq!(
        grp,
        vec![(0, 0), (0, 1), (0, 2), (1, 0), (1, 1), (1, 2)]
    );
}
