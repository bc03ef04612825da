use samegame::session::{new_session, score_for_group, Action, ConfigError, Session};
use samegame::{Grid, Tile};

fn grid_from_kinds(width: u16, height: u16, kinds: &[&[u8]]) -> Grid {
    // kinds is indexed [x][y]: one inner slice per column, top to bottom.
    let mut g = Grid::new(width, height);
    for x in 0..width {
        for y in 0..height {
            g.set(x, y, Tile::filled(kinds[x as usize][y as usize]));
        }
    }
    g
}

#[test]
fn score_formula_small_groups() {
    assert_eq!(score_for_group(0), 0);
    assert_eq!(score_for_group(1), 0);
    assert_eq!(score_for_group(2), 0);
    assert_eq!(score_for_group(3), 1);
    assert_eq!(score_for_group(5), 9);
    assert_eq!(score_for_group(10), 64);
}

#[test]
fn select_clears_a_full_row_group() {
    // 3 x 1 grid, every tile kind 0; selecting the middle cell removes all
    // three, scores (3 - 2)^2 = 1, and leaves the grid fully empty.
    let g = grid_from_kinds(3, 1, &[&[0], &[0], &[0]]);
    let mut s = Session::with_grid(g, 3);
    let snap = s.apply_action(Action::MoveRight);
    assert_eq!((snap.cursor_x, snap.cursor_y), (1, 0));
    let snap = s.apply_action(Action::Select);
    assert_eq!(snap.score, 1);
    for x in 0..3 {
        assert!(snap.grid.get(x, 0).empty);
    }
    assert!(snap.game_over);
}

#[test]
fn checkerboard_is_gameover_immediately() {
    let g = grid_from_kinds(2, 2, &[&[0, 1], &[1, 0]]);
    assert!(g.is_gameover());
}

#[test]
fn selecting_a_lone_tile_changes_nothing() {
    let g = grid_from_kinds(2, 2, &[&[0, 1], &[1, 0]]);
    let mut s = Session::with_grid(g, 2);
    let snap = s.apply_action(Action::Select);
    assert_eq!(snap.score, 0);
    assert!(!snap.grid.get(0, 0).empty);
    assert!(!snap.grid.get(1, 1).empty);
    assert!(!snap.game_over);
}

#[test]
fn restart_resets_score_and_refills() {
    let mut s = new_session(5, 5, 3).unwrap();
    // Walk around and select a few times; whatever happened, restart must
    // zero the score, home the cursor and refill every cell.
    for action in [
        Action::Select,
        Action::MoveRight,
        Action::Select,
        Action::MoveDown,
        Action::Select,
        Action::Select,
    ] {
        s.apply_action(action);
    }
    let snap = s.apply_action(Action::Restart);
    assert_eq!(snap.score, 0);
    assert_eq!((snap.cursor_x, snap.cursor_y), (0, 0));
    assert!(!snap.game_over);
    for x in 0..5 {
        for y in 0..5 {
            let t = snap.grid.get(x, y);
            assert!(!t.empty);
            assert!(t.kind < 3);
        }
    }
}

#[test]
fn zero_dimensions_are_rejected() {
    assert!(matches!(new_session(0, 4, 3), Err(ConfigError::ZeroDimension)));
    assert!(matches!(new_session(4, 0, 3), Err(ConfigError::ZeroDimension)));
    assert!(matches!(new_session(0, 0, 3), Err(ConfigError::ZeroDimension)));
}

#[test]
fn out_of_range_difficulty_is_rejected() {
    assert!(matches!(
        new_session(4, 4, 0),
        Err(ConfigError::DifficultyOutOfRange)
    ));
    assert!(matches!(
        new_session(4, 4, 7),
        Err(ConfigError::DifficultyOutOfRange)
    ));
}

#[test]
fn lowest_difficulty_fills_with_one_kind() {
    // With difficulty 1 the random refill has only kind 0 to draw, so the
    // grid must come out uniform: the random wrapper's range is real.
    let s = new_session(4, 4, 1).unwrap();
    let snap = s.snapshot();
    for x in 0..4 {
        for y in 0..4 {
            let t = snap.grid.get(x, y);
            assert!(!t.empty);
            assert_eq!(t.kind, 0);
        }
    }
}

#[test]
fn moves_stop_at_the_walls() {
    let g = grid_from_kinds(2, 2, &[&[0, 1], &[1, 0]]);
    let mut s = Session::with_grid(g, 2);
    let snap = s.apply_action(Action::MoveLeft);
    assert_eq!((snap.cursor_x, snap.cursor_y), (0, 0));
    let snap = s.apply_action(Action::MoveUp);
    assert_eq!((snap.cursor_x, snap.cursor_y), (0, 0));
    let snap = s.apply_action(Action::MoveRight);
    assert_eq!((snap.cursor_x, snap.cursor_y), (1, 0));
    let snap = s.apply_action(Action::MoveRight);
    assert_eq!((snap.cursor_x, snap.cursor_y), (1, 0));
    let snap = s.apply_action(Action::MoveDown);
    assert_eq!((snap.cursor_x, snap.cursor_y), (1, 1));
    let snap = s.apply_action(Action::MoveDown);
    assert_eq!((snap.cursor_x, snap.cursor_y), (1, 1));
}

#[test]
fn game_over_absorbs_moves_and_selects() {
    // A 2 x 2 grid of one kind: the first select clears everything and ends
    // the game; afterwards only restart has any effect.
    let g = grid_from_kinds(2, 2, &[&[4, 4], &[4, 4]]);
    let mut s = Session::with_grid(g, 5);
    let snap = s.apply_action(Action::Select);
    assert_eq!(snap.score, 4);
    assert!(snap.game_over);
    let snap = s.apply_action(Action::MoveRight);
    assert_eq!((snap.cursor_x, snap.cursor_y), (0, 0));
    let snap = s.apply_action(Action::Select);
    assert_eq!(snap.score, 4);
    assert!(snap.game_over);
    let snap = s.apply_action(Action::Restart);
    assert!(!snap.game_over);
    assert_eq!(snap.score, 0);
}

#[test]
fn quit_changes_nothing() {
    let g = grid_from_kinds(2, 2, &[&[0, 1], &[1, 0]]);
    let mut s = Session::with_grid(g, 2);
    let before = s.snapshot();
    let after = s.apply_action(Action::Quit);
    assert_eq!(before.score, after.score);
    assert_eq!(before.cursor_x, after.cursor_x);
    assert_eq!(before.cursor_y, after.cursor_y);
    assert_eq!(before.game_over, after.game_over);
    for x in 0..2 {
        for y in 0..2 {
            assert_eq!(before.grid.get(x, y), after.grid.get(x, y));
        }
    }
}

#[test]
fn score_accumulates_over_selects() {
    // Column layout (x, then top to bottom): two kinds side by side.
    let g = grid_from_kinds(3, 2, &[&[0, 0], &[0, 1], &[1, 1]]);
    let mut s = Session::with_grid(g, 2);
    // Group of kind 0 through (0, 0): cells (0,0) (0,1) (1,0) => size 3.
    let snap = s.apply_action(Action::Select);
    assert_eq!(snap.score, 1);
    assert!(!snap.game_over);
    // After settling, the three kind-1 tiles form one group, reachable at
    // the bottom of the first column.
    let snap = s.apply_action(Action::MoveDown);
    assert_eq!((snap.cursor_x, snap.cursor_y), (0, 1));
    let snap = s.apply_action(Action::Select);
    assert_eq!(snap.score, 2);
    assert!(snap.game_over);
}
