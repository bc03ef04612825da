//! One play-through: a grid, a cursor, a score and a phase, driven by
//! discrete player actions. Selecting a group of two or more same-kind
//! tiles removes it, settles the grid, scores by group size, and checks for
//! the end of the game.

use vstd::prelude::*;

use crate::collapse::{present_pred, settle_spec, tile_present};
use crate::count::{
    grid_count, lemma_grid_count_complement, lemma_grid_count_le, lemma_grid_count_update,
    lemma_seq_count_update,
};
use crate::grid::{empty_tile, Grid, Tile};
use crate::group::{
    coords_of, group_of, is_gameover_spec, kind_at, lemma_coords_push, match_cell,
};
use crate::rng::random_kind;

verus! {

/// The number of tile kinds the reference palette offers.
pub const MAX_KINDS: u16 = 6;

/// Why a session could not be created.
#[derive(Clone, Copy, PartialEq, Eq, Structural, Debug)]
pub enum ConfigError {
    /// The grid would have no cells.
    ZeroDimension,
    /// The difficulty lies outside `1 ..= MAX_KINDS`.
    DifficultyOutOfRange,
}

/// One player action.
#[derive(Clone, Copy, PartialEq, Eq, Structural, Debug)]
pub enum Action {
    MoveLeft,
    MoveDown,
    MoveUp,
    MoveRight,
    Select,
    Restart,
    Quit,
}

/// The score awarded for removing a group of `n` tiles: nothing below two
/// tiles, `(n - 2)^2` from two up.
pub open spec fn group_score(n: int) -> int {
    if n < 2 {
        0
    } else {
        (n - 2) * (n - 2)
    }
}

/// Exec scoring, matching `group_score`.
pub fn score_for_group(n: usize) -> (s: u64)
    requires
        n <= 0xFFFF_FFFF,
    ensures
        s == group_score(n as int),
{
    if n < 2 {
        0
    } else {
        let m = (n - 2) as u64;
        proof {
            assert(m * m <= 0xFFFF_FFFFu64 * 0xFFFF_FFFFu64) by (nonlinear_arith)
                requires
                    m <= 0xFFFF_FFFF,
            ;
        }
        m * m
    }
}

/// The tile is empty.
pub open spec fn vacant_pred() -> spec_fn(Tile) -> bool {
    |t: Tile| t.empty
}

/// How many cells of the grid are empty.
pub open spec fn empty_cells(g: Seq<Seq<Tile>>) -> nat {
    grid_count(g, vacant_pred())
}

/// The grid with every cell of `s` replaced by the empty tile.
pub open spec fn clear_cells(g: Seq<Seq<Tile>>, s: Set<(int, int)>) -> Seq<Seq<Tile>> {
    Seq::new(
        g.len(),
        |x: int|
            Seq::new(
                g[x].len(),
                |y: int|
                    if s.contains((x, y)) {
                        empty_tile()
                    } else {
                        g[x][y]
                    },
            ),
    )
}

/// One play-through's state.
pub struct Session {
    grid: Grid,
    cursor_x: u16,
    cursor_y: u16,
    score: u64,
    game_over: bool,
    difficulty: u16,
}

/// A renderable copy of the session state handed to the outside.
pub struct Snapshot {
    pub grid: Grid,
    pub cursor_x: u16,
    pub cursor_y: u16,
    pub score: u64,
    pub game_over: bool,
}

impl Session {
    pub closed spec fn grid_view(&self) -> Seq<Seq<Tile>> {
        self.grid@
    }

    pub closed spec fn spec_width(&self) -> int {
        self.grid.spec_width()
    }

    pub closed spec fn spec_height(&self) -> int {
        self.grid.spec_height()
    }

    pub closed spec fn spec_cursor(&self) -> (int, int) {
        (self.cursor_x as int, self.cursor_y as int)
    }

    pub closed spec fn spec_score(&self) -> int {
        self.score as int
    }

    pub closed spec fn spec_game_over(&self) -> bool {
        self.game_over
    }

    pub closed spec fn spec_difficulty(&self) -> int {
        self.difficulty as int
    }

    /// The session invariant: a well-formed non-degenerate grid, a cursor in
    /// bounds, a difficulty in range, and a score no larger than the square
    /// of the number of empty cells (which is what keeps it from ever
    /// overflowing).
    pub closed spec fn wf(&self) -> bool {
        &&& self.grid.wf()
        &&& self.spec_width() > 0
        &&& self.spec_height() > 0
        &&& 0 <= self.spec_cursor().0 < self.spec_width()
        &&& 0 <= self.spec_cursor().1 < self.spec_height()
        &&& 1 <= self.spec_difficulty() <= MAX_KINDS
        &&& self.spec_score() <= empty_cells(self.grid_view()) * empty_cells(self.grid_view())
    }
}

/// What a move by `(dx, dy)` does: one step when the game is on and the
/// step stays in bounds, otherwise nothing; grid, score and phase never
/// change.
pub open spec fn move_step(pre: Session, post: Session, dx: int, dy: int) -> bool {
    &&& post.grid_view() == pre.grid_view()
    &&& post.spec_score() == pre.spec_score()
    &&& post.spec_game_over() == pre.spec_game_over()
    &&& post.spec_difficulty() == pre.spec_difficulty()
    &&& post.spec_cursor() == (if !pre.spec_game_over() && 0 <= pre.spec_cursor().0 + dx
        < pre.spec_width() && 0 <= pre.spec_cursor().1 + dy < pre.spec_height() {
        (pre.spec_cursor().0 + dx, pre.spec_cursor().1 + dy)
    } else {
        pre.spec_cursor()
    })
}

/// What selecting the cursor's cell does: with the game on and a group of
/// two or more tiles under the cursor, the group is cleared, the grid
/// settles, the score grows by the group's worth, and the game ends exactly
/// when no move is left; in every other case nothing changes.
pub open spec fn select_step(pre: Session, post: Session) -> bool {
    let grp = group_of(pre.grid_view(), pre.spec_cursor());
    if pre.spec_game_over() || grp.len() <= 1 {
        post == pre
    } else {
        &&& post.grid_view() == settle_spec(
            clear_cells(pre.grid_view(), grp),
            pre.spec_height() as nat,
        )
        &&& post.spec_score() == pre.spec_score() + group_score(grp.len() as int)
        &&& post.spec_cursor() == pre.spec_cursor()
        &&& post.spec_game_over() == is_gameover_spec(post.grid_view())
        &&& post.spec_difficulty() == pre.spec_difficulty()
    }
}

/// What a restart does: a fresh full random grid of the same dimensions,
/// score zero, cursor home, game on — whatever the previous phase was.
pub open spec fn restart_step(pre: Session, post: Session) -> bool {
    &&& post.spec_width() == pre.spec_width()
    &&& post.spec_height() == pre.spec_height()
    &&& post.spec_difficulty() == pre.spec_difficulty()
    &&& post.spec_score() == 0
    &&& post.spec_cursor() == (0int, 0int)
    &&& !post.spec_game_over()
    &&& forall|x: int, y: int|
        0 <= x < post.spec_width() && 0 <= y < post.spec_height() ==> tile_present(
            #[trigger] post.grid_view()[x][y],
        ) && post.grid_view()[x][y].kind < pre.spec_difficulty()
}

/// Fill every cell with a fresh random kind below `difficulty`.
fn refill_grid(g: &mut Grid, difficulty: u16)
    requires
        old(g).wf(),
        1 <= difficulty <= MAX_KINDS,
    ensures
        final(g).wf(),
        final(g).spec_width() == old(g).spec_width(),
        final(g).spec_height() == old(g).spec_height(),
        forall|x: int, y: int|
            0 <= x < final(g).spec_width() && 0 <= y < final(g).spec_height() ==> tile_present(
                #[trigger] final(g)@[x][y],
            ) && final(g)@[x][y].kind < difficulty,
{
    let w = g.width();
    let h = g.height();
    for x in 0..w
        invariant
            g.wf(),
            w == g.spec_width(),
            h == g.spec_height(),
            1 <= difficulty <= MAX_KINDS,
            forall|a: int, b: int|
                0 <= a < x && 0 <= b < h ==> tile_present(#[trigger] g@[a][b]) && g@[a][b].kind
                    < difficulty,
    {
        for y in 0..h
            invariant
                g.wf(),
                w == g.spec_width(),
                h == g.spec_height(),
                x < w,
                1 <= difficulty <= MAX_KINDS,
                forall|a: int, b: int|
                    (0 <= a < x && 0 <= b < h) || (a == x && 0 <= b < y) ==> tile_present(
                        #[trigger] g@[a][b],
                    ) && g@[a][b].kind < difficulty,
        {
            let kk = random_kind(difficulty);
            g.set(x, y, Tile::filled(kk));
        }
    }
}

/// Build a fresh session. Zero dimensions and an out-of-range difficulty
/// are rejected before any state exists; otherwise every cell gets a random
/// kind below the difficulty and play starts at the top-left corner.
pub fn new_session(width: u16, height: u16, difficulty: u16) -> (r: Result<Session, ConfigError>)
    ensures
        r is Ok <==> (width > 0 && height > 0 && 1 <= difficulty <= MAX_KINDS),
        (width == 0 || height == 0) ==> r == Err::<Session, ConfigError>(
            ConfigError::ZeroDimension,
        ),
        (width > 0 && height > 0 && !(1 <= difficulty <= MAX_KINDS)) ==> r == Err::<
            Session,
            ConfigError,
        >(ConfigError::DifficultyOutOfRange),
        r matches Ok(s) ==> {
            &&& s.wf()
            &&& s.spec_width() == width
            &&& s.spec_height() == height
            &&& s.spec_difficulty() == difficulty
            &&& s.spec_score() == 0
            &&& s.spec_cursor() == (0int, 0int)
            &&& !s.spec_game_over()
            &&& forall|x: int, y: int|
                0 <= x < width && 0 <= y < height ==> tile_present(#[trigger] s.grid_view()[x][y])
                    && s.grid_view()[x][y].kind < difficulty
        },
{
    if width == 0 || height == 0 {
        return Err(ConfigError::ZeroDimension);
    }
    if difficulty < 1 || difficulty > MAX_KINDS {
        return Err(ConfigError::DifficultyOutOfRange);
    }
    let mut grid = Grid::new(width, height);
    refill_grid(&mut grid, difficulty);
    let s = Session {
        grid,
        cursor_x: 0,
        cursor_y: 0,
        score: 0,
        game_over: false,
        difficulty,
    };
    Ok(s)
}

impl Session {
    /// A session over a given grid, for play or for tests that need exact
    /// tile layouts. Play starts at the top-left corner with score zero.
    pub fn with_grid(grid: Grid, difficulty: u16) -> (s: Session)
        requires
            grid.wf(),
            grid.spec_width() > 0,
            grid.spec_height() > 0,
            1 <= difficulty <= MAX_KINDS,
        ensures
            s.wf(),
            s.grid_view() == grid@,
            s.spec_width() == grid.spec_width(),
            s.spec_height() == grid.spec_height(),
            s.spec_difficulty() == difficulty,
            s.spec_score() == 0,
            s.spec_cursor() == (0int, 0int),
            !s.spec_game_over(),
    {
        Session { grid, cursor_x: 0, cursor_y: 0, score: 0, game_over: false, difficulty }
    }

    /// A renderable copy of the whole state.
    pub fn snapshot(&self) -> (snap: Snapshot)
        requires
            self.wf(),
        ensures
            snap.grid.wf(),
            snap.grid@ == self.grid_view(),
            snap.grid.spec_width() == self.spec_width(),
            snap.grid.spec_height() == self.spec_height(),
            snap.cursor_x == self.spec_cursor().0,
            snap.cursor_y == self.spec_cursor().1,
            snap.score == self.spec_score(),
            snap.game_over == self.spec_game_over(),
    {
        Snapshot {
            grid: self.grid.duplicate(),
            cursor_x: self.cursor_x,
            cursor_y: self.cursor_y,
            score: self.score,
            game_over: self.game_over,
        }
    }

    /// Apply one player action and hand back the state to render. Moves
    /// into a wall, selections of lone tiles and anything but restart after
    /// the game is over are silent no-ops.
    pub fn apply_action(&mut self, action: Action) -> (snap: Snapshot)
        requires
            old(self).wf(),
        ensures
            final(self).wf(),
            final(self).spec_width() == old(self).spec_width(),
            final(self).spec_height() == old(self).spec_height(),
            final(self).spec_difficulty() == old(self).spec_difficulty(),
            match action {
                Action::MoveLeft => move_step(*old(self), *final(self), -1, 0),
                Action::MoveDown => move_step(*old(self), *final(self), 0, 1),
                Action::MoveUp => move_step(*old(self), *final(self), 0, -1),
                Action::MoveRight => move_step(*old(self), *final(self), 1, 0),
                Action::Select => select_step(*old(self), *final(self)),
                Action::Restart => restart_step(*old(self), *final(self)),
                Action::Quit => *final(self) == *old(self),
            },
            snap.grid.wf(),
            snap.grid@ == final(self).grid_view(),
            snap.cursor_x == final(self).spec_cursor().0,
            snap.cursor_y == final(self).spec_cursor().1,
            snap.score == final(self).spec_score(),
            snap.game_over == final(self).spec_game_over(),
    {
        match action {
            Action::MoveLeft => {
                if !self.game_over && self.cursor_x > 0 {
                    self.cursor_x = self.cursor_x - 1;
                }
            },
            Action::MoveDown => {
                let hh = self.grid.height();
                if !self.game_over && self.cursor_y < hh - 1 {
                    self.cursor_y = self.cursor_y + 1;
                }
            },
            Action::MoveUp => {
                if !self.game_over && self.cursor_y > 0 {
                    self.cursor_y = self.cursor_y - 1;
                }
            },
            Action::MoveRight => {
                let ww = self.grid.width();
                if !self.game_over && self.cursor_x < ww - 1 {
                    self.cursor_x = self.cursor_x + 1;
                }
            },
            Action::Select => {
                self.do_select();
            },
            Action::Restart => {
                self.score = 0;
                self.cursor_x = 0;
                self.cursor_y = 0;
                self.game_over = false;
                refill_grid(&mut self.grid, self.difficulty);
            },
            Action::Quit => {},
        }
        self.snapshot()
    }

    /// Remove the group under the cursor, settle, score, and test for the
    /// end of the game.
    fn do_select(&mut self)
        requires
            old(self).wf(),
        ensures
            final(self).wf(),
            final(self).spec_width() == old(self).spec_width(),
            final(self).spec_height() == old(self).spec_height(),
            final(self).spec_difficulty() == old(self).spec_difficulty(),
            select_step(*old(self), *final(self)),
    {
        if self.game_over {
            return ;
        }
        let ghost g0 = self.grid@;
        let ghost cursor = (self.cursor_x as int, self.cursor_y as int);
        let ghost gset = group_of(g0, cursor);
        let ghost k0 = kind_at(g0, cursor);
        let ghost w = self.grid.spec_width();
        let ghost h = self.grid.spec_height();
        let grp = self.grid.connected_group(self.cursor_x, self.cursor_y);
        if grp.len() <= 1 {
            return ;
        }
        let n = grp.len();
        proof {
            assert(gset.len() == n);
            assert(grp@.subrange(0, 0) =~= Seq::<(u16, u16)>::empty());
            assert forall|e: (int, int)| !coords_of(grp@.subrange(0, 0)).contains(e) by {
                let f = |c: (u16, u16)| (c.0 as int, c.1 as int);
                if coords_of(grp@.subrange(0, 0)).contains(e) {
                    let i = choose|i: int|
                        0 <= i < grp@.subrange(0, 0).map_values(f).len() && grp@.subrange(
                            0,
                            0,
                        ).map_values(f)[i] == e;
                }
            }
            assert(coords_of(grp@.subrange(0, 0)) =~= Set::<(int, int)>::empty());
        }
        let ghost score0 = self.score;
        let ghost cx0 = self.cursor_x;
        let ghost cy0 = self.cursor_y;
        let ghost diff0 = self.difficulty;
        for i in 0..n
            invariant
                self.grid.wf(),
                w == self.grid.spec_width(),
                h == self.grid.spec_height(),
                w > 0,
                h > 0,
                g0.len() == w,
                forall|a: int| 0 <= a < w ==> (#[trigger] g0[a]).len() == h,
                n == grp@.len(),
                n > 1,
                grp@.no_duplicates(),
                coords_of(grp@) == gset,
                forall|j: int|
                    0 <= j < n ==> match_cell(
                        g0,
                        k0,
                        ((#[trigger] grp@[j]).0 as int, grp@[j].1 as int),
                    ),
                forall|a: int, b: int|
                    0 <= a < w && 0 <= b < h ==> #[trigger] self.grid@[a][b] == (if coords_of(
                        grp@.subrange(0, i as int),
                    ).contains((a, b)) {
                        empty_tile()
                    } else {
                        g0[a][b]
                    }),
                empty_cells(self.grid@) == empty_cells(g0) + i,
                self.score == score0,
                self.cursor_x == cx0,
                self.cursor_y == cy0,
                self.game_over == false,
                self.difficulty == diff0,
        {
            let (cx, cy) = grp[i];
            let ghost ci = (cx as int, cy as int);
            proof {
                assert(match_cell(g0, k0, ci));
                let sub = grp@.subrange(0, i as int);
                if coords_of(sub).contains(ci) {
                    let f = |c: (u16, u16)| (c.0 as int, c.1 as int);
                    let j = choose|j: int|
                        0 <= j < sub.map_values(f).len() && sub.map_values(f)[j] == ci;
                    assert(sub[j] == grp@[j]);
                    assert(grp@[j].0 == cx && grp@[j].1 == cy);
                    assert(grp@[j] == grp@[i as int]);
                    assert(false);
                }
                assert(self.grid@[ci.0][ci.1] == g0[ci.0][ci.1]);
                assert(!self.grid@[ci.0][ci.1].empty);
            }
            let ghost pre = self.grid@;
            self.grid.set(cx, cy, Tile::vacant());
            proof {
                assert(pre.len() == w);
                assert(pre[ci.0].len() == h);
                let newcol = pre[ci.0].update(ci.1, empty_tile());
                assert(self.grid@ == pre.update(ci.0, newcol));
                lemma_grid_count_update(pre, vacant_pred(), ci.0, newcol);
                lemma_seq_count_update(pre[ci.0], vacant_pred(), ci.1, empty_tile());
                assert(grp@.subrange(0, i + 1) =~= grp@.subrange(0, i as int).push(grp@[i as int]));
                lemma_coords_push(grp@.subrange(0, i as int), grp@[i as int]);
                assert forall|a: int, b: int| 0 <= a < w && 0 <= b < h implies #[trigger] self
                    .grid@[a][b] == (if coords_of(grp@.subrange(0, i + 1)).contains((a, b)) {
                    empty_tile()
                } else {
                    g0[a][b]
                }) by {
                    assert(pre[a][b] == (if coords_of(grp@.subrange(0, i as int)).contains(
                        (a, b),
                    ) {
                        empty_tile()
                    } else {
                        g0[a][b]
                    }));
                    if a == ci.0 {
                        assert(self.grid@[a] == newcol);
                        if b != ci.1 {
                            assert(newcol[b] == pre[a][b]);
                        }
                    } else {
                        assert(self.grid@[a] == pre[a]);
                    }
                }
            }
        }
        proof {
            assert(grp@.subrange(0, n as int) =~= grp@);
            assert(self.grid@ =~~= clear_cells(g0, gset));
        }
        let ghost e0 = empty_cells(g0) as int;
        let ghost e1 = empty_cells(self.grid@) as int;
        proof {
            self.grid.lemma_dims_bounded();
            assert(e1 == e0 + n);
            lemma_grid_count_le(self.grid@, vacant_pred(), h as nat);
            assert(e1 <= w * h);
            assert(w * h <= 0xFFFFu64 * 0xFFFFu64) by (nonlinear_arith)
                requires
                    0 < w <= 0xFFFF,
                    0 < h <= 0xFFFF,
            ;
            assert(score0 + (n - 2) * (n - 2) <= e1 * e1) by (nonlinear_arith)
                requires
                    score0 <= e0 * e0,
                    e0 >= 0,
                    n >= 2,
                    e1 == e0 + n,
            ;
            assert(e1 * e1 <= 0xFFFE0001u64 * 0xFFFE0001u64) by (nonlinear_arith)
                requires
                    0 <= e1 <= 0xFFFE0001u64,
            ;
        }
        let delta = score_for_group(n);
        self.score = self.score + delta;
        let ghost marked = self.grid@;
        self.grid.settle();
        proof {
            crate::collapse::lemma_settle_preserves_tile_count(marked, h as nat);
            lemma_grid_count_complement(marked, vacant_pred(), present_pred(), h as nat);
            lemma_grid_count_complement(self.grid@, vacant_pred(), present_pred(), h as nat);
            crate::collapse::lemma_settle_gravity(marked, h as nat);
            assert(empty_cells(self.grid@) == e1);
            assert(self.score <= empty_cells(self.grid@) * empty_cells(self.grid@));
        }
        self.game_over = self.grid.is_gameover();
    }

    /// The score so far.
    pub fn score(&self) -> (s: u64)
        ensures
            s == self.spec_score(),
    {
        self.score
    }

    /// The cursor position.
    pub fn cursor(&self) -> (c: (u16, u16))
        ensures
            c.0 == self.spec_cursor().0,
            c.1 == self.spec_cursor().1,
    {
        (self.cursor_x, self.cursor_y)
    }

    /// Whether the game has ended.
    pub fn game_over(&self) -> (b: bool)
        ensures
            b == self.spec_game_over(),
    {
        self.game_over
    }

    /// The difficulty the session was created with.
    pub fn difficulty(&self) -> (d: u16)
        ensures
            d == self.spec_difficulty(),
    {
        self.difficulty
    }
}

} // verus!
