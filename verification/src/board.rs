use vstd::prelude::*;
use vstd::arithmetic::div_mod::lemma_fundamental_div_mod;
use vstd::set_lib::lemma_int_range;
use vstd::set_lib::lemma_len_subset;
use vstd::set_lib::set_int_range;
use vstd::seq_lib::seq_to_set_is_finite;
use rand::rngs::SmallRng;
use crate::rng::fresh_small_rng;
use crate::rng::rng_below;

verus! {

/// Largest grid side the board accepts; keeps every index computation far
/// from usize overflow.
pub const MAX_DIM: usize = 0x1000_0000;

/// Background classification of one grid cell.
#[derive(Clone, Copy, PartialEq, Eq, Structural, Debug)]
pub enum Background {
    Empty,
    Wall,
    Food,
}

/// Width of a tile rectangle (length of its first row).
pub open spec fn grid_width(t: Seq<Vec<Background>>) -> int {
    t[0]@.len() as int
}

/// Height of a tile rectangle.
pub open spec fn grid_height(t: Seq<Vec<Background>>) -> int {
    t.len() as int
}

/// The background of cell (x, y).
pub open spec fn cell(t: Seq<Vec<Background>>, x: int, y: int) -> Background {
    t[y]@[x]
}

/// (x, y) lies on the rectangle.
pub open spec fn cell_in_bounds(t: Seq<Vec<Background>>, x: int, y: int) -> bool {
    0 <= x < grid_width(t) && 0 <= y < grid_height(t)
}

/// The rectangle is well-shaped and within the accepted size limits.
pub open spec fn grid_ok(t: Seq<Vec<Background>>) -> bool {
    &&& 3 <= grid_width(t) <= MAX_DIM
    &&& 3 <= grid_height(t) <= MAX_DIM
    &&& forall|y: int| 0 <= y < grid_height(t) ==> (#[trigger] t[y])@.len() == grid_width(t)
}

/// Every cell on the outer edge of the rectangle is a wall.
pub open spec fn grid_walled(t: Seq<Vec<Background>>) -> bool {
    forall|x: int, y: int|
        cell_in_bounds(t, x, y) && (x == 0 || y == 0 || x == grid_width(t) - 1 || y
            == grid_height(t) - 1) ==> #[trigger] cell(t, x, y) == Background::Wall
}

/// Every cell strictly inside the edge still holds food.
pub open spec fn grid_interior_food(t: Seq<Vec<Background>>) -> bool {
    forall|x: int, y: int|
        1 <= x < grid_width(t) - 1 && 1 <= y < grid_height(t) - 1 ==> #[trigger] cell(t, x, y)
            == Background::Food
}

/// No cell strictly inside the edge is a wall.
pub open spec fn grid_interior_open(t: Seq<Vec<Background>>) -> bool {
    forall|x: int, y: int|
        1 <= x < grid_width(t) - 1 && 1 <= y < grid_height(t) - 1 ==> #[trigger] cell(t, x, y)
            != Background::Wall
}

/// A cell a ghost or the player may stand on: in bounds and not a wall.
pub open spec fn cell_open(t: Seq<Vec<Background>>, x: int, y: int) -> bool {
    cell_in_bounds(t, x, y) && cell(t, x, y) != Background::Wall
}

/// Some ghost of the list stands on cell (x, y).
pub open spec fn ghost_in(g: Seq<(usize, usize)>, x: int, y: int) -> bool {
    exists|i: int| 0 <= i < g.len() && (#[trigger] g[i]) == (x as usize, y as usize)
}

/// Every ghost of the list stands on an open cell.
pub open spec fn ghosts_open(t: Seq<Vec<Background>>, g: Seq<(usize, usize)>) -> bool {
    forall|i: int| 0 <= i < g.len() ==> cell_open(t, (#[trigger] g[i]).0 as int, g[i].1 as int)
}

/// No two ghosts of the list share a cell.
pub open spec fn ghosts_distinct(g: Seq<(usize, usize)>) -> bool {
    forall|i: int, j: int| 0 <= i < j < g.len() ==> (#[trigger] g[i]) != (#[trigger] g[j])
}

/// The game grid: a rectangle of background tiles, the ghost positions and
/// the player position. Positions are (x, y) with x a column and y a row.
pub struct Board {
    pub tiles: Vec<Vec<Background>>,
    pub ghosts: Vec<(usize, usize)>,
    pub pacman: (usize, usize),
    pub rng: SmallRng,
}

impl Board {
    pub open spec fn height(self) -> int {
        grid_height(self.tiles@)
    }

    pub open spec fn width(self) -> int {
        grid_width(self.tiles@)
    }

    pub open spec fn tile(self, x: int, y: int) -> Background {
        cell(self.tiles@, x, y)
    }

    pub open spec fn ghost_positions(self) -> Seq<(usize, usize)> {
        self.ghosts@
    }

    pub open spec fn pacman_position(self) -> (usize, usize) {
        self.pacman
    }

    pub open spec fn in_bounds(self, x: int, y: int) -> bool {
        cell_in_bounds(self.tiles@, x, y)
    }

    /// There is a ghost on cell (x, y).
    pub open spec fn ghost_at(self, x: int, y: int) -> bool {
        ghost_in(self.ghosts@, x, y)
    }

    /// A cell a ghost or the player may stand on: in bounds and not a wall.
    pub open spec fn open_cell(self, x: int, y: int) -> bool {
        cell_open(self.tiles@, x, y)
    }

    /// A cell where a new piece may be placed: open and free of ghosts.
    pub open spec fn free_cell(self, x: int, y: int) -> bool {
        self.open_cell(x, y) && !self.ghost_at(x, y)
    }

    /// Well-formedness: a walled rectangle, ghosts on distinct open cells,
    /// the player on an open cell.
    pub open spec fn wf(self) -> bool {
        &&& grid_ok(self.tiles@)
        &&& grid_walled(self.tiles@)
        &&& ghosts_open(self.tiles@, self.ghosts@)
        &&& ghosts_distinct(self.ghosts@)
        &&& cell_open(self.tiles@, self.pacman.0 as int, self.pacman.1 as int)
    }

    /// A walled rectangle keeps every non-wall cell strictly inside the edge.
    pub proof fn lemma_open_cell_interior(self, x: int, y: int)
        requires
            grid_ok(self.tiles@),
            grid_walled(self.tiles@),
            self.open_cell(x, y),
        ensures
            1 <= x < self.width() - 1,
            1 <= y < self.height() - 1,
    {
    }

    /// A fresh rectangle filled with food, no ghosts, the player at (5, 5).
    pub fn new(width: usize, height: usize) -> (b: Board)
        requires
            6 <= width <= MAX_DIM,
            6 <= height <= MAX_DIM,
        ensures
            b.width() == width,
            b.height() == height,
            grid_ok(b.tiles@),
            forall|x: int, y: int| b.in_bounds(x, y) ==> #[trigger] b.tile(x, y)
                == Background::Food,
            b.ghost_positions().len() == 0,
            b.pacman_position() == (5usize, 5usize),
    {
        let mut tiles: Vec<Vec<Background>> = Vec::new();
        let mut y: usize = 0;
        while y < height
            invariant
                y <= height,
                6 <= width <= MAX_DIM,
                tiles@.len() == y,
                forall|r: int| 0 <= r < y ==> (#[trigger] tiles@[r])@.len() == width,
                forall|r: int, c: int|
                    0 <= r < y && 0 <= c < width ==> #[trigger] tiles@[r]@[c]
                        == Background::Food,
            decreases height - y,
        {
            let mut row: Vec<Background> = Vec::new();
            let mut x: usize = 0;
            while x < width
                invariant
                    x <= width,
                    row@.len() == x,
                    forall|c: int| 0 <= c < x ==> #[trigger] row@[c] == Background::Food,
                decreases width - x,
            {
                row.push(Background::Food);
                x = x + 1;
            }
            tiles.push(row);
            y = y + 1;
        }
        Board { tiles, ghosts: Vec::new(), pacman: (5, 5), rng: fresh_small_rng() }
    }

    /// Replace the background of one cell.
    pub fn set_tile(&mut self, x: usize, y: usize, b: Background)
        requires
            grid_ok(old(self).tiles@),
            old(self).in_bounds(x as int, y as int),
        ensures
            grid_ok(final(self).tiles@),
            final(self).width() == old(self).width(),
            final(self).height() == old(self).height(),
            forall|xx: int, yy: int|
                old(self).in_bounds(xx, yy) && (xx != x as int || yy != y as int)
                    ==> #[trigger] final(self).tile(xx, yy) == old(self).tile(xx, yy),
            final(self).tile(x as int, y as int) == b,
            final(self).ghosts@ == old(self).ghosts@,
            final(self).pacman == old(self).pacman,
    {
        let row = &mut self.tiles[y];
        row[x] = b;
    }

    /// There is a ghost on cell (x, y).
    pub fn has_ghost_at(&self, x: usize, y: usize) -> (r: bool)
        ensures
            r == self.ghost_at(x as int, y as int),
    {
        let mut i: usize = 0;
        while i < self.ghosts.len()
            invariant
                i <= self.ghosts@.len(),
                forall|k: int| 0 <= k < i ==> (#[trigger] self.ghosts@[k]) != (x, y),
            decreases self.ghosts@.len() - i,
        {
            let g = self.ghosts[i];
            if g.0 == x && g.1 == y {
                return true;
            }
            i = i + 1;
        }
        false
    }

    /// Terminal condition: the player shares a cell with a wall or a ghost.
    pub open spec fn game_over(self) -> bool {
        self.tile(self.pacman.0 as int, self.pacman.1 as int) == Background::Wall
            || self.ghost_at(self.pacman.0 as int, self.pacman.1 as int)
    }

    /// The round is over: the player stands on a wall or on a ghost.
    pub fn is_game_over(&self) -> (r: bool)
        requires
            grid_ok(self.tiles@),
            self.in_bounds(self.pacman.0 as int, self.pacman.1 as int),
        ensures
            r == self.game_over(),
    {
        let (x, y) = self.pacman;
        let on_wall = match self.tiles[y][x] {
            Background::Wall => true,
            _ => false,
        };
        on_wall || self.has_ghost_at(x, y)
    }

    /// Move the player to (x, y) when that cell is not a wall, eating the
    /// food there, if any. Returns whether food was eaten.
    pub fn move_pacman(&mut self, x: usize, y: usize) -> (ate: bool)
        requires
            grid_ok(old(self).tiles@),
            old(self).in_bounds(x as int, y as int),
        ensures
            ate == (old(self).tile(x as int, y as int) == Background::Food),
            old(self).tile(x as int, y as int) == Background::Wall ==> *final(self) == *old(
                self,
            ),
            old(self).tile(x as int, y as int) != Background::Wall ==> {
                &&& final(self).pacman_position() == (x, y)
                &&& final(self).tile(x as int, y as int) == (if ate {
                    Background::Empty
                } else {
                    old(self).tile(x as int, y as int)
                })
                &&& forall|xx: int, yy: int|
                    old(self).in_bounds(xx, yy) && (xx != x as int || yy != y as int)
                        ==> #[trigger] cell(final(self).tiles@, xx, yy) == cell(
                        old(self).tiles@,
                        xx,
                        yy,
                    )
                &&& grid_ok(final(self).tiles@)
                &&& final(self).width() == old(self).width()
                &&& final(self).height() == old(self).height()
            },
            final(self).ghosts@ == old(self).ghosts@,
    {
        match self.tiles[y][x] {
            Background::Wall => false,
            Background::Food => {
                let row = &mut self.tiles[y];
                row[x] = Background::Empty;
                self.pacman = (x, y);
                true
            },
            Background::Empty => {
                self.pacman = (x, y);
                false
            },
        }
    }

    /// Fewer ghosts than interior cells leave at least one free cell, when
    /// no interior cell is a wall.
    pub proof fn lemma_free_cell_exists(self)
        requires
            grid_ok(self.tiles@),
            grid_interior_open(self.tiles@),
            self.ghosts@.len() < (self.width() - 2) * (self.height() - 2),
        ensures
            exists|x: int, y: int| self.free_cell(x, y),
    {
        broadcast use seq_to_set_is_finite;

        let w = self.width();
        let h = self.height();
        let d = w - 2;
        let n = d * (h - 2);
        if !(exists|x: int, y: int| self.free_cell(x, y)) {
            let s = Seq::new(
                self.ghosts@.len(),
                |i: int| (self.ghosts@[i].0 as int - 1) + d * (self.ghosts@[i].1 as int - 1),
            );
            let covered = s.to_set();
            s.lemma_cardinality_of_set();
            assert forall|k: int| 0 <= k < n implies covered.contains(k) by {
                let cx = 1 + k % d;
                let cy = 1 + k / d;
                assert(0 <= k / d && k / d < h - 2) by (nonlinear_arith)
                    requires
                        0 <= k,
                        k < d * (h - 2),
                        d >= 1,
                        h - 2 >= 1,
                ;
                assert(cell_open(self.tiles@, cx, cy));
                assert(!self.free_cell(cx, cy));
                assert(self.ghost_at(cx, cy));
                let i = choose|i: int|
                    0 <= i < self.ghosts@.len() && (#[trigger] self.ghosts@[i]) == (
                    cx as usize,
                    cy as usize,
                    );
                lemma_fundamental_div_mod(k, d);
                assert(s[i] == k);
                assert(s.contains(k));
            }
            lemma_int_range(0, n);
            lemma_len_subset(set_int_range(0, n), covered);
            assert(false);
        }
    }

    /// A uniformly random free cell: in bounds, not a wall, not occupied by
    /// a ghost. Only the generator state changes.
    pub fn rand_empty_pos(&mut self) -> (p: (usize, usize))
        requires
            grid_ok(old(self).tiles@),
            exists|x: int, y: int| old(self).free_cell(x, y),
        ensures
            final(self).tiles@ == old(self).tiles@,
            final(self).ghosts@ == old(self).ghosts@,
            final(self).pacman == old(self).pacman,
            old(self).free_cell(p.0 as int, p.1 as int),
    {
        let height = self.tiles.len();
        let width = self.tiles[0].len();
        let mut candidates: Vec<(usize, usize)> = Vec::new();
        let mut y: usize = 0;
        while y < height
            invariant
                self == old(self),
                grid_ok(self.tiles@),
                width == self.width(),
                height == self.height(),
                y <= height,
                forall|j: int|
                    0 <= j < candidates@.len() ==> self.free_cell(
                        (#[trigger] candidates@[j]).0 as int,
                        candidates@[j].1 as int,
                    ),
                candidates@.len() == 0 ==> forall|xx: int, yy: int|
                    0 <= xx < width && 0 <= yy < y ==> !self.free_cell(xx, yy),
            decreases height - y,
        {
            let mut x: usize = 0;
            while x < width
                invariant
                    self == old(self),
                    grid_ok(self.tiles@),
                    width == self.width(),
                    height == self.height(),
                    y < height,
                    x <= width,
                    forall|j: int|
                        0 <= j < candidates@.len() ==> self.free_cell(
                            (#[trigger] candidates@[j]).0 as int,
                            candidates@[j].1 as int,
                        ),
                    candidates@.len() == 0 ==> forall|xx: int, yy: int|
                        (0 <= xx < width && 0 <= yy < y) || (0 <= xx < x && yy == y)
                            ==> !self.free_cell(xx, yy),
                decreases width - x,
            {
                let is_wall = match self.tiles[y][x] {
                    Background::Wall => true,
                    _ => false,
                };
                if !is_wall && !self.has_ghost_at(x, y) {
                    candidates.push((x, y));
                }
                x = x + 1;
            }
            y = y + 1;
        }
        let k = rng_below(&mut self.rng, candidates.len());
        candidates[k]
    }

    /// A walled rectangle filled with food, ghost_num ghosts and the player
    /// on random free cells. The player never starts on a ghost, so the
    /// round does not begin in a terminal state.
    pub fn initialize(width: usize, height: usize, ghost_num: usize) -> (b: Board)
        requires
            6 <= width <= MAX_DIM,
            6 <= height <= MAX_DIM,
            (ghost_num as int) < (width - 2) * (height - 2),
        ensures
            b.wf(),
            b.width() == width,
            b.height() == height,
            b.ghost_positions().len() == ghost_num,
            grid_interior_open(b.tiles@),
            grid_interior_food(b.tiles@),
            !b.game_over(),
    {
        let mut board = Board::new(width, height);
        let mut x: usize = 0;
        while x < width
            invariant
                6 <= width <= MAX_DIM,
                6 <= height <= MAX_DIM,
                x <= width,
                grid_ok(board.tiles@),
                board.width() == width,
                board.height() == height,
                board.ghosts@.len() == 0,
                forall|xx: int, yy: int|
                    0 <= xx < width && 1 <= yy < height - 1 ==> #[trigger] board.tile(xx, yy)
                        == Background::Food,
                forall|xx: int|
                    0 <= xx < x ==> #[trigger] board.tile(xx, 0) == Background::Wall
                        && board.tile(xx, height - 1) == Background::Wall,
            decreases width - x,
        {
            board.set_tile(x, 0, Background::Wall);
            board.set_tile(x, height - 1, Background::Wall);
            x = x + 1;
        }
        let mut y: usize = 1;
        while y < height - 1
            invariant
                6 <= width <= MAX_DIM,
                6 <= height <= MAX_DIM,
                1 <= y <= height - 1,
                grid_ok(board.tiles@),
                board.width() == width,
                board.height() == height,
                board.ghosts@.len() == 0,
                forall|xx: int, yy: int|
                    1 <= xx < width - 1 && 1 <= yy < height - 1 ==> #[trigger] board.tile(xx, yy)
                        == Background::Food,
                forall|xx: int|
                    0 <= xx < width ==> #[trigger] board.tile(xx, 0) == Background::Wall
                        && board.tile(xx, height - 1) == Background::Wall,
                forall|yy: int|
                    1 <= yy < y ==> #[trigger] board.tile(0, yy) == Background::Wall
                        && board.tile(width - 1, yy) == Background::Wall,
            decreases height - 1 - y,
        {
            board.set_tile(0, y, Background::Wall);
            board.set_tile(width - 1, y, Background::Wall);
            y = y + 1;
        }
        proof {
            assert forall|xx: int, yy: int|
                cell_in_bounds(board.tiles@, xx, yy) && (xx == 0 || yy == 0 || xx == width - 1
                    || yy == height - 1) implies #[trigger] cell(board.tiles@, xx, yy)
                == Background::Wall by {
                if yy == 0 {
                    assert(board.tile(xx, 0) == Background::Wall);
                } else if yy == height - 1 {
                    assert(board.tile(xx, height - 1) == Background::Wall);
                } else if xx == 0 {
                    assert(board.tile(0, yy) == Background::Wall);
                } else {
                    assert(board.tile(width - 1, yy) == Background::Wall);
                }
            }
            assert(grid_walled(board.tiles@));
            assert forall|xx: int, yy: int|
                1 <= xx < grid_width(board.tiles@) - 1 && 1 <= yy < grid_height(board.tiles@)
                    - 1 implies #[trigger] cell(board.tiles@, xx, yy) != Background::Wall by {
                assert(board.tile(xx, yy) == Background::Food);
            }
            assert forall|xx: int, yy: int|
                1 <= xx < grid_width(board.tiles@) - 1 && 1 <= yy < grid_height(board.tiles@)
                    - 1 implies #[trigger] cell(board.tiles@, xx, yy) == Background::Food by {
                assert(board.tile(xx, yy) == Background::Food);
            }
            assert(grid_interior_food(board.tiles@));
        }
        while board.ghosts.len() < ghost_num
            invariant
                6 <= width <= MAX_DIM,
                6 <= height <= MAX_DIM,
                (ghost_num as int) < (width - 2) * (height - 2),
                grid_ok(board.tiles@),
                board.width() == width,
                board.height() == height,
                grid_walled(board.tiles@),
                grid_interior_open(board.tiles@),
                grid_interior_food(board.tiles@),
                board.ghosts@.len() <= ghost_num,
                ghosts_open(board.tiles@, board.ghosts@),
                ghosts_distinct(board.ghosts@),
            decreases ghost_num - board.ghosts@.len(),
        {
            proof {
                board.lemma_free_cell_exists();
            }
            let pos = board.rand_empty_pos();
            board.ghosts.push(pos);
        }
        proof {
            board.lemma_free_cell_exists();
        }
        let pos = board.rand_empty_pos();
        board.pacman = pos;
        board
    }

    /// Step every ghost once, in list order. Each ghost tries the four
    /// cardinal neighbours in a uniformly random order and takes the first
    /// open cell no ghost occupies, staying put when all four are taken.
    pub fn tick_ghosts(&mut self)
        requires
            old(self).wf(),
        ensures
            final(self).wf(),
            final(self).tiles@ == old(self).tiles@,
            final(self).pacman == old(self).pacman,
            final(self).ghosts@.len() == old(self).ghosts@.len(),
            forall|i: int|
                0 <= i < old(self).ghosts@.len() ==> ghost_step_ok(
                    old(self).tiles@,
                    old(self).ghosts@[i],
                    #[trigger] final(self).ghosts@[i],
                ),
            forall|i: int|
                0 <= i < old(self).ghosts@.len() && #[trigger] final(self).ghosts@[i] == old(
                    self,
                ).ghosts@[i] ==> ghost_stuck(
                    old(self).tiles@,
                    old(self).ghosts@,
                    final(self).ghosts@.subrange(0, i),
                    i,
                ),
            forall|i: int|
                0 <= i < old(self).ghosts@.len() && #[trigger] final(self).ghosts@[i] != old(
                    self,
                ).ghosts@[i] ==> !ghost_move_blocked(
                    old(self).tiles@,
                    old(self).ghosts@,
                    final(self).ghosts@.subrange(0, i),
                    i,
                    final(self).ghosts@[i].0 as int,
                    final(self).ghosts@[i].1 as int,
                ),
    {
        let ghost t0 = self.tiles@;
        let ghost g0 = self.ghosts@;
        let ghost p0 = self.pacman;
        let mut i: usize = 0;
        while i < self.ghosts.len()
            invariant
                grid_ok(t0),
                grid_walled(t0),
                self.tiles@ == t0,
                self.pacman == p0,
                self.ghosts@.len() == g0.len(),
                i <= g0.len(),
                forall|k: int| i <= k < g0.len() ==> #[trigger] self.ghosts@[k] == g0[k],
                forall|k: int|
                    0 <= k < i ==> ghost_step_ok(t0, g0[k], #[trigger] self.ghosts@[k]),
                forall|k: int|
                    0 <= k < i && #[trigger] self.ghosts@[k] == g0[k] ==> ghost_stuck(
                        t0,
                        g0,
                        self.ghosts@.subrange(0, k),
                        k,
                    ),
                forall|k: int|
                    0 <= k < i && #[trigger] self.ghosts@[k] != g0[k] ==> !ghost_move_blocked(
                        t0,
                        g0,
                        self.ghosts@.subrange(0, k),
                        k,
                        self.ghosts@[k].0 as int,
                        self.ghosts@[k].1 as int,
                    ),
                ghosts_open(t0, self.ghosts@),
                ghosts_distinct(self.ghosts@),
            decreases g0.len() - i,
        {
            let (x, y) = self.ghosts[i];
            proof {
                assert(cell_open(t0, x as int, y as int));
                self.lemma_open_cell_interior(x as int, y as int);
            }
            let k = rng_below(&mut self.rng, 24);
            let order = dir_permutation(k);
            let ghost gcur = self.ghosts@;
            let mut j: usize = 0;
            while j < 4
                invariant_except_break
                    j <= 4,
                    grid_ok(t0),
                    self.tiles@ == t0,
                    self.pacman == p0,
                    self.ghosts@ == gcur,
                    i < gcur.len(),
                    gcur[i as int] == (x, y),
                    gcur[i as int] == g0[i as int],
                    i < g0.len() && g0.len() == gcur.len(),
                    forall|m: int| i <= m < g0.len() ==> #[trigger] gcur[m] == g0[m],
                    cell_open(t0, x as int, y as int),
                    1 <= (x as int) && (x as int) < grid_width(t0) - 1,
                    1 <= (y as int) && (y as int) < grid_height(t0) - 1,
                    order@.len() == 4,
                    forall|m: int| 0 <= m < 4 ==> (#[trigger] order@[m]) < 4,
                    is_dir_perm(order@),
                    forall|m: int|
                        0 <= m < j ==> ghost_move_blocked(
                            t0,
                            g0,
                            gcur.subrange(0, i as int),
                            i as int,
                            dir_dest(x as int, y as int, (#[trigger] order@[m]) as int).0,
                            dir_dest(x as int, y as int, order@[m] as int).1,
                        ),
                ensures
                    self.tiles@ == t0,
                    self.pacman == p0,
                    self.ghosts@.len() == gcur.len(),
                    forall|m: int|
                        0 <= m < gcur.len() && m != i ==> #[trigger] self.ghosts@[m] == gcur[m],
                    ghost_step_ok(t0, gcur[i as int], self.ghosts@[i as int]),
                    self.ghosts@[i as int] == gcur[i as int] || !ghost_in(
                        gcur,
                        self.ghosts@[i as int].0 as int,
                        self.ghosts@[i as int].1 as int,
                    ),
                    self.ghosts@[i as int] == gcur[i as int] ==> forall|m: int|
                        0 <= m < 4 ==> ghost_move_blocked(
                            t0,
                            g0,
                            gcur.subrange(0, i as int),
                            i as int,
                            dir_dest(x as int, y as int, (#[trigger] order@[m]) as int).0,
                            dir_dest(x as int, y as int, order@[m] as int).1,
                        ),
                    self.ghosts@[i as int] != gcur[i as int] ==> !ghost_move_blocked(
                        t0,
                        g0,
                        gcur.subrange(0, i as int),
                        i as int,
                        self.ghosts@[i as int].0 as int,
                        self.ghosts@[i as int].1 as int,
                    ),
                decreases 4 - j,
            {
                let q = order[j];
                let (xi, yi) = if q == 0 {
                    (x, y - 1)
                } else if q == 1 {
                    (x, y + 1)
                } else if q == 2 {
                    (x - 1, y)
                } else {
                    (x + 1, y)
                };
                let is_wall = match self.tiles[yi][xi] {
                    Background::Wall => true,
                    _ => false,
                };
                if !is_wall && !self.has_ghost_at(xi, yi) {
                    proof {
                        let gdone = gcur.subrange(0, i as int);
                        assert(cell_open(t0, xi as int, yi as int));
                        assert(!ghost_in(gcur, xi as int, yi as int));
                        assert forall|j0: int| 0 <= j0 < gdone.len() implies (
                        #[trigger] gdone[j0]) != (xi, yi) by {
                            assert(gcur[j0] != (xi, yi));
                        }
                        assert forall|j0: int|
                            (i as int) < j0 < g0.len() implies (#[trigger] g0[j0]) != (xi, yi) by {
                            assert(gcur[j0] == g0[j0]);
                            assert(gcur[j0] != (xi, yi));
                        }
                        assert(!ghost_move_blocked(
                            t0,
                            g0,
                            gdone,
                            i as int,
                            xi as int,
                            yi as int,
                        ));
                    }
                    self.ghosts[i] = (xi, yi);
                    break ;
                }
                proof {
                    let gdone = gcur.subrange(0, i as int);
                    let d = order@[j as int] as int;
                    assert((xi as int, yi as int) == dir_dest(x as int, y as int, d));
                    if !is_wall {
                        assert(ghost_in(gcur, xi as int, yi as int));
                        let j0 = choose|j0: int|
                            0 <= j0 < gcur.len() && (#[trigger] gcur[j0]) == (xi, yi);
                        if j0 < i as int {
                            assert(gdone[j0] == (xi, yi));
                        } else {
                            assert(j0 != i as int);
                            assert(gcur[j0] == g0[j0]);
                        }
                    }
                    assert(ghost_move_blocked(t0, g0, gdone, i as int, xi as int, yi as int));
                }
                j = j + 1;
            }
            proof {
                assert forall|k: int|
                    0 <= k < i + 1 && #[trigger] self.ghosts@[k] != g0[k] implies !ghost_move_blocked(
                    t0,
                    g0,
                    self.ghosts@.subrange(0, k),
                    k,
                    self.ghosts@[k].0 as int,
                    self.ghosts@[k].1 as int,
                ) by {
                    assert(self.ghosts@.subrange(0, k) =~= gcur.subrange(0, k));
                    if k < i as int {
                        assert(gcur[k] == self.ghosts@[k]);
                        assert(!ghost_move_blocked(
                            t0,
                            g0,
                            gcur.subrange(0, k),
                            k,
                            gcur[k].0 as int,
                            gcur[k].1 as int,
                        ));
                    }
                }
                if self.ghosts@[i as int] == gcur[i as int] {
                    let gdone = gcur.subrange(0, i as int);
                    assert forall|d: int| 0 <= d < 4 implies ghost_move_blocked(
                        t0,
                        g0,
                        gdone,
                        i as int,
                        (#[trigger] dir_dest(g0[i as int].0 as int, g0[i as int].1 as int, d)).0,
                        dir_dest(g0[i as int].0 as int, g0[i as int].1 as int, d).1,
                    ) by {
                        // the drawn order is a permutation, so it tries every
                        // direction, d among them
                        assert(exists|m: int| 0 <= m < 4 && (#[trigger] order@[m]) as int == d)
                            by {
                            if !(exists|m: int| 0 <= m < 4 && (#[trigger] order@[m]) as int
                                == d) {
                                assert(order@[0] as int != d);
                                assert(order@[1] as int != d);
                                assert(order@[2] as int != d);
                                assert(order@[3] as int != d);
                                assert(order@[0] != order@[1] && order@[0] != order@[2]
                                    && order@[0] != order@[3] && order@[1] != order@[2]
                                    && order@[1] != order@[3] && order@[2] != order@[3]);
                                assert(order@[0] < 4 && order@[1] < 4 && order@[2] < 4
                                    && order@[3] < 4);
                                assert(false);
                            }
                        }
                        let m = choose|m: int|
                            0 <= m < 4 && (#[trigger] order@[m]) as int == d;
                        assert(ghost_move_blocked(
                            t0,
                            g0,
                            gdone,
                            i as int,
                            dir_dest(x as int, y as int, order@[m] as int).0,
                            dir_dest(x as int, y as int, order@[m] as int).1,
                        ));
                    }
                    assert(ghost_stuck(t0, g0, gdone, i as int));
                }
            }
            proof {
                assert forall|k: int|
                    0 <= k < i + 1 && #[trigger] self.ghosts@[k] == g0[k] implies ghost_stuck(
                    t0,
                    g0,
                    self.ghosts@.subrange(0, k),
                    k,
                ) by {
                    assert(self.ghosts@.subrange(0, k) =~= gcur.subrange(0, k));
                    if k < i as int {
                        assert(gcur[k] == self.ghosts@[k]);
                        assert(ghost_stuck(t0, g0, gcur.subrange(0, k), k));
                    } else {
                        assert(ghost_stuck(t0, g0, gcur.subrange(0, i as int), i as int));
                    }
                }
                assert forall|a: int, b: int|
                    0 <= a < b < self.ghosts@.len() implies (#[trigger] self.ghosts@[a]) != (
                #[trigger] self.ghosts@[b]) by {
                    if a != i as int && b != i as int {
                        assert(self.ghosts@[a] == gcur[a] && self.ghosts@[b] == gcur[b]);
                    } else if self.ghosts@[i as int] == gcur[i as int] {
                        assert(self.ghosts@[a] == gcur[a] && self.ghosts@[b] == gcur[b]);
                    } else {
                        let other = if a == i as int {
                            b
                        } else {
                            a
                        };
                        assert(self.ghosts@[other] == gcur[other]);
                        assert(!ghost_in(
                            gcur,
                            self.ghosts@[i as int].0 as int,
                            self.ghosts@[i as int].1 as int,
                        ));
                        assert(gcur[other] != self.ghosts@[i as int]);
                    }
                }
            }
            i = i + 1;
        }
    }

    /// Draw the board as text, one row per line: 'P' for the player, 'G'
    /// for a ghost, '#' for a wall, '.' for food and ' ' for an empty cell.
    pub fn render(&self) -> (frame: Vec<char>)
        requires
            grid_ok(self.tiles@),
        ensures
            frame@ == frame_seq(self.tiles@, self.ghosts@, self.pacman),
    {
        let ghost t = self.tiles@;
        let ghost g = self.ghosts@;
        let ghost p = self.pacman;
        let height = self.tiles.len();
        let width = self.tiles[0].len();
        let mut out: Vec<char> = Vec::new();
        let mut y: usize = 0;
        while y < height
            invariant
                grid_ok(t),
                self.tiles@ == t,
                self.ghosts@ == g,
                self.pacman == p,
                width == grid_width(t),
                height == grid_height(t),
                y <= height,
                out@ == frame_prefix(t, g, p, y as int),
            decreases height - y,
        {
            let mut x: usize = 0;
            while x < width
                invariant
                    grid_ok(t),
                    self.tiles@ == t,
                    self.ghosts@ == g,
                    self.pacman == p,
                    width == grid_width(t),
                    height == grid_height(t),
                    y < height,
                    x <= width,
                    out@ == frame_prefix(t, g, p, y as int) + Seq::new(
                        x as nat,
                        |xx: int| frame_char(t, g, p, xx, y as int),
                    ),
                decreases width - x,
            {
                let c = if self.pacman.0 == x && self.pacman.1 == y {
                    'P'
                } else if self.has_ghost_at(x, y) {
                    'G'
                } else {
                    match self.tiles[y][x] {
                        Background::Empty => ' ',
                        Background::Wall => '#',
                        Background::Food => '.',
                    }
                };
                out.push(c);
                proof {
                    assert(out@ =~= frame_prefix(t, g, p, y as int) + Seq::new(
                        (x + 1) as nat,
                        |xx: int| frame_char(t, g, p, xx, y as int),
                    ));
                }
                x = x + 1;
            }
            out.push('\n');
            proof {
                assert(Seq::new(
                    width as nat,
                    |xx: int| frame_char(t, g, p, xx, y as int),
                ) =~= Seq::new(grid_width(t) as nat, |xx: int| frame_char(t, g, p, xx, y as int)));
                assert(out@ =~= frame_prefix(t, g, p, y as int + 1));
            }
            y = y + 1;
        }
        out
    }
}

/// The character drawn for cell (x, y): the player, then ghosts, then the
/// background.
pub open spec fn frame_char(
    t: Seq<Vec<Background>>,
    g: Seq<(usize, usize)>,
    p: (usize, usize),
    x: int,
    y: int,
) -> char {
    if p == (x as usize, y as usize) {
        'P'
    } else if ghost_in(g, x, y) {
        'G'
    } else {
        match cell(t, x, y) {
            Background::Empty => ' ',
            Background::Wall => '#',
            Background::Food => '.',
        }
    }
}

/// One drawn row of the frame, closed by a newline.
pub open spec fn frame_row(
    t: Seq<Vec<Background>>,
    g: Seq<(usize, usize)>,
    p: (usize, usize),
    y: int,
) -> Seq<char> {
    Seq::new(grid_width(t) as nat, |x: int| frame_char(t, g, p, x, y)).push('\n')
}

/// The first `rows` drawn rows of the frame, in order.
pub open spec fn frame_prefix(
    t: Seq<Vec<Background>>,
    g: Seq<(usize, usize)>,
    p: (usize, usize),
    rows: int,
) -> Seq<char>
    decreases rows,
{
    if rows <= 0 {
        Seq::empty()
    } else {
        frame_prefix(t, g, p, rows - 1) + frame_row(t, g, p, rows - 1)
    }
}

/// The whole drawn frame: every row, top to bottom.
pub open spec fn frame_seq(
    t: Seq<Vec<Background>>,
    g: Seq<(usize, usize)>,
    p: (usize, usize),
) -> Seq<char> {
    frame_prefix(t, g, p, grid_height(t))
}

/// The cell one step in direction d from (x, y): 0 up, 1 down, 2 left,
/// 3 and above right (the ghost stepper's direction codes).
pub open spec fn dir_dest(x: int, y: int, d: int) -> (int, int) {
    if d == 0 {
        (x, y - 1)
    } else if d == 1 {
        (x, y + 1)
    } else if d == 2 {
        (x - 1, y)
    } else {
        (x + 1, y)
    }
}

/// During ghost i's move, cell (x, y) is closed to it: a wall or off the
/// grid, a ghost before it in the list (already moved, at its new place),
/// or a ghost after it (not yet moved, still at its old place).
pub open spec fn ghost_move_blocked(
    t: Seq<Vec<Background>>,
    gold: Seq<(usize, usize)>,
    gdone: Seq<(usize, usize)>,
    i: int,
    x: int,
    y: int,
) -> bool {
    ||| !cell_open(t, x, y)
    ||| exists|j: int| 0 <= j < gdone.len() && (#[trigger] gdone[j]) == (x as usize, y as usize)
    ||| exists|j: int| i < j < gold.len() && (#[trigger] gold[j]) == (x as usize, y as usize)
}

/// Ghost i had nowhere to go: every cardinal neighbour of its place was
/// closed to it when its turn came. gdone holds the new places of the
/// ghosts before it in the list.
pub open spec fn ghost_stuck(
    t: Seq<Vec<Background>>,
    gold: Seq<(usize, usize)>,
    gdone: Seq<(usize, usize)>,
    i: int,
) -> bool {
    forall|d: int|
        0 <= d < 4 ==> ghost_move_blocked(
            t,
            gold,
            gdone,
            i,
            (#[trigger] dir_dest(gold[i].0 as int, gold[i].1 as int, d)).0,
            dir_dest(gold[i].0 as int, gold[i].1 as int, d).1,
        )
}

/// b stands one cardinal step away from a.
pub open spec fn cardinal_neighbor(a: (usize, usize), b: (usize, usize)) -> bool {
    ||| (b.0 == a.0 && (b.1 as int == a.1 as int + 1 || b.1 as int == a.1 as int - 1))
    ||| (b.1 == a.1 && (b.0 as int == a.0 as int + 1 || b.0 as int == a.0 as int - 1))
}

/// One ghost's move in a tick: stay put, or step to an open neighbour cell.
pub open spec fn ghost_step_ok(
    t: Seq<Vec<Background>>,
    a: (usize, usize),
    b: (usize, usize),
) -> bool {
    cell_open(t, b.0 as int, b.1 as int) && (b == a || cardinal_neighbor(a, b))
}

/// The sequence lists each of the four direction codes exactly once.
pub open spec fn is_dir_perm(s: Seq<usize>) -> bool {
    &&& s.len() == 4
    &&& forall|i: int| 0 <= i < 4 ==> (#[trigger] s[i]) < 4
    &&& forall|i: int, j: int| 0 <= i < j < 4 ==> s[i] != s[j]
}

/// The k-th of the 24 fixed orders in which a ghost tries the four
/// directions, enumerated in lexicographic order of the codes.
pub open spec fn dir_perm_spec(k: int) -> Seq<usize> {
    if k == 0 {
        seq![0usize, 1, 2, 3]
    } else if k == 1 {
        seq![0usize, 1, 3, 2]
    } else if k == 2 {
        seq![0usize, 2, 1, 3]
    } else if k == 3 {
        seq![0usize, 2, 3, 1]
    } else if k == 4 {
        seq![0usize, 3, 1, 2]
    } else if k == 5 {
        seq![0usize, 3, 2, 1]
    } else if k == 6 {
        seq![1usize, 0, 2, 3]
    } else if k == 7 {
        seq![1usize, 0, 3, 2]
    } else if k == 8 {
        seq![1usize, 2, 0, 3]
    } else if k == 9 {
        seq![1usize, 2, 3, 0]
    } else if k == 10 {
        seq![1usize, 3, 0, 2]
    } else if k == 11 {
        seq![1usize, 3, 2, 0]
    } else if k == 12 {
        seq![2usize, 0, 1, 3]
    } else if k == 13 {
        seq![2usize, 0, 3, 1]
    } else if k == 14 {
        seq![2usize, 1, 0, 3]
    } else if k == 15 {
        seq![2usize, 1, 3, 0]
    } else if k == 16 {
        seq![2usize, 3, 0, 1]
    } else if k == 17 {
        seq![2usize, 3, 1, 0]
    } else if k == 18 {
        seq![3usize, 0, 1, 2]
    } else if k == 19 {
        seq![3usize, 0, 2, 1]
    } else if k == 20 {
        seq![3usize, 1, 0, 2]
    } else if k == 21 {
        seq![3usize, 1, 2, 0]
    } else if k == 22 {
        seq![3usize, 2, 0, 1]
    } else {
        seq![3usize, 2, 1, 0]
    }
}

/// The k-th of the 24 orders in which a ghost tries the four directions.
pub fn dir_permutation(k: usize) -> (p: [usize; 4])
    requires
        k < 24,
    ensures
        p@ == dir_perm_spec(k as int),
        is_dir_perm(p@),
{
    let p: [usize; 4] = match k {
        0 => [0, 1, 2, 3],
        1 => [0, 1, 3, 2],
        2 => [0, 2, 1, 3],
        3 => [0, 2, 3, 1],
        4 => [0, 3, 1, 2],
        5 => [0, 3, 2, 1],
        6 => [1, 0, 2, 3],
        7 => [1, 0, 3, 2],
        8 => [1, 2, 0, 3],
        9 => [1, 2, 3, 0],
        10 => [1, 3, 0, 2],
        11 => [1, 3, 2, 0],
        12 => [2, 0, 1, 3],
        13 => [2, 0, 3, 1],
        14 => [2, 1, 0, 3],
        15 => [2, 1, 3, 0],
        16 => [2, 3, 0, 1],
        17 => [2, 3, 1, 0],
        18 => [3, 0, 1, 2],
        19 => [3, 0, 2, 1],
        20 => [3, 1, 0, 2],
        21 => [3, 1, 2, 0],
        22 => [3, 2, 0, 1],
        _ => [3, 2, 1, 0],
    };
    proof {
        assert(p@ =~= dir_perm_spec(k as int));
    }
    p
}

} // verus!
