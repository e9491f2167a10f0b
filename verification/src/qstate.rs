use vstd::prelude::*;
use vstd::arithmetic::div_mod::lemma_fundamental_div_mod;
use vstd::arithmetic::div_mod::lemma_fundamental_div_mod_converse;
use crate::board::Background;
use crate::board::Board;
use crate::board::cell;
use crate::board::cell_in_bounds;
use crate::board::grid_ok;
use crate::board::grid_width;
use crate::board::grid_height;
use crate::board::ghosts_open;

verus! {

/// Number of cells in the agent's local view: a 5 by 5 window around the
/// player, the centre cell excluded.
pub const VIEW_SLOTS: usize = 24;

/// What the agent sees in one cell of its local view.
#[derive(Clone, Copy, PartialEq, Eq, Structural, Debug)]
pub enum Tile {
    Empty,
    Phantom,
    Wall,
    Food,
}

/// The view classification of a background cell.
pub open spec fn classify(b: Background) -> Tile {
    match b {
        Background::Empty => Tile::Empty,
        Background::Wall => Tile::Wall,
        Background::Food => Tile::Food,
    }
}

/// The linear index in the full 5 by 5 window of view slot i, skipping the
/// centre cell (window index 12).
pub open spec fn slot_window(i: int) -> int {
    if i < 12 {
        i
    } else {
        i + 1
    }
}

/// Horizontal offset from the player of view slot i.
pub open spec fn slot_dx(i: int) -> int {
    slot_window(i) % 5 - 2
}

/// Vertical offset from the player of view slot i.
pub open spec fn slot_dy(i: int) -> int {
    slot_window(i) / 5 - 2
}

/// The view slot of offset (dx, dy); defined for offsets within the window
/// other than the centre.
pub open spec fn offset_slot(dx: int, dy: int) -> int {
    let w = (dx + 2) + 5 * (dy + 2);
    if w < 12 {
        w
    } else {
        w - 1
    }
}

/// Every view slot's offset lies in the window, is not the centre, and maps
/// back to the slot.
pub proof fn lemma_slot_offset(i: int)
    requires
        0 <= i < 24,
    ensures
        -2 <= slot_dx(i) <= 2,
        -2 <= slot_dy(i) <= 2,
        !(slot_dx(i) == 0 && slot_dy(i) == 0),
        offset_slot(slot_dx(i), slot_dy(i)) == i,
{
    let w = slot_window(i);
    lemma_fundamental_div_mod(w, 5);
}

/// Every non-centre offset in the window has a slot, whose offset it is.
pub proof fn lemma_offset_slot(dx: int, dy: int)
    requires
        -2 <= dx <= 2,
        -2 <= dy <= 2,
        !(dx == 0 && dy == 0),
    ensures
        0 <= offset_slot(dx, dy) < 24,
        slot_dx(offset_slot(dx, dy)) == dx,
        slot_dy(offset_slot(dx, dy)) == dy,
{
    let w = (dx + 2) + 5 * (dy + 2);
    lemma_fundamental_div_mod_converse(w, 5, dy + 2, dx + 2);
}

/// Some ghost of the list stands on the cell with integer coordinates
/// (x, y).
pub open spec fn ghost_on(g: Seq<(usize, usize)>, x: int, y: int) -> bool {
    exists|i: int| 0 <= i < g.len() && (#[trigger] g[i]).0 == x && g[i].1 == y
}

/// The background a view slot shows before ghosts are drawn in: the tile at
/// the slot's offset from the player, or Empty outside the grid.
pub open spec fn base_tile(t: Seq<Vec<Background>>, px: int, py: int, i: int) -> Tile {
    let x = px + slot_dx(i);
    let y = py + slot_dy(i);
    if cell_in_bounds(t, x, y) {
        classify(cell(t, x, y))
    } else {
        Tile::Empty
    }
}

/// What view slot i shows: a ghost on the slot's cell hides the background.
pub open spec fn view_slot(
    t: Seq<Vec<Background>>,
    g: Seq<(usize, usize)>,
    px: int,
    py: int,
    i: int,
) -> Tile {
    if ghost_on(g, px + slot_dx(i), py + slot_dy(i)) {
        Tile::Phantom
    } else {
        base_tile(t, px, py, i)
    }
}

/// The agent's whole local view of a board: one tile per view slot.
pub open spec fn q_state_view(
    t: Seq<Vec<Background>>,
    g: Seq<(usize, usize)>,
    p: (usize, usize),
) -> Seq<Tile> {
    Seq::new(VIEW_SLOTS as nat, |i: int| view_slot(t, g, p.0 as int, p.1 as int, i))
}

/// The agent's encoded local state: the classified 5 by 5 neighbourhood of
/// the player, centre excluded, used as an exact-match lookup key.
#[derive(Clone, PartialEq, Eq, Debug)]
pub struct QState {
    pub surroundings: Vec<Tile>,
}

impl QState {
    /// A well-formed state fills every view slot.
    pub open spec fn wf(self) -> bool {
        self.surroundings@.len() == VIEW_SLOTS
    }

    pub open spec fn view_seq(self) -> Seq<Tile> {
        self.surroundings@
    }
}

/// The view classification of the board cell at the given coordinates.
pub fn tile_at_coord(board: &Board, coord: (usize, usize)) -> (r: Tile)
    requires
        grid_ok(board.tiles@),
        board.in_bounds(coord.0 as int, coord.1 as int),
    ensures
        r == classify(cell(board.tiles@, coord.0 as int, coord.1 as int)),
{
    match board.tiles[coord.1][coord.0] {
        Background::Empty => Tile::Empty,
        Background::Wall => Tile::Wall,
        Background::Food => Tile::Food,
    }
}

/// Encode the local state around the player: classify each cell of the
/// 5 by 5 window (centre excluded, cells beyond the grid count as Empty),
/// then draw every ghost within the window into its slot.
///
/// The encoding is a pure function of the grid, the ghost list and the
/// player position; the generator state plays no part.
pub fn make_q_state(board: &Board) -> (q: QState)
    requires
        grid_ok(board.tiles@),
        board.in_bounds(board.pacman.0 as int, board.pacman.1 as int),
        ghosts_open(board.tiles@, board.ghosts@),
    ensures
        q.wf(),
        q.view_seq() == q_state_view(board.tiles@, board.ghosts@, board.pacman),
{
    let ghost t = board.tiles@;
    let ghost g = board.ghosts@;
    let (px, py) = board.pacman;
    let width = board.tiles[0].len();
    let height = board.tiles.len();
    let mut surroundings: Vec<Tile> = Vec::new();
    let mut i: usize = 0;
    while i < VIEW_SLOTS
        invariant
            grid_ok(t),
            board.tiles@ == t,
            board.ghosts@ == g,
            (px, py) == board.pacman,
            cell_in_bounds(t, px as int, py as int),
            width == grid_width(t),
            height == grid_height(t),
            i <= VIEW_SLOTS,
            surroundings@.len() == i,
            forall|k: int| 0 <= k < i ==> surroundings@[k] == base_tile(t, px as int, py as int, k),
        decreases VIEW_SLOTS - i,
    {
        let w: usize = if i < 12 {
            i
        } else {
            i + 1
        };
        let dx: i64 = (w % 5) as i64 - 2;
        let dy: i64 = (w / 5) as i64 - 2;
        let x: i64 = px as i64 + dx;
        let y: i64 = py as i64 + dy;
        proof {
            assert(dx == slot_dx(i as int));
            assert(dy == slot_dy(i as int));
        }
        let tile = if x >= 0 && y >= 0 && (x as usize) < width && (y as usize) < height {
            tile_at_coord(board, (x as usize, y as usize))
        } else {
            Tile::Empty
        };
        surroundings.push(tile);
        i = i + 1;
    }
    let mut gi: usize = 0;
    while gi < board.ghosts.len()
        invariant
            grid_ok(t),
            board.tiles@ == t,
            board.ghosts@ == g,
            (px, py) == board.pacman,
            cell_in_bounds(t, px as int, py as int),
            ghosts_open(t, g),
            gi <= g.len(),
            surroundings@.len() == VIEW_SLOTS,
            forall|k: int|
                0 <= k < VIEW_SLOTS ==> surroundings@[k] == view_slot(
                    t,
                    g.subrange(0, gi as int),
                    px as int,
                    py as int,
                    k,
                ),
        decreases g.len() - gi,
    {
        let (gx, gy) = board.ghosts[gi];
        let ghost gprev = g.subrange(0, gi as int);
        let ghost gnext = g.subrange(0, gi as int + 1);
        proof {
            assert(gnext =~= gprev.push(g[gi as int]));
        }
        let dxg: i64 = gx as i64 - px as i64;
        let dyg: i64 = gy as i64 - py as i64;
        if -2 <= dxg && dxg <= 2 && -2 <= dyg && dyg <= 2 && !(dxg == 0 && dyg == 0) {
            let w: i64 = (dxg + 2) + 5 * (dyg + 2);
            let slot: usize = if w < 12 {
                w as usize
            } else {
                (w - 1) as usize
            };
            proof {
                lemma_offset_slot(dxg as int, dyg as int);
                assert(slot as int == offset_slot(dxg as int, dyg as int));
            }
            surroundings[slot] = Tile::Phantom;
            proof {
                assert forall|k: int| 0 <= k < VIEW_SLOTS implies surroundings@[k] == view_slot(
                    t,
                    gnext,
                    px as int,
                    py as int,
                    k,
                ) by {
                    lemma_slot_offset(k);
                    if k == slot as int {
                        assert(px as int + slot_dx(k) == gx as int);
                        assert(py as int + slot_dy(k) == gy as int);
                        assert(gnext[gi as int] == (gx, gy));
                        assert(ghost_on(gnext, gx as int, gy as int));
                    } else {
                        if px as int + slot_dx(k) == gx as int && py as int + slot_dy(k)
                            == gy as int {
                            assert(offset_slot(slot_dx(k), slot_dy(k)) == slot as int);
                            assert(false);
                        }
                        assert(ghost_on(gnext, px as int + slot_dx(k), py as int + slot_dy(k))
                            == ghost_on(gprev, px as int + slot_dx(k), py as int + slot_dy(k)));
                    }
                }
            }
        } else {
            proof {
                assert forall|k: int| 0 <= k < VIEW_SLOTS implies surroundings@[k] == view_slot(
                    t,
                    gnext,
                    px as int,
                    py as int,
                    k,
                ) by {
                    lemma_slot_offset(k);
                    assert(ghost_on(gnext, px as int + slot_dx(k), py as int + slot_dy(k))
                        == ghost_on(gprev, px as int + slot_dx(k), py as int + slot_dy(k)));
                }
            }
        }
        gi = gi + 1;
    }
    proof {
        assert(g.subrange(0, g.len() as int) =~= g);
        assert(surroundings@ =~= q_state_view(t, g, board.pacman));
    }
    QState { surroundings }
}

/// Four to the power n.
pub open spec fn pow4(n: int) -> int
    decreases n,
{
    if n <= 0 {
        1
    } else {
        4 * pow4(n - 1)
    }
}

/// The base-4 digit a view tile contributes to the state key.
pub open spec fn tile_code(t: Tile) -> int {
    match t {
        Tile::Empty => 0,
        Tile::Phantom => 1,
        Tile::Wall => 2,
        Tile::Food => 3,
    }
}

/// The key value contributed by the first n view slots: slot i weighs
/// 4 to the power i.
pub open spec fn key_prefix(s: Seq<Tile>, n: int) -> int
    decreases n,
{
    if n <= 0 {
        0
    } else {
        key_prefix(s, n - 1) + tile_code(s[n - 1]) * pow4(n - 1)
    }
}

/// The lookup key of a full local view: its 24 tiles read as base-4 digits.
pub open spec fn state_key_of(s: Seq<Tile>) -> int {
    key_prefix(s, VIEW_SLOTS as int)
}

pub proof fn lemma_pow4_pos(n: int)
    ensures
        pow4(n) >= 1,
    decreases n,
{
    if n > 0 {
        lemma_pow4_pos(n - 1);
    }
}

pub proof fn lemma_pow4_mono(a: int, b: int)
    requires
        a <= b,
    ensures
        pow4(a) <= pow4(b),
    decreases b - a,
{
    if a < b {
        lemma_pow4_mono(a, b - 1);
        lemma_pow4_pos(b - 1);
    }
}

pub proof fn lemma_pow4_24()
    ensures
        pow4(24) == 0x1_0000_0000_0000,
{
    reveal_with_fuel(pow4, 25);
}

/// The key value of n slots stays below 4 to the power n.
pub proof fn lemma_key_prefix_bound(s: Seq<Tile>, n: int)
    ensures
        0 <= key_prefix(s, n) < pow4(n),
    decreases n,
{
    if n <= 0 {
        lemma_pow4_pos(n);
    } else {
        lemma_key_prefix_bound(s, n - 1);
        lemma_pow4_pos(n - 1);
        let c = tile_code(s[n - 1]);
        let p = pow4(n - 1);
        assert(0 <= c <= 3);
        assert(c * p <= 3 * p) by (nonlinear_arith)
            requires
                0 <= c <= 3,
                p >= 1,
        ;
        assert(c * p >= 0) by (nonlinear_arith)
            requires
                0 <= c,
                p >= 1,
        ;
    }
}

/// Equal key values of n slots force the first n slots to agree.
proof fn lemma_key_prefix_injective(s1: Seq<Tile>, s2: Seq<Tile>, n: int)
    requires
        n <= s1.len(),
        n <= s2.len(),
        key_prefix(s1, n) == key_prefix(s2, n),
    ensures
        forall|i: int| 0 <= i < n ==> s1[i] == s2[i],
    decreases n,
{
    if n > 0 {
        let p = pow4(n - 1);
        let c1 = tile_code(s1[n - 1]);
        let c2 = tile_code(s2[n - 1]);
        let r1 = key_prefix(s1, n - 1);
        let r2 = key_prefix(s2, n - 1);
        lemma_key_prefix_bound(s1, n - 1);
        lemma_key_prefix_bound(s2, n - 1);
        lemma_pow4_pos(n - 1);
        assert(c1 == c2 && r1 == r2) by (nonlinear_arith)
            requires
                p >= 1,
                0 <= r1 < p,
                0 <= r2 < p,
                0 <= c1 <= 3,
                0 <= c2 <= 3,
                c1 * p + r1 == c2 * p + r2,
        ;
        assert(s1[n - 1] == s2[n - 1]);
        lemma_key_prefix_injective(s1, s2, n - 1);
    }
}

/// The state key is injective: two full views with the same key are the
/// same view, so keying the table by the integer loses nothing against
/// keying it by the view itself.
pub proof fn lemma_state_key_injective(s1: Seq<Tile>, s2: Seq<Tile>)
    requires
        s1.len() == VIEW_SLOTS,
        s2.len() == VIEW_SLOTS,
        state_key_of(s1) == state_key_of(s2),
    ensures
        s1 == s2,
{
    lemma_key_prefix_injective(s1, s2, VIEW_SLOTS as int);
    assert(s1 =~= s2);
}

impl QState {
    /// The integer lookup key of this state: the 24 view tiles packed as
    /// base-4 digits, slot 0 least significant.
    pub fn state_key(&self) -> (k: u64)
        requires
            self.wf(),
        ensures
            k as int == state_key_of(self.view_seq()),
    {
        let mut key: u64 = 0;
        let mut mult: u64 = 1;
        let mut i: usize = 0;
        while i < VIEW_SLOTS
            invariant
                self.wf(),
                i <= VIEW_SLOTS,
                mult as int == pow4(i as int),
                key as int == key_prefix(self.surroundings@, i as int),
            decreases VIEW_SLOTS - i,
        {
            proof {
                lemma_key_prefix_bound(self.surroundings@, i as int);
                lemma_pow4_mono(i as int, 23);
                lemma_pow4_24();
                assert(pow4(24) == 4 * pow4(23));
                let c = tile_code(self.surroundings@[i as int]);
                assert(c * pow4(i as int) <= 3 * pow4(23)) by (nonlinear_arith)
                    requires
                        0 <= c <= 3,
                        1 <= pow4(i as int) <= pow4(23),
                ;
                lemma_pow4_pos(i as int);
            }
            let code: u64 = match self.surroundings[i] {
                Tile::Empty => 0,
                Tile::Phantom => 1,
                Tile::Wall => 2,
                Tile::Food => 3,
            };
            key = key + code * mult;
            mult = mult * 4;
            i = i + 1;
        }
        key
    }
}

/// The local-state encoding is a pure function of the grid, the ghost list
/// and the player position: two boards that agree on those three parts
/// yield the same encoding, whatever else (such as the generator state)
/// differs between them.
pub proof fn lemma_q_state_pure(b1: Board, b2: Board)
    requires
        b1.tiles@ == b2.tiles@,
        b1.ghosts@ == b2.ghosts@,
        b1.pacman == b2.pacman,
    ensures
        q_state_view(b1.tiles@, b1.ghosts@, b1.pacman) == q_state_view(
            b2.tiles@,
            b2.ghosts@,
            b2.pacman,
        ),
{
}

} // verus!
