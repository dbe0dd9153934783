//! Players, their held actions, and movement against the four-corner
//! collision probe. Positions are in thousandths of a tile.
use vstd::prelude::*;
use crate::blast::at;
use crate::world::{World, Cells, in_bounds};

verus! {

/// Position units per tile.
pub const TILE: u64 = 1000;

/// Half the side of a player's square: 0.4 tile, so a player always fits
/// inside one tile.
pub const PLAYER_HALF: u64 = 400;

/// Distance moved along an axis per tick while its key is held.
pub const STEP: u64 = 5;

/// A player: position of its centre, bomb range, whether it lives, and how
/// many players its explosions have killed.
#[derive(Clone, Copy, Debug, PartialEq, Eq, Structural)]
pub struct Player {
    pub x: u64,
    pub y: u64,
    pub bomb_range: u64,
    pub alive: bool,
    pub kill_score: u64,
}

/// The actions a player holds during one tick. `up` raises `y`, `right`
/// raises `x`.
#[derive(Clone, Copy, Debug, PartialEq, Eq, Structural)]
pub struct Input {
    pub up: bool,
    pub down: bool,
    pub left: bool,
    pub right: bool,
    pub bomb: bool,
}

/// `v + 1`, staying at the largest value.
pub open spec fn bump(v: u64) -> u64 {
    if v < u64::MAX {
        (v + 1) as u64
    } else {
        v
    }
}

/// The tile index of a coordinate.
pub open spec fn tile_of(c: int) -> int {
    c / TILE as int
}

/// A player centred at `(x, y)` lies wholly inside the grid's interior, so
/// all four corners are away from the outer ring.
pub open spec fn placed(x: int, y: int, h: int, w: int) -> bool {
    &&& TILE + PLAYER_HALF <= x
    &&& x + PLAYER_HALF < (w - 1) * TILE
    &&& TILE + PLAYER_HALF <= y
    &&& y + PLAYER_HALF < (h - 1) * TILE
}

/// A move along x to `nx` is blocked: one of the two leading corners (right
/// ones when `rightward`, else left ones) lies on a wall or a breakable tile.
pub open spec fn blocked_x(g: Cells, nx: int, y: int, rightward: bool) -> bool {
    let lx = if rightward { nx + PLAYER_HALF } else { nx - PLAYER_HALF };
    at(g, tile_of(lx), tile_of(y - PLAYER_HALF)).is_solid() || at(g, tile_of(lx), tile_of(y + PLAYER_HALF)).is_solid()
}

/// A move along y to `ny` is blocked: one of the two leading corners (upper
/// ones when `upward`, else lower ones) lies on a wall or a breakable tile.
pub open spec fn blocked_y(g: Cells, x: int, ny: int, upward: bool) -> bool {
    let ly = if upward { ny + PLAYER_HALF } else { ny - PLAYER_HALF };
    at(g, tile_of(x - PLAYER_HALF), tile_of(ly)).is_solid() || at(g, tile_of(x + PLAYER_HALF), tile_of(ly)).is_solid()
}

/// The new x of a player at `(x, y)`: one step towards the one held
/// horizontal key unless the probe blocks it.
pub open spec fn step_x(g: Cells, x: int, y: int, input: Input) -> int {
    if input.right && !input.left {
        if blocked_x(g, x + STEP, y, true) { x } else { x + STEP }
    } else if input.left && !input.right {
        if blocked_x(g, x - STEP, y, false) { x } else { x - STEP }
    } else {
        x
    }
}

/// The new y of a player at `(x, y)`: one step towards the one held
/// vertical key unless the probe blocks it.
pub open spec fn step_y(g: Cells, x: int, y: int, input: Input) -> int {
    if input.up && !input.down {
        if blocked_y(g, x, y + STEP, true) { y } else { y + STEP }
    } else if input.down && !input.up {
        if blocked_y(g, x, y - STEP, false) { y } else { y - STEP }
    } else {
        y
    }
}

/// `p` after moving: x first, then y from the new x, each axis clipped on
/// its own so that a blocked axis leaves the other free.
pub open spec fn moved(g: Cells, p: Player, input: Input) -> Player {
    let nx = step_x(g, p.x as int, p.y as int, input);
    Player { x: nx as u64, y: step_y(g, nx, p.y as int, input) as u64, ..p }
}

/// Each axis is clipped on its own: a blocked horizontal move leaves x
/// where it was while an unblocked vertical move still applies, and a
/// blocked vertical move leaves y where it was while x still moves.
pub proof fn lemma_axis_sliding(g: Cells, p: Player, input: Input)
    requires
        STEP <= p.x <= u64::MAX - STEP,
        STEP <= p.y <= u64::MAX - STEP,
    ensures
        (input.right && !input.left && blocked_x(g, p.x + STEP, p.y as int, true)) ==> moved(g, p, input).x == p.x,
        (input.left && !input.right && blocked_x(g, p.x - STEP, p.y as int, false)) ==> moved(g, p, input).x == p.x,
        moved(g, p, input).x == step_x(g, p.x as int, p.y as int, input),
        (input.up && !input.down && moved(g, p, input).x == p.x && !blocked_y(g, p.x as int, p.y + STEP, true)) ==> moved(g, p, input).y == p.y + STEP,
        (input.down && !input.up && moved(g, p, input).x == p.x && !blocked_y(g, p.x as int, p.y - STEP, false)) ==> moved(g, p, input).y == p.y - STEP,
        (input.up && !input.down && blocked_y(g, moved(g, p, input).x as int, p.y + STEP, true)) ==> moved(
            g,
            p,
            input,
        ).y == p.y,
        (input.down && !input.up && blocked_y(g, moved(g, p, input).x as int, p.y - STEP, false)) ==> moved(
            g,
            p,
            input,
        ).y == p.y,
{
}

impl Player {
    /// A fresh player at the centre of tile `(cx, cy)`: range 1, alive, no
    /// kills.
    pub fn at_tile(cx: usize, cy: usize) -> (r: Player)
        requires
            cx < crate::world::MAX_SIDE,
            cy < crate::world::MAX_SIDE,
        ensures
            r.x == cx * TILE + TILE / 2,
            r.y == cy * TILE + TILE / 2,
            r.bomb_range == 1,
            r.alive,
            r.kill_score == 0,
    {
        Player {
            x: cx as u64 * TILE + TILE / 2,
            y: cy as u64 * TILE + TILE / 2,
            bomb_range: 1,
            alive: true,
            kill_score: 0,
        }
    }
}

impl World {
    /// Whether the content at `(tx, ty)` blocks movement.
    fn solid_at(&self, tx: u64, ty: u64) -> (r: bool)
        requires
            self.wf(),
            in_bounds(tx as int, ty as int, self.spec_height(), self.spec_width()),
        ensures
            r == at(self.cells(), tx as int, ty as int).is_solid(),
    {
        self.get(tx as usize, ty as usize).solid()
    }

    /// The collision probe for a move along x to `nx` by a player at height
    /// `y`.
    pub fn probe_x(&self, nx: u64, y: u64, rightward: bool) -> (r: bool)
        requires
            self.wf(),
            TILE + PLAYER_HALF <= y,
            y + PLAYER_HALF < (self.spec_height() - 1) * TILE,
            PLAYER_HALF <= nx,
            nx + PLAYER_HALF < self.spec_width() * TILE,
        ensures
            r == blocked_x(self.cells(), nx as int, y as int, rightward),
    {
        let lx = if rightward { nx + PLAYER_HALF } else { nx - PLAYER_HALF };
        self.solid_at(lx / TILE, (y - PLAYER_HALF) / TILE) || self.solid_at(lx / TILE, (y + PLAYER_HALF) / TILE)
    }

    /// The collision probe for a move along y to `ny` by a player at `x`.
    pub fn probe_y(&self, x: u64, ny: u64, upward: bool) -> (r: bool)
        requires
            self.wf(),
            TILE + PLAYER_HALF <= x,
            x + PLAYER_HALF < (self.spec_width() - 1) * TILE,
            PLAYER_HALF <= ny,
            ny + PLAYER_HALF < self.spec_height() * TILE,
        ensures
            r == blocked_y(self.cells(), x as int, ny as int, upward),
    {
        let ly = if upward { ny + PLAYER_HALF } else { ny - PLAYER_HALF };
        self.solid_at((x - PLAYER_HALF) / TILE, ly / TILE) || self.solid_at((x + PLAYER_HALF) / TILE, ly / TILE)
    }

    /// Moves `p` by its held direction keys, x first and then y, each axis
    /// gated by its own probe.
    pub fn move_player(&self, p: Player, input: Input) -> (r: Player)
        requires
            self.wf(),
            placed(p.x as int, p.y as int, self.spec_height(), self.spec_width()),
        ensures
            r == moved(self.cells(), p, input),
            placed(r.x as int, r.y as int, self.spec_height(), self.spec_width()),
    {
        let mut x = p.x;
        if input.right && !input.left {
            if !self.probe_x(x + STEP, p.y, true) {
                x = x + STEP;
            }
        } else if input.left && !input.right {
            if !self.probe_x(x - STEP, p.y, false) {
                x = x - STEP;
            }
        }
        let mut y = p.y;
        if input.up && !input.down {
            if !self.probe_y(x, y + STEP, true) {
                y = y + STEP;
            }
        } else if input.down && !input.up {
            if !self.probe_y(x, y - STEP, false) {
                y = y - STEP;
            }
        }
        Player { x, y, ..p }
    }
}

} // verus!
