//! What a single tile of the grid holds.
use vstd::prelude::*;

verus! {

/// Milliseconds between placing a bomb and its detonation.
pub const FUSE_MS: u64 = 3000;

/// Milliseconds an explosion tile stays lethal before it decays.
pub const EXPLOSION_LIFETIME_MS: u64 = 3000;

/// The content of one tile. Exactly one per cell.
#[derive(Clone, Copy, Debug, PartialEq, Eq, Structural)]
pub enum Content {
    /// Walkable background.
    Empty,
    /// Permanent, blocks movement and stops explosions.
    Wall,
    /// Blocks movement; absorbs one explosion arrival.
    Breakable,
    /// A bomb placed at `placed_at` (milliseconds) by player `owner`.
    Bomb { placed_at: u64, owner: usize },
    /// A lethal explosion started at `started_at` by player `source`'s bomb.
    Explosion { started_at: u64, source: usize },
    /// Initial placement of a player; walkable like `Empty`.
    SpawnPoint,
    /// Walkable; picking it up raises the bomb range.
    Bonus,
}

/// True when `start + duration` lies at or before `now`.
pub open spec fn has_elapsed(start: u64, duration: u64, now: u64) -> bool {
    start as int + duration as int <= now as int
}

impl Content {
    /// Blocks a player's movement: a wall or a breakable tile.
    pub open spec fn is_solid(self) -> bool {
        self is Wall || self is Breakable
    }

    /// Whether this content blocks a player's movement.
    pub fn solid(&self) -> (r: bool)
        ensures
            r == self.is_solid(),
    {
        match self {
            Content::Wall | Content::Breakable => true,
            _ => false,
        }
    }
}

/// Executable form of [`has_elapsed`], free of overflow.
pub fn elapsed(start: u64, duration: u64, now: u64) -> (r: bool)
    ensures
        r == has_elapsed(start, duration, now),
{
    start <= now && now - start >= duration
}

} // verus!
