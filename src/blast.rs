//! Bomb detonation and the once-per-tick sweep over the grid.
use vstd::prelude::*;
use vstd::set_lib::{set_int_range, lemma_int_range};
use crate::content::{Content, has_elapsed, elapsed, FUSE_MS, EXPLOSION_LIFETIME_MS};
use crate::rng::{Rng, lcg, pick};
use crate::world::{World, Cells, in_bounds, on_border, shaped, bordered, set_cell};

verus! {

/// Percent chance that a decaying explosion leaves a bonus.
pub const BONUS_PERCENT: u64 = 10;

/// The content at `(x, y)`, reading everything outside the grid as a wall.
pub open spec fn at(g: Cells, x: int, y: int) -> Content {
    if 0 <= y < g.len() && 0 <= x < g[y].len() {
        g[y][x]
    } else {
        Content::Wall
    }
}

/// The cell `i` steps from `(bx, by)` in direction `d`: 0 is +x, 1 is -x,
/// 2 is +y, 3 is -y.
pub open spec fn ray_pos(bx: int, by: int, d: int, i: int) -> (int, int) {
    if d == 0 {
        (bx + i, by)
    } else if d == 1 {
        (bx - i, by)
    } else if d == 2 {
        (bx, by + i)
    } else {
        (bx, by - i)
    }
}

/// How many steps from `(bx, by)` in direction `d` the cell `(x, y)` lies;
/// 0 or less when it is not on that ray.
pub open spec fn ray_index(bx: int, by: int, d: int, x: int, y: int) -> int {
    if d == 0 && y == by {
        x - bx
    } else if d == 1 && y == by {
        bx - x
    } else if d == 2 && x == bx {
        y - by
    } else if d == 3 && x == bx {
        by - y
    } else {
        0
    }
}

/// The content `i` steps along the ray.
pub open spec fn ray_cell(g: Cells, bx: int, by: int, d: int, i: int) -> Content {
    at(g, ray_pos(bx, by, d, i).0, ray_pos(bx, by, d, i).1)
}

/// A blast of range `range` from `(bx, by)` reaches the cell `i` steps
/// along direction `d`: `i` is within range, nothing solid lies before it,
/// and it is not a wall.
pub open spec fn reaches(g: Cells, bx: int, by: int, d: int, range: int, i: int) -> bool {
    &&& 1 <= i <= range
    &&& forall|j: int| 1 <= j < i ==> !(#[trigger] ray_cell(g, bx, by, d, j)).is_solid()
    &&& ray_cell(g, bx, by, d, i) != Content::Wall
}

/// The cells of direction `d` that lie 1 to `n - 1` steps out set to `stamp`.
pub open spec fn ray_prefix(g: Cells, bx: int, by: int, d: int, n: int, stamp: Content) -> Cells {
    Seq::new(
        g.len(),
        |y: int|
            Seq::new(
                g[y].len(),
                |x: int|
                    if 1 <= ray_index(bx, by, d, x, y) < n {
                        stamp
                    } else {
                        g[y][x]
                    },
            ),
    )
}

/// `g` after one ray of a blast: every reached cell of direction `d` holds
/// `stamp`.
pub open spec fn ray_applied(
    g: Cells,
    bx: int,
    by: int,
    d: int,
    range: int,
    stamp: Content,
) -> Cells {
    Seq::new(
        g.len(),
        |y: int|
            Seq::new(
                g[y].len(),
                |x: int|
                    if reaches(g, bx, by, d, range, ray_index(bx, by, d, x, y)) {
                        stamp
                    } else {
                        g[y][x]
                    },
            ),
    )
}

/// The blast reaches `(x, y)` along one of the four directions.
pub open spec fn blast_hits(g: Cells, bx: int, by: int, range: int, x: int, y: int) -> bool {
    ||| reaches(g, bx, by, 0, range, ray_index(bx, by, 0, x, y))
    ||| reaches(g, bx, by, 1, range, ray_index(bx, by, 1, x, y))
    ||| reaches(g, bx, by, 2, range, ray_index(bx, by, 2, x, y))
    ||| reaches(g, bx, by, 3, range, ray_index(bx, by, 3, x, y))
}

/// `g` after a bomb at `(bx, by)` with range `range` detonates: the bomb's
/// own cell and every reached cell hold `stamp`, all others are unchanged.
pub open spec fn blasted(g: Cells, bx: int, by: int, range: int, stamp: Content) -> Cells {
    Seq::new(
        g.len(),
        |y: int|
            Seq::new(
                g[y].len(),
                |x: int|
                    if (x == bx && y == by) || blast_hits(g, bx, by, range, x, y) {
                        stamp
                    } else {
                        g[y][x]
                    },
            ),
    )
}

/// The range of `owner`'s bombs; 0 for an owner with no entry.
pub open spec fn range_of(ranges: Seq<u64>, owner: usize) -> int {
    if owner < ranges.len() {
        ranges[owner as int] as int
    } else {
        0
    }
}

/// What an expired explosion decays into, given a percent draw.
pub open spec fn decay_result(roll: u64) -> Content {
    if roll < BONUS_PERCENT {
        Content::Bonus
    } else {
        Content::Empty
    }
}

/// Of the hundred equally likely percent draws, exactly `BONUS_PERCENT`
/// turn an expired explosion into a bonus; all others leave empty ground.
pub proof fn lemma_bonus_share()
    ensures
        Set::new(|r: int| 0 <= r < 100 && decay_result(r as u64) == Content::Bonus).finite(),
        Set::new(|r: int| 0 <= r < 100 && decay_result(r as u64) == Content::Bonus).len() == BONUS_PERCENT,
        forall|r: u64| #[trigger] decay_result(r) == Content::Bonus || decay_result(r) == Content::Empty,
{
    assert(Set::new(|r: int| 0 <= r < 100 && decay_result(r as u64) == Content::Bonus) =~= set_int_range(0, 10));
    lemma_int_range(0, 10);
}

/// An explosion whose lifetime has run out by `now`.
pub open spec fn is_stale(c: Content, now: u64) -> bool {
    match c {
        Content::Explosion { started_at, .. } => has_elapsed(started_at, EXPLOSION_LIFETIME_MS, now),
        _ => false,
    }
}

/// A bomb's owner or an explosion's source is a player below `n`.
pub open spec fn owner_ok(c: Content, n: int) -> bool {
    match c {
        Content::Bomb { owner, .. } => owner < n,
        Content::Explosion { source, .. } => source < n,
        _ => true,
    }
}

/// Every bomb and explosion of `g` names a player below `n`.
pub open spec fn owners_below(g: Cells, n: int) -> bool {
    forall|y: int, x: int| 0 <= y < g.len() && 0 <= x < g[y].len() ==> owner_ok(#[trigger] g[y][x], n)
}

/// The grid and random state after the sweep visits `(x, y)` at time `now`:
/// an expired bomb detonates with its owner's range, stamping explosions
/// that start now; an expired explosion draws a percent and decays; any
/// other cell stays.
pub open spec fn settle_cell(g: Cells, s: u64, x: int, y: int, now: u64, ranges: Seq<u64>) -> (Cells, u64) {
    match g[y][x] {
        Content::Bomb { placed_at, owner } => if has_elapsed(placed_at, FUSE_MS, now) {
            (blasted(g, x, y, range_of(ranges, owner), Content::Explosion { started_at: now, source: owner }), s)
        } else {
            (g, s)
        },
        Content::Explosion { started_at, .. } => if has_elapsed(started_at, EXPLOSION_LIFETIME_MS, now) {
            (set_cell(g, x, y, decay_result(pick(lcg(s), 100))), lcg(s))
        } else {
            (g, s)
        },
        _ => (g, s),
    }
}

/// The sweep over the first `n` cells of row `y`, left to right.
pub open spec fn settle_row(g: Cells, s: u64, y: int, n: nat, now: u64, ranges: Seq<u64>) -> (Cells, u64)
    decreases n,
{
    if n == 0 {
        (g, s)
    } else {
        let p = settle_row(g, s, y, (n - 1) as nat, now, ranges);
        settle_cell(p.0, p.1, n - 1, y, now, ranges)
    }
}

/// The sweep over the first `n` rows, top to bottom.
pub open spec fn settle_rows(g: Cells, s: u64, n: nat, now: u64, ranges: Seq<u64>) -> (Cells, u64)
    decreases n,
{
    if n == 0 {
        (g, s)
    } else {
        let p = settle_rows(g, s, (n - 1) as nat, now, ranges);
        settle_row(p.0, p.1, n - 1, p.0[n - 1].len() as nat, now, ranges)
    }
}

/// The sweep has work at a cell holding `c`: an expired bomb or an expired
/// explosion.
pub open spec fn is_due(c: Content, now: u64) -> bool {
    match c {
        Content::Bomb { placed_at, .. } => has_elapsed(placed_at, FUSE_MS, now),
        Content::Explosion { started_at, .. } => has_elapsed(started_at, EXPLOSION_LIFETIME_MS, now),
        _ => false,
    }
}

/// A blast stamps the bomb's cell; along each direction it stamps exactly
/// the reached cells and leaves every other cell as it was; a wall is never
/// stamped and stops the ray; at most one breakable tile is consumed per
/// direction, and it ends the ray.
pub proof fn lemma_blast_shape(g: Cells, bx: int, by: int, range: int, stamp: Content)
    requires
        0 <= by < g.len(),
        0 <= bx < g[by].len(),
    ensures
        blasted(g, bx, by, range, stamp)[by][bx] == stamp,
        forall|d: int, i: int|
            0 <= d < 4 && #[trigger] reaches(g, bx, by, d, range, i) ==> at(
                blasted(g, bx, by, range, stamp),
                ray_pos(bx, by, d, i).0,
                ray_pos(bx, by, d, i).1,
            ) == stamp,
        forall|d: int, i: int, j: int|
            0 <= d < 4 && 1 <= i <= j && #[trigger] ray_cell(g, bx, by, d, i) == Content::Wall ==> !#[trigger] reaches(
                g,
                bx,
                by,
                d,
                range,
                j,
            ),
        forall|d: int, i: int, j: int|
            0 <= d < 4 && i < j && #[trigger] reaches(g, bx, by, d, range, i) && #[trigger] reaches(g, bx, by, d, range, j)
                ==> ray_cell(g, bx, by, d, i) != Content::Breakable,
        forall|y: int, x: int|
            0 <= y < g.len() && 0 <= x < g[y].len() && !(x == bx && y == by) && !blast_hits(g, bx, by, range, x, y)
                ==> #[trigger] blasted(g, bx, by, range, stamp)[y][x] == g[y][x],
{
    assert forall|d: int, i: int|
        0 <= d < 4 && #[trigger] reaches(g, bx, by, d, range, i) implies at(
            blasted(g, bx, by, range, stamp),
            ray_pos(bx, by, d, i).0,
            ray_pos(bx, by, d, i).1,
        ) == stamp by {
        let (x, y) = ray_pos(bx, by, d, i);
        assert(ray_index(bx, by, d, x, y) == i);
        assert(blast_hits(g, bx, by, range, x, y));
    }
    assert forall|d: int, i: int, j: int|
        0 <= d < 4 && 1 <= i <= j && #[trigger] ray_cell(g, bx, by, d, i) == Content::Wall implies !#[trigger] reaches(
            g,
            bx,
            by,
            d,
            range,
            j,
        ) by {
        if i < j {
            assert(ray_cell(g, bx, by, d, i).is_solid());
        }
    }
    assert forall|d: int, i: int, j: int|
        0 <= d < 4 && i < j && #[trigger] reaches(g, bx, by, d, range, i) && #[trigger] reaches(g, bx, by, d, range, j)
            implies ray_cell(g, bx, by, d, i) != Content::Breakable by {
        assert(!ray_cell(g, bx, by, d, i).is_solid());
    }
}

/// A row whose first `n` cells have nothing due is left as it is.
proof fn lemma_quiet_row(g: Cells, s: u64, y: int, n: nat, now: u64, ranges: Seq<u64>)
    requires
        forall|x: int| 0 <= x < n ==> !is_due(#[trigger] g[y][x], now),
    ensures
        settle_row(g, s, y, n, now, ranges) == (g, s),
    decreases n,
{
    if n > 0 {
        lemma_quiet_row(g, s, y, (n - 1) as nat, now, ranges);
    }
}

/// Rows with nothing due are left as they are.
proof fn lemma_quiet_rows(g: Cells, s: u64, n: nat, now: u64, ranges: Seq<u64>)
    requires
        n <= g.len(),
        forall|y: int, x: int| 0 <= y < n && 0 <= x < g[y].len() ==> !is_due(#[trigger] g[y][x], now),
    ensures
        settle_rows(g, s, n, now, ranges) == (g, s),
    decreases n,
{
    if n > 0 {
        lemma_quiet_rows(g, s, (n - 1) as nat, now, ranges);
        lemma_quiet_row(g, s, n - 1, g[n - 1].len(), now, ranges);
    }
}

/// The row of the bomb: unchanged up to the bomb, blasted from it on.
proof fn lemma_bomb_row(g: Cells, g2: Cells, s: u64, bx: int, by: int, n: nat, now: u64, ranges: Seq<u64>)
    requires
        0 <= by < g.len(),
        0 <= bx < g[by].len(),
        n <= g[by].len(),
        g2.len() == g.len(),
        settle_cell(g, s, bx, by, now, ranges) == (g2, s),
        forall|x: int| 0 <= x < g[by].len() && x != bx ==> !is_due(#[trigger] g[by][x], now),
        forall|x: int| 0 <= x < g2[by].len() ==> !is_due(#[trigger] g2[by][x], now),
        g2[by].len() == g[by].len(),
    ensures
        settle_row(g, s, by, n, now, ranges) == (if n <= bx { (g, s) } else { (g2, s) }),
    decreases n,
{
    if n > 0 {
        lemma_bomb_row(g, g2, s, bx, by, (n - 1) as nat, now, ranges);
    }
}

/// The rows: unchanged above the bomb's row, blasted from it on.
proof fn lemma_bomb_rows(g: Cells, g2: Cells, s: u64, bx: int, by: int, n: nat, now: u64, ranges: Seq<u64>)
    requires
        0 <= by < g.len(),
        0 <= bx < g[by].len(),
        n <= g.len(),
        g2.len() == g.len(),
        forall|y: int| 0 <= y < g.len() ==> #[trigger] g2[y].len() == g[y].len(),
        settle_cell(g, s, bx, by, now, ranges) == (g2, s),
        forall|y: int, x: int|
            0 <= y < g.len() && 0 <= x < g[y].len() && !(x == bx && y == by) ==> !is_due(#[trigger] g[y][x], now),
        forall|y: int, x: int| 0 <= y < g2.len() && 0 <= x < g2[y].len() ==> !is_due(#[trigger] g2[y][x], now),
    ensures
        settle_rows(g, s, n, now, ranges) == (if n <= by { (g, s) } else { (g2, s) }),
    decreases n,
{
    if n > 0 {
        lemma_bomb_rows(g, g2, s, bx, by, (n - 1) as nat, now, ranges);
        let y = n - 1;
        if y < by {
            lemma_quiet_row(g, s, y, g[y].len(), now, ranges);
        } else if y == by {
            lemma_bomb_row(g, g2, s, bx, by, g[by].len(), now, ranges);
        } else {
            lemma_quiet_row(g2, s, y, g2[y].len(), now, ranges);
        }
    }
}

/// A sweep in which an expired bomb is the only thing due turns the grid
/// into exactly that bomb's blast: its cell and the reached cells become
/// explosions that start now and name the bomb's owner, with the owner's
/// range, and nothing else changes. No draw is taken.
pub proof fn lemma_sole_bomb_sweep(g: Cells, s: u64, now: u64, ranges: Seq<u64>, bx: int, by: int)
    requires
        0 <= by < g.len(),
        0 <= bx < g[by].len(),
        g[by][bx] is Bomb,
        is_due(g[by][bx], now),
        forall|y: int, x: int|
            0 <= y < g.len() && 0 <= x < g[y].len() && !(x == bx && y == by) ==> !is_due(#[trigger] g[y][x], now),
    ensures
        settle_rows(g, s, g.len() as nat, now, ranges) == (
            blasted(
                g,
                bx,
                by,
                range_of(ranges, g[by][bx]->owner),
                Content::Explosion { started_at: now, source: g[by][bx]->owner },
            ),
            s,
        ),
{
    let owner = g[by][bx]->owner;
    let stamp = Content::Explosion { started_at: now, source: owner };
    let g2 = blasted(g, bx, by, range_of(ranges, owner), stamp);
    assert(!has_elapsed(now, EXPLOSION_LIFETIME_MS, now));
    assert forall|y: int, x: int| 0 <= y < g2.len() && 0 <= x < g2[y].len() implies !is_due(#[trigger] g2[y][x], now) by {
        if !(x == bx && y == by) && !blast_hits(g, bx, by, range_of(ranges, owner), x, y) {
            assert(g2[y][x] == g[y][x]);
        }
    }
    lemma_bomb_rows(g, g2, s, bx, by, g.len() as nat, now, ranges);
}

/// Two grids that agree along direction `d` give the ray the same reach.
proof fn lemma_reaches_frame(g0: Cells, g1: Cells, bx: int, by: int, d: int, range: int)
    requires
        forall|j: int| j >= 1 ==> #[trigger] ray_cell(g0, bx, by, d, j) == ray_cell(g1, bx, by, d, j),
    ensures
        forall|i: int| reaches(g0, bx, by, d, range, i) == #[trigger] reaches(g1, bx, by, d, range, i),
{
    assert forall|i: int| reaches(g0, bx, by, d, range, i) == #[trigger] reaches(g1, bx, by, d, range, i) by {
        if 1 <= i {
            assert(ray_cell(g0, bx, by, d, i) == ray_cell(g1, bx, by, d, i));
            assert forall|j: int| 1 <= j < i implies ray_cell(g0, bx, by, d, j)
                == ray_cell(g1, bx, by, d, j) by {}
        }
    }
}


/// With no step taken, the prefix is the grid itself.
proof fn lemma_prefix_start(g: Cells, bx: int, by: int, d: int, stamp: Content)
    ensures
        g =~~= ray_prefix(g, bx, by, d, 1, stamp),
{
}

/// Stamping the cell `n` steps out extends the prefix by one step.
proof fn lemma_prefix_step(
    g0: Cells,
    cur: Cells,
    bx: int,
    by: int,
    d: int,
    n: int,
    stamp: Content,
)
    requires
        cur == ray_prefix(g0, bx, by, d, n, stamp),
        0 <= d < 4,
        n >= 1,
        0 <= ray_pos(bx, by, d, n).1 < g0.len(),
        0 <= ray_pos(bx, by, d, n).0 < g0[ray_pos(bx, by, d, n).1].len(),
    ensures
        set_cell(cur, ray_pos(bx, by, d, n).0, ray_pos(bx, by, d, n).1, stamp)
            =~~= ray_prefix(g0, bx, by, d, n + 1, stamp),
{
}

/// The ray ends at step `n`: it stops before a wall there, or after the
/// last step of its range.
proof fn lemma_prefix_done(g0: Cells, bx: int, by: int, d: int, range: int, n: int, stamp: Content)
    requires
        1 <= n <= range + 1,
        forall|j: int| 1 <= j < n ==> !(#[trigger] ray_cell(g0, bx, by, d, j)).is_solid(),
        n == range + 1 || ray_cell(g0, bx, by, d, n) == Content::Wall,
    ensures
        ray_prefix(g0, bx, by, d, n, stamp) =~~= ray_applied(g0, bx, by, d, range, stamp),
{
    assert forall|y: int, x: int| 0 <= y < g0.len() && 0 <= x < g0[y].len() implies
        (1 <= #[trigger] ray_index(bx, by, d, x, y) < n) == reaches(g0, bx, by, d, range, ray_index(bx, by, d, x, y)) by {
        let i = ray_index(bx, by, d, x, y);
        if 1 <= i < n {
            assert(!ray_cell(g0, bx, by, d, i).is_solid());
        } else if i >= n && n <= range {
            assert(ray_cell(g0, bx, by, d, n).is_solid());
        }
    }
}

/// The ray ends on a breakable tile `n` steps out, which it consumes.
proof fn lemma_prefix_breakable(
    g0: Cells,
    cur: Cells,
    bx: int,
    by: int,
    d: int,
    range: int,
    n: int,
    stamp: Content,
)
    requires
        1 <= n <= range,
        0 <= d < 4,
        cur == ray_prefix(g0, bx, by, d, n, stamp),
        forall|j: int| 1 <= j < n ==> !(#[trigger] ray_cell(g0, bx, by, d, j)).is_solid(),
        ray_cell(g0, bx, by, d, n) == Content::Breakable,
        0 <= ray_pos(bx, by, d, n).1 < g0.len(),
        0 <= ray_pos(bx, by, d, n).0 < g0[ray_pos(bx, by, d, n).1].len(),
    ensures
        set_cell(cur, ray_pos(bx, by, d, n).0, ray_pos(bx, by, d, n).1, stamp)
            =~~= ray_applied(g0, bx, by, d, range, stamp),
{
    assert forall|y: int, x: int| 0 <= y < g0.len() && 0 <= x < g0[y].len() implies
        (1 <= #[trigger] ray_index(bx, by, d, x, y) <= n) == reaches(g0, bx, by, d, range, ray_index(bx, by, d, x, y)) by {
        let i = ray_index(bx, by, d, x, y);
        if 1 <= i < n {
            assert(!ray_cell(g0, bx, by, d, i).is_solid());
        } else if i > n {
            assert(ray_cell(g0, bx, by, d, n).is_solid());
        }
    }
}

/// Stamping the origin and then the four rays in turn yields the blast:
/// each ray reads only its own line, which nothing before it has touched.
proof fn lemma_blast_compose(
    g0: Cells,
    g1: Cells,
    g2: Cells,
    g3: Cells,
    g4: Cells,
    g5: Cells,
    bx: int,
    by: int,
    range: int,
    stamp: Content,
)
    requires
        0 <= by < g0.len(),
        0 <= bx < g0[by].len(),
        g1 == set_cell(g0, bx, by, stamp),
        g2 == ray_applied(g1, bx, by, 0, range, stamp),
        g3 == ray_applied(g2, bx, by, 1, range, stamp),
        g4 == ray_applied(g3, bx, by, 2, range, stamp),
        g5 == ray_applied(g4, bx, by, 3, range, stamp),
    ensures
        g5 =~~= blasted(g0, bx, by, range, stamp),
{
    assert forall|j: int| j >= 1 implies #[trigger] ray_cell(g0, bx, by, 0, j) == ray_cell(g1, bx, by, 0, j) by {}
    lemma_reaches_frame(g0, g1, bx, by, 0, range);
    assert forall|j: int| j >= 1 implies #[trigger] ray_cell(g0, bx, by, 1, j) == ray_cell(g2, bx, by, 1, j) by {}
    lemma_reaches_frame(g0, g2, bx, by, 1, range);
    assert forall|j: int| j >= 1 implies #[trigger] ray_cell(g0, bx, by, 2, j) == ray_cell(g3, bx, by, 2, j) by {}
    lemma_reaches_frame(g0, g3, bx, by, 2, range);
    assert forall|j: int| j >= 1 implies #[trigger] ray_cell(g0, bx, by, 3, j) == ray_cell(g4, bx, by, 3, j) by {}
    lemma_reaches_frame(g0, g4, bx, by, 3, range);
}

impl World {
    /// Extends one ray of a blast from `(bx, by)` in direction `d`: each cell
    /// up to `range` steps out becomes `stamp`, a wall stops the ray before
    /// it, a breakable tile becomes `stamp` and stops it.
    fn ray(&mut self, bx: usize, by: usize, d: u8, range: u64, stamp: Content)
        requires
            old(self).wf(),
            in_bounds(bx as int, by as int, old(self).spec_height(), old(self).spec_width()),
            !on_border(bx as int, by as int, old(self).spec_height(), old(self).spec_width()),
            d < 4,
        ensures
            final(self).wf(),
            final(self).spec_height() == old(self).spec_height(),
            final(self).spec_width() == old(self).spec_width(),
            final(self).cells() == ray_applied(
                old(self).cells(),
                bx as int,
                by as int,
                d as int,
                range as int,
                stamp,
            ),
    {
        let ghost g0 = self.cells();
        let ghost bi = bx as int;
        let ghost bj = by as int;
        let ghost di = d as int;
        let h = self.height();
        let w = self.width();
        let mut i: u64 = 1;
        let mut x = bx;
        let mut y = by;
        let mut going = true;
        proof {
            lemma_prefix_start(g0, bi, bj, di, stamp);
        }
        while going && i <= range
            invariant
                self.wf(),
                self.spec_height() == h,
                self.spec_width() == w,
                h == g0.len(),
                bi == bx as int,
                bj == by as int,
                di == d as int,
                d < 4,
                bx < w,
                by < h,
                shaped(g0, h as int, w as int),
                bordered(g0, h as int, w as int),
                1 <= i <= range as int + 1,
                (x as int, y as int) == ray_pos(bi, bj, di, i - 1),
                in_bounds(x as int, y as int, h as int, w as int),
                !on_border(x as int, y as int, h as int, w as int),
                forall|j: int| 1 <= j < i ==> !(#[trigger] ray_cell(g0, bi, bj, di, j)).is_solid(),
                going ==> self.cells() == ray_prefix(g0, bi, bj, di, i as int, stamp),
                !going ==> self.cells() == ray_applied(g0, bi, bj, di, range as int, stamp),
            decreases range - i + (if going { 1int } else { 0int }),
        {
            let mut nx = x;
            let mut ny = y;
            if d == 0 {
                nx = x + 1;
            } else if d == 1 {
                nx = x - 1;
            } else if d == 2 {
                ny = y + 1;
            } else {
                ny = y - 1;
            }
            assert((nx as int, ny as int) == ray_pos(bi, bj, di, i as int));
            let c = self.get(nx, ny);
            assert(c == ray_cell(g0, bi, bj, di, i as int));
            match c {
                Content::Wall => {
                    proof {
                        lemma_prefix_done(g0, bi, bj, di, range as int, i as int, stamp);
                    }
                    going = false;
                },
                Content::Breakable => {
                    proof {
                        lemma_prefix_breakable(g0, self.cells(), bi, bj, di, range as int, i as int, stamp);
                    }
                    self.set(nx, ny, stamp);
                    going = false;
                },
                _ => {
                    proof {
                        lemma_prefix_step(g0, self.cells(), bi, bj, di, i as int, stamp);
                    }
                    self.set(nx, ny, stamp);
                    assert(i < 5000) by {
                        if d == 0 {
                            assert(nx as int == bx as int + i);
                        } else if d == 1 {
                            assert(nx as int == bx as int - i);
                        } else if d == 2 {
                            assert(ny as int == by as int + i);
                        } else {
                            assert(ny as int == by as int - i);
                        }
                    }
                    x = nx;
                    y = ny;
                    i = i + 1;
                },
            }
        }
        if going {
            proof {
                lemma_prefix_done(g0, bi, bj, di, range as int, i as int, stamp);
            }
        }
    }

    /// Detonates a bomb at `(bx, by)`: its own cell and, in each of the four
    /// directions, every cell up to `range` steps out become `stamp`; a ray
    /// stops before the first wall and on the first breakable tile, which it
    /// consumes. Each ray starts from the bomb itself.
    pub fn detonate(&mut self, bx: usize, by: usize, range: u64, stamp: Content)
        requires
            old(self).wf(),
            in_bounds(bx as int, by as int, old(self).spec_height(), old(self).spec_width()),
            !on_border(bx as int, by as int, old(self).spec_height(), old(self).spec_width()),
        ensures
            final(self).wf(),
            final(self).spec_height() == old(self).spec_height(),
            final(self).spec_width() == old(self).spec_width(),
            final(self).cells() == blasted(old(self).cells(), bx as int, by as int, range as int, stamp),
    {
        let ghost g0 = self.cells();
        self.set(bx, by, stamp);
        let ghost g1 = self.cells();
        self.ray(bx, by, 0, range, stamp);
        let ghost g2 = self.cells();
        self.ray(bx, by, 1, range, stamp);
        let ghost g3 = self.cells();
        self.ray(bx, by, 2, range, stamp);
        let ghost g4 = self.cells();
        self.ray(bx, by, 3, range, stamp);
        proof {
            lemma_blast_compose(g0, g1, g2, g3, g4, self.cells(), bx as int, by as int, range as int, stamp);
        }
    }

    /// Whether every bomb and explosion names a player below `n`.
    pub fn owners_within(&self, n: usize) -> (r: bool)
        requires
            self.wf(),
        ensures
            r == owners_below(self.cells(), n as int),
    {
        let h = self.height();
        let w = self.width();
        let mut y: usize = 0;
        while y < h
            invariant
                self.wf(),
                h == self.spec_height(),
                w == self.spec_width(),
                y <= h,
                forall|cy: int, cx: int| 0 <= cy < y && 0 <= cx < w ==> owner_ok(#[trigger] self.cells()[cy][cx], n as int),
            decreases h - y,
        {
            let mut x: usize = 0;
            while x < w
                invariant
                    self.wf(),
                    h == self.spec_height(),
                    w == self.spec_width(),
                    y < h,
                    x <= w,
                    forall|cy: int, cx: int|
                        ((0 <= cy < y && 0 <= cx < w) || (cy == y && 0 <= cx < x)) ==> owner_ok(
                            #[trigger] self.cells()[cy][cx],
                            n as int,
                        ),
                decreases w - x,
            {
                let ok = match self.get(x, y) {
                    Content::Bomb { owner, .. } => owner < n,
                    Content::Explosion { source, .. } => source < n,
                    _ => true,
                };
                if !ok {
                    return false;
                }
                x = x + 1;
            }
            y = y + 1;
        }
        true
    }


    /// Visits one cell of the sweep.
    fn settle(&mut self, x: usize, y: usize, now: u64, ranges: &Vec<u64>, rng: &mut Rng)
        requires
            old(self).wf(),
            in_bounds(x as int, y as int, old(self).spec_height(), old(self).spec_width()),
            owners_below(old(self).cells(), ranges@.len() as int),
        ensures
            final(self).wf(),
            final(self).spec_height() == old(self).spec_height(),
            final(self).spec_width() == old(self).spec_width(),
            (final(self).cells(), final(rng).state()) == settle_cell(
                old(self).cells(),
                old(rng).state(),
                x as int,
                y as int,
                now,
                ranges@,
            ),
            owners_below(final(self).cells(), ranges@.len() as int),
            !is_stale(final(self).cells()[y as int][x as int], now),
            forall|cy: int, cx: int|
                in_bounds(cx, cy, old(self).spec_height(), old(self).spec_width())
                    && !is_stale(old(self).cells()[cy][cx], now) ==> !is_stale(
                    #[trigger] final(self).cells()[cy][cx],
                    now,
                ),
    {
        let ghost g0 = self.cells();
        let n = ranges.len();
        match self.get(x, y) {
            Content::Bomb { placed_at, owner } => {
                if elapsed(placed_at, FUSE_MS, now) {
                    assert(owner_ok(g0[y as int][x as int], n as int));
                    let stamp = Content::Explosion { started_at: now, source: owner };
                    self.detonate(x, y, ranges[owner], stamp);
                    assert forall|cy: int, cx: int|
                        0 <= cy < g0.len() && 0 <= cx < g0[cy].len() implies
                        #[trigger] self.cells()[cy][cx] == stamp || self.cells()[cy][cx] == g0[cy][cx] by {}
                }
            },
            Content::Explosion { started_at, .. } => {
                if elapsed(started_at, EXPLOSION_LIFETIME_MS, now) {
                    let roll = rng.percent();
                    let c = if roll < BONUS_PERCENT {
                        Content::Bonus
                    } else {
                        Content::Empty
                    };
                    self.set(x, y, c);
                }
            },
            _ => {},
        }
    }

    /// Advances bombs and explosions to time `now` in one row-major sweep:
    /// every bomb whose fuse has run out detonates with its owner's range
    /// from `ranges`, and every explosion whose lifetime has run out decays
    /// into a bonus or into empty ground, one percent draw from `rng` each.
    /// Afterwards no explosion is past its lifetime.
    pub fn sweep(&mut self, now: u64, ranges: &Vec<u64>, rng: &mut Rng)
        requires
            old(self).wf(),
            owners_below(old(self).cells(), ranges@.len() as int),
        ensures
            final(self).wf(),
            final(self).spec_height() == old(self).spec_height(),
            final(self).spec_width() == old(self).spec_width(),
            (final(self).cells(), final(rng).state()) == settle_rows(
                old(self).cells(),
                old(rng).state(),
                old(self).spec_height() as nat,
                now,
                ranges@,
            ),
            owners_below(final(self).cells(), ranges@.len() as int),
            forall|y: int, x: int|
                in_bounds(x, y, final(self).spec_height(), final(self).spec_width()) ==> !is_stale(
                    #[trigger] final(self).cells()[y][x],
                    now,
                ),
    {
        let ghost g0 = self.cells();
        let ghost s0 = rng.state();
        let h = self.height();
        let w = self.width();
        let mut y: usize = 0;
        while y < h
            invariant
                self.wf(),
                self.spec_height() == h,
                self.spec_width() == w,
                y <= h,
                (self.cells(), rng.state()) == settle_rows(g0, s0, y as nat, now, ranges@),
                owners_below(self.cells(), ranges@.len() as int),
                forall|cy: int, cx: int|
                    0 <= cy < y && 0 <= cx < w ==> !is_stale(#[trigger] self.cells()[cy][cx], now),
            decreases h - y,
        {
            let ghost row_g = self.cells();
            let ghost row_s = rng.state();
            let mut x: usize = 0;
            while x < w
                invariant
                    self.wf(),
                    self.spec_height() == h,
                    self.spec_width() == w,
                    y < h,
                    x <= w,
                    (self.cells(), rng.state()) == settle_row(row_g, row_s, y as int, x as nat, now, ranges@),
                    owners_below(self.cells(), ranges@.len() as int),
                    forall|cy: int, cx: int|
                        ((0 <= cy < y && 0 <= cx < w) || (cy == y && 0 <= cx < x)) ==> !is_stale(
                            #[trigger] self.cells()[cy][cx],
                            now,
                        ),
                decreases w - x,
            {
                self.settle(x, y, now, ranges, rng);
                x = x + 1;
            }
            assert(row_g[y as int].len() == w);
            y = y + 1;
        }
    }
}

} // verus!
