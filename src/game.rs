//! A round: the world, the players, the per-player step, the tick, and the
//! end of the round.
use vstd::prelude::*;
use crate::blast::{owners_below, owner_ok, settle_rows, blasted, range_of, is_due, is_stale, lemma_sole_bomb_sweep};
use crate::content::{Content, FUSE_MS, has_elapsed};
use crate::player::{Player, Input, TILE, bump, tile_of, placed, moved};
use crate::rng::{Rng, advance, lcg, pick};
use crate::world::{World, Cells, set_cell, in_bounds, on_border, spawn_cells, distinct};

verus! {

/// The grid and players after player `id` takes its step with `input` at
/// time `now`. A dead player does nothing. A live one first, if it holds
/// the bomb key, puts a bomb owned by itself on its tile. Then its tile
/// decides: an explosion kills it and credits the explosion's source with
/// a kill, and it does not move; a bonus raises its range by one and is
/// cleared; then it moves.
pub open spec fn stepped(g: Cells, ps: Seq<Player>, id: int, input: Input, now: u64) -> (Cells, Seq<Player>) {
    let p = ps[id];
    let tx = tile_of(p.x as int);
    let ty = tile_of(p.y as int);
    if !p.alive {
        (g, ps)
    } else {
        let g1 = if input.bomb {
            set_cell(g, tx, ty, Content::Bomb { placed_at: now, owner: id as usize })
        } else {
            g
        };
        match g1[ty][tx] {
            Content::Explosion { source, .. } => {
                let ps1 = ps.update(id, Player { alive: false, ..p });
                let k = ps1[source as int];
                (g1, ps1.update(source as int, Player { kill_score: bump(k.kill_score), ..k }))
            },
            Content::Bonus => {
                let g2 = set_cell(g1, tx, ty, Content::Empty);
                (g2, ps.update(id, moved(g2, Player { bomb_range: bump(p.bomb_range), ..p }, input)))
            },
            _ => (g1, ps.update(id, moved(g1, p, input))),
        }
    }
}

/// The first `n` players take their steps, in index order.
pub open spec fn stepped_all(g: Cells, ps: Seq<Player>, inputs: Seq<Input>, now: u64, n: nat) -> (Cells, Seq<Player>)
    decreases n,
{
    if n == 0 {
        (g, ps)
    } else {
        let p = stepped_all(g, ps, inputs, now, (n - 1) as nat);
        stepped(p.0, p.1, n - 1, inputs[n - 1], now)
    }
}

/// The bomb range of each player.
pub open spec fn ranges_of(ps: Seq<Player>) -> Seq<u64> {
    ps.map_values(|p: Player| p.bomb_range)
}

/// No player is alive.
pub open spec fn all_dead(ps: Seq<Player>) -> bool {
    forall|i: int| 0 <= i < ps.len() ==> !(#[trigger] ps[i]).alive
}

/// No key held.
pub open spec fn idle() -> Input {
    Input { up: false, down: false, left: false, right: false, bomb: false }
}

/// A live player holding the bomb key leaves a bomb that it owns, placed
/// now, on its tile, and stays alive.
pub proof fn lemma_bomb_placed(g: Cells, ps: Seq<Player>, id: int, input: Input, now: u64)
    requires
        0 <= id < ps.len(),
        ps[id].alive,
        input.bomb,
        0 <= tile_of(ps[id].y as int) < g.len(),
        0 <= tile_of(ps[id].x as int) < g[tile_of(ps[id].y as int)].len(),
    ensures
        stepped(g, ps, id, input, now).0[tile_of(ps[id].y as int)][tile_of(ps[id].x as int)] == (Content::Bomb {
            placed_at: now,
            owner: id as usize,
        }),
        stepped(g, ps, id, input, now).1[id].alive,
{
}

/// A bomb placed by a player's step detonates in the first sweep past its
/// fuse in which nothing else is due: the grid becomes that bomb's blast
/// with the placing player's range, stamped with explosions that start at
/// the sweep's time and name that player.
pub proof fn lemma_placed_bomb_detonates(
    g: Cells,
    ps: Seq<Player>,
    id: int,
    input: Input,
    now: u64,
    later: u64,
    s: u64,
    ranges: Seq<u64>,
)
    requires
        0 <= id < ps.len(),
        ps[id].alive,
        input.bomb,
        0 <= tile_of(ps[id].y as int) < g.len(),
        0 <= tile_of(ps[id].x as int) < g[tile_of(ps[id].y as int)].len(),
        has_elapsed(now, FUSE_MS, later),
        forall|y: int, x: int|
            0 <= y < stepped(g, ps, id, input, now).0.len() && 0 <= x < stepped(g, ps, id, input, now).0[y].len() && !(
            x == tile_of(ps[id].x as int) && y == tile_of(ps[id].y as int)) ==> !is_due(
                #[trigger] stepped(g, ps, id, input, now).0[y][x],
                later,
            ),
    ensures
        settle_rows(stepped(g, ps, id, input, now).0, s, g.len() as nat, later, ranges) == (
            blasted(
                stepped(g, ps, id, input, now).0,
                tile_of(ps[id].x as int),
                tile_of(ps[id].y as int),
                range_of(ranges, id as usize),
                Content::Explosion { started_at: later, source: id as usize },
            ),
            s,
        ),
{
    let g1 = stepped(g, ps, id, input, now).0;
    lemma_bomb_placed(g, ps, id, input, now);
    assert(g1.len() == g.len());
    lemma_sole_bomb_sweep(g1, s, later, ranges, tile_of(ps[id].x as int), tile_of(ps[id].y as int));
}

/// A live player whose tile holds an explosion, and who does not put a
/// bomb over it, dies; the explosion's source gains one kill (the player
/// itself, when it set the bomb); nothing else changes; and later steps of
/// the dead player change nothing, so it neither dies nor is counted again.
pub proof fn lemma_explosion_kills_once(
    g: Cells,
    ps: Seq<Player>,
    id: int,
    input: Input,
    now: u64,
    input2: Input,
    now2: u64,
)
    requires
        0 <= id < ps.len(),
        ps[id].alive,
        !input.bomb,
        0 <= tile_of(ps[id].y as int) < g.len(),
        0 <= tile_of(ps[id].x as int) < g[tile_of(ps[id].y as int)].len(),
        g[tile_of(ps[id].y as int)][tile_of(ps[id].x as int)] is Explosion,
        g[tile_of(ps[id].y as int)][tile_of(ps[id].x as int)]->source < ps.len(),
    ensures
        ({
            let src = g[tile_of(ps[id].y as int)][tile_of(ps[id].x as int)]->source as int;
            let (g1, ps1) = stepped(g, ps, id, input, now);
            &&& !ps1[id].alive
            &&& ps1[src].kill_score == bump(ps[src].kill_score)
            &&& ps[src].kill_score < u64::MAX ==> ps1[src].kill_score == ps[src].kill_score + 1
            &&& g1 == g
            &&& ps1.len() == ps.len()
            &&& forall|j: int| 0 <= j < ps.len() && j != id && j != src ==> ps1[j] == ps[j]
            &&& stepped(g1, ps1, id, input2, now2) == (g1, ps1)
        }),
{
}

/// A live player on a bonus, holding no key, gains exactly one bomb range
/// and the tile becomes empty; a second step there, holding no key, gains
/// nothing more.
pub proof fn lemma_bonus_taken_once(g: Cells, ps: Seq<Player>, id: int, now: u64, now2: u64)
    requires
        0 <= id < ps.len(),
        ps[id].alive,
        0 <= tile_of(ps[id].y as int) < g.len(),
        0 <= tile_of(ps[id].x as int) < g[tile_of(ps[id].y as int)].len(),
        g[tile_of(ps[id].y as int)][tile_of(ps[id].x as int)] == Content::Bonus,
    ensures
        ({
            let (g1, ps1) = stepped(g, ps, id, idle(), now);
            let (g2, ps2) = stepped(g1, ps1, id, idle(), now2);
            &&& ps1[id].bomb_range == bump(ps[id].bomb_range)
            &&& ps[id].bomb_range < u64::MAX ==> ps1[id].bomb_range == ps[id].bomb_range + 1
            &&& g1[tile_of(ps[id].y as int)][tile_of(ps[id].x as int)] == Content::Empty
            &&& ps2[id].bomb_range == ps1[id].bomb_range
            &&& g2 == g1
        }),
{
    let tx = tile_of(ps[id].x as int);
    let ty = tile_of(ps[id].y as int);
    let (g1, ps1) = stepped(g, ps, id, idle(), now);
    assert(ps1[id].x == ps[id].x && ps1[id].y == ps[id].y);
    assert(g1[ty][tx] == Content::Empty);
}

/// A step leaves the bomb range of every player as it was unless the
/// stepping player's tile holds a bonus.
pub proof fn lemma_range_needs_bonus(g: Cells, ps: Seq<Player>, id: int, input: Input, now: u64)
    requires
        0 <= id < ps.len(),
        0 <= tile_of(ps[id].y as int) < g.len(),
        0 <= tile_of(ps[id].x as int) < g[tile_of(ps[id].y as int)].len(),
        g[tile_of(ps[id].y as int)][tile_of(ps[id].x as int)] != Content::Bonus,
        owners_below(g, ps.len() as int),
    ensures
        stepped(g, ps, id, input, now).1.len() == ps.len(),
        forall|j: int| 0 <= j < ps.len() ==> (#[trigger] stepped(g, ps, id, input, now).1[j]).bomb_range == ps[j].bomb_range,
{
    let tx = tile_of(ps[id].x as int);
    let ty = tile_of(ps[id].y as int);
    assert(owner_ok(g[ty][tx], ps.len() as int));
}

/// While some player is alive the round goes on.
pub proof fn lemma_round_goes_on(ps: Seq<Player>, i: int)
    requires
        0 <= i < ps.len(),
        ps[i].alive,
    ensures
        !all_dead(ps),
{
}

/// A step leaves a live player alive unless it is that player's own step
/// and its tile, after any bomb it puts down, holds an explosion.
pub proof fn lemma_survivor_stays(g: Cells, ps: Seq<Player>, id: int, input: Input, now: u64, j: int)
    requires
        0 <= id < ps.len(),
        0 <= j < ps.len(),
        ps[j].alive,
        0 <= tile_of(ps[id].y as int) < g.len(),
        0 <= tile_of(ps[id].x as int) < g[tile_of(ps[id].y as int)].len(),
        owners_below(g, ps.len() as int),
        !(j == id && !input.bomb && g[tile_of(ps[id].y as int)][tile_of(ps[id].x as int)] is Explosion),
    ensures
        stepped(g, ps, id, input, now).1[j].alive,
{
    let tx = tile_of(ps[id].x as int);
    let ty = tile_of(ps[id].y as int);
    assert(owner_ok(g[ty][tx], ps.len() as int));
}

/// The first `n` spawn points drawn without replacement from `pool` by a
/// source in state `s`: each draw steps the source and takes the entry at
/// the drawn index out of what is left.
pub open spec fn drawn(pool: Seq<(usize, usize)>, s: u64, n: nat) -> Seq<(usize, usize)>
    decreases n,
{
    if n == 0 || pool.len() == 0 {
        Seq::empty()
    } else {
        let j = pick(lcg(s), pool.len() as u64) as int;
        seq![pool[j]] + drawn(pool.remove(j), lcg(s), (n - 1) as nat)
    }
}

/// A pool of spawn points: distinct, inside the grid, each a spawn point of
/// `g`.
#[verifier::opaque]
spec fn spawn_pool(ps: Seq<(usize, usize)>, g: Cells, h: int, w: int) -> bool {
    &&& distinct(ps)
    &&& forall|k: int| 0 <= k < ps.len() ==> {
        &&& in_bounds(#[trigger] ps[k].0 as int, ps[k].1 as int, h, w)
        &&& g[ps[k].1 as int][ps[k].0 as int] == Content::SpawnPoint
    }
}

/// No coordinate lies in both `a` and `b`.
#[verifier::opaque]
spec fn apart(a: Seq<(usize, usize)>, b: Seq<(usize, usize)>) -> bool {
    forall|i: int, j: int| 0 <= i < a.len() && 0 <= j < b.len() ==> #[trigger] a[i] != #[trigger] b[j]
}

/// `p` is a fresh player at the centre of tile `c`.
pub open spec fn fresh_at(p: Player, c: (usize, usize)) -> bool {
    &&& p.x == c.0 * TILE + TILE / 2
    &&& p.y == c.1 * TILE + TILE / 2
    &&& p.alive
    &&& p.bomb_range == 1
    &&& p.kill_score == 0
}

/// Drawing entry `j` out of the pool moves it to the chosen spawn points,
/// keeping both pools valid and apart.
proof fn lemma_draw(
    before: Seq<(usize, usize)>,
    after: Seq<(usize, usize)>,
    j: int,
    chosen: Seq<(usize, usize)>,
    g: Cells,
    h: int,
    w: int,
)
    requires
        0 <= j < before.len(),
        after == before.remove(j),
        spawn_pool(before, g, h, w),
        spawn_pool(chosen, g, h, w),
        apart(before, chosen),
    ensures
        spawn_pool(after, g, h, w),
        spawn_pool(chosen.push(before[j]), g, h, w),
        apart(after, chosen.push(before[j])),
{
    reveal(spawn_pool);
    reveal(apart);
    let c = before[j];
    let nc = chosen.push(c);
    assert(in_bounds(c.0 as int, c.1 as int, h, w));
    assert forall|a: int, b: int| 0 <= a < after.len() && 0 <= b < nc.len() implies #[trigger] after[a]
        != #[trigger] nc[b] by {
        let ai = if a < j { a } else { a + 1 };
        assert(after[a] == before[ai]);
        if b == chosen.len() {
            assert(nc[b] == c);
        } else {
            assert(nc[b] == chosen[b]);
        }
    }
    assert forall|a: int, b: int| 0 <= a < b < after.len() implies #[trigger] after[a] != #[trigger] after[b] by {
        let ai = if a < j { a } else { a + 1 };
        let bi = if b < j { b } else { b + 1 };
        assert(after[a] == before[ai] && after[b] == before[bi]);
    }
    assert forall|k: int| 0 <= k < after.len() implies {
        &&& in_bounds(#[trigger] after[k].0 as int, after[k].1 as int, h, w)
        &&& g[after[k].1 as int][after[k].0 as int] == Content::SpawnPoint
    } by {
        let ki = if k < j { k } else { k + 1 };
        assert(after[k] == before[ki]);
        assert(in_bounds(before[ki].0 as int, before[ki].1 as int, h, w));
    }
    assert forall|a: int, b: int| 0 <= a < b < nc.len() implies #[trigger] nc[a] != #[trigger] nc[b] by {
        if b == chosen.len() {
            assert(nc[a] == chosen[a]);
        } else {
            assert(nc[a] == chosen[a] && nc[b] == chosen[b]);
        }
    }
    assert forall|k: int| 0 <= k < nc.len() implies {
        &&& in_bounds(#[trigger] nc[k].0 as int, nc[k].1 as int, h, w)
        &&& g[nc[k].1 as int][nc[k].0 as int] == Content::SpawnPoint
    } by {
        if k < chosen.len() {
            assert(nc[k] == chosen[k]);
            assert(in_bounds(chosen[k].0 as int, chosen[k].1 as int, h, w));
        }
    }
}

/// A round in progress.
pub struct Game {
    world: World,
    players: Vec<Player>,
}

impl Game {
    pub closed spec fn world_view(&self) -> World {
        self.world
    }

    /// The cells of the world.
    pub open spec fn cells(&self) -> Cells {
        self.world_view().cells()
    }

    /// The players, by index.
    pub closed spec fn players(&self) -> Seq<Player> {
        self.players@
    }

    /// Well-formed: a well-formed world, every bomb and explosion owned by
    /// a player of the round, every player inside the interior.
    pub open spec fn wf(&self) -> bool {
        &&& self.world_view().wf()
        &&& owners_below(self.cells(), self.players().len() as int)
        &&& forall|i: int|
            0 <= i < self.players().len() ==> placed(
                (#[trigger] self.players()[i]).x as int,
                self.players()[i].y as int,
                self.world_view().spec_height(),
                self.world_view().spec_width(),
            )
    }

    /// Starts a round of `n_players` players on spawn points of `world`,
    /// drawn from `rng` without replacement, player `i` on the `i`-th draw.
    /// Every bomb and explosion already in `world` must name one of these
    /// players. Gives `None` when the world has fewer spawn points than
    /// players.
    pub fn new(world: World, n_players: usize, rng: &mut Rng) -> (r: Option<Game>)
        requires
            world.wf(),
            owners_below(world.cells(), n_players as int),
        ensures
            r is Some <==> n_players <= spawn_cells(world.cells(), world.spec_height() as nat).len(),
            r matches Some(game) ==> {
                &&& game.wf()
                &&& game.world_view() == world
                &&& game.players().len() == n_players
                &&& forall|i: int|
                    0 <= i < n_players ==> fresh_at(
                        #[trigger] game.players()[i],
                        drawn(spawn_cells(world.cells(), world.spec_height() as nat), old(rng).state(), n_players as nat)[i],
                    )
                &&& final(rng).state() == advance(old(rng).state(), n_players as nat)
                &&& forall|i: int|
                    0 <= i < n_players ==> {
                        let p = #[trigger] game.players()[i];
                        &&& p.alive
                        &&& p.bomb_range == 1
                        &&& p.kill_score == 0
                        &&& p.x % TILE == TILE / 2
                        &&& p.y % TILE == TILE / 2
                        &&& world.cells()[tile_of(p.y as int)][tile_of(p.x as int)] == Content::SpawnPoint
                    }
                &&& forall|i: int, j: int|
                    0 <= i < j < n_players ==> (#[trigger] game.players()[i]).x != (#[trigger] game.players()[j]).x
                        || game.players()[i].y != game.players()[j].y
            },
    {
        let mut pool = world.spawn_points();
        if n_players > pool.len() {
            return None;
        }
        let h = world.height();
        let w = world.width();
        let ghost g = world.cells();
        let ghost s0 = rng.state();
        let ghost pool0 = pool@;
        let ghost mut chosen: Seq<(usize, usize)> = Seq::empty();
        proof {
            reveal(spawn_pool);
            reveal(apart);
        }
        let mut players: Vec<Player> = Vec::new();
        let mut i: usize = 0;
        while i < n_players
            invariant
                world.wf(),
                g == world.cells(),
                h == world.spec_height(),
                w == world.spec_width(),
                i <= n_players,
                n_players - i <= pool@.len(),
                players@.len() == i,
                chosen.len() == i,
                spawn_pool(pool@, g, h as int, w as int),
                spawn_pool(chosen, g, h as int, w as int),
                apart(pool@, chosen),
                forall|k: int| 0 <= k < i ==> fresh_at(#[trigger] players@[k], chosen[k]),
                rng.state() == advance(s0, i as nat),
                chosen + drawn(pool@, rng.state(), (n_players - i) as nat) == drawn(pool0, s0, n_players as nat),
            decreases n_players - i,
        {
            let ghost before = pool@;
            let ghost s_before = rng.state();
            let j = rng.below(pool.len() as u64) as usize;
            proof {
                assert(drawn(before, s_before, (n_players - i) as nat) == seq![before[j as int]] + drawn(
                    before.remove(j as int),
                    rng.state(),
                    (n_players - i - 1) as nat,
                ));
            }
            let (cx, cy) = pool.remove(j);
            proof {
                lemma_draw(before, pool@, j as int, chosen, g, h as int, w as int);
                reveal(spawn_pool);
                assert(in_bounds(before[j as int].0 as int, before[j as int].1 as int, h as int, w as int));
            }
            let p = Player::at_tile(cx, cy);
            players.push(p);
            proof {
                assert(chosen.push((cx, cy)) + drawn(pool@, rng.state(), (n_players - i - 1) as nat) =~= chosen + drawn(
                    before,
                    s_before,
                    (n_players - i) as nat,
                ));
                chosen = chosen.push((cx, cy));
                assert forall|k: int| 0 <= k < i + 1 implies fresh_at(#[trigger] players@[k], chosen[k]) by {
                    if k < i {
                        assert(players@[k] == players@.drop_last()[k]);
                    }
                }
            }
            i = i + 1;
        }
        let game = Game { world, players };
        proof {
            assert(chosen =~= drawn(pool0, s0, n_players as nat));
            reveal(spawn_pool);
            assert forall|k: int| 0 <= k < n_players implies placed(
                (#[trigger] game.players()[k]).x as int,
                game.players()[k].y as int,
                h as int,
                w as int,
            ) && game.players()[k].x % TILE == TILE / 2 && game.players()[k].y % TILE == TILE / 2
                && g[tile_of(game.players()[k].y as int)][tile_of(game.players()[k].x as int)] == Content::SpawnPoint by {
                let c = chosen[k];
                assert(fresh_at(players@[k], c));
                assert(in_bounds(c.0 as int, c.1 as int, h as int, w as int));
                assert(g[c.1 as int][c.0 as int] == Content::SpawnPoint);
                assert(!on_border(c.0 as int, c.1 as int, h as int, w as int));
            }
            assert forall|a: int, b: int| 0 <= a < b < n_players implies (#[trigger] game.players()[a]).x
                != (#[trigger] game.players()[b]).x || game.players()[a].y != game.players()[b].y by {
                assert(fresh_at(players@[a], chosen[a]));
                assert(fresh_at(players@[b], chosen[b]));
                assert(chosen[a] != chosen[b]);
            }
        }
        Some(game)
    }

    /// The world.
    pub fn world(&self) -> (r: &World)
        ensures
            *r == self.world_view(),
    {
        &self.world
    }

    /// The number of players.
    pub fn player_count(&self) -> (r: usize)
        ensures
            r == self.players().len(),
    {
        self.players.len()
    }

    /// Player `i`.
    pub fn player(&self, i: usize) -> (r: Player)
        requires
            i < self.players().len(),
        ensures
            r == self.players()[i as int],
    {
        self.players[i]
    }

    /// Player `id` takes its step for this tick with `input` at time `now`.
    pub fn update_player(&mut self, id: usize, input: Input, now: u64)
        requires
            old(self).wf(),
            id < old(self).players().len(),
        ensures
            final(self).wf(),
            final(self).world_view().spec_height() == old(self).world_view().spec_height(),
            final(self).world_view().spec_width() == old(self).world_view().spec_width(),
            (final(self).cells(), final(self).players()) == stepped(
                old(self).cells(),
                old(self).players(),
                id as int,
                input,
                now,
            ),
    {
        let ghost g0 = self.cells();
        let ghost ps0 = self.players();
        let n = self.players.len();
        let p = self.players[id];
        if !p.alive {
            return;
        }
        assert(placed(p.x as int, p.y as int, self.world.spec_height(), self.world.spec_width()));
        let tx = (p.x / TILE) as usize;
        let ty = (p.y / TILE) as usize;
        if input.bomb {
            self.world.set(tx, ty, Content::Bomb { placed_at: now, owner: id });
        }
        let ghost g1 = self.cells();
        assert forall|y: int, x: int| 0 <= y < g1.len() && 0 <= x < g1[y].len() implies owner_ok(#[trigger] g1[y][x], n as int) by {
            if !(x == tx && y == ty) {
                assert(g1[y][x] == g0[y][x]);
            }
        }
        match self.world.get(tx, ty) {
            Content::Explosion { source, .. } => {
                assert(owner_ok(g1[ty as int][tx as int], n as int));
                self.players.set(id, Player { alive: false, ..p });
                let k = self.players[source];
                let score = if k.kill_score < u64::MAX { k.kill_score + 1 } else { k.kill_score };
                self.players.set(source, Player { kill_score: score, ..k });
            },
            Content::Bonus => {
                self.world.set(tx, ty, Content::Empty);
                let ghost g2 = self.cells();
                assert forall|y: int, x: int| 0 <= y < g2.len() && 0 <= x < g2[y].len() implies owner_ok(#[trigger] g2[y][x], n as int) by {
                    if !(x == tx && y == ty) {
                        assert(g2[y][x] == g1[y][x]);
                    }
                }
                let range = if p.bomb_range < u64::MAX { p.bomb_range + 1 } else { p.bomb_range };
                let q = self.world.move_player(Player { bomb_range: range, ..p }, input);
                self.players.set(id, q);
            },
            _ => {
                let q = self.world.move_player(p, input);
                self.players.set(id, q);
            },
        }
        assert forall|i: int| 0 <= i < self.players().len() implies placed(
            (#[trigger] self.players()[i]).x as int,
            self.players()[i].y as int,
            self.world.spec_height(),
            self.world.spec_width(),
        ) by {
            assert(placed(ps0[i].x as int, ps0[i].y as int, self.world.spec_height(), self.world.spec_width()));
        }
    }

    /// Whether the round is over: no player is alive.
    pub fn round_over(&self) -> (r: bool)
        ensures
            r == all_dead(self.players()),
    {
        let mut i: usize = 0;
        while i < self.players.len()
            invariant
                i <= self.players@.len(),
                forall|k: int| 0 <= k < i ==> !(#[trigger] self.players@[k]).alive,
            decreases self.players@.len() - i,
        {
            if self.players[i].alive {
                return false;
            }
            i = i + 1;
        }
        true
    }

    /// The bomb range of each player.
    fn bomb_ranges(&self) -> (r: Vec<u64>)
        ensures
            r@ == ranges_of(self.players()),
    {
        let mut r: Vec<u64> = Vec::new();
        let mut i: usize = 0;
        while i < self.players.len()
            invariant
                i <= self.players@.len(),
                r@ == ranges_of(self.players@.take(i as int)),
            decreases self.players@.len() - i,
        {
            r.push(self.players[i].bomb_range);
            i = i + 1;
            assert(ranges_of(self.players@.take(i as int)) =~= ranges_of(self.players@.take(i - 1)).push(self.players@[i - 1]
                .bomb_range));
        }
        assert(self.players@.take(i as int) =~= self.players@);
        r
    }

    /// One tick at time `now`: each player in index order takes its step
    /// with its input, then bombs and explosions are swept with the
    /// players' current ranges and draws from `rng`. Returns whether the
    /// round is over.
    pub fn tick(&mut self, inputs: &Vec<Input>, now: u64, rng: &mut Rng) -> (over: bool)
        requires
            old(self).wf(),
            inputs@.len() == old(self).players().len(),
        ensures
            final(self).wf(),
            final(self).players() == stepped_all(
                old(self).cells(),
                old(self).players(),
                inputs@,
                now,
                inputs@.len() as nat,
            ).1,
            (final(self).cells(), final(rng).state()) == settle_rows(
                stepped_all(old(self).cells(), old(self).players(), inputs@, now, inputs@.len() as nat).0,
                old(rng).state(),
                old(self).world_view().spec_height() as nat,
                now,
                ranges_of(final(self).players()),
            ),
            forall|y: int, x: int|
                0 <= y < final(self).cells().len() && 0 <= x < final(self).cells()[y].len() ==> !is_stale(
                    #[trigger] final(self).cells()[y][x],
                    now,
                ),
            over == all_dead(final(self).players()),
    {
        let ghost g0 = self.cells();
        let ghost ps0 = self.players();
        let h = self.world.height();
        let n = self.players.len();
        let mut i: usize = 0;
        while i < n
            invariant
                self.wf(),
                self.world.spec_height() == h,
                self.players@.len() == n,
                inputs@.len() == n,
                i <= n,
                (self.cells(), self.players()) == stepped_all(g0, ps0, inputs@, now, i as nat),
            decreases n - i,
        {
            self.update_player(i, inputs[i], now);
            i = i + 1;
        }
        let ranges = self.bomb_ranges();
        self.world.sweep(now, &ranges, rng);
        self.round_over()
    }
}

} // verus!
