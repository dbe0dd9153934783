//! The tile grid: its shape, its border of walls, and cell access.
use vstd::prelude::*;
use vstd::set_lib::{set_int_range, lemma_int_range};
use crate::content::Content;
use crate::rng::{Rng, advance, roll_at};
use crate::blast::owners_below;

verus! {

/// The largest side length of a world, in tiles; it keeps every position,
/// counted in thousandths of a tile, far inside a `u64`.
pub const MAX_SIDE: usize = 4096;

/// The grid as rows of cells, indexed `[y][x]`.
pub type Cells = Seq<Seq<Content>>;

/// Every row of `g` has `w` cells and there are `h` rows.
pub open spec fn shaped(g: Cells, h: int, w: int) -> bool {
    &&& g.len() == h
    &&& forall|y: int| 0 <= y < h ==> #[trigger] g[y].len() == w
}

/// `(x, y)` lies inside an `h` by `w` grid.
pub open spec fn in_bounds(x: int, y: int, h: int, w: int) -> bool {
    0 <= x < w && 0 <= y < h
}

/// `(x, y)` lies on the outer ring of an `h` by `w` grid.
pub open spec fn on_border(x: int, y: int, h: int, w: int) -> bool {
    x == 0 || y == 0 || x == w - 1 || y == h - 1
}

/// Every cell of the outer ring is a wall.
pub open spec fn bordered(g: Cells, h: int, w: int) -> bool {
    forall|x: int, y: int|
        in_bounds(x, y, h, w) && on_border(x, y, h, w) ==> #[trigger] g[y][x] == Content::Wall
}

/// The spawn points among the first `n` cells of row `y`, left to right.
pub open spec fn spawns_in_row(g: Cells, y: int, n: nat) -> Seq<(usize, usize)>
    decreases n,
{
    if n == 0 {
        Seq::empty()
    } else {
        let before = spawns_in_row(g, y, (n - 1) as nat);
        if g[y][n - 1] == Content::SpawnPoint {
            before.push(((n - 1) as usize, y as usize))
        } else {
            before
        }
    }
}

/// The spawn points of the first `n` rows, in row-major order.
pub open spec fn spawn_cells(g: Cells, n: nat) -> Seq<(usize, usize)>
    decreases n,
{
    if n == 0 {
        Seq::empty()
    } else {
        spawn_cells(g, (n - 1) as nat) + spawns_in_row(g, n - 1, g[n - 1].len())
    }
}

/// No coordinate occurs twice in `ps`.
pub open spec fn distinct(ps: Seq<(usize, usize)>) -> bool {
    forall|i: int, j: int| 0 <= i < j < ps.len() ==> #[trigger] ps[i] != #[trigger] ps[j]
}

/// The cells held by a vector of rows.
pub open spec fn rows_view(rows: Seq<Vec<Content>>) -> Cells {
    rows.map_values(|r: Vec<Content>| r@)
}

/// `g` with the cell at `(x, y)` replaced by `c`.
pub open spec fn set_cell(g: Cells, x: int, y: int, c: Content) -> Cells {
    g.update(y, g[y].update(x, c))
}

/// Percent chance that a free cell is seeded with a breakable tile.
pub const BREAKABLE_PERCENT: u64 = 60;

/// What a free cell becomes, given a percent draw.
pub open spec fn seeded(roll: u64) -> Content {
    if roll < BREAKABLE_PERCENT {
        Content::Breakable
    } else {
        Content::Empty
    }
}

/// Of the hundred equally likely percent draws, exactly `BREAKABLE_PERCENT`
/// seed a free cell with a breakable tile.
pub proof fn lemma_breakable_share()
    ensures
        Set::new(|r: int| 0 <= r < 100 && seeded(r as u64) == Content::Breakable).finite(),
        Set::new(|r: int| 0 <= r < 100 && seeded(r as u64) == Content::Breakable).len() == BREAKABLE_PERCENT,
{
    assert(Set::new(|r: int| 0 <= r < 100 && seeded(r as u64) == Content::Breakable) =~= set_int_range(0, 60));
    lemma_int_range(0, 60);
}

/// `(x, y)` is among the first `n` coordinates of `ps`.
pub open spec fn listed(ps: Seq<(usize, usize)>, n: int, x: int, y: int) -> bool {
    exists|k: int| 0 <= k < n && #[trigger] ps[k].0 == x && ps[k].1 == y
}

/// The generated content of `(x, y)`: a spawn point wins over a wall, and
/// any other cell takes draw number `y * w + x` of the source seeded with
/// `seed`.
pub open spec fn generated_cell(
    walls: Seq<(usize, usize)>,
    spawns: Seq<(usize, usize)>,
    seed: u64,
    w: int,
    x: int,
    y: int,
) -> Content {
    if listed(spawns, spawns.len() as int, x, y) {
        Content::SpawnPoint
    } else if listed(walls, walls.len() as int, x, y) {
        Content::Wall
    } else {
        seeded(roll_at(seed, (y * w + x) as nat))
    }
}

/// The generated grid.
pub open spec fn generated(
    h: int,
    w: int,
    walls: Seq<(usize, usize)>,
    spawns: Seq<(usize, usize)>,
    seed: u64,
) -> Cells {
    Seq::new(h as nat, |y: int| Seq::new(w as nat, |x: int| generated_cell(walls, spawns, seed, w, x, y)))
}

/// Every coordinate of `ps` lies in the grid.
pub open spec fn all_in_bounds(ps: Seq<(usize, usize)>, h: int, w: int) -> bool {
    forall|k: int| 0 <= k < ps.len() ==> in_bounds(#[trigger] ps[k].0 as int, ps[k].1 as int, h, w)
}

/// The inputs make a world: sides from 3 to `MAX_SIDE`, every coordinate in
/// the grid, and a generated grid whose outer ring is all wall.
pub open spec fn generation_ok(
    h: int,
    w: int,
    walls: Seq<(usize, usize)>,
    spawns: Seq<(usize, usize)>,
    seed: u64,
) -> bool {
    &&& 3 <= h <= MAX_SIDE
    &&& 3 <= w <= MAX_SIDE
    &&& all_in_bounds(walls, h, w)
    &&& all_in_bounds(spawns, h, w)
    &&& bordered(generated(h, w, walls, spawns, seed), h, w)
}

/// `base` with every one of the first `n` coordinates of `ps` set to `c`.
pub open spec fn stamped(base: Cells, ps: Seq<(usize, usize)>, n: int, c: Content) -> Cells {
    Seq::new(
        base.len(),
        |y: int| Seq::new(base[y].len(), |x: int| if listed(ps, n, x, y) { c } else { base[y][x] }),
    )
}

/// The grid part way through seeding: cells before `(x, y)` in row-major
/// order are generated, the others still hold their stamped content `st`.
pub open spec fn partly_seeded(
    st: Cells,
    walls: Seq<(usize, usize)>,
    spawns: Seq<(usize, usize)>,
    seed: u64,
    w: int,
    y: int,
    x: int,
) -> Cells {
    Seq::new(
        st.len(),
        |cy: int|
            Seq::new(
                st[cy].len(),
                |cx: int|
                    if cy < y || (cy == y && cx < x) {
                        generated_cell(walls, spawns, seed, w, cx, cy)
                    } else {
                        st[cy][cx]
                    },
            ),
    )
}

/// `st` holds the stamped layout: spawn points, then walls, else empty.
pub open spec fn stamped_layout(st: Cells, walls: Seq<(usize, usize)>, spawns: Seq<(usize, usize)>, h: int, w: int) -> bool {
    &&& shaped(st, h, w)
    &&& forall|cy: int, cx: int| 0 <= cy < h && 0 <= cx < w ==> #[trigger] st[cy][cx] == (
        if listed(spawns, spawns.len() as int, cx, cy) {
            Content::SpawnPoint
        } else if listed(walls, walls.len() as int, cx, cy) {
            Content::Wall
        } else {
            Content::Empty
        })
}

/// Seeding the cell at `(x, y)` with draw number `k` moves the seeded part
/// one cell on.
proof fn lemma_seed_step(
    st: Cells,
    walls: Seq<(usize, usize)>,
    spawns: Seq<(usize, usize)>,
    seed: u64,
    h: int,
    w: int,
    y: int,
    x: int,
    k: int,
    prev: Cells,
    cur: Cells,
    roll: u64,
)
    requires
        stamped_layout(st, walls, spawns, h, w),
        0 <= y < h,
        0 <= x < w,
        k == y * w + x,
        prev == partly_seeded(st, walls, spawns, seed, w, y, x),
        roll == roll_at(seed, k as nat),
        cur == (if roll < BREAKABLE_PERCENT && prev[y][x] == Content::Empty {
            set_cell(prev, x, y, Content::Breakable)
        } else {
            prev
        }),
    ensures
        cur =~~= partly_seeded(st, walls, spawns, seed, w, y, x + 1),
{
    assert(prev[y][x] == st[y][x]);
}

/// Turns an empty cell into a breakable tile when `flip` holds.
fn seed_cell(grid: &mut Vec<Vec<Content>>, x: usize, y: usize, flip: bool, h: usize, w: usize)
    requires
        shaped(rows_view(old(grid)@), h as int, w as int),
        x < w,
        y < h,
    ensures
        rows_view(final(grid)@) == (if flip && rows_view(old(grid)@)[y as int][x as int] == Content::Empty {
            set_cell(rows_view(old(grid)@), x as int, y as int, Content::Breakable)
        } else {
            rows_view(old(grid)@)
        }),
{
    let ghost prev = rows_view(grid@);
    assert(rows_view(grid@).len() == h);
    assert(prev[y as int] == grid@[y as int]@);
    if flip {
        let free = match grid[y][x] {
            Content::Empty => true,
            _ => false,
        };
        if free {
            grid[y][x] = Content::Breakable;
            assert(rows_view(grid@) =~~= set_cell(prev, x as int, y as int, Content::Breakable));
        }
    }
}

/// Every coordinate of `ps` lies in the grid.
fn check_in_bounds(ps: &Vec<(usize, usize)>, h: usize, w: usize) -> (r: bool)
    ensures
        r == all_in_bounds(ps@, h as int, w as int),
{
    let mut k: usize = 0;
    while k < ps.len()
        invariant
            k <= ps@.len(),
            forall|j: int| 0 <= j < k ==> in_bounds(#[trigger] ps@[j].0 as int, ps@[j].1 as int, h as int, w as int),
        decreases ps@.len() - k,
    {
        let (x, y) = ps[k];
        if x >= w || y >= h {
            return false;
        }
        k = k + 1;
    }
    true
}

/// A grid of `h` rows of `w` empty cells.
fn empty_grid(h: usize, w: usize) -> (r: Vec<Vec<Content>>)
    ensures
        r@.len() == h,
        forall|y: int| 0 <= y < h ==> #[trigger] r@[y]@ == Seq::new(w as nat, |x: int| Content::Empty),
{
    let mut rows: Vec<Vec<Content>> = Vec::new();
    let mut y: usize = 0;
    while y < h
        invariant
            y <= h,
            rows@.len() == y,
            forall|j: int| 0 <= j < y ==> #[trigger] rows@[j]@ == Seq::new(w as nat, |x: int| Content::Empty),
        decreases h - y,
    {
        let mut row: Vec<Content> = Vec::new();
        let mut x: usize = 0;
        while x < w
            invariant
                x <= w,
                row@ == Seq::new(x as nat, |i: int| Content::Empty),
            decreases w - x,
        {
            row.push(Content::Empty);
            x = x + 1;
            assert(row@ =~= Seq::new(x as nat, |i: int| Content::Empty));
        }
        rows.push(row);
        y = y + 1;
    }
    rows
}

/// Sets every coordinate of `ps` to `c`.
fn stamp_all(grid: &mut Vec<Vec<Content>>, ps: &Vec<(usize, usize)>, c: Content, h: usize, w: usize)
    requires
        shaped(rows_view(old(grid)@), h as int, w as int),
        all_in_bounds(ps@, h as int, w as int),
    ensures
        rows_view(final(grid)@) == stamped(
            rows_view(old(grid)@),
            ps@,
            ps@.len() as int,
            c,
        ),
{
    let ghost base = rows_view(grid@);
    assert(base =~~= stamped(base, ps@, 0, c));
    let mut k: usize = 0;
    while k < ps.len()
        invariant
            k <= ps@.len(),
            shaped(base, h as int, w as int),
            all_in_bounds(ps@, h as int, w as int),
            rows_view(grid@) == stamped(base, ps@, k as int, c),
        decreases ps@.len() - k,
    {
        let (x, y) = ps[k];
        assert(in_bounds(ps@[k as int].0 as int, ps@[k as int].1 as int, h as int, w as int));
        assert(rows_view(grid@).len() == h);
        assert(rows_view(grid@)[y as int] == grid@[y as int]@);
        let ghost prev = rows_view(grid@);
        grid[y][x] = c;
        assert(rows_view(grid@) =~~= set_cell(prev, x as int, y as int, c));
        k = k + 1;
        assert forall|cy: int, cx: int| 0 <= cy < h && 0 <= cx < w implies
            listed(ps@, k as int, cx, cy) == (listed(ps@, k - 1, cx, cy) || (cx == x && cy == y)) by {
            if cx == x && cy == y {
                assert(ps@[k - 1].0 == cx && ps@[k - 1].1 == cy);
            }
            if listed(ps@, k as int, cx, cy) && !(cx == x && cy == y) {
                let j = choose|j: int| 0 <= j < k && #[trigger] ps@[j].0 == cx && ps@[j].1 == cy;
                assert(j != k - 1);
            }
        }
        assert(rows_view(grid@) =~~= stamped(base, ps@, k as int, c));
    }
}

/// A rectangular grid of cells enclosed by a ring of walls.
pub struct World {
    grid: Vec<Vec<Content>>,
    height: usize,
    width: usize,
}

impl World {
    /// The cells, row by row.
    pub closed spec fn cells(&self) -> Cells {
        rows_view(self.grid@)
    }

    pub closed spec fn spec_height(&self) -> int {
        self.height as int
    }

    pub closed spec fn spec_width(&self) -> int {
        self.width as int
    }

    /// Well-formed: the stated shape, sides from 3 to `MAX_SIDE`, and a
    /// border of walls.
    pub open spec fn wf(&self) -> bool {
        &&& 3 <= self.spec_height() <= MAX_SIDE
        &&& 3 <= self.spec_width() <= MAX_SIDE
        &&& shaped(self.cells(), self.spec_height(), self.spec_width())
        &&& bordered(self.cells(), self.spec_height(), self.spec_width())
    }

    pub fn height(&self) -> (r: usize)
        ensures
            r == self.spec_height(),
    {
        self.height
    }

    pub fn width(&self) -> (r: usize)
        ensures
            r == self.spec_width(),
    {
        self.width
    }

    /// The content at column `x`, row `y`.
    pub fn get(&self, x: usize, y: usize) -> (r: Content)
        requires
            self.wf(),
            in_bounds(x as int, y as int, self.spec_height(), self.spec_width()),
        ensures
            r == self.cells()[y as int][x as int],
    {
        assert(self.cells()[y as int] == self.grid@[y as int]@);
        self.grid[y][x]
    }

    /// Replaces the content of an interior cell.
    pub(crate) fn set(&mut self, x: usize, y: usize, c: Content)
        requires
            old(self).wf(),
            in_bounds(x as int, y as int, old(self).spec_height(), old(self).spec_width()),
            !on_border(x as int, y as int, old(self).spec_height(), old(self).spec_width()),
        ensures
            final(self).wf(),
            final(self).spec_height() == old(self).spec_height(),
            final(self).spec_width() == old(self).spec_width(),
            final(self).cells() == set_cell(old(self).cells(), x as int, y as int, c),
    {
        assert(self.cells()[y as int] == self.grid@[y as int]@);
        self.grid[y][x] = c;
        assert(self.cells() =~= set_cell(old(self).cells(), x as int, y as int, c));
    }

    /// Builds a world of `height` rows and `width` columns: every coordinate
    /// of `walls` becomes a wall, then every coordinate of `spawns` a spawn
    /// point, and every other cell a breakable tile with a chance of
    /// `BREAKABLE_PERCENT` in a hundred, one draw from `rng` per cell in
    /// row-major order. Gives `None` when a side is out of range, a
    /// coordinate lies outside the grid, or the outer ring would not be all
    /// wall.
    pub fn generate(
        height: usize,
        width: usize,
        walls: &Vec<(usize, usize)>,
        spawns: &Vec<(usize, usize)>,
        rng: &mut Rng,
    ) -> (r: Option<World>)
        ensures
            r is Some <==> generation_ok(height as int, width as int, walls@, spawns@, old(rng).state()),
            r matches Some(wd) ==> {
                &&& wd.wf()
                &&& bordered(wd.cells(), height as int, width as int)
                &&& wd.spec_height() == height
                &&& wd.spec_width() == width
                &&& wd.cells() == generated(height as int, width as int, walls@, spawns@, old(rng).state())
                &&& final(rng).state() == advance(old(rng).state(), (height * width) as nat)
                &&& owners_below(wd.cells(), 0)
            },
    {
        let ghost seed = rng.state();
        if height < 3 || height > MAX_SIDE || width < 3 || width > MAX_SIDE {
            return None;
        }
        if !check_in_bounds(walls, height, width) || !check_in_bounds(spawns, height, width) {
            return None;
        }
        let h = height;
        let w = width;
        let mut grid = empty_grid(h, w);
        assert(shaped(rows_view(grid@), h as int, w as int));
        stamp_all(&mut grid, walls, Content::Wall, h, w);
        stamp_all(&mut grid, spawns, Content::SpawnPoint, h, w);
        let ghost st = rows_view(grid@);
        assert(st =~~= partly_seeded(st, walls@, spawns@, seed, w as int, 0, 0));
        assert(stamped_layout(st, walls@, spawns@, h as int, w as int));
        let mut y: usize = 0;
        let ghost mut k: int = 0;
        while y < h
            invariant
                3 <= h <= MAX_SIDE,
                3 <= w <= MAX_SIDE,
                y <= h,
                k == y * w,
                shaped(st, h as int, w as int),
                stamped_layout(st, walls@, spawns@, h as int, w as int),
                rng.state() == advance(seed, k as nat),
                rows_view(grid@) == partly_seeded(st, walls@, spawns@, seed, w as int, y as int, 0),
            decreases h - y,
        {
            let mut x: usize = 0;
            while x < w
                invariant
                    3 <= h <= MAX_SIDE,
                    3 <= w <= MAX_SIDE,
                    y < h,
                    x <= w,
                    k == y * w + x,
                    shaped(st, h as int, w as int),
                    stamped_layout(st, walls@, spawns@, h as int, w as int),
                    rng.state() == advance(seed, k as nat),
                    rows_view(grid@) == partly_seeded(st, walls@, spawns@, seed, w as int, y as int, x as int),
                decreases w - x,
            {
                let roll = rng.percent();
                let ghost prev = rows_view(grid@);
                seed_cell(&mut grid, x, y, roll < BREAKABLE_PERCENT, h, w);
                proof {
                    lemma_seed_step(st, walls@, spawns@, seed, h as int, w as int, y as int, x as int, k, prev, rows_view(grid@), roll);
                    k = k + 1;
                }
                x = x + 1;
            }
            assert(k == (y + 1) * w) by (nonlinear_arith)
                requires
                    k == y * w + w,
            ;
            assert(partly_seeded(st, walls@, spawns@, seed, w as int, y as int, w as int)
                =~~= partly_seeded(st, walls@, spawns@, seed, w as int, y as int + 1, 0));
            y = y + 1;
        }
        assert(rows_view(grid@) =~~= generated(h as int, w as int, walls@, spawns@, seed));
        let world = World { grid, height: h, width: w };
        if !world.border_is_wall() {
            return None;
        }
        assert(k == h * w);
        Some(world)
    }

    /// Whether every cell of the outer ring is a wall.
    pub fn border_is_wall(&self) -> (r: bool)
        requires
            shaped(self.cells(), self.spec_height(), self.spec_width()),
        ensures
            r == bordered(self.cells(), self.spec_height(), self.spec_width()),
    {
        let h = self.height;
        let w = self.width;
        let mut cy: usize = 0;
        while cy < h
            invariant
                shaped(self.cells(), h as int, w as int),
                h == self.spec_height(),
                w == self.spec_width(),
                cy <= h,
                forall|by: int, bx: int|
                    0 <= by < cy && 0 <= bx < w && on_border(bx, by, h as int, w as int) ==>
                        #[trigger] self.cells()[by][bx] == Content::Wall,
            decreases h - cy,
        {
            let mut cx: usize = 0;
            while cx < w
                invariant
                    shaped(self.cells(), h as int, w as int),
                    h == self.spec_height(),
                    w == self.spec_width(),
                    cy < h,
                    cx <= w,
                    forall|by: int, bx: int|
                        ((0 <= by < cy && 0 <= bx < w) || (by == cy && 0 <= bx < cx)) && on_border(bx, by, h as int, w as int) ==>
                            #[trigger] self.cells()[by][bx] == Content::Wall,
                decreases w - cx,
            {
                if cx == 0 || cy == 0 || cx == w - 1 || cy == h - 1 {
                    assert(self.cells()[cy as int] == self.grid@[cy as int]@);
                    let is_wall = match self.grid[cy][cx] {
                        Content::Wall => true,
                        _ => false,
                    };
                    if !is_wall {
                        return false;
                    }
                }
                cx = cx + 1;
            }
            cy = cy + 1;
        }
        true
    }

    /// The spawn points, in row-major order.
    pub fn spawn_points(&self) -> (r: Vec<(usize, usize)>)
        requires
            self.wf(),
        ensures
            r@ == spawn_cells(self.cells(), self.spec_height() as nat),
            distinct(r@),
            forall|k: int| 0 <= k < r@.len() ==> {
                &&& in_bounds(#[trigger] r@[k].0 as int, r@[k].1 as int, self.spec_height(), self.spec_width())
                &&& self.cells()[r@[k].1 as int][r@[k].0 as int] == Content::SpawnPoint
            },
    {
        let h = self.height;
        let w = self.width;
        let ghost g = self.cells();
        let mut r: Vec<(usize, usize)> = Vec::new();
        let mut y: usize = 0;
        while y < h
            invariant
                self.wf(),
                g == self.cells(),
                h == self.spec_height(),
                w == self.spec_width(),
                y <= h,
                r@ == spawn_cells(g, y as nat),
                distinct(r@),
                forall|k: int| 0 <= k < r@.len() ==> {
                    &&& in_bounds(#[trigger] r@[k].0 as int, r@[k].1 as int, h as int, w as int)
                    &&& r@[k].1 < y
                    &&& g[r@[k].1 as int][r@[k].0 as int] == Content::SpawnPoint
                },
            decreases h - y,
        {
            let ghost at_row = r@;
            let mut x: usize = 0;
            assert(at_row + spawns_in_row(g, y as int, 0) =~= at_row);
            while x < w
                invariant
                    self.wf(),
                    g == self.cells(),
                    h == self.spec_height(),
                    w == self.spec_width(),
                    y < h,
                    x <= w,
                    r@ == at_row + spawns_in_row(g, y as int, x as nat),
                    distinct(r@),
                    forall|k: int| 0 <= k < r@.len() ==> {
                        &&& in_bounds(#[trigger] r@[k].0 as int, r@[k].1 as int, h as int, w as int)
                        &&& (r@[k].1 < y || (r@[k].1 == y && r@[k].0 < x))
                        &&& g[r@[k].1 as int][r@[k].0 as int] == Content::SpawnPoint
                    },
                decreases w - x,
            {
                let c = self.get(x, y);
                if c == Content::SpawnPoint {
                    let ghost before = r@;
                    r.push((x, y));
                    assert forall|i: int, j: int| 0 <= i < j < r@.len() implies #[trigger] r@[i] != #[trigger] r@[j] by {
                        if j == before.len() {
                            assert(r@[i] == before[i]);
                            assert(in_bounds(before[i].0 as int, before[i].1 as int, h as int, w as int));
                            assert(before[i].1 < y || (before[i].1 == y && before[i].0 < x));
                        } else {
                            assert(r@[i] == before[i] && r@[j] == before[j]);
                        }
                    }
                }
                x = x + 1;
                assert(r@ =~= at_row + spawns_in_row(g, y as int, x as nat));
            }
            assert(g[y as int].len() == w);
            assert(r@ =~= spawn_cells(g, (y + 1) as nat));
            y = y + 1;
        }
        r
    }

    /// A world holding exactly `rows`, indexed `[y][x]`. Gives `None` unless
    /// the rows form a rectangle with sides from 3 to `MAX_SIDE` whose outer
    /// ring is all wall.
    pub fn from_rows(rows: Vec<Vec<Content>>) -> (r: Option<World>)
        ensures
            r is Some <==> {
                &&& 3 <= rows@.len() <= MAX_SIDE
                &&& 3 <= rows@[0]@.len() <= MAX_SIDE
                &&& shaped(rows_view(rows@), rows@.len() as int, rows@[0]@.len() as int)
                &&& bordered(rows_view(rows@), rows@.len() as int, rows@[0]@.len() as int)
            },
            r matches Some(wd) ==> {
                &&& wd.wf()
                &&& wd.cells() == rows_view(rows@)
                &&& wd.spec_height() == rows@.len()
                &&& wd.spec_width() == rows@[0]@.len()
            },
    {
        let h = rows.len();
        if h < 3 || h > MAX_SIDE {
            return None;
        }
        let w = rows[0].len();
        if w < 3 || w > MAX_SIDE {
            return None;
        }
        let mut y: usize = 0;
        while y < h
            invariant
                h == rows@.len(),
                w == rows@[0]@.len(),
                3 <= h <= MAX_SIDE,
                3 <= w <= MAX_SIDE,
                y <= h,
                forall|j: int| 0 <= j < y ==> #[trigger] rows@[j]@.len() == w,
            decreases h - y,
        {
            if rows[y].len() != w {
                assert(rows_view(rows@)[y as int] == rows@[y as int]@);
                assert(rows_view(rows@)[y as int].len() != w);
                return None;
            }
            y = y + 1;
        }
        let world = World { grid: rows, height: h, width: w };
        assert(shaped(world.cells(), h as int, w as int));
        if world.border_is_wall() {
            Some(world)
        } else {
            None
        }
    }
}

} // verus!
