//! The standard arena: a ring of walls with a pillar on every cell whose
//! two coordinates are even, and a spawn point near each corner.
use vstd::prelude::*;
use crate::world::{in_bounds, on_border, listed};

verus! {

/// `(x, y)` holds a pillar: both coordinates even and below twice the
/// half-sides.
pub open spec fn is_pillar(x: int, y: int, h: int, w: int) -> bool {
    x % 2 == 0 && y % 2 == 0 && x < 2 * (w / 2) && y < 2 * (h / 2)
}

/// `(x, y)` is a wall of the standard arena.
pub open spec fn arena_wall(x: int, y: int, h: int, w: int) -> bool {
    in_bounds(x, y, h, w) && (on_border(x, y, h, w) || is_pillar(x, y, h, w))
}

/// Appending `(x, y)` adds exactly that coordinate to those listed.
proof fn lemma_listed_push(before: Seq<(usize, usize)>, after: Seq<(usize, usize)>, x: usize, y: usize)
    requires
        after == before.push((x, y)),
    ensures
        forall|cx: int, cy: int|
            #[trigger] listed(after, after.len() as int, cx, cy) <==> (listed(before, before.len() as int, cx, cy) || (
            cx == x && cy == y)),
{
    assert forall|cx: int, cy: int|
        #[trigger] listed(after, after.len() as int, cx, cy) <==> (listed(before, before.len() as int, cx, cy) || (cx
            == x && cy == y)) by {
        if listed(before, before.len() as int, cx, cy) {
            let j = choose|j: int| 0 <= j < before.len() && #[trigger] before[j].0 == cx && before[j].1 == cy;
            assert(after[j].0 == cx);
        }
        if cx == x && cy == y {
            assert(after[before.len() as int].0 == cx);
        }
        if listed(after, after.len() as int, cx, cy) && !(cx == x && cy == y) {
            let j = choose|j: int| 0 <= j < after.len() && #[trigger] after[j].0 == cx && after[j].1 == cy;
            assert(before[j].0 == cx);
        }
    }
}

/// The walls of the standard `height` by `width` arena, row by row: its
/// outer ring and its pillars.
pub fn wall_layout(height: usize, width: usize) -> (r: Vec<(usize, usize)>)
    ensures
        forall|x: int, y: int| listed(r@, r@.len() as int, x, y) <==> arena_wall(x, y, height as int, width as int),
{
    let mut r: Vec<(usize, usize)> = Vec::new();
    let mut y: usize = 0;
    while y < height
        invariant
            y <= height,
            forall|cx: int, cy: int|
                #[trigger] listed(r@, r@.len() as int, cx, cy) <==> (cy < y && arena_wall(cx, cy, height as int, width as int)),
        decreases height - y,
    {
        let mut x: usize = 0;
        while x < width
            invariant
                y < height,
                x <= width,
                forall|cx: int, cy: int|
                    #[trigger] listed(r@, r@.len() as int, cx, cy) <==> ((cy < y || (cy == y && cx < x)) && arena_wall(
                        cx,
                        cy,
                        height as int,
                        width as int,
                    )),
            decreases width - x,
        {
            let border = x == 0 || y == 0 || x == width - 1 || y == height - 1;
            let pillar = x % 2 == 0 && y % 2 == 0 && x < 2 * (width / 2) && y < 2 * (height / 2);
            if border || pillar {
                let ghost before = r@;
                r.push((x, y));
                proof {
                    lemma_listed_push(before, r@, x, y);
                }
            }
            x = x + 1;
        }
        y = y + 1;
    }
    r
}

/// One spawn point inside each corner of a `height` by `width` arena.
pub fn corner_spawns(height: usize, width: usize) -> (r: Vec<(usize, usize)>)
    requires
        height >= 3,
        width >= 3,
    ensures
        r@ == seq![
            (1usize, 1usize),
            ((width - 2) as usize, (height - 2) as usize),
            ((width - 2) as usize, 1usize),
            (1usize, (height - 2) as usize),
        ],
{
    let r = vec![(1, 1), (width - 2, height - 2), (width - 2, 1), (1, height - 2)];
    assert(r@ =~= seq![
        (1usize, 1usize),
        ((width - 2) as usize, (height - 2) as usize),
        ((width - 2) as usize, 1usize),
        (1usize, (height - 2) as usize),
    ]);
    r
}

} // verus!
