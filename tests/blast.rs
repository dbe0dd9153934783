use bomberman::content::{Content, EXPLOSION_LIFETIME_MS, FUSE_MS};
use bomberman::rng::Rng;
use bomberman::world::World;

/// `#` wall, `+` breakable, `.` empty, `S` spawn point, `*` bonus.
fn arena(lines: &[&str]) -> World {
    let rows: Vec<Vec<Content>> = lines
        .iter()
        .map(|l| {
            l.chars()
                .map(|c| match c {
                    '#' => Content::Wall,
                    '+' => Content::Breakable,
                    'S' => Content::SpawnPoint,
                    '*' => Content::Bonus,
                    _ => Content::Empty,
                })
                .collect()
        })
        .collect();
    World::from_rows(rows).expect("arena")
}

fn edit(world: &World, x: usize, y: usize, c: Content) -> World {
    let mut rows: Vec<Vec<Content>> = Vec::new();
    for cy in 0..world.height() {
        let mut row = Vec::new();
        for cx in 0..world.width() {
            row.push(if cx == x && cy == y { c } else { world.get(cx, cy) });
        }
        rows.push(row);
    }
    World::from_rows(rows).unwrap()
}

fn with(lines: &[&str], x: usize, y: usize, c: Content) -> World {
    edit(&arena(lines), x, y, c)
}

const OPEN: [&str; 7] = ["#######", "#.....#", "#.....#", "#.....#", "#.....#", "#.....#", "#######"];

#[test]
fn range_one_blast_covers_cross() {
    let mut world = with(&OPEN, 3, 3, Content::Bomb { placed_at: 0, owner: 0 });
    world.sweep(FUSE_MS, &vec![1], &mut Rng::new(0));
    let fire = Content::Explosion { started_at: FUSE_MS, source: 0 };
    for &(x, y) in &[(3, 3), (2, 3), (4, 3), (3, 2), (3, 4)] {
        assert_eq!(world.get(x, y), fire);
    }
    for &(x, y) in &[(1, 3), (5, 3), (3, 1), (3, 5), (2, 2), (4, 4)] {
        assert_eq!(world.get(x, y), Content::Empty);
    }
}

#[test]
fn blast_stops_at_wall_and_takes_one_breakable() {
    let lines = ["#######", "#.....#", "#.#...#", "#..++.#", "#.....#", "#.....#", "#######"];
    let mut world = with(&lines, 2, 3, Content::Bomb { placed_at: 100, owner: 1 });
    world.sweep(100 + FUSE_MS, &vec![1, 3], &mut Rng::new(0));
    let fire = Content::Explosion { started_at: 100 + FUSE_MS, source: 1 };
    assert_eq!(world.get(2, 3), fire);
    assert_eq!(world.get(3, 3), fire);
    assert_eq!(world.get(4, 3), Content::Breakable);
    assert_eq!(world.get(5, 3), Content::Empty);
    assert_eq!(world.get(1, 3), fire);
    assert_eq!(world.get(0, 3), Content::Wall);
    assert_eq!(world.get(2, 2), Content::Wall);
    assert_eq!(world.get(2, 1), Content::Empty);
    assert_eq!(world.get(2, 4), fire);
    assert_eq!(world.get(2, 5), fire);
    assert_eq!(world.get(2, 6), Content::Wall);
}

#[test]
fn range_is_read_from_owner() {
    let mut world = with(&OPEN, 1, 1, Content::Bomb { placed_at: 0, owner: 1 });
    world.sweep(FUSE_MS, &vec![1, 4], &mut Rng::new(0));
    let fire = Content::Explosion { started_at: FUSE_MS, source: 1 };
    for x in 1..6 {
        assert_eq!(world.get(x, 1), fire);
        assert_eq!(world.get(1, x), fire);
    }
    assert_eq!(world.get(2, 2), Content::Empty);
}

#[test]
fn bomb_waits_for_its_fuse() {
    let bomb = Content::Bomb { placed_at: 500, owner: 0 };
    let mut world = with(&OPEN, 3, 3, bomb);
    world.sweep(500 + FUSE_MS - 1, &vec![2], &mut Rng::new(0));
    assert_eq!(world.get(3, 3), bomb);
    assert_eq!(world.get(2, 3), Content::Empty);
}

#[test]
fn bomb_placed_in_the_future_stays() {
    let bomb = Content::Bomb { placed_at: 9000, owner: 0 };
    let mut world = with(&OPEN, 3, 3, bomb);
    world.sweep(10, &vec![2], &mut Rng::new(0));
    assert_eq!(world.get(3, 3), bomb);
}

#[test]
fn blast_overwrites_waiting_bomb_without_chaining() {
    let first = with(&OPEN, 2, 3, Content::Bomb { placed_at: 0, owner: 0 });
    let mut world = edit(&first, 4, 3, Content::Bomb { placed_at: 2000, owner: 1 });
    world.sweep(FUSE_MS, &vec![3, 3], &mut Rng::new(0));
    let fire = Content::Explosion { started_at: FUSE_MS, source: 0 };
    assert_eq!(world.get(4, 3), fire);
    assert_eq!(world.get(5, 3), fire);
    assert_eq!(world.get(4, 2), Content::Empty);
    assert_eq!(world.get(4, 4), Content::Empty);
}

#[test]
fn explosion_decays_to_bonus_on_low_draw() {
    let fire = Content::Explosion { started_at: 0, source: 0 };
    let mut world = with(&OPEN, 2, 2, fire);
    world.sweep(EXPLOSION_LIFETIME_MS - 1, &vec![1], &mut Rng::new(0));
    assert_eq!(world.get(2, 2), fire);
    let mut rng = Rng::new(0);
    world.sweep(EXPLOSION_LIFETIME_MS, &vec![1], &mut rng);
    assert_eq!(world.get(2, 2), Content::Bonus);
}

#[test]
fn explosion_decays_to_empty_on_high_draw() {
    let fire = Content::Explosion { started_at: 40, source: 0 };
    let mut world = with(&OPEN, 2, 2, fire);
    world.sweep(40 + EXPLOSION_LIFETIME_MS, &vec![1], &mut Rng::new(12345));
    assert_eq!(world.get(2, 2), Content::Empty);
}

#[test]
fn no_explosion_outlives_its_lifetime() {
    let mut world = with(&OPEN, 3, 3, Content::Bomb { placed_at: 0, owner: 0 });
    let mut rng = Rng::new(77);
    let mut now = 0;
    while now < 10_000 {
        world.sweep(now, &vec![2], &mut rng);
        for y in 0..7 {
            for x in 0..7 {
                if let Content::Explosion { started_at, .. } = world.get(x, y) {
                    assert!(started_at + EXPLOSION_LIFETIME_MS > now);
                }
            }
        }
        now += 16;
    }
    for y in 0..7 {
        for x in 0..7 {
            assert!(!matches!(world.get(x, y), Content::Explosion { .. } | Content::Bomb { .. }));
        }
    }
}

#[test]
fn bonus_share_is_near_ten_percent() {
    let mut bonus = 0u64;
    let mut total = 0u64;
    let mut rng = Rng::new(2024);
    for _ in 0..200 {
        let mut world = with(&OPEN, 3, 3, Content::Bomb { placed_at: 0, owner: 0 });
        world.sweep(FUSE_MS, &vec![2], &mut rng);
        world.sweep(FUSE_MS + EXPLOSION_LIFETIME_MS, &vec![2], &mut rng);
        for y in 0..7 {
            for x in 0..7 {
                if (x == 3 && (1..6).contains(&y)) || (y == 3 && (1..6).contains(&x)) {
                    total += 1;
                    match world.get(x, y) {
                        Content::Bonus => bonus += 1,
                        c => assert_eq!(c, Content::Empty),
                    }
                }
            }
        }
    }
    let share = bonus as f64 / total as f64;
    assert!(share > 0.07 && share < 0.13, "share {}", share);
}

#[test]
fn detonate_directly() {
    let mut world = arena(&["#####", "#.+.#", "#...#", "#...#", "#####"]);
    let fire = Content::Explosion { started_at: 1, source: 0 };
    world.detonate(2, 2, 2, fire);
    assert_eq!(world.get(2, 2), fire);
    assert_eq!(world.get(2, 1), fire);
    assert_eq!(world.get(1, 2), fire);
    assert_eq!(world.get(3, 2), fire);
    assert_eq!(world.get(2, 3), fire);
    assert_eq!(world.get(1, 1), Content::Empty);
}
