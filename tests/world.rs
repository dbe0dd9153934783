use bomberman::content::Content;
use bomberman::layout::{corner_spawns, wall_layout};
use bomberman::rng::Rng;
use bomberman::world::World;

fn standard(height: usize, width: usize, seed: u64) -> Option<World> {
    let walls = wall_layout(height, width);
    let spawns = corner_spawns(height, width);
    let mut rng = Rng::new(seed);
    World::generate(height, width, &walls, &spawns, &mut rng)
}

#[test]
fn generated_outer_ring_is_wall() {
    for seed in 0..10u64 {
        let world = standard(11, 11, seed).expect("standard arena");
        assert_eq!(world.height(), 11);
        assert_eq!(world.width(), 11);
        for i in 0..11 {
            assert_eq!(world.get(i, 0), Content::Wall);
            assert_eq!(world.get(i, 10), Content::Wall);
            assert_eq!(world.get(0, i), Content::Wall);
            assert_eq!(world.get(10, i), Content::Wall);
        }
    }
}

#[test]
fn generated_pillars_and_spawns() {
    let world = standard(11, 11, 3).unwrap();
    for &(x, y) in &[(2, 2), (4, 6), (8, 8), (6, 2)] {
        assert_eq!(world.get(x, y), Content::Wall);
    }
    for &(x, y) in &[(1, 1), (9, 9), (9, 1), (1, 9)] {
        assert_eq!(world.get(x, y), Content::SpawnPoint);
    }
    assert_ne!(world.get(1, 2), Content::Wall);
    assert_ne!(world.get(3, 3), Content::Wall);
}

#[test]
fn generated_cells_follow_draws_in_row_major_order() {
    let world = World::generate(5, 5, &wall_layout(5, 5), &vec![(1, 1)], &mut Rng::new(0)).unwrap();
    assert_eq!(world.get(1, 1), Content::SpawnPoint);
    assert_eq!(world.get(2, 2), Content::Wall);
    assert_eq!(world.get(2, 1), Content::Empty);
    assert_eq!(world.get(3, 1), Content::Empty);
    assert_eq!(world.get(1, 2), Content::Empty);
    assert_eq!(world.get(3, 2), Content::Breakable);
    assert_eq!(world.get(1, 3), Content::Breakable);
    assert_eq!(world.get(2, 3), Content::Empty);
    assert_eq!(world.get(3, 3), Content::Breakable);
}

#[test]
fn generation_is_reproducible() {
    let a = standard(15, 13, 99).unwrap();
    let b = standard(15, 13, 99).unwrap();
    for y in 0..15 {
        for x in 0..13 {
            assert_eq!(a.get(x, y), b.get(x, y));
        }
    }
}

#[test]
fn breakable_share_is_near_sixty_percent() {
    let mut free = 0u64;
    let mut breakable = 0u64;
    for seed in 0..40u64 {
        let world = standard(31, 31, seed).unwrap();
        for y in 0..31 {
            for x in 0..31 {
                match world.get(x, y) {
                    Content::Wall | Content::SpawnPoint => {}
                    Content::Breakable => {
                        free += 1;
                        breakable += 1;
                    }
                    _ => free += 1,
                }
            }
        }
    }
    let share = breakable as f64 / free as f64;
    assert!(share > 0.57 && share < 0.63, "share {}", share);
}

#[test]
fn generation_rejects_coordinate_outside() {
    let mut walls = wall_layout(7, 7);
    walls.push((7, 3));
    assert!(World::generate(7, 7, &walls, &corner_spawns(7, 7), &mut Rng::new(1)).is_none());
    let spawns = vec![(1, 9)];
    assert!(World::generate(7, 7, &wall_layout(7, 7), &spawns, &mut Rng::new(1)).is_none());
}

#[test]
fn generation_rejects_open_border() {
    let pillars_only: Vec<(usize, usize)> = vec![(2, 2), (4, 4)];
    assert!(World::generate(7, 7, &pillars_only, &vec![], &mut Rng::new(1)).is_none());
}

#[test]
fn generation_rejects_spawn_on_border() {
    let spawns = vec![(0, 3)];
    assert!(World::generate(7, 7, &wall_layout(7, 7), &spawns, &mut Rng::new(1)).is_none());
}

#[test]
fn generation_rejects_bad_sides() {
    assert!(World::generate(2, 7, &wall_layout(2, 7), &vec![], &mut Rng::new(1)).is_none());
    assert!(World::generate(7, 2, &wall_layout(7, 2), &vec![], &mut Rng::new(1)).is_none());
    assert!(World::generate(5000, 3, &vec![], &vec![], &mut Rng::new(1)).is_none());
}

#[test]
fn smallest_world_is_all_wall_but_centre() {
    let world = World::generate(3, 3, &wall_layout(3, 3), &vec![(1, 1)], &mut Rng::new(5)).unwrap();
    assert_eq!(world.get(1, 1), Content::SpawnPoint);
    assert_eq!(world.get(0, 1), Content::Wall);
    assert_eq!(world.spawn_points(), vec![(1, 1)]);
}

#[test]
fn wall_layout_of_five_by_five() {
    let walls = wall_layout(5, 5);
    assert_eq!(walls.len(), 17);
    assert!(walls.contains(&(2, 2)));
    assert!(walls.contains(&(4, 0)));
    assert!(walls.contains(&(0, 4)));
    assert!(!walls.contains(&(1, 1)));
    assert!(!walls.contains(&(2, 1)));
}

#[test]
fn corner_spawns_of_eleven() {
    assert_eq!(corner_spawns(11, 11), vec![(1, 1), (9, 9), (9, 1), (1, 9)]);
    assert_eq!(corner_spawns(7, 9), vec![(1, 1), (7, 5), (7, 1), (1, 5)]);
}

#[test]
fn spawn_points_in_row_major_order() {
    let world = standard(11, 11, 8).unwrap();
    assert_eq!(world.spawn_points(), vec![(1, 1), (9, 1), (1, 9), (9, 9)]);
}

#[test]
fn from_rows_checks_shape_and_border() {
    let w = Content::Wall;
    let e = Content::Empty;
    let good = vec![vec![w, w, w], vec![w, e, w], vec![w, w, w]];
    let world = World::from_rows(good).unwrap();
    assert_eq!(world.get(1, 1), Content::Empty);
    let ragged = vec![vec![w, w, w], vec![w, e], vec![w, w, w]];
    assert!(World::from_rows(ragged).is_none());
    let open = vec![vec![w, w, w], vec![e, e, w], vec![w, w, w]];
    assert!(World::from_rows(open).is_none());
    let short = vec![vec![w, w, w], vec![w, w, w]];
    assert!(World::from_rows(short).is_none());
}

#[test]
fn rng_draws_are_exact() {
    let mut rng = Rng::new(0);
    assert_eq!(rng.percent(), 7);
    assert_eq!(rng.percent(), 24);
    let mut other = Rng::new(12345);
    assert_eq!(other.below(100), 64);
    assert_eq!(other.below(100), 83);
    let mut small = Rng::new(12345);
    assert!(small.below(3) < 3);
}
