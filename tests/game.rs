use bomberman::content::{Content, FUSE_MS};
use bomberman::game::Game;
use bomberman::player::{Input, Player, PLAYER_HALF, STEP, TILE};
use bomberman::rng::Rng;
use bomberman::world::World;

/// `#` wall, `+` breakable, `.` empty, `S` spawn point, `*` bonus.
fn arena(lines: &[&str]) -> World {
    let rows: Vec<Vec<Content>> = lines
        .iter()
        .map(|l| {
            l.chars()
                .map(|c| match c {
                    '#' => Content::Wall,
                    '+' => Content::Breakable,
                    'S' => Content::SpawnPoint,
                    '*' => Content::Bonus,
                    _ => Content::Empty,
                })
                .collect()
        })
        .collect();
    World::from_rows(rows).expect("arena")
}

fn idle() -> Input {
    Input { up: false, down: false, left: false, right: false, bomb: false }
}

fn bomb() -> Input {
    Input { bomb: true, ..idle() }
}

fn right() -> Input {
    Input { right: true, ..idle() }
}

fn start(lines: &[&str], n: usize) -> Game {
    Game::new(arena(lines), n, &mut Rng::new(1)).expect("round")
}

/// Index of the player whose centre is on tile column `cx`.
fn on_column(game: &Game, cx: u64) -> usize {
    (0..game.player_count()).find(|&i| game.player(i).x / TILE == cx).unwrap()
}

#[test]
fn players_start_on_distinct_spawn_centres() {
    let game = start(&["#######", "#S...S#", "#.....#", "#S....#", "#######"], 3);
    assert_eq!(game.player_count(), 3);
    let mut seen = Vec::new();
    for i in 0..3 {
        let p = game.player(i);
        assert_eq!(p.x % TILE, TILE / 2);
        assert_eq!(p.y % TILE, TILE / 2);
        assert!(p.alive);
        assert_eq!(p.bomb_range, 1);
        assert_eq!(p.kill_score, 0);
        let cell = (p.x / TILE, p.y / TILE);
        assert!(cell == (1, 1) || cell == (5, 1) || cell == (1, 3));
        assert!(!seen.contains(&cell));
        seen.push(cell);
    }
}

#[test]
fn too_many_players_for_the_spawns() {
    let world = arena(&["#####", "#S.S#", "#####"]);
    assert!(Game::new(world, 3, &mut Rng::new(0)).is_none());
}

#[test]
fn no_players_means_round_over() {
    let game = Game::new(arena(&["#####", "#S.S#", "#####"]), 0, &mut Rng::new(0)).unwrap();
    assert!(game.round_over());
}

#[test]
fn placed_bomb_detonates_after_fuse() {
    let mut game = start(&["#######", "#S....#", "#.#.#.#", "#.....#", "#######"], 1);
    let mut rng = Rng::new(3);
    assert!(!game.tick(&vec![bomb()], 0, &mut rng));
    assert_eq!(game.world().get(1, 1), Content::Bomb { placed_at: 0, owner: 0 });
    assert!(!game.tick(&vec![idle()], FUSE_MS - 1, &mut rng));
    assert_eq!(game.world().get(1, 1), Content::Bomb { placed_at: 0, owner: 0 });
    assert!(!game.tick(&vec![idle()], FUSE_MS, &mut rng));
    let fire = Content::Explosion { started_at: FUSE_MS, source: 0 };
    assert_eq!(game.world().get(1, 1), fire);
    assert_eq!(game.world().get(2, 1), fire);
    assert_eq!(game.world().get(1, 2), fire);
    assert_eq!(game.world().get(3, 1), Content::Empty);
    assert!(game.player(0).alive);
    assert!(game.tick(&vec![idle()], FUSE_MS + 16, &mut rng));
    assert!(!game.player(0).alive);
    assert_eq!(game.player(0).kill_score, 1);
}

#[test]
fn explosion_kills_once_and_credits_its_source() {
    let mut game = start(&["#####", "#S.S#", "#####"], 2);
    let walker = on_column(&game, 1);
    let bomber = on_column(&game, 3);
    let mut rng = Rng::new(0);
    let mut inputs = vec![idle(), idle()];
    inputs[bomber] = bomb();
    game.tick(&inputs, 0, &mut rng);
    inputs[bomber] = idle();
    inputs[walker] = right();
    let mut now = 0;
    for _ in 0..100 {
        now += 16;
        game.tick(&inputs, now, &mut rng);
    }
    assert_eq!(game.player(walker).x, 2 * TILE);
    inputs[walker] = idle();
    assert!(!game.tick(&inputs, FUSE_MS, &mut rng));
    assert!(game.player(walker).alive);
    assert!(game.tick(&inputs, FUSE_MS + 16, &mut rng));
    assert!(!game.player(walker).alive);
    assert!(!game.player(bomber).alive);
    assert_eq!(game.player(bomber).kill_score, 2);
    assert_eq!(game.player(walker).kill_score, 0);
    assert!(game.tick(&inputs, FUSE_MS + 32, &mut rng));
    assert_eq!(game.player(bomber).kill_score, 2);
    assert_eq!(game.player(walker).kill_score, 0);
}

#[test]
fn dead_player_is_left_alone() {
    let mut game = start(&["#####", "#S..#", "#####"], 1);
    let mut rng = Rng::new(0);
    game.tick(&vec![bomb()], 0, &mut rng);
    game.tick(&vec![idle()], FUSE_MS, &mut rng);
    game.tick(&vec![idle()], FUSE_MS + 16, &mut rng);
    let dead = game.player(0);
    assert!(!dead.alive);
    game.update_player(0, Input { right: true, bomb: true, ..idle() }, FUSE_MS + 32);
    assert_eq!(game.player(0), dead);
    assert_eq!(game.world().get(1, 1), Content::Explosion { started_at: FUSE_MS, source: 0 });
}

#[test]
fn bonus_raises_range_once() {
    let mut game = start(&["######", "#S*..#", "######"], 1);
    let mut rng = Rng::new(0);
    let mut now = 0;
    for _ in 0..100 {
        now += 16;
        game.tick(&vec![right()], now, &mut rng);
    }
    assert_eq!(game.player(0).x, 2 * TILE);
    assert_eq!(game.player(0).bomb_range, 1);
    game.tick(&vec![idle()], now + 16, &mut rng);
    assert_eq!(game.player(0).bomb_range, 2);
    assert_eq!(game.world().get(2, 1), Content::Empty);
    for k in 2..10 {
        game.tick(&vec![idle()], now + 16 * k, &mut rng);
    }
    assert_eq!(game.player(0).bomb_range, 2);
}

#[test]
fn wider_range_after_bonus() {
    let mut game = start(&["#######", "#S*...#", "#######"], 1);
    let mut rng = Rng::new(0);
    let mut now = 0;
    for _ in 0..101 {
        now += 16;
        game.tick(&vec![right()], now, &mut rng);
    }
    assert_eq!(game.player(0).bomb_range, 2);
    let x = game.player(0).x;
    game.tick(&vec![bomb()], 5000, &mut rng);
    let cx = (x / TILE) as usize;
    game.tick(&vec![idle()], 5000 + FUSE_MS, &mut rng);
    let fire = Content::Explosion { started_at: 5000 + FUSE_MS, source: 0 };
    assert_eq!(game.world().get(cx, 1), fire);
    assert_eq!(game.world().get(cx + 1, 1), fire);
    assert_eq!(game.world().get(cx + 2, 1), fire);
    assert_eq!(game.world().get(cx - 1, 1), fire);
    assert_eq!(game.world().get(cx + 3, 1), Content::Empty);
}

#[test]
fn blocked_axis_slides_along_wall() {
    let mut game = start(&["#####", "#...#", "#...#", "#S#.#", "#####"], 1);
    let p0 = game.player(0);
    assert_eq!((p0.x, p0.y), (1500, 3500));
    let mut rng = Rng::new(0);
    let input = Input { right: true, down: true, ..idle() };
    for k in 0..40u64 {
        game.tick(&vec![input], 16 * k, &mut rng);
    }
    let p = game.player(0);
    assert_eq!(p.x, 2 * TILE - PLAYER_HALF - STEP);
    assert_eq!(p.y, 3500 - 40 * STEP);
}

#[test]
fn blocked_vertical_keeps_horizontal() {
    let mut game = start(&["######", "#S...#", "######"], 1);
    let mut rng = Rng::new(0);
    let input = Input { right: true, up: true, ..idle() };
    for k in 0..30u64 {
        game.tick(&vec![input], 16 * k, &mut rng);
    }
    let p = game.player(0);
    assert_eq!(p.x, 1500 + 30 * STEP);
    assert_eq!(p.y, 2 * TILE - PLAYER_HALF - STEP);
}

#[test]
fn breakable_blocks_movement() {
    let mut game = start(&["#####", "#S+.#", "#####"], 1);
    let mut rng = Rng::new(0);
    for k in 0..50u64 {
        game.tick(&vec![right()], 16 * k, &mut rng);
    }
    assert_eq!(game.player(0).x, 2 * TILE - PLAYER_HALF - STEP);
}

#[test]
fn opposite_keys_cancel() {
    let mut game = start(&["#####", "#.S.#", "#...#", "#...#", "#####"], 1);
    let before = game.player(0);
    let input = Input { left: true, right: true, up: true, down: true, bomb: false };
    game.tick(&vec![input], 0, &mut Rng::new(0));
    assert_eq!(game.player(0), before);
}

#[test]
fn move_player_directly() {
    let world = arena(&["#####", "#...#", "#...#", "#...#", "#####"]);
    let p = Player::at_tile(2, 2);
    let q = world.move_player(p, Input { left: true, up: true, ..idle() });
    assert_eq!((q.x, q.y), (2500 - STEP, 2500 + STEP));
    assert!(world.probe_x(1400 - STEP, 2500, false));
    assert!(!world.probe_x(1400, 2500, false));
    assert!(world.probe_y(2500, 3600, true));
    assert!(!world.probe_y(2500, 3599, true));
}

#[test]
fn one_survivor_keeps_round_going() {
    let mut game = start(&["#######", "#S...S#", "#######"], 2);
    let bomber = on_column(&game, 1);
    let mut rng = Rng::new(0);
    let mut inputs = vec![idle(), idle()];
    inputs[bomber] = bomb();
    game.tick(&inputs, 0, &mut rng);
    inputs[bomber] = idle();
    game.tick(&inputs, FUSE_MS, &mut rng);
    assert!(!game.tick(&inputs, FUSE_MS + 16, &mut rng));
    assert!(!game.player(bomber).alive);
    let mut now = FUSE_MS + 16;
    for _ in 0..1000 {
        now += 16;
        assert!(!game.tick(&inputs, now, &mut rng));
    }
    assert!(!game.round_over());
}

#[test]
fn spawn_draw_order_follows_the_source() {
    let game = start(&["#######", "#S...S#", "#.....#", "#S....#", "#######"], 3);
    let cells: Vec<(u64, u64)> = (0..3).map(|i| (game.player(i).x / TILE, game.player(i).y / TILE)).collect();
    assert_eq!(cells, vec![(1, 3), (5, 1), (1, 1)]);
}

#[test]
fn fresh_world_has_valid_owners() {
    let world = arena(&["#####", "#S.S#", "#####"]);
    assert!(world.owners_within(0));
    let rows = vec![
        vec![Content::Wall; 3],
        vec![Content::Wall, Content::Bomb { placed_at: 0, owner: 2 }, Content::Wall],
        vec![Content::Wall; 3],
    ];
    let armed = World::from_rows(rows).unwrap();
    assert!(!armed.owners_within(2));
    assert!(armed.owners_within(3));
}

#[test]
fn player_at_tile_centre() {
    let p = Player::at_tile(3, 7);
    assert_eq!(p, Player { x: 3500, y: 7500, bomb_range: 1, alive: true, kill_score: 0 });
}

#[test]
fn bomb_key_rearms_and_shields() {
    let mut game = start(&["#####", "#S..#", "#####"], 1);
    game.update_player(0, bomb(), 10);
    assert_eq!(game.world().get(1, 1), Content::Bomb { placed_at: 10, owner: 0 });
    game.update_player(0, bomb(), 20);
    assert_eq!(game.world().get(1, 1), Content::Bomb { placed_at: 20, owner: 0 });
    assert!(game.player(0).alive);
}
