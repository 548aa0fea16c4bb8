use rollback_duel::codec::{Packet, INPUT_FIRE, INPUT_RIGHT};
use rollback_duel::sim::{replay, Bullet, Config, Player, World};

fn idle() -> Packet {
    Packet { aim_x: 0, aim_y: 0, input: 0 }
}

/// A player whose reload timer has run out.
fn ready(handle: usize, x: i64, y: i64) -> Player {
    Player { reloading: 0, ..Player::new(handle, x, y, Config::standard().cooldown) }
}

fn world(players: Vec<Player>, bullets: Vec<Bullet>) -> World {
    World { players, bullets }
}

#[test]
fn fire_from_origin_spawns_one_bullet() {
    let cfg = Config::standard();
    let w = world(vec![ready(0, 0, 0)], Vec::new());
    let fire = Packet { aim_x: 5000, aim_y: 0, input: INPUT_FIRE };
    let next = w.step(&cfg, &vec![fire]);
    assert_eq!(next.bullets.len(), 1);
    assert_eq!(next.bullets[0], Bullet { x: 0, y: 0, dir_x: 1000, dir_y: 0 });
    assert_eq!(next.players[0].reloading, cfg.cooldown);
    assert_eq!(next.players[0].reloading, 100_000);
}

#[test]
fn clamp_wins_over_integration() {
    let cfg = Config { move_speed: 500, ..Config::standard() };
    assert_eq!(cfg.half_width, 10_000);
    let w = world(vec![ready(0, 9990, 0)], Vec::new());
    let next = w.step(&cfg, &vec![Packet { aim_x: 0, aim_y: 0, input: INPUT_RIGHT }]);
    assert_eq!((next.players[0].x, next.players[0].y), (10_000, 0));
    assert_eq!((next.players[0].last_dir_x, next.players[0].last_dir_y), (1, 0));
}

#[test]
fn idle_player_keeps_position_and_facing() {
    let cfg = Config::standard();
    let p = Player { last_dir_x: -1, last_dir_y: 1, ..ready(0, 300, -400) };
    let next = world(vec![p], Vec::new()).step(&cfg, &vec![idle()]);
    assert_eq!(next.players[0], p);
}

#[test]
fn fire_is_rate_limited() {
    let cfg = Config::standard();
    let fire = Packet { aim_x: 0, aim_y: 5000, input: INPUT_FIRE };
    let mut w = world(vec![ready(0, 0, 0)], Vec::new());
    let mut counts = Vec::new();
    for _ in 0..7 {
        w = w.step(&cfg, &vec![fire]);
        counts.push(w.bullets.len());
    }
    // 100 ms of cooldown at 16.667 ms per frame: the second shot comes six
    // frames after the first.
    assert_eq!(counts, vec![1, 1, 1, 1, 1, 1, 2]);
}

#[test]
fn two_fire_frames_in_a_row_give_one_bullet() {
    let cfg = Config::standard();
    let fire = Packet { aim_x: 100, aim_y: 0, input: INPUT_FIRE };
    let w = world(vec![ready(0, 0, 0)], Vec::new());
    let w = w.step(&cfg, &vec![fire]).step(&cfg, &vec![fire]);
    assert_eq!(w.bullets.len(), 1);
    assert_eq!(w.players[0].reloading, 100_000 - 16_667);
}

#[test]
fn bullet_despawns_exactly_past_range() {
    let cfg = Config::standard();
    let b = Bullet { x: 19_400, y: 0, dir_x: 1000, dir_y: 0 };
    let w1 = world(Vec::new(), vec![b]).step(&cfg, &Vec::new());
    assert_eq!(w1.bullets, vec![Bullet { x: 19_900, ..b }]);
    let w2 = w1.step(&cfg, &Vec::new());
    assert!(w2.bullets.is_empty());
}

#[test]
fn bullet_exactly_at_range_stays() {
    let cfg = Config::standard();
    let b = Bullet { x: 0, y: -19_500, dir_x: 0, dir_y: -1000 };
    let w1 = world(Vec::new(), vec![b]).step(&cfg, &Vec::new());
    assert_eq!(w1.bullets, vec![Bullet { x: 0, y: -20_000, ..b }]);
}

#[test]
fn diagonal_aim_is_normalised() {
    let cfg = Config::standard();
    let w = world(vec![ready(0, 0, 0)], Vec::new());
    let fire = Packet { aim_x: 3000, aim_y: -4000, input: INPUT_FIRE };
    let next = w.step(&cfg, &vec![fire]);
    assert_eq!(next.bullets[0], Bullet { x: 0, y: 0, dir_x: 600, dir_y: -800 });
    let later = next.step(&cfg, &vec![idle()]);
    // 600 * 500 / 1000 = 300 and -800 * 500 / 1000 = -400 per frame
    assert_eq!((later.bullets[0].x, later.bullets[0].y), (300, -400));
}

#[test]
fn aim_at_own_position_gives_still_bullet() {
    let cfg = Config::standard();
    let w = world(vec![ready(0, 1000, 1000)], Vec::new());
    let next = w.step(&cfg, &vec![Packet { aim_x: 1000, aim_y: 1000, input: INPUT_FIRE }]);
    assert_eq!(next.bullets[0], Bullet { x: 1000, y: 1000, dir_x: 0, dir_y: 0 });
}

#[test]
fn replay_is_deterministic() {
    let cfg = Config::standard();
    let fire_right = Packet { aim_x: 4000, aim_y: 4000, input: INPUT_FIRE | INPUT_RIGHT };
    let right = Packet { aim_x: 0, aim_y: 0, input: INPUT_RIGHT };
    let history = vec![vec![fire_right, right]; 7];
    let a = replay(&cfg, World::starting(&cfg), &history);
    let b = replay(&cfg, World::starting(&cfg), &history);
    assert_eq!(a.players, b.players);
    assert_eq!(a.bullets, b.bullets);
    assert_eq!(a.bullets.len(), 1);
    assert_eq!(a.players[0].x, -2000 + 7 * 150);
    assert_eq!(a.players[1].x, -2000 + 7 * 150);
}

#[test]
fn starting_world_is_valid() {
    let cfg = Config::standard();
    let w = World::starting(&cfg);
    assert!(w.is_valid(&cfg));
    assert!(cfg.is_valid());
    assert_eq!(w.players[0], Player::new(0, -2000, 0, 100_000));
    assert_eq!(w.players[1], Player::new(1, -2000, 3000, 100_000));
    assert_eq!(w.players[0].reloading, cfg.cooldown);
    assert_eq!(w.players[1].reloading, cfg.cooldown);
    assert!(w.bullets.is_empty());
    let outside = world(vec![ready(0, 10_001, 0)], Vec::new());
    assert!(!outside.is_valid(&cfg));
}

#[test]
fn starting_players_wait_a_full_cooldown() {
    let cfg = Config::standard();
    let fire = Packet { aim_x: 0, aim_y: 5000, input: INPUT_FIRE };
    let mut w = World::starting(&cfg);
    let mut counts = Vec::new();
    for _ in 0..6 {
        w = w.step(&cfg, &vec![fire, fire]);
        counts.push(w.bullets.len());
    }
    // 6 * 16_667 us is the first multiple of the frame time to reach 100 ms
    assert_eq!(counts, vec![0, 0, 0, 0, 0, 2]);
    assert_eq!(w.players[0].reloading, cfg.cooldown);
}

#[test]
fn new_player_has_full_cooldown() {
    let p = Player::new(3, 10, -20, 100_000);
    assert_eq!(p, Player { handle: 3, x: 10, y: -20, reloading: 100_000, last_dir_x: 0, last_dir_y: 0 });
}

#[test]
fn short_aim_offset_is_normalised() {
    let cfg = Config::standard();
    let w = world(vec![ready(0, 0, 0)], Vec::new());
    let next = w.step(&cfg, &vec![Packet { aim_x: 1, aim_y: 1, input: INPUT_FIRE }]);
    assert_eq!(next.bullets[0], Bullet { x: 0, y: 0, dir_x: 707, dir_y: 707 });
    let next = w.step(&cfg, &vec![Packet { aim_x: -1, aim_y: 2, input: INPUT_FIRE }]);
    // 1e6 / isqrt(5e6) = 1e6 / 2236 = 447.2, 2e6 / 2236 = 894.4
    assert_eq!(next.bullets[0], Bullet { x: 0, y: 0, dir_x: -447, dir_y: 894 });
}

#[test]
fn long_aim_offset_is_normalised() {
    let cfg = Config::standard();
    let w = world(vec![ready(0, -10_000, 10_000)], Vec::new());
    let next = w.step(&cfg, &vec![Packet { aim_x: i32::MAX, aim_y: i32::MIN, input: INPUT_FIRE }]);
    let b = next.bullets[0];
    let len2 = b.dir_x * b.dir_x + b.dir_y * b.dir_y;
    assert!(997 * 997 <= len2 && len2 <= 1003 * 1003);
    assert!(b.dir_x > 0 && b.dir_y < 0);
}
