use td_platformer::enemy::{
    find_target, move_enemies, place_enemy, spawn_enemies, steer, Enemy, Target, Timers,
    ENEMY_RADIUS, SPAWN_BAND, SPAWN_PERIOD,
};
use td_platformer::game::setup_core;
use td_platformer::timer::Timer;
use td_platformer::vector::Vec2;
use td_platformer::world::{Body, Entity, Kind, World};

fn enemy_at(w: &mut World, x: i32, y: i32) -> Entity {
    w.spawn(Vec2::new(x, y), Vec2::zero(), Kind::Enemy(Enemy::default()))
}

#[test]
fn enemy_defaults() {
    assert_eq!(Enemy::default().speed, 40_000);
    assert_eq!(SPAWN_PERIOD, 3_000_000);
    assert_eq!(SPAWN_BAND, 100_000);
    assert_eq!(ENEMY_RADIUS, 10_000);
}

#[test]
fn timers_start_with_a_three_second_period() {
    let t = Timers::new();
    assert_eq!(t.enemy_spawn_timer, Timer { duration: 3_000_000, elapsed: 0, finished: false });
    assert_eq!(Timers::default(), t);
}

#[test]
fn timer_fires_when_the_period_is_up() {
    let mut t = Timer::new(3_000_000);
    t.tick(2_999_999);
    assert!(!t.just_finished());
    assert_eq!(t.elapsed, 2_999_999);
    t.tick(1);
    assert!(t.just_finished());
    assert_eq!(t.elapsed, 0);
    t.tick(16_667);
    assert!(!t.just_finished());
    assert_eq!(t.elapsed, 16_667);
}

#[test]
fn timer_carries_the_remainder_over() {
    let mut t = Timer::new(3_000_000);
    t.tick(2_000_000);
    t.tick(1_500_000);
    assert!(t.just_finished());
    assert_eq!(t.elapsed, 500_000);
    t.tick(7_000_000);
    assert!(t.just_finished());
    assert_eq!(t.elapsed, 1_500_000);
}

#[test]
fn timer_survives_the_longest_tick() {
    let mut t = Timer::new(u32::MAX);
    t.tick(u32::MAX - 1);
    assert!(!t.just_finished());
    t.tick(u32::MAX);
    assert!(t.just_finished());
    assert_eq!(t.elapsed, u32::MAX - 1);
}

#[test]
fn timer_without_duration_fires_every_tick() {
    let mut t = Timer::new(0);
    t.tick(0);
    assert!(t.just_finished());
    assert_eq!(t.elapsed, 0);
    t.tick(5);
    assert!(t.just_finished());
}

#[test]
fn enemy_heads_for_the_core() {
    // Enemy at (100, 50), core at (0, -140), one tick of 1/60 s: the velocity is
    // 40 units per second along (-100, -190).
    let mut w = World::new();
    let core = w.spawn(Vec2::new(0, -140_000), Vec2::zero(), Kind::Core(Target));
    let e = enemy_at(&mut w, 100_000, 50_000);
    move_enemies(&mut w);
    let v = w.get(e).map(|b| b.velocity);
    assert_eq!(v, Some(Vec2::new(-18_629, -35_396)));
    let len = (100.0f64 * 100.0 + 190.0 * 190.0).sqrt();
    let want = (-100.0 / len * 40.0, -190.0 / len * 40.0);
    let got = v.map(|v| (v.x as f64 / 1000.0, v.y as f64 / 1000.0));
    assert!(got.map(|g| (g.0 - want.0).abs() < 0.002 && (g.1 - want.1).abs() < 0.002) == Some(true));
    assert_eq!(w.get(core).map(|b| b.velocity), Some(Vec2::zero()));
}

#[test]
fn steering_is_recomputed_from_scratch() {
    let mut w = World::new();
    w.spawn(Vec2::new(0, -140_000), Vec2::zero(), Kind::Core(Target));
    let e = w.spawn(
        Vec2::new(100_000, 50_000),
        Vec2::new(999_999, -999_999),
        Kind::Enemy(Enemy::default()),
    );
    move_enemies(&mut w);
    assert_eq!(w.get(e).map(|b| b.velocity), Some(Vec2::new(-18_629, -35_396)));
    move_enemies(&mut w);
    assert_eq!(w.get(e).map(|b| b.velocity), Some(Vec2::new(-18_629, -35_396)));
}

#[test]
fn enemy_without_a_core_keeps_its_heading() {
    let mut w = World::new();
    let e = w.spawn(Vec2::new(1, 2), Vec2::new(30, -40), Kind::Enemy(Enemy::default()));
    assert_eq!(find_target(&w), None);
    move_enemies(&mut w);
    assert_eq!(w.get(e).map(|b| b.velocity), Some(Vec2::new(30, -40)));
}

#[test]
fn enemy_on_top_of_the_core_stops() {
    let mut w = World::new();
    w.spawn(Vec2::new(7, 7), Vec2::zero(), Kind::Core(Target));
    let e = w.spawn(Vec2::new(7, 7), Vec2::new(30, -40), Kind::Enemy(Enemy::default()));
    move_enemies(&mut w);
    assert_eq!(w.get(e).map(|b| b.velocity), Some(Vec2::zero()));
}

#[test]
fn every_enemy_moves_at_its_own_speed() {
    let mut w = World::new();
    w.spawn(Vec2::new(0, -140_000), Vec2::zero(), Kind::Core(Target));
    let speeds = [40_000, 1, 123_456, 2_000_000];
    let mut ids = Vec::new();
    for (k, s) in speeds.iter().enumerate() {
        let x = 10_000 * (k as i32 + 1);
        ids.push(w.spawn(Vec2::new(x, 3 * x), Vec2::zero(), Kind::Enemy(Enemy { speed: *s })));
    }
    move_enemies(&mut w);
    for (k, id) in ids.iter().enumerate() {
        let v = w.get(*id).map(|b| b.velocity).unwrap_or(Vec2::zero());
        let got = v.length_squared() as i128;
        let a = speeds[k] as i128;
        assert!(got < (a + 1) * (a + 1));
        assert!(a < 3 || got >= (a - 3) * (a - 3));
    }
}

#[test]
fn the_oldest_core_is_the_target() {
    let mut w = World::new();
    w.spawn(Vec2::new(1, 1), Vec2::zero(), Kind::Enemy(Enemy::default()));
    w.spawn(Vec2::new(2, 2), Vec2::zero(), Kind::Core(Target));
    w.spawn(Vec2::new(3, 3), Vec2::zero(), Kind::Core(Target));
    assert_eq!(find_target(&w), Some(Vec2::new(2, 2)));
}

#[test]
fn steer_leaves_other_kinds_alone() {
    let b = Body {
        id: Entity(4),
        position: Vec2::new(1, 1),
        velocity: Vec2::new(2, 2),
        impulse: Vec2::zero(),
        kind: Kind::Core(Target),
    };
    assert_eq!(steer(b, Some(Vec2::new(50, 50))), b);
}

#[test]
fn place_enemy_centres_the_field_on_the_origin() {
    let mut w = World::new();
    let id = place_enemy(&mut w, 0, 0, 800_000);
    assert_eq!(w.get(id).map(|b| b.position), Some(Vec2::new(-400_000, 0)));
    let id = place_enemy(&mut w, 799_999, 99_999, 800_000);
    assert_eq!(w.get(id).map(|b| b.position), Some(Vec2::new(399_999, 99_999)));
    let id = place_enemy(&mut w, 400_000, 50_000, 800_000);
    assert_eq!(
        w.get(id),
        Some(Body {
            id,
            position: Vec2::new(0, 50_000),
            velocity: Vec2::zero(),
            impulse: Vec2::zero(),
            kind: Kind::Enemy(Enemy { speed: 40_000 }),
        })
    );
}

#[test]
fn no_enemy_before_the_timer_fires() {
    let mut w = World::new();
    let mut t = Timers::new();
    for _ in 0..179 {
        assert_eq!(spawn_enemies(&mut w, 16_667, &mut t, 800_000), None);
    }
    assert_eq!(w.len(), 0);
    assert_eq!(t.enemy_spawn_timer.elapsed, 179 * 16_667);
}

#[test]
fn one_enemy_each_time_the_timer_fires() {
    let mut w = World::new();
    let mut t = Timers::new();
    assert_eq!(spawn_enemies(&mut w, 2_999_999, &mut t, 800_000), None);
    let first = spawn_enemies(&mut w, 1, &mut t, 800_000);
    assert_eq!(first, Some(Entity(0)));
    assert_eq!(w.len(), 1);
    // A long tick that spans several periods still brings one enemy.
    let second = spawn_enemies(&mut w, 9_500_000, &mut t, 800_000);
    assert_eq!(second, Some(Entity(1)));
    assert_eq!(w.len(), 2);
    assert_eq!(t.enemy_spawn_timer.elapsed, 500_000);
    assert_eq!(spawn_enemies(&mut w, 1, &mut t, 800_000), None);
}

#[test]
fn spawned_enemies_lie_in_the_spawn_band() {
    let mut w = World::new();
    let mut t = Timers::new();
    for _ in 0..300 {
        let id = spawn_enemies(&mut w, 3_000_000, &mut t, 800_000);
        let b = id.and_then(|id| w.get(id));
        assert!(matches!(b, Some(b) if b.kind == Kind::Enemy(Enemy::default())));
        assert!(matches!(b, Some(b) if b.velocity == Vec2::zero()));
        assert!(matches!(b, Some(b) if -400_000 <= b.position.x && b.position.x < 400_000));
        assert!(matches!(b, Some(b) if 0 <= b.position.y && b.position.y < 100_000));
    }
    assert_eq!(w.len(), 300);
}

#[test]
fn spawned_enemies_are_spread_out() {
    let mut w = World::new();
    let mut t = Timers::new();
    for _ in 0..200 {
        spawn_enemies(&mut w, 3_000_000, &mut t, 800_000);
    }
    let first = w.body(0).position;
    let mut other_x = false;
    let mut other_y = false;
    for i in 1..w.len() {
        other_x = other_x || w.body(i).position.x != first.x;
        other_y = other_y || w.body(i).position.y != first.y;
    }
    assert!(other_x);
    assert!(other_y);
    // A draw that handed its lower bound back would put every enemy at the
    // left edge of the field and on the origin's height.
    let mut off_edge = false;
    let mut off_floor = false;
    for i in 0..w.len() {
        off_edge = off_edge || w.body(i).position.x != -400_000;
        off_floor = off_floor || w.body(i).position.y != 0;
    }
    assert!(off_edge);
    assert!(off_floor);
}

#[test]
fn a_field_without_width_spawns_on_the_axis() {
    let mut w = World::new();
    let mut t = Timers::new();
    let id = spawn_enemies(&mut w, 3_000_000, &mut t, 0);
    assert_eq!(id.and_then(|id| w.get(id)).map(|b| b.position.x), Some(0));
}

#[test]
fn setup_core_then_enemies_find_it() {
    let mut w = World::new();
    let (core, _area) = setup_core(&mut w, 400_000);
    let e = enemy_at(&mut w, 100_000, 50_000);
    assert_eq!(find_target(&w), w.get(core).map(|b| b.position));
    move_enemies(&mut w);
    assert_eq!(w.get(e).map(|b| b.velocity), Some(Vec2::new(-18_629, -35_396)));
}
