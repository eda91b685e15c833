use td_platformer::enemy::{Enemy, Target};
use td_platformer::energy::{
    age, attract, collect_energy, collectable, find_collect_area, move_energy, pending_energy,
    start_collect, CollectArea, Energy, EnergyPoint, EnergyState, EJECTION_TIME, HOMING_TIME,
    PICKUP_RADIUS,
};
use td_platformer::vector::Vec2;
use td_platformer::world::{Body, Entity, Kind, World};

fn pickup(state: EnergyState) -> Kind {
    Kind::Energy(Energy { energy: 1, state })
}

fn body(position: Vec2, velocity: Vec2, state: EnergyState) -> Body {
    Body { id: Entity(9), position, velocity, impulse: Vec2::zero(), kind: pickup(state) }
}

fn created(remaining_time: u32) -> EnergyState {
    EnergyState::Created { remaining_time }
}

fn homing(goal_time: u32) -> EnergyState {
    EnergyState::Homing { goal_time }
}

#[test]
fn fresh_pickup_defaults() {
    assert_eq!(Energy::default(), Energy { energy: 1, state: created(300_000) });
    assert_eq!(EJECTION_TIME, 300_000);
    assert_eq!(HOMING_TIME, 1_000_000);
    assert_eq!(PICKUP_RADIUS, 10_000);
    assert_eq!(EnergyPoint::new().value(), 0);
}

#[test]
fn fresh_pickup_ages_and_flies_on() {
    let b = body(Vec2::new(5, 5), Vec2::new(120_000, 160_000), created(300_000));
    let r = age(b, Some(Vec2::zero()), 16_667);
    assert_eq!(r.kind, pickup(created(283_333)));
    assert_eq!(r.velocity, Vec2::new(120_000, 160_000));
    assert_eq!(r.position, Vec2::new(5, 5));
}

#[test]
fn fresh_pickup_keeps_flying_on_the_tick_its_time_runs_out() {
    let b = body(Vec2::zero(), Vec2::new(120_000, 160_000), created(16_667));
    let r = age(b, None, 16_667);
    assert_eq!(r.kind, pickup(created(0)));
    assert_eq!(r.velocity, Vec2::new(120_000, 160_000));
}

#[test]
fn spent_pickup_rests_on_the_next_tick() {
    let b = body(Vec2::zero(), Vec2::new(120_000, 160_000), created(0));
    let r = age(b, None, 1);
    assert_eq!(r.velocity, Vec2::zero());
    assert_eq!(r.kind, pickup(created(0)));
    let r = age(b, Some(Vec2::new(7, 7)), 16_667);
    assert_eq!(r.velocity, Vec2::zero());
    assert_eq!(r.kind, pickup(created(0)));
}

#[test]
fn spent_pickup_is_untouched_by_a_tick_without_time() {
    let b = body(Vec2::zero(), Vec2::new(120_000, 160_000), created(0));
    assert_eq!(age(b, None, 0), b);
}

#[test]
fn overdue_pickup_rests_but_stays_fresh() {
    let b = body(Vec2::zero(), Vec2::new(120_000, 160_000), created(10_000));
    let r = age(b, None, 16_667);
    assert_eq!(r.velocity, Vec2::zero());
    assert_eq!(r.kind, pickup(created(10_000)));
}

#[test]
fn pickup_entering_the_area_starts_homing() {
    // Area of radius 200 around the origin, pickup 150 away.
    let area = Some((Vec2::zero(), CollectArea { radius: 200_000 }));
    for remaining in [0, 1, 150_000, 300_000] {
        let b = body(Vec2::new(150_000, 0), Vec2::new(3, 4), created(remaining));
        let r = attract(b, area);
        assert_eq!(r.kind, pickup(homing(1_000_000)));
        assert_eq!(r.velocity, Vec2::new(3, 4));
        assert_eq!(r.position, Vec2::new(150_000, 0));
    }
}

#[test]
fn pickup_outside_the_area_stays_fresh() {
    let area = Some((Vec2::zero(), CollectArea { radius: 200_000 }));
    let b = body(Vec2::new(150_000, 150_000), Vec2::new(3, 4), created(5));
    assert_eq!(attract(b, area), b);
}

#[test]
fn the_rim_of_the_area_is_outside() {
    let area = Some((Vec2::new(10, 10), CollectArea { radius: 200_000 }));
    let on = body(Vec2::new(200_010, 10), Vec2::zero(), created(5));
    assert_eq!(attract(on, area), on);
    let within = body(Vec2::new(200_009, 10), Vec2::zero(), created(5));
    assert_eq!(attract(within, area).kind, pickup(homing(1_000_000)));
    // 120-160-200 is a right triangle: on the rim again.
    let corner = body(Vec2::new(120_010, 160_010), Vec2::zero(), created(5));
    assert_eq!(attract(corner, area), corner);
}

#[test]
fn homing_and_arrived_pickups_ignore_the_area() {
    let area = Some((Vec2::zero(), CollectArea { radius: 200_000 }));
    let h = body(Vec2::new(1, 1), Vec2::zero(), homing(500_000));
    assert_eq!(attract(h, area), h);
    let g = body(Vec2::new(1, 1), Vec2::zero(), EnergyState::Goal);
    assert_eq!(attract(g, area), g);
}

#[test]
fn without_an_area_nothing_starts_homing() {
    let mut w = World::new();
    let id = w.spawn(Vec2::zero(), Vec2::new(1, 1), pickup(created(300_000)));
    assert_eq!(find_collect_area(&w), None);
    start_collect(&mut w);
    assert_eq!(w.get(id).map(|b| b.kind), Some(pickup(created(300_000))));
    let b = body(Vec2::zero(), Vec2::zero(), created(5));
    assert_eq!(attract(b, None), b);
}

#[test]
fn start_collect_takes_the_area_from_the_registry() {
    let mut w = World::new();
    w.spawn(Vec2::new(0, -140_000), Vec2::zero(), Kind::Core(Target));
    w.spawn(
        Vec2::new(0, -140_000),
        Vec2::zero(),
        Kind::CollectArea(CollectArea { radius: 200_000 }),
    );
    let near = w.spawn(Vec2::new(100_000, -40_000), Vec2::zero(), pickup(created(300_000)));
    let far = w.spawn(Vec2::new(300_000, 50_000), Vec2::zero(), pickup(created(0)));
    let enemy = w.spawn(Vec2::new(0, -140_000), Vec2::zero(), Kind::Enemy(Enemy::default()));
    assert_eq!(
        find_collect_area(&w),
        Some((Vec2::new(0, -140_000), CollectArea { radius: 200_000 }))
    );
    start_collect(&mut w);
    assert_eq!(w.get(near).map(|b| b.kind), Some(pickup(homing(1_000_000))));
    assert_eq!(w.get(far).map(|b| b.kind), Some(pickup(created(0))));
    assert_eq!(w.get(enemy).map(|b| b.kind), Some(Kind::Enemy(Enemy::default())));
}

#[test]
fn resting_pickup_inside_the_area_still_starts_homing() {
    // Ageing and proximity are separate: a pickup may come to rest first and
    // be drawn in afterwards.
    let mut w = World::new();
    w.spawn(Vec2::zero(), Vec2::zero(), Kind::Core(Target));
    w.spawn(Vec2::zero(), Vec2::zero(), Kind::CollectArea(CollectArea { radius: 200_000 }));
    let p = w.spawn(Vec2::new(0, 150_000), Vec2::new(0, 200_000), pickup(created(10_000)));
    move_energy(&mut w, 16_667);
    assert_eq!(w.get(p).map(|b| b.velocity), Some(Vec2::zero()));
    assert_eq!(w.get(p).map(|b| b.kind), Some(pickup(created(10_000))));
    start_collect(&mut w);
    assert_eq!(w.get(p).map(|b| b.kind), Some(pickup(homing(1_000_000))));
    move_energy(&mut w, 16_667);
    assert_eq!(w.get(p).map(|b| b.kind), Some(pickup(homing(983_333))));
}

#[test]
fn homing_pickup_out_of_time_arrives_at_rest() {
    // goal_time 0.016 s, tick of 0.02 s.
    let b = body(Vec2::new(1_000, 2_000), Vec2::new(50_000, -60_000), homing(16_000));
    let r = age(b, Some(Vec2::zero()), 20_000);
    assert_eq!(r.kind, pickup(EnergyState::Goal));
    assert_eq!(r.velocity, Vec2::zero());
    assert_eq!(r.position, Vec2::new(1_000, 2_000));
}

#[test]
fn homing_pickup_arrives_without_a_target_too() {
    let b = body(Vec2::new(1_000, 2_000), Vec2::new(50_000, -60_000), homing(16_000));
    let r = age(b, None, 20_000);
    assert_eq!(r.kind, pickup(EnergyState::Goal));
    assert_eq!(r.velocity, Vec2::zero());
}

#[test]
fn homing_tick_that_uses_the_time_up_exactly_is_still_homing() {
    let b = body(Vec2::zero(), Vec2::zero(), homing(20_000));
    let r = age(b, Some(Vec2::zero()), 20_000);
    assert_eq!(r.kind, pickup(homing(0)));
    let r = age(r, Some(Vec2::zero()), 1);
    assert_eq!(r.kind, pickup(EnergyState::Goal));
}

#[test]
fn homing_velocity_follows_the_intercept_formula() {
    // At rest, 100 units short, 1 s to go, half a second passes:
    // acc = (100 - 0 * 1) * 2 / 1^2 = 200, velocity = 0 + 200 * 0.5 = 100.
    let b = body(Vec2::zero(), Vec2::zero(), homing(1_000_000));
    let r = age(b, Some(Vec2::new(100_000, 0)), 500_000);
    assert_eq!(r.velocity, Vec2::new(100_000, 0));
    assert_eq!(r.kind, pickup(homing(500_000)));
    // Moving at 50, 100 short, 1 s to go, 1/60 s passes:
    // acc = (100 - 50) * 2 = 100, velocity = 50 + 100 / 60 = 51.666...
    let b = body(Vec2::zero(), Vec2::new(50_000, 0), homing(1_000_000));
    let r = age(b, Some(Vec2::new(100_000, 0)), 16_667);
    assert_eq!(r.velocity, Vec2::new(51_666, 0));
    assert_eq!(r.kind, pickup(homing(983_333)));
}

#[test]
fn homing_in_one_tick_meets_the_target() {
    // With all the time used in one tick, the mean of old and new velocity
    // covers the way in that time: (0 + 200) / 2 * 1 s = 100.
    let b = body(Vec2::zero(), Vec2::zero(), homing(1_000_000));
    let r = age(b, Some(Vec2::new(100_000, -50_000)), 1_000_000);
    assert_eq!(r.velocity, Vec2::new(200_000, -100_000));
    // 30 units short at 10 units per second with 0.7 s to go.
    let b = body(Vec2::zero(), Vec2::new(10_000, 0), homing(700_000));
    let r = age(b, Some(Vec2::new(30_000, 0)), 700_000);
    let mean_times_time = (10_000 + r.velocity.x as i64) * 700_000;
    let twice_the_way = 2 * 30_000 * 1_000_000i64;
    assert!((mean_times_time - twice_the_way).abs() < 700_000);
    assert_eq!(r.velocity.x, 75_714);
}

#[test]
fn homing_velocity_in_both_components() {
    let b = body(Vec2::new(70_000, 0), Vec2::new(-30_000, 50_000), homing(983_333));
    let r = age(b, Some(Vec2::new(0, 100_000)), 16_667);
    assert_eq!(r.velocity, Vec2::new(-31_396, 51_752));
    let want_x = -30.0 + (-70.0 - (-30.0) * 0.983333) * 2.0 / (0.983333f64 * 0.983333) * 0.016667;
    assert!((r.velocity.x as f64 / 1000.0 - want_x).abs() < 0.002);
    let want_y = 50.0 + (100.0 - 50.0 * 0.983333) * 2.0 / (0.983333f64 * 0.983333) * 0.016667;
    assert!((r.velocity.y as f64 / 1000.0 - want_y).abs() < 0.002);
}

#[test]
fn homing_without_a_target_keeps_the_velocity() {
    let b = body(Vec2::zero(), Vec2::new(50_000, 7), homing(1_000_000));
    let r = age(b, None, 16_667);
    assert_eq!(r.velocity, Vec2::new(50_000, 7));
    assert_eq!(r.kind, pickup(homing(983_333)));
}

#[test]
fn homing_with_no_time_on_either_side_changes_nothing() {
    let b = body(Vec2::zero(), Vec2::new(50_000, 7), homing(0));
    assert_eq!(age(b, Some(Vec2::new(9, 9)), 0), b);
}

#[test]
fn homing_velocity_saturates() {
    let b = body(Vec2::zero(), Vec2::zero(), homing(1));
    let r = age(b, Some(Vec2::new(100_000, -100_000)), 1);
    assert_eq!(r.velocity, Vec2::new(i32::MAX, i32::MIN));
}

#[test]
fn splitting_a_tick_keeps_place_phase_and_time() {
    let start = body(Vec2::new(0, 0), Vec2::zero(), homing(1_000_000));
    let target = Some(Vec2::new(1_000, 0));
    let once = age(start, target, 500_000);
    let twice = age(age(start, target, 250_000), target, 250_000);
    assert_eq!(once.position, twice.position);
    assert_eq!(once.kind, twice.kind);
    assert_eq!(once.kind, pickup(homing(500_000)));
    assert_eq!(once.velocity, Vec2::new(1_000, 0));
    assert_eq!(twice.velocity, Vec2::new(1_055, 0));
    // Past the goal time both ways end at rest in the goal.
    let once = age(start, target, 1_200_000);
    let twice = age(age(start, target, 600_000), target, 600_000);
    assert_eq!(once, twice);
    assert_eq!(once.kind, pickup(EnergyState::Goal));
}

#[test]
fn arrived_pickup_stays_as_it_is() {
    let b = body(Vec2::new(1, 2), Vec2::new(3, 4), EnergyState::Goal);
    assert_eq!(age(b, Some(Vec2::zero()), 16_667), b);
}

#[test]
fn phases_only_move_forward() {
    fn rank(b: &Body) -> u8 {
        match b.kind {
            Kind::Energy(Energy { state: EnergyState::Created { .. }, .. }) => 0,
            Kind::Energy(Energy { state: EnergyState::Homing { .. }, .. }) => 1,
            Kind::Energy(Energy { state: EnergyState::Goal, .. }) => 2,
            _ => 0,
        }
    }
    let area = Some((Vec2::zero(), CollectArea { radius: 200_000 }));
    let mut b = body(Vec2::new(150_000, 0), Vec2::new(-200_000, 0), created(300_000));
    let mut last = rank(&b);
    let mut seen = vec![last];
    for _ in 0..200 {
        b = attract(age(b, Some(Vec2::zero()), 16_667), area);
        assert!(rank(&b) >= last);
        last = rank(&b);
        if seen.last() != Some(&last) {
            seen.push(last);
        }
    }
    assert_eq!(seen, vec![0, 1, 2]);
}

#[test]
fn move_energy_ages_every_pickup_and_nothing_else() {
    let mut w = World::new();
    let core = w.spawn(Vec2::new(100_000, 0), Vec2::new(1, 1), Kind::Core(Target));
    let a = w.spawn(Vec2::zero(), Vec2::new(5, 5), pickup(created(300_000)));
    let b = w.spawn(Vec2::zero(), Vec2::zero(), pickup(homing(1_000_000)));
    let c = w.spawn(Vec2::zero(), Vec2::new(9, 9), pickup(homing(100)));
    let e = w.spawn(Vec2::zero(), Vec2::new(7, 7), Kind::Enemy(Enemy::default()));
    move_energy(&mut w, 500_000);
    assert_eq!(w.get(core).map(|x| x.velocity), Some(Vec2::new(1, 1)));
    assert_eq!(w.get(a).map(|x| (x.velocity, x.kind)), Some((Vec2::zero(), pickup(created(300_000)))));
    assert_eq!(
        w.get(b).map(|x| (x.velocity, x.kind)),
        Some((Vec2::new(100_000, 0), pickup(homing(500_000))))
    );
    assert_eq!(w.get(c).map(|x| (x.velocity, x.kind)), Some((Vec2::zero(), pickup(EnergyState::Goal))));
    assert_eq!(w.get(e).map(|x| x.velocity), Some(Vec2::new(7, 7)));
    assert_eq!(w.len(), 5);
}

#[test]
fn collecting_two_arrived_pickups_scores_two() {
    let mut w = World::new();
    let a = w.spawn(Vec2::zero(), Vec2::zero(), pickup(EnergyState::Goal));
    let b = w.spawn(Vec2::new(1, 1), Vec2::zero(), pickup(EnergyState::Goal));
    let mut score = EnergyPoint::new();
    assert_eq!(pending_energy(&w), 2);
    let got = collect_energy(&mut w, &mut score);
    assert_eq!(score.value(), 2);
    assert_eq!(got, vec![a, b]);
    assert_eq!(w.len(), 0);
    assert_eq!(w.get(a), None);
    assert_eq!(w.get(b), None);
}

#[test]
fn collecting_leaves_everything_else() {
    let mut w = World::new();
    let core = w.spawn(Vec2::zero(), Vec2::zero(), Kind::Core(Target));
    let fresh = w.spawn(Vec2::zero(), Vec2::zero(), pickup(created(5)));
    let done = w.spawn(
        Vec2::zero(),
        Vec2::zero(),
        Kind::Energy(Energy { energy: 7, state: EnergyState::Goal }),
    );
    let flying = w.spawn(Vec2::zero(), Vec2::zero(), pickup(homing(5)));
    let mut score = EnergyPoint(10);
    let got = collect_energy(&mut w, &mut score);
    assert_eq!(got, vec![done]);
    assert_eq!(score, EnergyPoint(17));
    assert_eq!(w.len(), 3);
    assert_eq!((w.body(0).id, w.body(1).id, w.body(2).id), (core, fresh, flying));
}

#[test]
fn collecting_from_an_empty_registry_is_a_no_op() {
    let mut w = World::new();
    let mut score = EnergyPoint(3);
    assert_eq!(pending_energy(&w), 0);
    assert_eq!(collect_energy(&mut w, &mut score), vec![]);
    assert_eq!(score.value(), 3);
    assert_eq!(w.len(), 0);
}

#[test]
fn collecting_nothing_twice_scores_once() {
    let mut w = World::new();
    w.spawn(Vec2::zero(), Vec2::zero(), pickup(EnergyState::Goal));
    let mut score = EnergyPoint::new();
    collect_energy(&mut w, &mut score);
    collect_energy(&mut w, &mut score);
    assert_eq!(score.value(), 1);
}

#[test]
fn score_never_falls_over_a_session() {
    let mut w = World::new();
    w.spawn(Vec2::zero(), Vec2::zero(), Kind::Core(Target));
    w.spawn(Vec2::zero(), Vec2::zero(), Kind::CollectArea(CollectArea { radius: 200_000 }));
    let mut score = EnergyPoint::new();
    let mut last = score.value();
    let mut total = 0;
    for tick in 0..400 {
        if tick % 25 == 0 {
            let x = 1_000 * (tick % 300);
            w.spawn(Vec2::new(x, 100_000), Vec2::new(0, 200_000), Kind::Energy(Energy::default()));
            total += 1;
        }
        move_energy(&mut w, 16_667);
        start_collect(&mut w);
        collect_energy(&mut w, &mut score);
        assert!(score.value() >= last);
        last = score.value();
    }
    assert!(score.value() > 0);
    assert!(score.value() <= total);
}

#[test]
fn collectable_tells_arrived_pickups_apart() {
    assert!(collectable(&body(Vec2::zero(), Vec2::zero(), EnergyState::Goal)));
    assert!(!collectable(&body(Vec2::zero(), Vec2::zero(), homing(0))));
    assert!(!collectable(&body(Vec2::zero(), Vec2::zero(), created(0))));
    let core = Body {
        id: Entity(0),
        position: Vec2::zero(),
        velocity: Vec2::zero(),
        impulse: Vec2::zero(),
        kind: Kind::Core(Target),
    };
    assert!(!collectable(&core));
}
