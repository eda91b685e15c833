use td_platformer::enemy::{Enemy, Target};
use td_platformer::energy::{CollectArea, Energy};
use td_platformer::player::Player;
use td_platformer::vector::Vec2;
use td_platformer::world::{Body, Entity, Kind, World};

fn enemy() -> Kind {
    Kind::Enemy(Enemy::default())
}

#[test]
fn new_world_is_empty() {
    let w = World::new();
    assert_eq!(w.len(), 0);
    assert!(w.has_room());
    assert_eq!(w.room(), u64::MAX);
    assert_eq!(w.find(Entity(0)), None);
    assert_eq!(w.get(Entity(0)), None);
}

#[test]
fn spawn_hands_out_fresh_handles_in_order() {
    let mut w = World::new();
    let a = w.spawn(Vec2::new(1, 2), Vec2::new(3, 4), enemy());
    let b = w.spawn(Vec2::new(5, 6), Vec2::zero(), Kind::Core(Target));
    let c = w.spawn(Vec2::zero(), Vec2::zero(), Kind::Player(Player::default()));
    assert_eq!((a, b, c), (Entity(0), Entity(1), Entity(2)));
    assert_eq!(w.len(), 3);
    assert_eq!(w.room(), u64::MAX - 3);
    assert_eq!(
        w.body(0),
        Body {
            id: a,
            position: Vec2::new(1, 2),
            velocity: Vec2::new(3, 4),
            impulse: Vec2::zero(),
            kind: enemy(),
        }
    );
    assert_eq!(w.body(1).kind, Kind::Core(Target));
    assert_eq!(w.find(c), Some(2));
    assert_eq!(w.get(b).map(|x| x.position), Some(Vec2::new(5, 6)));
}

#[test]
fn despawn_removes_only_the_named_body() {
    let mut w = World::new();
    let a = w.spawn(Vec2::new(1, 0), Vec2::zero(), enemy());
    let b = w.spawn(Vec2::new(2, 0), Vec2::zero(), enemy());
    let c = w.spawn(Vec2::new(3, 0), Vec2::zero(), enemy());
    assert!(w.despawn(b));
    assert_eq!(w.len(), 2);
    assert_eq!(w.body(0).id, a);
    assert_eq!(w.body(1).id, c);
    assert_eq!(w.get(b), None);
    assert!(!w.despawn(b));
    assert_eq!(w.len(), 2);
}

#[test]
fn handles_are_not_reused_after_despawn() {
    let mut w = World::new();
    let a = w.spawn(Vec2::zero(), Vec2::zero(), enemy());
    assert!(w.despawn(a));
    let b = w.spawn(Vec2::zero(), Vec2::zero(), enemy());
    assert_ne!(a, b);
    assert_eq!(b, Entity(1));
}

#[test]
fn set_motion_writes_position_and_velocity() {
    let mut w = World::new();
    let a = w.spawn(Vec2::new(1, 0), Vec2::zero(), enemy());
    let b = w.spawn(Vec2::new(2, 0), Vec2::zero(), Kind::Energy(Energy::default()));
    assert!(w.set_motion(b, Vec2::new(9, 8), Vec2::new(7, 6)));
    assert_eq!(w.body(1).position, Vec2::new(9, 8));
    assert_eq!(w.body(1).velocity, Vec2::new(7, 6));
    assert_eq!(w.body(1).kind, Kind::Energy(Energy::default()));
    assert_eq!(w.body(0).position, Vec2::new(1, 0));
    assert_eq!(w.body(0).id, a);
    assert!(!w.set_motion(Entity(77), Vec2::zero(), Vec2::zero()));
    assert_eq!(w.len(), 2);
}

#[test]
fn take_impulse_hands_out_and_clears() {
    let mut w = World::new();
    let a = w.spawn(Vec2::zero(), Vec2::zero(), Kind::CollectArea(CollectArea { radius: 5 }));
    assert_eq!(w.take_impulse(a), Some(Vec2::zero()));
    assert_eq!(w.take_impulse(Entity(4)), None);
    assert_eq!(w.len(), 1);
}
