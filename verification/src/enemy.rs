//! Enemies: timer-gated spawning and direct pursuit of the target.

use vstd::prelude::*;
use vstd::math::abs;
use crate::fixed::{clamp_i32, saturate, trunc_div};
use crate::random::gen_range;
use crate::timer::{ticked, Timer};
use crate::vector::{lemma_pursuit_direction, lemma_pursuit_magnitude, pursue, pursuit, Vec2};
use crate::world::{Body, Entity, Kind, World};

verus! {

/// What makes a body an enemy.
#[derive(Clone, Copy, Debug, PartialEq, Eq, Structural)]
pub struct Enemy {
    /// Pursuit speed, in thousandths of a unit per second. An enemy with a
    /// negative speed moves away from the target.
    pub speed: i32,
}

/// Marks the body that enemies pursue and energy homes to.
#[derive(Clone, Copy, Debug, PartialEq, Eq, Structural)]
pub struct Target;

impl Default for Enemy {
    /// An enemy closes in at 40 units per second.
    fn default() -> (e: Enemy)
        ensures
            e == (Enemy { speed: 40_000 }),
    {
        Enemy { speed: 40_000 }
    }
}

/// Time between two enemies: 3 s.
pub const SPAWN_PERIOD: u32 = 3_000_000;

/// Enemies appear at a height from the origin up to, and not including, this
/// one: 100 units.
pub const SPAWN_BAND: i32 = 100_000;

/// Radius of an enemy's body: 10 units.
pub const ENEMY_RADIUS: i32 = 10_000;

/// The timers of the simulation.
#[derive(Clone, Copy, Debug, PartialEq, Eq, Structural)]
pub struct Timers {
    pub enemy_spawn_timer: Timer,
}

impl Timers {
    /// Timers at the start of a session.
    pub fn new() -> (t: Timers)
        ensures
            t == (Timers {
                enemy_spawn_timer: Timer { duration: SPAWN_PERIOD, elapsed: 0, finished: false },
            }),
    {
        Timers { enemy_spawn_timer: Timer::new(SPAWN_PERIOD) }
    }
}

impl Default for Timers {
    fn default() -> (t: Timers)
        ensures
            t == (Timers {
                enemy_spawn_timer: Timer { duration: SPAWN_PERIOD, elapsed: 0, finished: false },
            }),
    {
        Timers::new()
    }
}

/// Position of the target: that of the oldest body marked as one, if there is
/// any.
pub open spec fn target_position(s: Seq<Body>) -> Option<Vec2>
    decreases s.len(),
{
    if s.len() == 0 {
        None
    } else if s[0].kind is Core {
        Some(s[0].position)
    } else {
        target_position(s.drop_first())
    }
}

/// Looks the target up in the registry.
pub fn find_target(world: &World) -> (r: Option<Vec2>)
    ensures
        r == target_position(world@),
{
    let n = world.len();
    let mut i: usize = 0;
    assert(world@.skip(0) =~= world@);
    while i < n
        invariant
            n == world@.len(),
            i <= n,
            target_position(world@) == target_position(world@.skip(i as int)),
        decreases n - i,
    {
        let b = world.body(i);
        proof {
            assert(world@.skip(i as int)[0] == world@[i as int]);
            assert(world@.skip(i as int).drop_first() =~= world@.skip(i + 1));
        }
        match b.kind {
            Kind::Core(_) => {
                return Some(b.position);
            },
            _ => {},
        }
        i += 1;
    }
    None
}

/// The body `b` after the steering pass: an enemy heads straight for the
/// target at its own speed, whatever it did before. Without a target it keeps
/// its heading; on top of the target it stops.
pub open spec fn steered(b: Body, target: Option<Vec2>) -> Body {
    match (b.kind, target) {
        (Kind::Enemy(e), Some(t)) => Body { velocity: pursuit(b.position, t, e.speed as int), ..b },
        _ => b,
    }
}

/// Steers one body.
pub fn steer(b: Body, target: Option<Vec2>) -> (r: Body)
    ensures
        r == steered(b, target),
{
    match (b.kind, target) {
        (Kind::Enemy(e), Some(t)) => Body { velocity: pursue(b.position, t, e.speed), ..b },
        _ => b,
    }
}

/// Points every enemy at the target.
pub fn move_enemies(world: &mut World)
    ensures
        final(world)@ == old(world)@.map_values(
            |b: Body| steered(b, target_position(old(world)@)),
        ),
        final(world).next_id() == old(world).next_id(),
        old(world).wf() ==> final(world).wf(),
{
    let target = find_target(world);
    let n = world.len();
    let mut i: usize = 0;
    while i < n
        invariant
            n == world@.len(),
            n == old(world)@.len(),
            i <= n,
            world.next_id() == old(world).next_id(),
            old(world).wf() ==> world.wf(),
            forall|j: int| 0 <= j < i ==> world@[j] == steered(old(world)@[j], target),
            forall|j: int| i <= j < n ==> world@[j] == old(world)@[j],
        decreases n - i,
    {
        let b = world.body(i);
        world.replace(i, steer(b, target));
        i += 1;
    }
    assert(world@ =~= old(world)@.map_values(|b: Body| steered(b, target)));
}

/// Where an enemy appears for the two numbers drawn: across the width of the
/// field, which is centred on the origin, and `ry` above the origin.
pub open spec fn spawn_position(rx: int, ry: int, field_width: int) -> Vec2 {
    Vec2 { x: clamp_i32(rx - trunc_div(field_width, 2)) as i32, y: clamp_i32(ry) as i32 }
}

/// The numbers that may be drawn for an enemy's position on a field of the
/// given width. A field without width leaves one choice across.
pub open spec fn in_spawn_range(rx: int, ry: int, field_width: int) -> bool {
    &&& 0 <= rx
    &&& rx < field_width || rx == 0
    &&& 0 <= ry < SPAWN_BAND
}

/// A fresh enemy at rest.
pub open spec fn spawned_enemy(id: Entity, position: Vec2) -> Body {
    Body {
        id,
        position,
        velocity: Vec2 { x: 0, y: 0 },
        impulse: Vec2 { x: 0, y: 0 },
        kind: Kind::Enemy(Enemy { speed: 40_000 }),
    }
}

/// Adds an enemy at the position that the drawn numbers `rx` and `ry` stand
/// for.
pub fn place_enemy(world: &mut World, rx: i32, ry: i32, field_width: i32) -> (id: Entity)
    requires
        old(world).next_id() < u64::MAX,
    ensures
        id.0 == old(world).next_id(),
        final(world).next_id() == old(world).next_id() + 1,
        final(world)@ == old(world)@.push(
            spawned_enemy(id, spawn_position(rx as int, ry as int, field_width as int)),
        ),
        old(world).wf() ==> final(world).wf(),
{
    let x = saturate(rx as i128 - (field_width / 2) as i128);
    world.spawn(Vec2 { x, y: ry }, Vec2::zero(), Kind::Enemy(Enemy::default()))
}

/// What the arrival of an enemy makes of the registry `before`, in which
/// handles from `first` on are free: nothing where none arrived, and else one
/// more body at the end, a fresh enemy with the handle `first`, at one of the
/// places that can be drawn on a field of the given width.
pub open spec fn enemy_arrives(
    before: Seq<Body>,
    first: nat,
    field_width: int,
    spawned: Option<Entity>,
    after: Seq<Body>,
) -> bool {
    match spawned {
        None => after == before,
        Some(id) => id.0 == first && exists|rx: int, ry: int|
            in_spawn_range(rx, ry, field_width) && after == before.push(
                #[trigger] spawned_enemy(id, spawn_position(rx, ry, field_width)),
            ),
    }
}

/// Runs the spawn timer for `dt` microseconds and, when it fires, adds one
/// enemy at a random place: anywhere across the field, and from the origin up
/// to `SPAWN_BAND` above it. Returns the new enemy's handle.
pub fn spawn_enemies(world: &mut World, dt: u32, timers: &mut Timers, field_width: i32) -> (spawned:
    Option<Entity>)
    requires
        old(world).next_id() < u64::MAX,
    ensures
        final(timers).enemy_spawn_timer == ticked(old(timers).enemy_spawn_timer, dt),
        spawned is Some == final(timers).enemy_spawn_timer.finished,
        enemy_arrives(
            old(world)@,
            old(world).next_id(),
            field_width as int,
            spawned,
            final(world)@,
        ),
        final(world).next_id() == old(world).next_id() + if spawned is Some {
            1nat
        } else {
            0nat
        },
        old(world).wf() ==> final(world).wf(),
{
    timers.enemy_spawn_timer.tick(dt);
    if timers.enemy_spawn_timer.just_finished() {
        let mut rng = rand::thread_rng();
        let rx: i32 = if field_width > 0 {
            gen_range(&mut rng, 0, field_width)
        } else {
            0
        };
        let ry: i32 = gen_range(&mut rng, 0, SPAWN_BAND);
        let id = place_enemy(world, rx, ry, field_width);
        assert(in_spawn_range(rx as int, ry as int, field_width as int));
        assert(world@ == old(world)@.push(
            spawned_enemy(id, spawn_position(rx as int, ry as int, field_width as int)),
        ));
        Some(id)
    } else {
        None
    }
}

/// An enemy's speed is its own: whenever there is a target and the enemy is
/// not on top of it, the steering pass leaves the enemy with a velocity whose
/// magnitude is that of its `speed`, short of it by less than three
/// thousandths and above it by less than one. Only the direction depends on
/// where the two are.
pub proof fn lemma_enemy_speed(b: Body, e: Enemy, t: Vec2)
    requires
        b.kind == Kind::Enemy(e),
        b.position != t,
    ensures
        steered(b, Some(t)).velocity.norm_squared() < (abs(e.speed as int) + 1) * (abs(
            e.speed as int,
        ) + 1),
        abs(e.speed as int) >= 3 ==> (abs(e.speed as int) - 3) * (abs(e.speed as int) - 3)
            <= steered(b, Some(t)).velocity.norm_squared(),
{
    lemma_pursuit_magnitude(b.position, t, e.speed);
}

/// An enemy heads straight for the target: where its speed is not negative,
/// neither component of its velocity points away from the target, and the
/// velocity is parallel to the way to the target to within rounding.
pub proof fn lemma_enemy_heads_for_the_target(b: Body, e: Enemy, t: Vec2)
    requires
        b.kind == Kind::Enemy(e),
        b.position != t,
        e.speed >= 0,
    ensures
        ({
            let v = steered(b, Some(t)).velocity;
            let dx = t.x - b.position.x;
            let dy = t.y - b.position.y;
            &&& v.x * dx >= 0
            &&& v.y * dy >= 0
            &&& -2 * (abs(dx) + abs(dy)) < v.x * dy - v.y * dx < 2 * (abs(dx) + abs(dy))
        }),
{
    lemma_pursuit_direction(b.position, t, e.speed);
}

/// Steering has no memory: what an enemy did before has no say in its new
/// velocity, which depends on where it is, where the target is, and its
/// speed.
pub proof fn lemma_steering_has_no_inertia(a: Body, b: Body, t: Vec2)
    requires
        a.kind is Enemy,
        a.kind == b.kind,
        a.position == b.position,
    ensures
        steered(a, Some(t)).velocity == steered(b, Some(t)).velocity,
{
}

/// An enemy on top of the target stops, and an enemy without a target keeps
/// the velocity it has.
pub proof fn lemma_enemy_without_heading(b: Body, e: Enemy)
    requires
        b.kind == Kind::Enemy(e),
    ensures
        steered(b, Some(b.position)).velocity == (Vec2 { x: 0, y: 0 }),
        steered(b, None) == b,
{
}

} // verus!
