//! Energy pickups: the three-phase life of a pickup and the score it earns.

use vstd::prelude::*;
use crate::enemy::{find_target, target_position};
use crate::fixed::{
    clamp_i32, div_toward_zero, lemma_trunc_div_bounds, saturate, trunc_div, SECOND,
};
use crate::vector::{distance_squared, squared_distance, Vec2};
use crate::world::{lemma_select_is_filter, Body, Entity, Kind, World};

verus! {

/// Phase of a pickup's life. A pickup only ever moves down this list.
#[derive(Clone, Copy, Debug, PartialEq, Eq, Structural)]
pub enum EnergyState {
    /// Thrown clear of the destroyed enemy, with `remaining_time` microseconds
    /// of free flight left before it comes to rest.
    Created { remaining_time: u32 },
    /// Flying to the target, due there in `goal_time` microseconds.
    Homing { goal_time: u32 },
    /// Arrived; waiting to be collected.
    Goal,
}

/// What makes a body an energy pickup.
#[derive(Clone, Copy, Debug, PartialEq, Eq, Structural)]
pub struct Energy {
    /// Score the pickup is worth.
    pub energy: i32,
    pub state: EnergyState,
}

/// Radius of a pickup's body: 10 units.
pub const PICKUP_RADIUS: i32 = 10_000;

/// Free flight granted to a fresh pickup: 0.3 s.
pub const EJECTION_TIME: u32 = 300_000;

/// Time a pickup takes from entering the collection area to the target: 1 s.
pub const HOMING_TIME: u32 = 1_000_000;

impl Default for Energy {
    /// A fresh pickup is worth one point and has its free flight ahead of it.
    fn default() -> (e: Energy)
        ensures
            e == (Energy {
                energy: 1,
                state: EnergyState::Created { remaining_time: EJECTION_TIME },
            }),
    {
        Energy { energy: 1, state: EnergyState::Created { remaining_time: EJECTION_TIME } }
    }
}

/// The zone around the target in which pickups start homing.
#[derive(Clone, Copy, Debug, PartialEq, Eq, Structural)]
pub struct CollectArea {
    /// Radius of the zone, in thousandths.
    pub radius: i32,
}

/// The running score.
#[derive(Clone, Copy, Debug, PartialEq, Eq, Structural)]
pub struct EnergyPoint(pub i32);

impl EnergyPoint {
    /// The score at the start of a session.
    pub fn new() -> (s: EnergyPoint)
        ensures
            s.0 == 0,
    {
        EnergyPoint(0)
    }

    /// The score, for display.
    pub fn value(&self) -> (v: i32)
        ensures
            v == self.0,
    {
        self.0
    }
}

/// One component of a homing pickup's velocity after `dt` microseconds. The
/// pickup is `diff` short of the target, moves at `v`, and is due in
/// `goal_time`. The constant acceleration that closes `diff` in exactly
/// `goal_time` is `2 * (diff - v * goal_time) / goal_time^2`; the velocity
/// gains that acceleration times `dt`, rounded toward zero and held to the
/// component range. With no time left there is no such acceleration, and the
/// velocity stays.
pub open spec fn homing_component(v: int, diff: int, goal_time: int, dt: int) -> int {
    if goal_time == 0 {
        v
    } else {
        clamp_i32(
            v + trunc_div(2 * dt * (diff * SECOND - v * goal_time), goal_time * goal_time),
        )
    }
}

/// Velocity of a homing pickup after `dt` microseconds.
pub open spec fn homing_velocity(
    velocity: Vec2,
    position: Vec2,
    target: Vec2,
    goal_time: u32,
    dt: u32,
) -> Vec2 {
    Vec2 {
        x: homing_component(
            velocity.x as int,
            target.x - position.x,
            goal_time as int,
            dt as int,
        ) as i32,
        y: homing_component(
            velocity.y as int,
            target.y - position.y,
            goal_time as int,
            dt as int,
        ) as i32,
    }
}

fn home_component(v: i32, from: i32, to: i32, goal_time: u32, dt: u32) -> (r: i32)
    ensures
        r == homing_component(v as int, to - from, goal_time as int, dt as int),
{
    if goal_time == 0 {
        return v;
    }
    let diff: i128 = to as i128 - from as i128;
    assert(-0x1_0000_0000 * 1_000_000 <= diff * 1_000_000 <= 0x1_0000_0000 * 1_000_000);
    let t: i128 = goal_time as i128;
    let d: i128 = dt as i128;
    let w: i128 = v as i128;
    assert(-0x1_0000_0000_0000_0000 <= w * t <= 0x1_0000_0000_0000_0000) by (nonlinear_arith)
        requires
            -0x1_0000_0000 <= w <= 0x1_0000_0000,
            0 <= t <= 0x1_0000_0000,
    ;
    let reach: i128 = diff * (SECOND as i128);
    let gap: i128 = reach - w * t;
    assert(-0x4_0000_0000_0000_0000_0000_0000 <= (2 * d) * gap <= 0x4_0000_0000_0000_0000_0000_0000)
        by (nonlinear_arith)
        requires
            -0x2_0000_0000_0000_0000 <= gap <= 0x2_0000_0000_0000_0000,
            0 <= d <= 0x1_0000_0000,
    ;
    assert(0 < t * t <= 0x1_0000_0000_0000_0000) by (nonlinear_arith)
        requires
            0 < t <= 0x1_0000_0000,
    ;
    assert(2 * d * gap == (2 * d) * gap) by (nonlinear_arith);
    let boost: i128 = div_toward_zero((2 * d) * gap, t * t);
    assert(-0x4_0000_0000_0000_0000_0000_0000 <= boost <= 0x4_0000_0000_0000_0000_0000_0000) by {
        lemma_trunc_div_shrinks(((2 * d) * gap) as int, (t * t) as int);
    }
    saturate(w + boost)
}

// A quotient rounded toward zero is no larger in magnitude than the dividend.
proof fn lemma_trunc_div_shrinks(a: int, b: int)
    requires
        b > 0,
    ensures
        a >= 0 ==> 0 <= trunc_div(a, b) <= a,
        a < 0 ==> a <= trunc_div(a, b) <= 0,
{
    if a >= 0 {
        vstd::arithmetic::div_mod::lemma_div_pos_is_pos(a, b);
        vstd::arithmetic::div_mod::lemma_div_is_ordered_by_denominator(a, 1, b);
    } else {
        vstd::arithmetic::div_mod::lemma_div_pos_is_pos(-a, b);
        vstd::arithmetic::div_mod::lemma_div_is_ordered_by_denominator(-a, 1, b);
    }
}

/// The body `b` after `dt` microseconds of a pickup's life.
///
/// A fresh pickup flies on as it was thrown while its free flight lasts, and
/// is brought to rest on the tick that would take the time left below zero;
/// it stays in that phase either way. A homing pickup is steered to arrive at
/// the target when its time is up, and has arrived, at rest, on the tick that
/// would take the time left below zero; without a target it flies on as it
/// was. An arrived pickup, and any body that is no pickup, stays as it is.
pub open spec fn aged(b: Body, target: Option<Vec2>, dt: u32) -> Body {
    match b.kind {
        Kind::Energy(e) => match e.state {
            EnergyState::Created { remaining_time } => if dt > remaining_time {
                Body { velocity: Vec2 { x: 0, y: 0 }, ..b }
            } else {
                Body {
                    kind: Kind::Energy(
                        Energy {
                            state: EnergyState::Created {
                                remaining_time: (remaining_time - dt) as u32,
                            },
                            ..e
                        },
                    ),
                    ..b
                }
            },
            EnergyState::Homing { goal_time } => if dt > goal_time {
                Body {
                    velocity: Vec2 { x: 0, y: 0 },
                    kind: Kind::Energy(Energy { state: EnergyState::Goal, ..e }),
                    ..b
                }
            } else {
                Body {
                    velocity: match target {
                        Some(t) => homing_velocity(b.velocity, b.position, t, goal_time, dt),
                        None => b.velocity,
                    },
                    kind: Kind::Energy(
                        Energy {
                            state: EnergyState::Homing { goal_time: (goal_time - dt) as u32 },
                            ..e
                        },
                    ),
                    ..b
                }
            },
            EnergyState::Goal => b,
        },
        _ => b,
    }
}

/// Ages one body by `dt` microseconds.
pub fn age(b: Body, target: Option<Vec2>, dt: u32) -> (r: Body)
    ensures
        r == aged(b, target, dt),
{
    match b.kind {
        Kind::Energy(e) => match e.state {
            EnergyState::Created { remaining_time } => {
                if dt > remaining_time {
                    Body { velocity: Vec2::zero(), ..b }
                } else {
                    Body {
                        kind: Kind::Energy(
                            Energy {
                                state: EnergyState::Created { remaining_time: remaining_time - dt },
                                ..e
                            },
                        ),
                        ..b
                    }
                }
            },
            EnergyState::Homing { goal_time } => {
                if dt > goal_time {
                    Body {
                        velocity: Vec2::zero(),
                        kind: Kind::Energy(Energy { state: EnergyState::Goal, ..e }),
                        ..b
                    }
                } else {
                    let velocity = match target {
                        Some(t) => Vec2 {
                            x: home_component(b.velocity.x, b.position.x, t.x, goal_time, dt),
                            y: home_component(b.velocity.y, b.position.y, t.y, goal_time, dt),
                        },
                        None => b.velocity,
                    };
                    Body {
                        velocity,
                        kind: Kind::Energy(
                            Energy {
                                state: EnergyState::Homing { goal_time: goal_time - dt },
                                ..e
                            },
                        ),
                        ..b
                    }
                }
            },
            EnergyState::Goal => b,
        },
        _ => b,
    }
}

/// Ages every pickup by `dt` microseconds.
pub fn move_energy(world: &mut World, dt: u32)
    ensures
        final(world)@ == old(world)@.map_values(
            |b: Body| aged(b, target_position(old(world)@), dt),
        ),
        final(world).next_id() == old(world).next_id(),
        old(world).wf() ==> final(world).wf(),
{
    let target = find_target(world);
    let n = world.len();
    let mut i: usize = 0;
    while i < n
        invariant
            n == world@.len(),
            n == old(world)@.len(),
            i <= n,
            world.next_id() == old(world).next_id(),
            old(world).wf() ==> world.wf(),
            forall|j: int| 0 <= j < i ==> world@[j] == aged(old(world)@[j], target, dt),
            forall|j: int| i <= j < n ==> world@[j] == old(world)@[j],
        decreases n - i,
    {
        let b = world.body(i);
        world.replace(i, age(b, target, dt));
        i += 1;
    }
    assert(world@ =~= old(world)@.map_values(|b: Body| aged(b, target, dt)));
}

/// The collection area: centre and extent of the oldest body that is one, if
/// there is any.
pub open spec fn collect_area(s: Seq<Body>) -> Option<(Vec2, CollectArea)>
    decreases s.len(),
{
    if s.len() == 0 {
        None
    } else {
        match s[0].kind {
            Kind::CollectArea(a) => Some((s[0].position, a)),
            _ => collect_area(s.drop_first()),
        }
    }
}

/// Looks the collection area up in the registry.
pub fn find_collect_area(world: &World) -> (r: Option<(Vec2, CollectArea)>)
    ensures
        r == collect_area(world@),
{
    let n = world.len();
    let mut i: usize = 0;
    assert(world@.skip(0) =~= world@);
    while i < n
        invariant
            n == world@.len(),
            i <= n,
            collect_area(world@) == collect_area(world@.skip(i as int)),
        decreases n - i,
    {
        let b = world.body(i);
        proof {
            assert(world@.skip(i as int)[0] == world@[i as int]);
            assert(world@.skip(i as int).drop_first() =~= world@.skip(i + 1));
        }
        match b.kind {
            Kind::CollectArea(a) => {
                return Some((b.position, a));
            },
            _ => {},
        }
        i += 1;
    }
    None
}

/// Whether `p` lies inside the area: nearer to its centre than its radius, by
/// squared distances.
pub open spec fn inside(center: Vec2, area: CollectArea, p: Vec2) -> bool {
    distance_squared(center, p) < area.radius * area.radius
}

/// The body `b` after the proximity pass: a fresh pickup inside the collection
/// area starts homing, with `HOMING_TIME` to go, however much of its free
/// flight is left. Everything else stays, and with no collection area
/// everything stays.
pub open spec fn attracted(b: Body, area: Option<(Vec2, CollectArea)>) -> Body {
    match (b.kind, area) {
        (Kind::Energy(e), Some((center, a))) => if e.state is Created && inside(
            center,
            a,
            b.position,
        ) {
            Body {
                kind: Kind::Energy(
                    Energy { state: EnergyState::Homing { goal_time: HOMING_TIME }, ..e },
                ),
                ..b
            }
        } else {
            b
        },
        _ => b,
    }
}

/// Runs the proximity test on one body.
pub fn attract(b: Body, area: Option<(Vec2, CollectArea)>) -> (r: Body)
    ensures
        r == attracted(b, area),
{
    match (b.kind, area) {
        (Kind::Energy(e), Some((center, a))) => {
            let radius: i128 = a.radius as i128;
            assert(0 <= radius * radius <= 0x1_0000_0000_0000_0000) by (nonlinear_arith)
                requires
                    -0x1_0000_0000 <= radius <= 0x1_0000_0000,
            ;
            let near = squared_distance(center, b.position) < (radius * radius) as u128;
            match e.state {
                EnergyState::Created { remaining_time: _ } => {
                    if near {
                        Body {
                            kind: Kind::Energy(
                                Energy {
                                    state: EnergyState::Homing { goal_time: HOMING_TIME },
                                    ..e
                                },
                            ),
                            ..b
                        }
                    } else {
                        b
                    }
                },
                _ => b,
            }
        },
        _ => b,
    }
}

/// Starts every fresh pickup inside the collection area on its way to the
/// target.
pub fn start_collect(world: &mut World)
    ensures
        final(world)@ == old(world)@.map_values(
            |b: Body| attracted(b, collect_area(old(world)@)),
        ),
        final(world).next_id() == old(world).next_id(),
        old(world).wf() ==> final(world).wf(),
{
    let area = find_collect_area(world);
    if area.is_none() {
        assert(world@ =~= old(world)@.map_values(|b: Body| attracted(b, area)));
        return ;
    }
    let n = world.len();
    let mut i: usize = 0;
    while i < n
        invariant
            n == world@.len(),
            n == old(world)@.len(),
            i <= n,
            world.next_id() == old(world).next_id(),
            old(world).wf() ==> world.wf(),
            forall|j: int| 0 <= j < i ==> world@[j] == attracted(old(world)@[j], area),
            forall|j: int| i <= j < n ==> world@[j] == old(world)@[j],
        decreases n - i,
    {
        let b = world.body(i);
        world.replace(i, attract(b, area));
        i += 1;
    }
    assert(world@ =~= old(world)@.map_values(|b: Body| attracted(b, area)));
}

/// Whether `b` is a pickup that has arrived and waits to be collected.
pub open spec fn is_collectable(b: Body) -> bool {
    b.kind matches Kind::Energy(e) && e.state is Goal
}

/// What collecting `b` is worth.
pub open spec fn worth(b: Body) -> int {
    match b.kind {
        Kind::Energy(e) => e.energy as int,
        _ => 0,
    }
}

/// What collecting `b` adds to the score: what it is worth where it has
/// arrived, and nothing otherwise.
pub open spec fn gain(b: Body) -> int {
    if is_collectable(b) {
        worth(b)
    } else {
        0
    }
}

/// What all the arrived pickups among `s` are worth together.
pub open spec fn harvest(s: Seq<Body>) -> int
    decreases s.len(),
{
    if s.len() == 0 {
        0
    } else {
        harvest(s.drop_last()) + gain(s.last())
    }
}

/// What the collection pass at the end of a tick of `dt` microseconds will
/// add to the score, seen from the tick's start: the worth of the pickups that
/// have arrived by then. No other pass of the tick has a say in it.
pub open spec fn due(s: Seq<Body>, dt: u32) -> int {
    harvest(s.map_values(|b: Body| aged(b, None, dt)))
}

/// Tests whether a body waits to be collected.
pub fn collectable(b: &Body) -> (r: bool)
    ensures
        r == is_collectable(*b),
{
    match b.kind {
        Kind::Energy(e) => match e.state {
            EnergyState::Goal => true,
            _ => false,
        },
        _ => false,
    }
}

/// Adds up what the arrived pickups in the registry are worth.
pub fn pending_energy(world: &World) -> (total: i128)
    ensures
        total == harvest(world@),
{
    let n = world.len();
    let mut total: i128 = 0;
    let mut i: usize = 0;
    while i < n
        invariant
            n == world@.len(),
            i <= n,
            total == harvest(world@.take(i as int)),
            -0x8000_0000 * i <= total <= 0x8000_0000 * i,
        decreases n - i,
    {
        let b = world.body(i);
        proof {
            assert(world@.take(i + 1).drop_last() =~= world@.take(i as int));
            assert(world@.take(i + 1).last() == world@[i as int]);
        }
        if collectable(&b) {
            match b.kind {
                Kind::Energy(e) => {
                    total = total + e.energy as i128;
                },
                _ => {},
            }
        }
        i += 1;
    }
    assert(world@.take(n as int) =~= world@);
    total
}

/// Adds up what the collection pass at the end of a tick of `dt` microseconds
/// will add to the score.
pub fn due_energy(world: &World, dt: u32) -> (total: i128)
    ensures
        total == due(world@, dt),
{
    let n = world.len();
    let ghost later = world@.map_values(|b: Body| aged(b, None, dt));
    let mut total: i128 = 0;
    let mut i: usize = 0;
    while i < n
        invariant
            n == world@.len(),
            later == world@.map_values(|b: Body| aged(b, None, dt)),
            i <= n,
            total == harvest(later.take(i as int)),
            -0x8000_0000 * i <= total <= 0x8000_0000 * i,
        decreases n - i,
    {
        let b = age(world.body(i), None, dt);
        proof {
            assert(later.take(i + 1).drop_last() =~= later.take(i as int));
            assert(later.take(i + 1).last() == later[i as int]);
        }
        if collectable(&b) {
            match b.kind {
                Kind::Energy(e) => {
                    total = total + e.energy as i128;
                },
                _ => {},
            }
        }
        i += 1;
    }
    assert(later.take(n as int) =~= later);
    total
}

/// Collects every arrived pickup: removes it from the registry and adds what
/// it is worth to the score. Returns the handles of the pickups collected,
/// oldest first. The new score must fit the counter.
pub fn collect_energy(world: &mut World, score: &mut EnergyPoint) -> (collected: Vec<Entity>)
    requires
        i32::MIN <= old(score).0 + harvest(old(world)@) <= i32::MAX,
    ensures
        final(score).0 == old(score).0 + harvest(old(world)@),
        final(world)@ == old(world)@.filter(|b: Body| !is_collectable(b)),
        collected@ == old(world)@.filter(|b: Body| is_collectable(b)).map_values(|b: Body| b.id),
        final(world).next_id() == old(world).next_id(),
        old(world).wf() ==> final(world).wf(),
{
    let total = pending_energy(world);
    let n = world.len();
    let mut flags: Vec<bool> = Vec::new();
    let mut collected: Vec<Entity> = Vec::new();
    let mut i: usize = 0;
    while i < n
        invariant
            n == world@.len(),
            world@ == old(world)@,
            i <= n,
            flags@.len() == i,
            forall|j: int| 0 <= j < i ==> flags@[j] == !is_collectable(world@[j]),
            collected@ == world@.take(i as int).filter(|b: Body| is_collectable(b)).map_values(
                |b: Body| b.id,
            ),
        decreases n - i,
    {
        let b = world.body(i);
        let gone = collectable(&b);
        proof {
            reveal(Seq::filter);
            assert(world@.take(i + 1).drop_last() =~= world@.take(i as int));
            assert(world@.take(i + 1).last() == world@[i as int]);
            let before = world@.take(i as int).filter(|b: Body| is_collectable(b));
            if gone {
                assert(before.push(b).map_values(|b: Body| b.id) =~= before.map_values(
                    |b: Body| b.id,
                ).push(b.id));
            }
        }
        if gone {
            collected.push(b.id);
        }
        flags.push(!gone);
        i += 1;
    }
    proof {
        assert(world@.take(n as int) =~= world@);
        lemma_select_is_filter(world@, flags@, |b: Body| !is_collectable(b));
    }
    world.keep(&flags);
    score.0 = (score.0 as i128 + total) as i32;
    collected
}

/// How far a body has come in a pickup's life: 0 for a fresh pickup and for
/// any body that is no pickup, 1 for a homing pickup, 2 for an arrived one.
pub open spec fn phase(b: Body) -> nat {
    match b.kind {
        Kind::Energy(e) => match e.state {
            EnergyState::Created { .. } => 0,
            EnergyState::Homing { .. } => 1,
            EnergyState::Goal => 2,
        },
        _ => 0,
    }
}

/// A pickup's life runs one way: neither the passing of time nor the
/// proximity test ever takes a pickup back to an earlier phase, and neither
/// turns a pickup into anything else or changes what it is worth.
pub proof fn lemma_phase_never_returns(
    b: Body,
    target: Option<Vec2>,
    dt: u32,
    area: Option<(Vec2, CollectArea)>,
)
    ensures
        phase(aged(b, target, dt)) >= phase(b),
        phase(attracted(b, area)) >= phase(b),
        worth(aged(b, target, dt)) == worth(b),
        worth(attracted(b, area)) == worth(b),
        aged(b, target, dt).kind is Energy == b.kind is Energy,
        attracted(b, area).kind is Energy == b.kind is Energy,
{
}

/// A fresh pickup whose free flight is used up to the last microsecond is at
/// rest after any tick in which time passes, and still a fresh pickup with no
/// time left.
pub proof fn lemma_spent_pickup_rests(b: Body, target: Option<Vec2>, dt: u32)
    requires
        b.kind matches Kind::Energy(e) && e.state == (EnergyState::Created { remaining_time: 0 }),
        dt > 0,
    ensures
        aged(b, target, dt).velocity == (Vec2 { x: 0, y: 0 }),
        aged(b, target, dt).kind == b.kind,
        aged(b, target, dt).position == b.position,
{
}

/// While its free flight lasts, a fresh pickup flies on as it was thrown: the
/// tick that uses the time up exactly leaves the velocity alone too.
pub proof fn lemma_free_flight_is_ballistic(b: Body, target: Option<Vec2>, dt: u32)
    requires
        b.kind matches Kind::Energy(e) && e.state matches EnergyState::Created { remaining_time }
            && dt <= remaining_time,
    ensures
        aged(b, target, dt).velocity == b.velocity,
        aged(b, target, dt).position == b.position,
{
}

/// Splitting a tick in two leaves a homing pickup where one tick leaves it,
/// in the same phase and with the same time to go. The state machine moves no
/// body, so after two ticks of `first` and `second` microseconds the pickup is
/// as far from the target as after one tick of both together; where it has
/// arrived, it is at rest either way. While it is still homing, only the
/// velocity can differ, since the course is planned once more.
pub proof fn lemma_homing_split(b: Body, target: Option<Vec2>, first: u32, second: u32)
    requires
        b.kind matches Kind::Energy(e) && e.state is Homing,
        first + second <= u32::MAX,
    ensures
        ({
            let once = aged(b, target, (first + second) as u32);
            let twice = aged(aged(b, target, first), target, second);
            &&& twice.position == once.position
            &&& twice.position == b.position
            &&& forall|t: Vec2|
                distance_squared(twice.position, t) == #[trigger] distance_squared(once.position, t)
            &&& twice.kind == once.kind
            &&& twice.id == once.id
            &&& twice.impulse == once.impulse
            &&& phase(once) == 2 ==> twice.velocity == once.velocity
        }),
{
}

/// A pickup that enters the collection area while fresh starts homing at
/// once, with the full homing time to go, whatever is left of its free
/// flight.
pub proof fn lemma_entering_area_starts_homing(b: Body, center: Vec2, area: CollectArea)
    requires
        b.kind matches Kind::Energy(e) && e.state is Created,
        inside(center, area, b.position),
    ensures
        attracted(b, Some((center, area))).kind matches Kind::Energy(e) && e.state == (
        EnergyState::Homing { goal_time: HOMING_TIME }),
        attracted(b, Some((center, area))).velocity == b.velocity,
{
}

/// A homing pickup is steered to end on the target. In a tick that uses up
/// all the time that is left, and in which the velocity does not leave the
/// component range, the velocity changes so that the mean of the old and the
/// new velocity covers the way to the target in just that time: twice the way,
/// in thousandths times microseconds per second, differs from the sum of the
/// two velocities times the time by less than the time.
pub proof fn lemma_homing_meets_the_target(v: i32, diff: int, goal_time: u32)
    requires
        goal_time > 0,
        homing_component(v as int, diff, goal_time as int, goal_time as int) == v + trunc_div(
            2 * goal_time * (diff * SECOND - v * goal_time),
            goal_time * goal_time,
        ),
    ensures
        ({
            let w = homing_component(v as int, diff, goal_time as int, goal_time as int);
            -goal_time < (v + w) * goal_time - 2 * diff * SECOND < goal_time
        }),
{
    let t = goal_time as int;
    let gap = diff * SECOND - v * t;
    let n = 2 * gap;
    let q = trunc_div(2 * t * gap, t * t);
    assert(2 * t * gap == t * n) by (nonlinear_arith)
        requires
            n == 2 * gap,
    ;
    assert(0 < t * t) by (nonlinear_arith)
        requires
            0 < t,
    ;
    // The common factor of dividend and divisor cancels.
    assert(q == trunc_div(n, t)) by {
        if n >= 0 {
            assert(t * n >= 0) by (nonlinear_arith)
                requires
                    t > 0,
                    n >= 0,
            ;
            vstd::arithmetic::div_mod::lemma_div_multiples_vanish_quotient(t, n, t);
        } else {
            assert(t * n < 0 && -(t * n) == t * (-n)) by (nonlinear_arith)
                requires
                    t > 0,
                    n < 0,
            ;
            vstd::arithmetic::div_mod::lemma_div_multiples_vanish_quotient(t, -n, t);
        }
    }
    lemma_trunc_div_bounds(n, t);
    let w = v + q;
    assert((v + w) * t - 2 * diff * SECOND == q * t - n) by (nonlinear_arith)
        requires
            w == v + q,
            n == 2 * (diff * SECOND - v * t),
    ;
}

/// Where no pickup is worth less than nothing, a collection pass takes
/// nothing from the score.
pub proof fn lemma_harvest_is_not_negative(s: Seq<Body>)
    requires
        forall|j: int| 0 <= j < s.len() ==> worth(#[trigger] s[j]) >= 0,
    ensures
        harvest(s) >= 0,
    decreases s.len(),
{
    if s.len() > 0 {
        assert(worth(s[s.len() - 1]) >= 0);
        assert forall|j: int| 0 <= j < s.drop_last().len() implies worth(
            #[trigger] s.drop_last()[j],
        ) >= 0 by {
            assert(s.drop_last()[j] == s[j]);
        }
        lemma_harvest_is_not_negative(s.drop_last());
    }
}

/// The score after a run of collection passes that started at `start`, where
/// `passes[t]` is the registry as the `t`-th pass found it.
pub open spec fn tally(start: int, passes: Seq<Seq<Body>>) -> int
    decreases passes.len(),
{
    if passes.len() == 0 {
        start
    } else {
        tally(start, passes.drop_last()) + harvest(passes.last())
    }
}

/// The score never falls: over any run of ticks, whatever else happens to the
/// registry between two collection passes, the score after more passes is at
/// least the score after fewer, provided no pickup is worth less than nothing.
pub proof fn lemma_score_never_falls(start: int, passes: Seq<Seq<Body>>, earlier: int, later: int)
    requires
        0 <= earlier <= later <= passes.len(),
        forall|t: int, j: int|
            0 <= t < passes.len() && 0 <= j < passes[t].len() ==> worth(#[trigger] passes[t][j])
                >= 0,
    ensures
        tally(start, passes.take(earlier)) <= tally(start, passes.take(later)),
        start <= tally(start, passes.take(earlier)),
    decreases later,
{
    if later == 0 {
    } else if earlier == later {
        lemma_score_never_falls(start, passes, earlier - 1, later - 1);
        lemma_harvest_is_not_negative(passes[later - 1]);
        assert(passes.take(later).drop_last() =~= passes.take(later - 1));
    } else {
        lemma_score_never_falls(start, passes, earlier, later - 1);
        lemma_harvest_is_not_negative(passes[later - 1]);
        assert(passes.take(later).drop_last() =~= passes.take(later - 1));
    }
}

/// Two registries that agree body by body on what collecting adds have the
/// same harvest.
pub proof fn lemma_harvest_pointwise(a: Seq<Body>, b: Seq<Body>)
    requires
        a.len() == b.len(),
        forall|j: int| 0 <= j < a.len() ==> gain(#[trigger] a[j]) == gain(b[j]),
    ensures
        harvest(a) == harvest(b),
    decreases a.len(),
{
    if a.len() > 0 {
        assert(gain(a[a.len() - 1]) == gain(b[a.len() - 1]));
        assert forall|j: int| 0 <= j < a.drop_last().len() implies gain(
            #[trigger] a.drop_last()[j],
        ) == gain(b.drop_last()[j]) by {
            assert(gain(a[j]) == gain(b[j]));
        }
        lemma_harvest_pointwise(a.drop_last(), b.drop_last());
    }
}

/// Bodies at the end of a registry that add nothing when collected can be
/// left out of the harvest.
pub proof fn lemma_harvest_tail(a: Seq<Body>, n: int)
    requires
        0 <= n <= a.len(),
        forall|k: int| n <= k < a.len() ==> gain(#[trigger] a[k]) == 0,
    ensures
        harvest(a) == harvest(a.take(n)),
    decreases a.len() - n,
{
    if n == a.len() {
        assert(a.take(n) =~= a);
    } else {
        assert(gain(a[a.len() - 1]) == 0);
        lemma_harvest_tail(a.drop_last(), n);
        assert(a.drop_last().take(n) =~= a.take(n));
    }
}

/// Removing bodies that add nothing when collected, before a pass `f` that
/// works body by body, leaves the harvest after that pass as it is.
pub proof fn lemma_harvest_filter(
    s: Seq<Body>,
    keep: spec_fn(Body) -> bool,
    f: spec_fn(Body) -> Body,
)
    requires
        forall|b: Body| !(#[trigger] keep(b)) ==> gain(f(b)) == 0,
    ensures
        harvest(s.filter(keep).map_values(f)) == harvest(s.map_values(f)),
    decreases s.len(),
{
    reveal(Seq::filter);
    if s.len() > 0 {
        let front = s.drop_last();
        lemma_harvest_filter(front, keep, f);
        assert(s.map_values(f).drop_last() =~= front.map_values(f));
        assert(s.map_values(f).last() == f(s.last()));
        if keep(s.last()) {
            assert(s.filter(keep) == front.filter(keep).push(s.last()));
            assert(s.filter(keep).map_values(f).drop_last() =~= front.filter(keep).map_values(f));
            assert(s.filter(keep).map_values(f).last() == f(s.last()));
        } else {
            assert(s.filter(keep) == front.filter(keep));
            assert(!keep(s.last()));
        }
    }
}

/// No pass but the passing of time decides what a tick's collection adds to
/// the score, and the target has no say in it either: ageing the registry
/// with or without a target, and running the proximity test on it afterwards,
/// gives the harvest that was due.
pub proof fn lemma_harvest_after_ageing(
    s: Seq<Body>,
    target: Option<Vec2>,
    dt: u32,
    area: Option<(Vec2, CollectArea)>,
)
    ensures
        harvest(
            s.map_values(|b: Body| aged(b, target, dt)).map_values(|b: Body| attracted(b, area)),
        ) == due(s, dt),
        harvest(s.map_values(|b: Body| aged(b, target, dt))) == due(s, dt),
{
    let flown = s.map_values(|b: Body| aged(b, target, dt));
    let drawn = flown.map_values(|b: Body| attracted(b, area));
    let plain = s.map_values(|b: Body| aged(b, None, dt));
    assert forall|j: int| 0 <= j < drawn.len() implies gain(#[trigger] drawn[j]) == gain(
        plain[j],
    ) by {
        assert(drawn[j] == attracted(aged(s[j], target, dt), area));
    }
    lemma_harvest_pointwise(drawn, plain);
    assert forall|j: int| 0 <= j < flown.len() implies gain(#[trigger] flown[j]) == gain(
        plain[j],
    ) by {
        assert(flown[j] == aged(s[j], target, dt));
    }
    lemma_harvest_pointwise(flown, plain);
}

/// Where no pickup is worth less than nothing, nothing less than nothing is
/// due.
pub proof fn lemma_due_is_not_negative(s: Seq<Body>, dt: u32)
    requires
        forall|j: int| 0 <= j < s.len() ==> worth(#[trigger] s[j]) >= 0,
    ensures
        due(s, dt) >= 0,
{
    let plain = s.map_values(|b: Body| aged(b, None, dt));
    assert forall|j: int| 0 <= j < plain.len() implies worth(#[trigger] plain[j]) >= 0 by {
        assert(worth(s[j]) >= 0);
        assert(plain[j] == aged(s[j], None, dt));
    }
    lemma_harvest_is_not_negative(plain);
}

} // verus!
