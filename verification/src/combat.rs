//! Combat: what a batch of collisions does to the enemies, and the energy
//! pickups that destroyed enemies leave behind.

use vstd::prelude::*;
use crate::energy::{Energy, EnergyState, EJECTION_TIME};
use crate::random::gen_range;
use crate::vector::{lemma_pursuit_magnitude, pursue, pursuit, Vec2};
use crate::world::{
    holds_at, ids_ascend, lemma_filter_ascends, lemma_select_is_filter, Body, Entity, Kind, World,
};

verus! {

/// Speed at which a pickup is thrown clear of a destroyed enemy: 200 units per
/// second.
pub const EJECTION_SPEED: i32 = 200_000;

/// The two components of a random direction are drawn from minus this to
/// this: from -1 to 1.
pub const EJECTION_SPREAD: i32 = 1000;

/// Velocity of a pickup thrown in the drawn direction `(rx, ry)`: of
/// magnitude `EJECTION_SPEED` along it, and straight up where the direction
/// drawn has no length.
pub open spec fn ejection_velocity(rx: i32, ry: i32) -> Vec2 {
    if rx == 0 && ry == 0 {
        Vec2 { x: 0, y: EJECTION_SPEED }
    } else {
        pursuit(Vec2 { x: 0, y: 0 }, Vec2 { x: rx, y: ry }, EJECTION_SPEED as int)
    }
}

/// Computes the velocity of a pickup thrown in the direction `(rx, ry)`.
pub fn eject(rx: i32, ry: i32) -> (v: Vec2)
    ensures
        v == ejection_velocity(rx, ry),
{
    if rx == 0 && ry == 0 {
        Vec2 { x: 0, y: EJECTION_SPEED }
    } else {
        pursue(Vec2::zero(), Vec2 { x: rx, y: ry }, EJECTION_SPEED)
    }
}

/// The pickup `id` as it lies at `position` right after it was thrown in the
/// direction `(rx, ry)`.
pub open spec fn thrown_pickup(id: Entity, position: Vec2, rx: i32, ry: i32) -> Body {
    Body {
        id,
        position,
        velocity: ejection_velocity(rx, ry),
        impulse: Vec2 { x: 0, y: 0 },
        kind: Kind::Energy(
            Energy { energy: 1, state: EnergyState::Created { remaining_time: EJECTION_TIME } },
        ),
    }
}

/// `p` is a fresh pickup with handle `id` at `position`, thrown in one of the
/// directions that can be drawn.
pub open spec fn is_thrown_pickup(p: Body, id: Entity, position: Vec2) -> bool {
    exists|rx: i32, ry: i32|
        -EJECTION_SPREAD <= rx < EJECTION_SPREAD && -EJECTION_SPREAD <= ry < EJECTION_SPREAD && p
            == #[trigger] thrown_pickup(id, position, rx, ry)
}

/// Adds a fresh pickup at `position`, thrown in the direction `(rx, ry)`.
pub fn place_pickup(world: &mut World, position: Vec2, rx: i32, ry: i32) -> (id: Entity)
    requires
        old(world).next_id() < u64::MAX,
    ensures
        id.0 == old(world).next_id(),
        final(world).next_id() == old(world).next_id() + 1,
        final(world)@ == old(world)@.push(thrown_pickup(id, position, rx, ry)),
        old(world).wf() ==> final(world).wf(),
{
    world.spawn(position, eject(rx, ry), Kind::Energy(Energy::default()))
}

/// Adds a fresh pickup at `position`, thrown in a random direction.
pub fn drop_pickup(world: &mut World, position: Vec2) -> (id: Entity)
    requires
        old(world).next_id() < u64::MAX,
    ensures
        id.0 == old(world).next_id(),
        final(world).next_id() == old(world).next_id() + 1,
        final(world)@.len() == old(world)@.len() + 1,
        final(world)@.drop_last() == old(world)@,
        is_thrown_pickup(final(world)@.last(), id, position),
        old(world).wf() ==> final(world).wf(),
{
    let mut rng = rand::thread_rng();
    let rx = gen_range(&mut rng, -EJECTION_SPREAD, EJECTION_SPREAD);
    let ry = gen_range(&mut rng, -EJECTION_SPREAD, EJECTION_SPREAD);
    let id = place_pickup(world, position, rx, ry);
    proof {
        assert(world@.last() == thrown_pickup(id, position, rx, ry));
        assert(world@.drop_last() =~= old(world)@);
    }
    id
}

/// Whether the handle `id` belongs to a live player.
pub open spec fn is_player(s: Seq<Body>, id: Entity) -> bool {
    exists|j: int| 0 <= j < s.len() && (#[trigger] s[j]).id == id && s[j].kind is Player
}

/// Whether the collision `pair` is one between a player and the body `enemy`,
/// whichever side each is on.
pub open spec fn strikes(s: Seq<Body>, pair: (Entity, Entity), enemy: Entity) -> bool {
    ||| is_player(s, pair.0) && pair.1 == enemy
    ||| is_player(s, pair.1) && pair.0 == enemy
}

/// Whether the batch holds a collision that destroys `b`: `b` is an enemy, and
/// at least one pair of the batch is a collision between a player and `b`.
/// How often and in what order is of no account.
pub open spec fn is_hit(s: Seq<Body>, batch: Seq<(Entity, Entity)>, b: Body) -> bool {
    b.kind is Enemy && exists|k: int|
        0 <= k < batch.len() && strikes(s, #[trigger] batch[k], b.id)
}

/// The enemies among `s` that the batch destroys, in their order.
pub open spec fn hits(s: Seq<Body>, batch: Seq<(Entity, Entity)>) -> Seq<Body> {
    s.filter(|b: Body| is_hit(s, batch, b))
}

/// The bodies among `s` that the batch leaves alone, in their order.
pub open spec fn survivors(s: Seq<Body>, batch: Seq<(Entity, Entity)>) -> Seq<Body> {
    s.filter(|b: Body| !is_hit(s, batch, b))
}

/// Tests whether a handle belongs to a live player.
pub fn check_player(world: &World, id: Entity) -> (r: bool)
    ensures
        r == is_player(world@, id),
{
    let n = world.len();
    let mut i: usize = 0;
    while i < n
        invariant
            n == world@.len(),
            i <= n,
            forall|j: int| 0 <= j < i ==> !((#[trigger] world@[j]).id == id && world@[j].kind is Player),
        decreases n - i,
    {
        let b = world.body(i);
        if b.id == id {
            match b.kind {
                Kind::Player(_) => {
                    return true;
                },
                _ => {},
            }
        }
        i += 1;
    }
    false
}

/// Tests whether the batch holds a collision that destroys `b`.
pub fn check_hit(world: &World, collisions: &Vec<(Entity, Entity)>, b: &Body) -> (r: bool)
    ensures
        r == is_hit(world@, collisions@, *b),
{
    match b.kind {
        Kind::Enemy(_) => {},
        _ => {
            return false;
        },
    }
    let m = collisions.len();
    let mut k: usize = 0;
    while k < m
        invariant
            m == collisions@.len(),
            k <= m,
            b.kind is Enemy,
            forall|j: int| 0 <= j < k ==> !strikes(world@, #[trigger] collisions@[j], b.id),
        decreases m - k,
    {
        let pair = collisions[k];
        if pair.1 == b.id && check_player(world, pair.0) {
            assert(strikes(world@, collisions@[k as int], b.id));
            return true;
        }
        if pair.0 == b.id && check_player(world, pair.1) {
            assert(strikes(world@, collisions@[k as int], b.id));
            return true;
        }
        k += 1;
    }
    false
}

/// Destroys the enemy with handle `enemy` and leaves a pickup where it was,
/// thrown in a random direction. Returns the pickup's handle. A handle that
/// belongs to no live enemy changes nothing.
pub fn despawn_enemy(world: &mut World, enemy: Entity) -> (pickup: Option<Entity>)
    requires
        old(world).next_id() < u64::MAX,
    ensures
        match pickup {
            Some(id) => {
                &&& id.0 == old(world).next_id()
                &&& final(world).next_id() == old(world).next_id() + 1
                &&& final(world)@.len() > 0
                &&& final(world)@.drop_last() == old(world)@.filter(|b: Body| b.id != enemy)
                &&& exists|j: int|
                    {
                        &&& #[trigger] holds_at(old(world)@, j, enemy)
                        &&& old(world)@[j].kind is Enemy
                        &&& is_thrown_pickup(final(world)@.last(), id, old(world)@[j].position)
                    }
            },
            None => {
                &&& final(world)@ == old(world)@
                &&& final(world).next_id() == old(world).next_id()
                &&& forall|j: int|
                    #[trigger] holds_at(old(world)@, j, enemy) ==> !(old(world)@[j].kind is Enemy)
            },
        },
        old(world).wf() ==> final(world).wf(),
{
    match world.find(enemy) {
        Some(i) => {
            let b = world.body(i);
            match b.kind {
                Kind::Enemy(_) => {
                    world.despawn(enemy);
                    let id = drop_pickup(world, b.position);
                    assert(holds_at(old(world)@, i as int, enemy));
                    Some(id)
                },
                _ => None,
            }
        },
        None => None,
    }
}

/// The pickup that `despawn_enemies` reports for the `k`-th enemy it
/// destroyed, where handles from `first` on were free.
pub open spec fn pickup_handle(first: nat, k: int) -> Entity {
    Entity((first + k) as u64)
}

/// What resolving the batch makes of the registry `before`, in which handles
/// from `first` on are free. The bodies that the batch leaves alone stay, in
/// their order. Behind them lie the pickups, one for each destroyed enemy and
/// in the enemies' order: the `k`-th has the handle `first + k`, lies where
/// the `k`-th destroyed enemy was, and is thrown in one of the directions that
/// can be drawn. The report pairs each destroyed enemy with its pickup.
pub open spec fn collisions_resolved(
    before: Seq<Body>,
    batch: Seq<(Entity, Entity)>,
    first: nat,
    report: Seq<(Entity, Entity)>,
    after: Seq<Body>,
) -> bool {
    let fallen = hits(before, batch);
    let rest = survivors(before, batch);
    &&& report.len() == fallen.len()
    &&& after.len() == rest.len() + fallen.len()
    &&& after.take(rest.len() as int) == rest
    &&& forall|k: int|
        #![trigger report[k]]
        #![trigger fallen[k]]
        0 <= k < fallen.len() ==> {
            &&& report[k] == (fallen[k].id, pickup_handle(first, k))
            &&& is_thrown_pickup(
                after.skip(rest.len() as int)[k],
                pickup_handle(first, k),
                fallen[k].position,
            )
        }
}

/// Resolves one tick's batch of collisions. Every enemy that the batch has
/// colliding with a player is destroyed, once, however often and in whatever
/// order the batch names it; all other collisions are ignored. Each destroyed
/// enemy leaves one pickup where it was, thrown in a random direction. The
/// pickups join the registry in the order their enemies had in it.
///
/// Returns, for each destroyed enemy in that order, its handle and the handle
/// of the pickup it left.
pub fn despawn_enemies(world: &mut World, collisions: &Vec<(Entity, Entity)>) -> (report: Vec<
    (Entity, Entity),
>)
    requires
        old(world).next_id() + old(world)@.len() <= u64::MAX,
    ensures
        collisions_resolved(
            old(world)@,
            collisions@,
            old(world).next_id(),
            report@,
            final(world)@,
        ),
        final(world).next_id() == old(world).next_id() + hits(old(world)@, collisions@).len(),
        old(world).wf() ==> final(world).wf(),
{
    let n = world.len();
    let ghost before = world@;
    let ghost hit = |b: Body| is_hit(before, collisions@, b);
    let ghost miss = |b: Body| !is_hit(before, collisions@, b);
    let mut flags: Vec<bool> = Vec::new();
    let mut fallen: Vec<Body> = Vec::new();
    let mut i: usize = 0;
    while i < n
        invariant
            n == world@.len(),
            world@ == before,
            before == old(world)@,
            world.next_id() == old(world).next_id(),
            old(world).wf() ==> world.wf(),
            hit == |b: Body| is_hit(before, collisions@, b),
            miss == |b: Body| !is_hit(before, collisions@, b),
            i <= n,
            flags@.len() == i,
            forall|j: int| 0 <= j < i ==> flags@[j] == miss(#[trigger] before[j]),
            fallen@ == before.take(i as int).filter(hit),
            fallen@.len() <= i,
        decreases n - i,
    {
        let b = world.body(i);
        let struck = check_hit(world, collisions, &b);
        proof {
            reveal(Seq::filter);
            assert(before.take(i + 1).drop_last() =~= before.take(i as int));
            assert(before.take(i + 1).last() == before[i as int]);
        }
        if struck {
            fallen.push(b);
        }
        flags.push(!struck);
        i += 1;
    }
    proof {
        assert(before.take(n as int) =~= before);
        lemma_select_is_filter(before, flags@, miss);
    }
    world.keep(&flags);
    let ghost rest = before.filter(miss);
    let ghost first = old(world).next_id();
    let count = fallen.len();
    let mut report: Vec<(Entity, Entity)> = Vec::new();
    let mut k: usize = 0;
    while k < count
        invariant
            count == fallen@.len(),
            count <= n,
            n == old(world)@.len(),
            k <= count,
            first == old(world).next_id(),
            first + n <= u64::MAX,
            world.next_id() == first + k,
            old(world).wf() ==> world.wf(),
            world@.len() == rest.len() + k,
            world@.take(rest.len() as int) == rest,
            report@.len() == k,
            forall|j: int|
                #![trigger report@[j]]
                #![trigger fallen@[j]]
                0 <= j < k ==> {
                    &&& report@[j] == (fallen@[j].id, pickup_handle(first, j))
                    &&& is_thrown_pickup(
                        world@.skip(rest.len() as int)[j],
                        pickup_handle(first, j),
                        fallen@[j].position,
                    )
                },
        decreases count - k,
    {
        let enemy = fallen[k];
        let ghost prior = world@;
        let id = drop_pickup(world, enemy.position);
        report.push((enemy.id, id));
        proof {
            let r = rest.len() as int;
            assert(world@.drop_last() == prior);
            assert(world@.take(r) =~= prior.take(r));
            assert(world@.skip(r).drop_last() =~= prior.skip(r));
            assert(world@.skip(r)[k as int] == world@.last());
            assert forall|j: int| 0 <= j < k implies #[trigger] world@.skip(r)[j] == prior.skip(
                r,
            )[j] by {
                assert(world@.skip(r).drop_last()[j] == world@.skip(r)[j]);
            }
        }
        k += 1;
    }
    report
}

// Two tests that agree on every body filter the same bodies.
proof fn lemma_filter_agree(s: Seq<Body>, p: spec_fn(Body) -> bool, q: spec_fn(Body) -> bool)
    requires
        forall|b: Body| #[trigger] p(b) == q(b),
    ensures
        s.filter(p) == s.filter(q),
    decreases s.len(),
{
    reveal(Seq::filter);
    if s.len() > 0 {
        lemma_filter_agree(s.drop_last(), p, q);
    }
}

/// A batch of collisions counts as a set: two batches that name the same
/// pairs, however often and in whatever order, destroy the same enemies and
/// spare the same bodies.
pub proof fn lemma_batch_is_a_set(
    s: Seq<Body>,
    a: Seq<(Entity, Entity)>,
    b: Seq<(Entity, Entity)>,
)
    requires
        forall|pair: (Entity, Entity)| a.contains(pair) <==> b.contains(pair),
    ensures
        hits(s, a) == hits(s, b),
        survivors(s, a) == survivors(s, b),
{
    assert forall|x: Body| #[trigger] is_hit(s, a, x) == is_hit(s, b, x) by {
        if is_hit(s, a, x) {
            let k = choose|k: int| 0 <= k < a.len() && strikes(s, #[trigger] a[k], x.id);
            assert(a.contains(a[k]));
            let m = choose|m: int| 0 <= m < b.len() && b[m] == a[k];
            assert(strikes(s, b[m], x.id));
        }
        if is_hit(s, b, x) {
            let k = choose|k: int| 0 <= k < b.len() && strikes(s, #[trigger] b[k], x.id);
            assert(b.contains(b[k]));
            let m = choose|m: int| 0 <= m < a.len() && a[m] == b[k];
            assert(strikes(s, a[m], x.id));
        }
    }
    lemma_filter_agree(s, |x: Body| is_hit(s, a, x), |x: Body| is_hit(s, b, x));
    lemma_filter_agree(s, |x: Body| !is_hit(s, a, x), |x: Body| !is_hit(s, b, x));
}

/// What resolving a batch may make of a registry depends on the batch as a
/// set: two batches that name the same pairs allow the same outcomes.
pub proof fn lemma_resolving_takes_the_batch_as_a_set(
    s: Seq<Body>,
    a: Seq<(Entity, Entity)>,
    b: Seq<(Entity, Entity)>,
    first: nat,
    report: Seq<(Entity, Entity)>,
    after: Seq<Body>,
)
    requires
        forall|pair: (Entity, Entity)| a.contains(pair) <==> b.contains(pair),
    ensures
        collisions_resolved(s, a, first, report, after) == collisions_resolved(
            s,
            b,
            first,
            report,
            after,
        ),
{
    lemma_batch_is_a_set(s, a, b);
}

/// Resolving collisions is idempotent within a batch: a pair that the batch
/// holds already changes nothing when it is fed again. The enemy it names is
/// destroyed once, and since each destroyed enemy leaves one pickup, one
/// pickup is spawned for it.
pub proof fn lemma_repeated_collision_counts_once(
    s: Seq<Body>,
    batch: Seq<(Entity, Entity)>,
    k: int,
)
    requires
        0 <= k < batch.len(),
    ensures
        hits(s, batch.push(batch[k])) == hits(s, batch),
        survivors(s, batch.push(batch[k])) == survivors(s, batch),
{
    let again = batch.push(batch[k]);
    assert forall|pair: (Entity, Entity)| again.contains(pair) <==> batch.contains(pair) by {
        if again.contains(pair) {
            let m = choose|m: int| 0 <= m < again.len() && again[m] == pair;
            if m < batch.len() {
                assert(batch[m] == pair);
            } else {
                assert(batch[k] == pair);
            }
        }
        if batch.contains(pair) {
            let m = choose|m: int| 0 <= m < batch.len() && batch[m] == pair;
            assert(again[m] == pair);
        }
    }
    lemma_batch_is_a_set(s, again, batch);
}

/// An enemy is destroyed at most once: where no handle is in use twice, no
/// handle occurs twice among the enemies that a batch destroys.
pub proof fn lemma_hits_are_distinct(s: Seq<Body>, batch: Seq<(Entity, Entity)>, bound: nat)
    requires
        ids_ascend(s, bound),
    ensures
        ids_ascend(hits(s, batch), bound),
        forall|i: int, j: int|
            0 <= i < j < hits(s, batch).len() ==> hits(s, batch)[i].id != hits(s, batch)[j].id,
{
    lemma_filter_ascends(s, |b: Body| is_hit(s, batch, b), bound);
}

/// A thrown pickup leaves at the ejection speed: short of it by less than
/// three thousandths, and above it by less than one.
pub proof fn lemma_ejection_speed(rx: i32, ry: i32)
    ensures
        (EJECTION_SPEED - 3) * (EJECTION_SPEED - 3) <= ejection_velocity(rx, ry).norm_squared(),
        ejection_velocity(rx, ry).norm_squared() < (EJECTION_SPEED + 1) * (EJECTION_SPEED + 1),
{
    if rx == 0 && ry == 0 {
        assert(ejection_velocity(rx, ry).norm_squared() == EJECTION_SPEED * EJECTION_SPEED);
    } else {
        lemma_pursuit_magnitude(Vec2 { x: 0, y: 0 }, Vec2 { x: rx, y: ry }, EJECTION_SPEED);
    }
}

} // verus!
