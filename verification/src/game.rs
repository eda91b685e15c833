//! The game as a whole: what stands on the field when play begins, and the
//! order in which the passes of one tick run.

use vstd::prelude::*;
use crate::combat::{
    collisions_resolved, despawn_enemies, hits, is_hit, is_thrown_pickup, survivors,
};
use crate::enemy::{
    enemy_arrives, move_enemies, spawn_enemies, steered, target_position, Target, Timers,
    SPAWN_PERIOD,
};
use crate::energy::{
    aged, attracted, collect_area, collect_energy, due, gain, harvest, is_collectable,
    lemma_due_is_not_negative, lemma_harvest_after_ageing, lemma_harvest_filter,
    lemma_harvest_pointwise, lemma_harvest_tail, move_energy, start_collect, worth, CollectArea,
    EnergyPoint,
};
use crate::fixed::trunc_div;
use crate::player::{
    controlled, fresh_player, move_player_system, setup_player, Actions, Player,
};
use crate::timer::{ticked, Timer};
use crate::vector::Vec2;
use crate::world::{Body, Entity, Kind, World};

verus! {

/// Radius of the core: 20 units.
pub const CORE_RADIUS: i32 = 20_000;

/// Thickness of the ground that the core rests on: 40 units.
pub const GROUND_THICKNESS: i32 = 40_000;

/// Radius of the collection area around the core: 200 units.
pub const COLLECT_RADIUS: i32 = 200_000;

/// Where the core starts on a field of the given height, which is centred on
/// the origin: resting on the ground that lines the lower edge.
pub open spec fn core_position(field_height: i32) -> Vec2 {
    Vec2 { x: 0, y: (-trunc_div(field_height as int, 2) + GROUND_THICKNESS + CORE_RADIUS) as i32 }
}

/// The core as it enters the field.
pub open spec fn fresh_core(id: Entity, field_height: i32) -> Body {
    Body {
        id,
        position: core_position(field_height),
        velocity: Vec2 { x: 0, y: 0 },
        impulse: Vec2 { x: 0, y: 0 },
        kind: Kind::Core(Target),
    }
}

/// The collection area as it enters the field, centred on the core.
pub open spec fn fresh_collect_area(id: Entity, field_height: i32) -> Body {
    Body {
        id,
        position: core_position(field_height),
        velocity: Vec2 { x: 0, y: 0 },
        impulse: Vec2 { x: 0, y: 0 },
        kind: Kind::CollectArea(CollectArea { radius: COLLECT_RADIUS }),
    }
}

/// Puts the core on the field, and around it its collection area. Returns the
/// handles of the two, the core's first.
pub fn setup_core(world: &mut World, field_height: i32) -> (ids: (Entity, Entity))
    requires
        old(world).next_id() + 1 < u64::MAX,
    ensures
        ids.0.0 == old(world).next_id(),
        ids.1.0 == old(world).next_id() + 1,
        final(world).next_id() == old(world).next_id() + 2,
        final(world)@ == old(world)@.push(fresh_core(ids.0, field_height)).push(
            fresh_collect_area(ids.1, field_height),
        ),
        old(world).wf() ==> final(world).wf(),
{
    let position = Vec2 { x: 0, y: -(field_height / 2) + GROUND_THICKNESS + CORE_RADIUS };
    let core = world.spawn(position, Vec2::zero(), Kind::Core(Target));
    let area = world.spawn(
        position,
        Vec2::zero(),
        Kind::CollectArea(CollectArea { radius: COLLECT_RADIUS }),
    );
    (core, area)
}

/// A session of the game: the registry and what is threaded through the ticks
/// beside it.
pub struct Game {
    pub world: World,
    pub timers: Timers,
    pub score: EnergyPoint,
    /// Width of the play field, which is centred on the origin.
    pub field_width: i32,
    /// Height of the play field.
    pub field_height: i32,
}

/// What one tick did to the registry, for those who draw the bodies and play
/// the cues.
pub struct TickReport {
    /// The enemy that arrived in this tick.
    pub spawned: Option<Entity>,
    /// Each enemy destroyed in this tick, with the pickup it left.
    pub destroyed: Vec<(Entity, Entity)>,
    /// The pickups collected in this tick.
    pub collected: Vec<Entity>,
}

/// One tick, pass by pass, from the game `before` to the game `after`, where
/// `entered` is the registry once the spawning pass has run and `fought` the
/// registry once the collisions are resolved. The passes run in this order:
/// the player's controller; the spawning of enemies; the steering of enemies;
/// the resolving of the collisions that the last physics step reported; the
/// ageing of pickups, those of this tick among them; the proximity test; the
/// collection of the pickups that have arrived.
pub open spec fn tick_runs(
    before: Game,
    actions: Actions,
    dt: u32,
    batch: Seq<(Entity, Entity)>,
    entered: Seq<Body>,
    fought: Seq<Body>,
    report: TickReport,
    after: Game,
) -> bool {
    let walked = before.world@.map_values(|b: Body| controlled(b, actions));
    let headed = entered.map_values(|b: Body| steered(b, target_position(entered)));
    let flown = fought.map_values(|b: Body| aged(b, target_position(fought), dt));
    let drawn = flown.map_values(|b: Body| attracted(b, collect_area(flown)));
    &&& after.timers.enemy_spawn_timer == ticked(before.timers.enemy_spawn_timer, dt)
    &&& report.spawned is Some == after.timers.enemy_spawn_timer.finished
    &&& enemy_arrives(
        walked,
        before.world.next_id(),
        before.field_width as int,
        report.spawned,
        entered,
    )
    &&& collisions_resolved(
        headed,
        batch,
        before.world.next_id() + (entered.len() - walked.len()) as nat,
        report.destroyed@,
        fought,
    )
    &&& after.world@ == drawn.filter(|b: Body| !is_collectable(b))
    &&& report.collected@ == drawn.filter(|b: Body| is_collectable(b)).map_values(
        |b: Body| b.id,
    )
    &&& after.score.0 == before.score.0 + harvest(drawn)
    &&& after.world.next_id() == before.world.next_id() + (entered.len() - walked.len())
        + report.destroyed@.len()
    &&& after.field_width == before.field_width
    &&& after.field_height == before.field_height
}

/// Whether `b` belongs to the standing cast of the level: the bodies that are
/// neither enemies nor pickups, and so neither come nor go while the game is
/// played.
pub open spec fn is_standing(b: Body) -> bool {
    !(b.kind is Enemy) && !(b.kind is Energy)
}

/// The standing cast among `s`: handle and role of each body that is neither
/// enemy nor pickup, in their order. A game starts with one core, its
/// collection area and one player, and every tick leaves the cast as it is:
/// there is one player and one core for as long as the game is played.
pub open spec fn cast(s: Seq<Body>) -> Seq<(Entity, Kind)>
    decreases s.len(),
{
    if s.len() == 0 {
        Seq::<(Entity, Kind)>::empty()
    } else if is_standing(s.last()) {
        cast(s.drop_last()).push((s.last().id, s.last().kind))
    } else {
        cast(s.drop_last())
    }
}

impl Game {
    /// A session at its start, on a field of the given size: the core with its
    /// collection area and the player's avatar stand on the field, the timers
    /// are at their start, and nothing is scored.
    pub fn new(field_width: i32, field_height: i32) -> (g: Game)
        ensures
            g.world@ == seq![
                fresh_core(Entity(0), field_height),
                fresh_collect_area(Entity(1), field_height),
                fresh_player(Entity(2)),
            ],
            cast(g.world@) == seq![
                (Entity(0), Kind::Core(Target)),
                (Entity(1), Kind::CollectArea(CollectArea { radius: COLLECT_RADIUS })),
                (Entity(2), Kind::Player(Player { jump_power: 100_000 })),
            ],
            g.world.next_id() == 3,
            g.world.wf(),
            g.timers.enemy_spawn_timer == (Timer {
                duration: SPAWN_PERIOD,
                elapsed: 0,
                finished: false,
            }),
            g.score.0 == 0,
            g.field_width == field_width,
            g.field_height == field_height,
    {
        let mut world = World::new();
        setup_core(&mut world, field_height);
        setup_player(&mut world);
        proof {
            let s = world@;
            assert(s =~= seq![
                fresh_core(Entity(0), field_height),
                fresh_collect_area(Entity(1), field_height),
                fresh_player(Entity(2)),
            ]);
            reveal_with_fuel(cast, 4);
            assert(s.drop_last().drop_last().drop_last() =~= Seq::<Body>::empty());
            assert(cast(s) =~= seq![
                (Entity(0), Kind::Core(Target)),
                (Entity(1), Kind::CollectArea(CollectArea { radius: COLLECT_RADIUS })),
                (Entity(2), Kind::Player(Player { jump_power: 100_000 })),
            ]);
        }
        Game { world, timers: Timers::new(), score: EnergyPoint::new(), field_width, field_height }
    }

    /// Runs one tick of `dt` microseconds: every pass once, in the order that
    /// `tick_runs` gives. `collisions` is the batch of collisions that the
    /// last physics step reported. What the collection adds to the score is
    /// what was due at the tick's start; it must fit the counter. Handles for
    /// one enemy and for the pickups must be left.
    pub fn tick(&mut self, actions: &Actions, dt: u32, collisions: &Vec<(Entity, Entity)>) -> (report:
        TickReport)
        requires
            old(self).world.next_id() + old(self).world@.len() + 2 <= u64::MAX,
            i32::MIN <= old(self).score.0 + due(old(self).world@, dt) <= i32::MAX,
        ensures
            exists|entered: Seq<Body>, fought: Seq<Body>| #[trigger]
                tick_runs(
                    *old(self),
                    *actions,
                    dt,
                    collisions@,
                    entered,
                    fought,
                    report,
                    *final(self),
                ),
            final(self).score.0 == old(self).score.0 + due(old(self).world@, dt),
            cast(final(self).world@) == cast(old(self).world@),
            (forall|j: int|
                0 <= j < old(self).world@.len() ==> worth(#[trigger] old(self).world@[j]) >= 0)
                ==> final(self).score.0 >= old(self).score.0,
            old(self).world.wf() ==> final(self).world.wf(),
    {
        let ghost start = self.world@;
        proof {
            if forall|j: int| 0 <= j < start.len() ==> worth(#[trigger] start[j]) >= 0 {
                lemma_due_is_not_negative(start, dt);
            }
        }
        move_player_system(actions, &mut self.world);
        let ghost walked = self.world@;
        let spawned = spawn_enemies(&mut self.world, dt, &mut self.timers, self.field_width);
        let ghost entered = self.world@;
        move_enemies(&mut self.world);
        let ghost headed = self.world@;
        let destroyed = despawn_enemies(&mut self.world, collisions);
        let ghost fought = self.world@;
        move_energy(&mut self.world, dt);
        let ghost flown = self.world@;
        start_collect(&mut self.world);
        let ghost drawn = self.world@;
        proof {
            lemma_due_survives_the_tick(
                start,
                *actions,
                dt,
                collisions@,
                walked,
                entered,
                headed,
                fought,
            );
            lemma_harvest_after_ageing(fought, target_position(fought), dt, collect_area(flown));
            lemma_cast_survives_the_tick(
                start,
                *actions,
                dt,
                collisions@,
                walked,
                entered,
                headed,
                fought,
            );
        }
        let collected = collect_energy(&mut self.world, &mut self.score);
        let report = TickReport { spawned, destroyed, collected };
        proof {
            assert forall|j: int| 0 <= j < flown.len() implies same_standing(
                #[trigger] flown[j],
                fought[j],
            ) by {
                assert(flown[j] == aged(fought[j], target_position(fought), dt));
            }
            lemma_cast_pointwise(flown, fought);
            assert forall|j: int| 0 <= j < drawn.len() implies same_standing(
                #[trigger] drawn[j],
                flown[j],
            ) by {
                assert(drawn[j] == attracted(flown[j], collect_area(flown)));
            }
            lemma_cast_pointwise(drawn, flown);
            lemma_cast_filter(drawn, |b: Body| !is_collectable(b));
        }
        proof {
            assert(tick_runs(
                *old(self),
                *actions,
                dt,
                collisions@,
                entered,
                fought,
                report,
                *self,
            ));
        }
        report
    }
}

// The passes before the ageing leave what is due as it was: the controller
// and the steering change no kind, the enemy that arrives and the enemies
// that fall are no pickups, and the pickups that the fallen leave are fresh.
proof fn lemma_due_survives_the_tick(
    start: Seq<Body>,
    actions: Actions,
    dt: u32,
    batch: Seq<(Entity, Entity)>,
    walked: Seq<Body>,
    entered: Seq<Body>,
    headed: Seq<Body>,
    fought: Seq<Body>,
)
    requires
        walked == start.map_values(|b: Body| controlled(b, actions)),
        exists|first: nat, spawned: Option<Entity>, width: int|
            enemy_arrives(walked, first, width, spawned, entered),
        headed == entered.map_values(|b: Body| steered(b, target_position(entered))),
        exists|first: nat, report: Seq<(Entity, Entity)>|
            collisions_resolved(headed, batch, first, report, fought),
    ensures
        due(fought, dt) == due(start, dt),
{
    let f = |b: Body| aged(b, None, dt);
    // The controller.
    assert forall|j: int| 0 <= j < start.len() implies gain(
        #[trigger] walked.map_values(f)[j],
    ) == gain(start.map_values(f)[j]) by {
        assert(walked[j] == controlled(start[j], actions));
    }
    lemma_harvest_pointwise(walked.map_values(f), start.map_values(f));
    // The arrival of an enemy.
    let (first, spawned, width) = choose|first: nat, spawned: Option<Entity>, width: int|
        enemy_arrives(walked, first, width, spawned, entered);
    if spawned is Some {
        assert(entered.map_values(f).drop_last() =~= walked.map_values(f));
        assert(gain(entered.map_values(f).last()) == 0);
    }
    assert(due(entered, dt) == due(walked, dt));
    // The steering.
    assert forall|j: int| 0 <= j < entered.len() implies gain(
        #[trigger] headed.map_values(f)[j],
    ) == gain(entered.map_values(f)[j]) by {
        assert(headed[j] == steered(entered[j], target_position(entered)));
    }
    lemma_harvest_pointwise(headed.map_values(f), entered.map_values(f));
    // The collisions.
    let (base, report) = choose|base: nat, report: Seq<(Entity, Entity)>|
        collisions_resolved(headed, batch, base, report, fought);
    let fallen = hits(headed, batch);
    let rest = survivors(headed, batch);
    let n = rest.len() as int;
    assert forall|k: int| n <= k < fought.len() implies gain(
        #[trigger] fought.map_values(f)[k],
    ) == 0 by {
        assert(is_thrown_pickup(
            fought.skip(n)[k - n],
            crate::combat::pickup_handle(base, k - n),
            fallen[k - n].position,
        ));
        assert(fought.skip(n)[k - n] == fought[k]);
    }
    lemma_harvest_tail(fought.map_values(f), n);
    assert(fought.map_values(f).take(n) =~= rest.map_values(f));
    lemma_harvest_filter(headed, |b: Body| !is_hit(headed, batch, b), f);
}

// Two bodies count alike for the standing cast: both outside it, or both in
// it with the same handle and role.
spec fn same_standing(a: Body, b: Body) -> bool {
    is_standing(a) == is_standing(b) && (is_standing(a) ==> a.id == b.id && a.kind == b.kind)
}

// Two registries that agree body by body on the standing cast have the same.
proof fn lemma_cast_pointwise(a: Seq<Body>, b: Seq<Body>)
    requires
        a.len() == b.len(),
        forall|j: int| 0 <= j < a.len() ==> same_standing(#[trigger] a[j], b[j]),
    ensures
        cast(a) == cast(b),
    decreases a.len(),
{
    if a.len() > 0 {
        assert(same_standing(a[a.len() - 1], b[a.len() - 1]));
        assert forall|j: int| 0 <= j < a.drop_last().len() implies same_standing(
            #[trigger] a.drop_last()[j],
            b.drop_last()[j],
        ) by {
            assert(same_standing(a[j], b[j]));
        }
        lemma_cast_pointwise(a.drop_last(), b.drop_last());
    }
}

// Bodies at the end of a registry that are outside the standing cast can be
// left out of it.
proof fn lemma_cast_tail(a: Seq<Body>, n: int)
    requires
        0 <= n <= a.len(),
        forall|k: int| n <= k < a.len() ==> !is_standing(#[trigger] a[k]),
    ensures
        cast(a) == cast(a.take(n)),
    decreases a.len() - n,
{
    if n == a.len() {
        assert(a.take(n) =~= a);
    } else {
        assert(!is_standing(a[a.len() - 1]));
        lemma_cast_tail(a.drop_last(), n);
        assert(a.drop_last().take(n) =~= a.take(n));
    }
}

// Removing bodies from outside the standing cast leaves it as it is.
proof fn lemma_cast_filter(s: Seq<Body>, keep: spec_fn(Body) -> bool)
    requires
        forall|b: Body| !(#[trigger] keep(b)) ==> !is_standing(b),
    ensures
        cast(s.filter(keep)) == cast(s),
    decreases s.len(),
{
    reveal(Seq::filter);
    if s.len() > 0 {
        let front = s.drop_last();
        lemma_cast_filter(front, keep);
        if keep(s.last()) {
            assert(s.filter(keep) == front.filter(keep).push(s.last()));
            assert(s.filter(keep).drop_last() =~= front.filter(keep));
        } else {
            assert(s.filter(keep) == front.filter(keep));
            assert(!keep(s.last()));
        }
    }
}

// The passes up to the resolving of collisions leave the standing cast as it
// was: the controller and the steering change neither handle nor role, and
// only enemies and pickups come and go.
proof fn lemma_cast_survives_the_tick(
    start: Seq<Body>,
    actions: Actions,
    dt: u32,
    batch: Seq<(Entity, Entity)>,
    walked: Seq<Body>,
    entered: Seq<Body>,
    headed: Seq<Body>,
    fought: Seq<Body>,
)
    requires
        walked == start.map_values(|b: Body| controlled(b, actions)),
        exists|first: nat, spawned: Option<Entity>, width: int|
            enemy_arrives(walked, first, width, spawned, entered),
        headed == entered.map_values(|b: Body| steered(b, target_position(entered))),
        exists|first: nat, report: Seq<(Entity, Entity)>|
            collisions_resolved(headed, batch, first, report, fought),
    ensures
        cast(fought) == cast(start),
{
    // The controller.
    assert forall|j: int| 0 <= j < start.len() implies same_standing(
        #[trigger] walked[j],
        start[j],
    ) by {
        assert(walked[j] == controlled(start[j], actions));
    }
    lemma_cast_pointwise(walked, start);
    // The arrival of an enemy.
    let (first, spawned, width) = choose|first: nat, spawned: Option<Entity>, width: int|
        enemy_arrives(walked, first, width, spawned, entered);
    if spawned is Some {
        assert(entered.drop_last() =~= walked);
        assert(!is_standing(entered.last()));
    }
    assert(cast(entered) == cast(walked));
    // The steering.
    assert forall|j: int| 0 <= j < entered.len() implies same_standing(
        #[trigger] headed[j],
        entered[j],
    ) by {
        assert(headed[j] == steered(entered[j], target_position(entered)));
    }
    lemma_cast_pointwise(headed, entered);
    // The collisions.
    let (base, report) = choose|base: nat, report: Seq<(Entity, Entity)>|
        collisions_resolved(headed, batch, base, report, fought);
    let fallen = hits(headed, batch);
    let rest = survivors(headed, batch);
    let n = rest.len() as int;
    assert forall|k: int| n <= k < fought.len() implies !is_standing(#[trigger] fought[k]) by {
        assert(is_thrown_pickup(
            fought.skip(n)[k - n],
            crate::combat::pickup_handle(base, k - n),
            fallen[k - n].position,
        ));
        assert(fought.skip(n)[k - n] == fought[k]);
    }
    lemma_cast_tail(fought, n);
    lemma_cast_filter(headed, |b: Body| !is_hit(headed, batch, b));
}

} // verus!
