//! The player-controlled avatar and its controller.

use vstd::prelude::*;
use crate::fixed::{clamp_i32, saturate};
use crate::vector::Vec2;
use crate::world::{Body, Entity, Kind, World};

verus! {

/// What makes a body the player's avatar.
#[derive(Clone, Copy, Debug, PartialEq, Eq, Structural)]
pub struct Player {
    /// Upward impulse of one jump, in thousandths.
    pub jump_power: i32,
}

impl Default for Player {
    /// A basic avatar jumps with an impulse of 100 units.
    fn default() -> (p: Player)
        ensures
            p == (Player { jump_power: 100_000 }),
    {
        Player { jump_power: 100_000 }
    }
}

/// What the player asks for in one tick.
#[derive(Clone, Copy, Debug, PartialEq, Eq, Structural)]
pub struct Actions {
    /// Horizontal movement axis, in thousandths from -1000 (left) to 1000
    /// (right); `None` while no direction is held.
    pub player_movement: Option<i32>,
    /// `Some(true)` on the tick a jump is triggered.
    pub player_jump: Option<bool>,
}

/// Height above the origin at which the avatar starts: 200 units.
pub const PLAYER_START_HEIGHT: i32 = 200_000;

/// The avatar as it enters the field.
pub open spec fn fresh_player(id: Entity) -> Body {
    Body {
        id,
        position: Vec2 { x: 0, y: PLAYER_START_HEIGHT },
        velocity: Vec2 { x: 0, y: 0 },
        impulse: Vec2 { x: 0, y: 0 },
        kind: Kind::Player(Player { jump_power: 100_000 }),
    }
}

/// Puts a basic avatar on the field, at rest at its starting position.
pub fn setup_player(world: &mut World) -> (id: Entity)
    requires
        old(world).next_id() < u64::MAX,
    ensures
        id.0 == old(world).next_id(),
        final(world).next_id() == old(world).next_id() + 1,
        final(world)@ == old(world)@.push(fresh_player(id)),
        old(world).wf() ==> final(world).wf(),
{
    world.spawn(
        Vec2 { x: 0, y: PLAYER_START_HEIGHT },
        Vec2::zero(),
        Kind::Player(Player::default()),
    )
}

/// Horizontal velocity that the movement axis asks for: none without input,
/// else the axis value times 100 units per second, which for an axis in
/// thousandths is a factor of 100, held to the component range.
pub open spec fn walk_velocity(movement: Option<i32>) -> int {
    match movement {
        None => 0,
        Some(axis) => clamp_i32(axis * 100),
    }
}

/// The body `b` after the controller has run: an avatar's horizontal velocity
/// is what the axis asks for, and its vertical velocity stays, unless a jump
/// is triggered: then the vertical velocity is cancelled and an upward
/// impulse of the avatar's jump power waits for the physics step. Any other
/// body stays as it is.
pub open spec fn controlled(b: Body, actions: Actions) -> Body {
    match b.kind {
        Kind::Player(p) => if actions.player_jump == Some(true) {
            Body {
                velocity: Vec2 { x: walk_velocity(actions.player_movement) as i32, y: 0 },
                impulse: Vec2 { x: 0, y: p.jump_power },
                ..b
            }
        } else {
            Body {
                velocity: Vec2 {
                    x: walk_velocity(actions.player_movement) as i32,
                    y: b.velocity.y,
                },
                ..b
            }
        },
        _ => b,
    }
}

/// Runs the controller on one body.
pub fn control(b: Body, actions: &Actions) -> (r: Body)
    ensures
        r == controlled(b, *actions),
{
    match b.kind {
        Kind::Player(p) => {
            let x: i32 = match actions.player_movement {
                None => 0,
                Some(axis) => saturate(axis as i128 * 100),
            };
            match actions.player_jump {
                Some(true) => Body {
                    velocity: Vec2 { x, y: 0 },
                    impulse: Vec2 { x: 0, y: p.jump_power },
                    ..b
                },
                _ => Body { velocity: Vec2 { x, y: b.velocity.y }, ..b },
            }
        },
        _ => b,
    }
}

/// Turns the tick's input into the avatar's velocity and jump impulse.
pub fn move_player_system(actions: &Actions, world: &mut World)
    ensures
        final(world)@ == old(world)@.map_values(|b: Body| controlled(b, *actions)),
        final(world).next_id() == old(world).next_id(),
        old(world).wf() ==> final(world).wf(),
{
    let n = world.len();
    let mut i: usize = 0;
    while i < n
        invariant
            n == world@.len(),
            n == old(world)@.len(),
            i <= n,
            world.next_id() == old(world).next_id(),
            old(world).wf() ==> world.wf(),
            forall|j: int| 0 <= j < i ==> world@[j] == controlled(old(world)@[j], *actions),
            forall|j: int| i <= j < n ==> world@[j] == old(world)@[j],
        decreases n - i,
    {
        let b = world.body(i);
        world.replace(i, control(b, actions));
        i += 1;
    }
    assert(world@ =~= old(world)@.map_values(|b: Body| controlled(b, *actions)));
}

} // verus!
