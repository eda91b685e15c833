//! Gameplay simulation core of a small arcade game: a player defends a central
//! core from spawning enemies, and the energy that destroyed enemies leave
//! behind homes toward the core and is tallied as score.
//!
//! The crate decides; it neither draws nor integrates. Each tick the caller
//! writes into the registry where the physics step has put the bodies, hands
//! over the player's input and the collisions that the step reported, and
//! reads back the velocities and impulses to apply and the bodies that came
//! and went.
//!
//! Every quantity is a fixed-point integer: lengths in thousandths of a world
//! unit, velocities in thousandths of a unit per second, times in
//! microseconds. Results that do not fit a component saturate at the ends of
//! its range.
//!
//! - [`world`]: the registry of live bodies.
//! - [`player`]: the avatar and its controller.
//! - [`enemy`]: spawning on a timer, and pursuit of the core.
//! - [`combat`]: collisions between player and enemies, and the pickups that
//!   destroyed enemies leave.
//! - [`energy`]: the life of a pickup, and the score.
//! - [`game`]: the level at its start, and the order of the passes in a tick.
//! - [`vector`], [`fixed`], [`timer`]: the arithmetic underneath.

pub mod combat;
pub mod enemy;
pub mod energy;
pub mod fixed;
pub mod game;
pub mod player;
mod random;
pub mod timer;
pub mod vector;
pub mod world;
