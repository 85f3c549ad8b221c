//! Simulation core of a two-sided lane battler.
//!
//! Each side owns a base. Units spawned near a base walk along the lane toward the
//! opposing base, stop to attack enemies that are in front of them and within reach,
//! trade damage through a wind-up / strike / recovery cycle, and are removed when their
//! health runs out. The match ends when a base is destroyed.
//!
//! All quantities are integers:
//! - lane positions and distances are in thousandths of a lane unit;
//! - durations are in milliseconds;
//! - a speed is in thousandths of a lane unit per millisecond (lane units per second);
//! - coins are kept in thousandths of a coin, and a coin rate is in coins per second.
pub mod units;
pub mod stats;
pub mod inventory;
pub mod world;
pub mod combat;
pub mod simulation;
pub mod rng;
pub mod waves;
pub mod laws;

pub use units::UnitType;
pub use stats::{AttackStats, Health, MovementStats};
pub use inventory::{Inventory, Item, COIN};
pub use world::{Attack, Attacking, Entity, EntityKind, Position, SpawnJitter, SpawnUnit};
pub use simulation::{GameState, GameStats, Simulation, TickSummary, Winner};
pub use waves::WaveClock;
