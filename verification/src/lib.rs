//! Control logic for a motorized curtain actuator.
//!
//! The crate turns position commands into step and direction signals for a
//! stepper motor and keeps track of where the actuator is. It performs no I/O:
//! signals are handed out one at a time for the caller to put on the lines,
//! and the caller keeps the lock and the clock.
//!
//! A position is a fraction of the full travel, from 0 (closed) to 1 (open).
//! It is held as a whole number of motor steps out of `steps_to_fully_open`,
//! and a target is held as the decimal number that was written, so that all
//! arithmetic is exact.
//!
//! - `pulse`: the signals of one motion.
//! - `position`: the stored position.
//! - `text`, `fraction`: the numbers that payloads write.
//! - `command`: topics and payloads decoded into commands.
//! - `controller`: commands turned into motions, and motions taken into the
//!   position.
//! - `telemetry`: what is published about the position.
//! - `laws`: what holds of all of this together.

pub mod command;
pub mod controller;
pub mod fraction;
pub mod laws;
pub mod position;
pub mod pulse;
pub mod telemetry;
pub mod text;

pub use command::{Command, CommandError};
pub use controller::{Motion, MotorController, Phase};
pub use fraction::Fraction;
pub use position::PositionStore;
pub use pulse::{Direction, PulseTrain, Signal, STEP_DELAY_MICROS};
pub use telemetry::TELEMETRY_INTERVAL_SECS;
