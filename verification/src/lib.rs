//! Foundation types for a deterministic role-playing simulation: the
//! primitives every other layer is allowed to depend on, and nothing else.
//!
//! Everything here is deterministic by construction: no clock, no threads,
//! no I/O, no hash-map iteration. Each operation carries a contract that
//! Verus checks, stated over a mathematical model of its type.

pub mod decimal;
pub mod entity;
pub mod error;
pub mod fixed;
pub mod intern;
pub mod rng;
pub mod text;
pub mod time;
pub mod ulid;

pub use entity::{EntityId, GenerationalArena};
pub use error::{CoreError, Result};
pub use fixed::Fx16_16;
pub use intern::{Interner, Interners, StatId, TagId};
pub use rng::{DeterministicRng, Pcg32};
pub use time::{RoundCount, Tick};
pub use ulid::Ulid;
