//! Deterministic generator of 5x5 bingo boards for a speedrunning bingo game.
//!
//! Given a 32-bit seed and a difficulty mode, the generator reproduces,
//! bit for bit, the board that the reference stream-cipher based algorithm
//! produces for that seed, so that boards can be shared and re-derived from
//! the seed alone.

pub mod arc4;
pub mod bingo;
pub mod codec;
pub mod error;
pub mod generator;
pub mod seed_random;
pub mod template;

pub use arc4::Arc4;
pub use bingo::{Bingo, Mode};
pub use error::BingoError;
pub use seed_random::{RandomUnit, SeedRandom};
pub use template::{Goal, Template};
