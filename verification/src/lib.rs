//! Texas Hold'em showdown-equity library.
//!
//! Cards are bit-packed: a card is the index `suite * 16 + rank`, a set of
//! cards is a 64-bit mask in which each suite owns a 16-bit lane with the
//! three top bits of the lane unused.  On top of that algebra sit a
//! seven-card hand evaluator, compressed hand ranges, an exact showdown
//! enumerator and a Monte-Carlo simulator.

pub mod bits;
pub mod card;
pub mod cards;
pub mod equity;
pub mod error;
pub mod hand;
pub mod range;
pub mod rank;
pub mod ring;
pub mod rng;
pub mod score;
pub mod suite;
