//! Parse and validation errors.

use vstd::prelude::*;

use crate::card::Card;

verus! {

/// Why a token or an input was rejected.
#[derive(Clone, Copy, Debug, PartialEq, Eq, Structural)]
pub enum Error {
    /// A card token or card-list token of odd or wrong length.
    BadLength,
    /// A character where a rank was expected.
    BadRankChar(u8),
    /// A character where a suite was expected.
    BadSuiteChar(u8),
    /// The same card twice in one card list.
    DuplicateCard(Card),
    /// A hand must hold exactly two cards.
    BadHandSize(u8),
    /// A range entry in none of the accepted shapes.
    BadRangeEntry,
    /// A non-pair range entry whose low rank is not below its high rank.
    LowNotBelowHigh,
    /// The same cell of a range named twice.
    DuplicateRangeEntry,
}

} // verus!
