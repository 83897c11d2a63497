//! The four suites.  Their integer order is poker-irrelevant; it only fixes
//! the lane each suite occupies inside a 64-bit card mask.

use vstd::prelude::*;

use crate::error::Error;

verus! {

#[derive(Clone, Copy, Debug, Hash, PartialEq, Eq, Structural)]
pub enum Suite {
    Diamonds,
    Spades,
    Hearts,
    Clubs,
}

impl Suite {
    pub const COUNT: usize = 4;

    /// The integer code of the suite: Diamonds 0, Spades 1, Hearts 2, Clubs 3.
    pub open spec fn as_int(self) -> int {
        match self {
            Suite::Diamonds => 0,
            Suite::Spades => 1,
            Suite::Hearts => 2,
            Suite::Clubs => 3,
        }
    }

    pub fn to_i8(self) -> (r: i8)
        ensures
            r == self.as_int(),
    {
        match self {
            Suite::Diamonds => 0,
            Suite::Spades => 1,
            Suite::Hearts => 2,
            Suite::Clubs => 3,
        }
    }

    pub fn to_u8(self) -> (r: u8)
        ensures
            r == self.as_int(),
    {
        self.to_i8() as u8
    }

    pub fn to_usize(self) -> (r: usize)
        ensures
            r == self.as_int(),
    {
        self.to_u8() as usize
    }

    pub open spec fn spec_from_int(v: int) -> Option<Suite> {
        if v == 0 {
            Some(Suite::Diamonds)
        } else if v == 1 {
            Some(Suite::Spades)
        } else if v == 2 {
            Some(Suite::Hearts)
        } else if v == 3 {
            Some(Suite::Clubs)
        } else {
            None
        }
    }

    pub fn from_i8(v: i8) -> (r: Option<Suite>)
        ensures
            r == Self::spec_from_int(v as int),
            r matches Some(s) ==> s.as_int() == v,
    {
        if v == 0 {
            Some(Suite::Diamonds)
        } else if v == 1 {
            Some(Suite::Spades)
        } else if v == 2 {
            Some(Suite::Hearts)
        } else if v == 3 {
            Some(Suite::Clubs)
        } else {
            None
        }
    }

    /// The ASCII letter that names the suite in a card token.
    pub open spec fn spec_char(self) -> u8 {
        match self {
            Suite::Diamonds => 100u8,
            Suite::Spades => 115u8,
            Suite::Hearts => 104u8,
            Suite::Clubs => 99u8,
        }
    }

    /// The suite's name as a character; its code point is `spec_char()`.
    pub open spec fn spec_char_c(self) -> char {
        match self {
            Suite::Diamonds => 'd',
            Suite::Spades => 's',
            Suite::Hearts => 'h',
            Suite::Clubs => 'c',
        }
    }

    pub open spec fn spec_of_char(ch: u8) -> Option<Suite> {
        if ch == 100u8 {
            Some(Suite::Diamonds)
        } else if ch == 115u8 {
            Some(Suite::Spades)
        } else if ch == 104u8 {
            Some(Suite::Hearts)
        } else if ch == 99u8 {
            Some(Suite::Clubs)
        } else {
            None
        }
    }

    /// Naming a suite and reading the name back are inverse to each other.
    pub proof fn lemma_char_round_trip(self)
        ensures
            Self::spec_of_char(self.spec_char()) == Some(self),
    {
    }

    pub fn to_ascii(self) -> (r: u8)
        ensures
            r == self.spec_char(),
    {
        match self {
            Suite::Diamonds => 100u8,
            Suite::Spades => 115u8,
            Suite::Hearts => 104u8,
            Suite::Clubs => 99u8,
        }
    }

    pub fn from_ascii(ch: u8) -> (r: Result<Suite, Error>)
        ensures
            match r {
                Ok(s) => Self::spec_of_char(ch) == Some(s),
                Err(e) => Self::spec_of_char(ch) is None && e == Error::BadSuiteChar(ch),
            },
    {
        if ch == 100u8 {
            Ok(Suite::Diamonds)
        } else if ch == 115u8 {
            Ok(Suite::Spades)
        } else if ch == 104u8 {
            Ok(Suite::Hearts)
        } else if ch == 99u8 {
            Ok(Suite::Clubs)
        } else {
            Err(Error::BadSuiteChar(ch))
        }
    }

    /// The lane offset of the suite inside a 64-bit card mask.
    pub fn to_index(self) -> (r: i8)
        ensures
            r == 16 * self.as_int(),
    {
        self.to_i8() * 16
    }

    pub fn to_index_u64(self) -> (r: u64)
        ensures
            r == 16 * self.as_int(),
    {
        self.to_index() as u64
    }
}

} // verus!
