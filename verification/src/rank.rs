//! The thirteen card ranks, Two up to Ace, coded as the integers 0..13.

use vstd::prelude::*;

use crate::error::Error;

verus! {

#[derive(Clone, Copy, Debug, Hash, PartialEq, Eq, Structural)]
pub enum Rank {
    Two,
    Three,
    Four,
    Five,
    Six,
    Seven,
    Eight,
    Nine,
    Ten,
    Jack,
    Queen,
    King,
    Ace,
}

impl Rank {
    pub const COUNT: usize = 13;

    /// The integer code of the rank: Two is 0, Ace is 12.
    pub open spec fn as_int(self) -> int {
        match self {
            Rank::Two => 0,
            Rank::Three => 1,
            Rank::Four => 2,
            Rank::Five => 3,
            Rank::Six => 4,
            Rank::Seven => 5,
            Rank::Eight => 6,
            Rank::Nine => 7,
            Rank::Ten => 8,
            Rank::Jack => 9,
            Rank::Queen => 10,
            Rank::King => 11,
            Rank::Ace => 12,
        }
    }

    pub fn to_i8(self) -> (r: i8)
        ensures
            r == self.as_int(),
            0 <= r <= 12,
    {
        match self {
            Rank::Two => 0,
            Rank::Three => 1,
            Rank::Four => 2,
            Rank::Five => 3,
            Rank::Six => 4,
            Rank::Seven => 5,
            Rank::Eight => 6,
            Rank::Nine => 7,
            Rank::Ten => 8,
            Rank::Jack => 9,
            Rank::Queen => 10,
            Rank::King => 11,
            Rank::Ace => 12,
        }
    }

    pub fn to_u8(self) -> (r: u8)
        ensures
            r == self.as_int(),
    {
        self.to_i8() as u8
    }

    pub fn to_i16(self) -> (r: i16)
        ensures
            r == self.as_int(),
    {
        self.to_i8() as i16
    }

    pub fn to_u16(self) -> (r: u16)
        ensures
            r == self.as_int(),
    {
        self.to_u8() as u16
    }

    pub fn to_u32(self) -> (r: u32)
        ensures
            r == self.as_int(),
    {
        self.to_u8() as u32
    }

    pub fn to_usize(self) -> (r: usize)
        ensures
            r == self.as_int(),
    {
        self.to_u8() as usize
    }

    /// The rank with the given integer code, if the code is in range.
    pub open spec fn spec_from_int(v: int) -> Option<Rank> {
        if v == 0 {
            Some(Rank::Two)
        } else if v == 1 {
            Some(Rank::Three)
        } else if v == 2 {
            Some(Rank::Four)
        } else if v == 3 {
            Some(Rank::Five)
        } else if v == 4 {
            Some(Rank::Six)
        } else if v == 5 {
            Some(Rank::Seven)
        } else if v == 6 {
            Some(Rank::Eight)
        } else if v == 7 {
            Some(Rank::Nine)
        } else if v == 8 {
            Some(Rank::Ten)
        } else if v == 9 {
            Some(Rank::Jack)
        } else if v == 10 {
            Some(Rank::Queen)
        } else if v == 11 {
            Some(Rank::King)
        } else if v == 12 {
            Some(Rank::Ace)
        } else {
            None
        }
    }

    pub fn from_i8(v: i8) -> (r: Option<Rank>)
        ensures
            r == Self::spec_from_int(v as int),
            r matches Some(rk) ==> rk.as_int() == v,
    {
        if v == 0 {
            Some(Rank::Two)
        } else if v == 1 {
            Some(Rank::Three)
        } else if v == 2 {
            Some(Rank::Four)
        } else if v == 3 {
            Some(Rank::Five)
        } else if v == 4 {
            Some(Rank::Six)
        } else if v == 5 {
            Some(Rank::Seven)
        } else if v == 6 {
            Some(Rank::Eight)
        } else if v == 7 {
            Some(Rank::Nine)
        } else if v == 8 {
            Some(Rank::Ten)
        } else if v == 9 {
            Some(Rank::Jack)
        } else if v == 10 {
            Some(Rank::Queen)
        } else if v == 11 {
            Some(Rank::King)
        } else if v == 12 {
            Some(Rank::Ace)
        } else {
            None
        }
    }

    /// The ASCII digit or letter that names the rank in a card token.
    pub open spec fn spec_char(self) -> u8 {
        match self {
            Rank::Two => 50u8,
            Rank::Three => 51u8,
            Rank::Four => 52u8,
            Rank::Five => 53u8,
            Rank::Six => 54u8,
            Rank::Seven => 55u8,
            Rank::Eight => 56u8,
            Rank::Nine => 57u8,
            Rank::Ten => 84u8,
            Rank::Jack => 74u8,
            Rank::Queen => 81u8,
            Rank::King => 75u8,
            Rank::Ace => 65u8,
        }
    }

    /// The rank's name as a character; its code point is `spec_char()`.
    pub open spec fn spec_char_c(self) -> char {
        match self {
            Rank::Two => '2',
            Rank::Three => '3',
            Rank::Four => '4',
            Rank::Five => '5',
            Rank::Six => '6',
            Rank::Seven => '7',
            Rank::Eight => '8',
            Rank::Nine => '9',
            Rank::Ten => 'T',
            Rank::Jack => 'J',
            Rank::Queen => 'Q',
            Rank::King => 'K',
            Rank::Ace => 'A',
        }
    }

    /// The rank named by an ASCII character, if any.
    pub open spec fn spec_of_char(ch: u8) -> Option<Rank> {
        if ch == 50u8 {
            Some(Rank::Two)
        } else if ch == 51u8 {
            Some(Rank::Three)
        } else if ch == 52u8 {
            Some(Rank::Four)
        } else if ch == 53u8 {
            Some(Rank::Five)
        } else if ch == 54u8 {
            Some(Rank::Six)
        } else if ch == 55u8 {
            Some(Rank::Seven)
        } else if ch == 56u8 {
            Some(Rank::Eight)
        } else if ch == 57u8 {
            Some(Rank::Nine)
        } else if ch == 84u8 {
            Some(Rank::Ten)
        } else if ch == 74u8 {
            Some(Rank::Jack)
        } else if ch == 81u8 {
            Some(Rank::Queen)
        } else if ch == 75u8 {
            Some(Rank::King)
        } else if ch == 65u8 {
            Some(Rank::Ace)
        } else {
            None
        }
    }

    /// Naming a rank and reading the name back are inverse to each other.
    pub proof fn lemma_char_round_trip(self)
        ensures
            Self::spec_of_char(self.spec_char()) == Some(self),
    {
    }

    pub fn to_ascii(self) -> (r: u8)
        ensures
            r == self.spec_char(),
    {
        match self {
            Rank::Two => 50u8,
            Rank::Three => 51u8,
            Rank::Four => 52u8,
            Rank::Five => 53u8,
            Rank::Six => 54u8,
            Rank::Seven => 55u8,
            Rank::Eight => 56u8,
            Rank::Nine => 57u8,
            Rank::Ten => 84u8,
            Rank::Jack => 74u8,
            Rank::Queen => 81u8,
            Rank::King => 75u8,
            Rank::Ace => 65u8,
        }
    }

    pub fn from_ascii(ch: u8) -> (r: Result<Rank, Error>)
        ensures
            match r {
                Ok(rk) => Self::spec_of_char(ch) == Some(rk),
                Err(e) => Self::spec_of_char(ch) is None && e == Error::BadRankChar(ch),
            },
    {
        if ch == 50u8 {
            Ok(Rank::Two)
        } else if ch == 51u8 {
            Ok(Rank::Three)
        } else if ch == 52u8 {
            Ok(Rank::Four)
        } else if ch == 53u8 {
            Ok(Rank::Five)
        } else if ch == 54u8 {
            Ok(Rank::Six)
        } else if ch == 55u8 {
            Ok(Rank::Seven)
        } else if ch == 56u8 {
            Ok(Rank::Eight)
        } else if ch == 57u8 {
            Ok(Rank::Nine)
        } else if ch == 84u8 {
            Ok(Rank::Ten)
        } else if ch == 74u8 {
            Ok(Rank::Jack)
        } else if ch == 81u8 {
            Ok(Rank::Queen)
        } else if ch == 75u8 {
            Ok(Rank::King)
        } else if ch == 65u8 {
            Ok(Rank::Ace)
        } else {
            Err(Error::BadRankChar(ch))
        }
    }

    /// All ranks from `from` up to `to`, in ascending order.
    pub fn range(from: Rank, to: Rank) -> (r: Vec<Rank>)
        ensures
            from.as_int() <= to.as_int() ==> r@.len() == to.as_int() - from.as_int() + 1,
            from.as_int() > to.as_int() ==> r@.len() == 0,
            forall|i: int|
                0 <= i < r@.len() ==> #[trigger] r@[i].as_int() == from.as_int() + i,
    {
        let mut out: Vec<Rank> = Vec::new();
        let lo: i8 = from.to_i8();
        let hi: i8 = to.to_i8();
        if lo > hi {
            return out;
        }
        let mut v: i8 = lo;
        while v <= hi
            invariant
                lo == from.as_int(),
                hi == to.as_int(),
                0 <= lo <= v,
                v <= hi + 1 <= 13,
                out@.len() == v - lo,
                forall|i: int|
                    0 <= i < out@.len() ==> #[trigger] out@[i].as_int() == lo + i,
            decreases 13 - v,
        {
            let rk = Rank::from_i8(v).unwrap();
            out.push(rk);
            v = v + 1;
        }
        out
    }

    pub fn predecessor(self) -> (r: Option<Rank>)
        ensures
            r == Self::spec_from_int(self.as_int() - 1),
            self.as_int() == 0 <==> r is None,
    {
        let v = self.to_i8();
        if v == 0 {
            None
        } else {
            Rank::from_i8(v - 1)
        }
    }

    pub fn successor(self) -> (r: Option<Rank>)
        ensures
            r == Self::spec_from_int(self.as_int() + 1),
            self.as_int() == 12 <==> r is None,
    {
        let v = self.to_i8();
        if v == 12 {
            None
        } else {
            Rank::from_i8(v + 1)
        }
    }
}

} // verus!
