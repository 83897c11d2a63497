//! A single card, coded as the index `suite * 16 + rank` into a 64-bit mask.

use vstd::prelude::*;

use crate::error::Error;
use crate::rank::Rank;
use crate::suite::Suite;
use vstd::string::StringExecFns;
use vstd::string::StringSliceAdditionalSpecFns;

verus! {

#[derive(Clone, Copy, Debug, Hash, PartialEq, Eq, Structural)]
pub struct Card(pub i8);

impl Card {
    pub const COUNT: usize = 52;

    /// A card index is valid when it lies in one of the four 13-rank lanes.
    pub open spec fn wf(self) -> bool {
        0 <= self.0 < 64 && (self.0 as int) % 16 < 13
    }

    pub open spec fn rank_int(self) -> int {
        (self.0 as int) % 16
    }

    pub open spec fn suite_int(self) -> int {
        (self.0 as int) / 16
    }

    pub open spec fn spec_of(rank: Rank, suite: Suite) -> Card {
        Card((16 * suite.as_int() + rank.as_int()) as i8)
    }

    pub fn of(rank: Rank, suite: Suite) -> (r: Card)
        ensures
            r == Self::spec_of(rank, suite),
            r.wf(),
            r.rank_int() == rank.as_int(),
            r.suite_int() == suite.as_int(),
    {
        Card(suite.to_index() + rank.to_i8())
    }

    pub fn from_index(index: i8) -> (r: Option<Card>)
        ensures
            r matches Some(c) ==> c == Card(index) && c.wf(),
            r is Some <==> (0 <= index < 64 && (index as int) % 16 < 13),
    {
        if index < 0 || index > 63 {
            None
        } else if index % 16 >= 13 {
            None
        } else {
            Some(Card(index))
        }
    }

    /// What parsing a two-character card token yields.
    pub open spec fn spec_parse(bytes: Seq<u8>) -> Result<Card, Error> {
        if bytes.len() != 2 {
            Err(Error::BadLength)
        } else {
            match Rank::spec_of_char(bytes[0]) {
                None => Err(Error::BadRankChar(bytes[0])),
                Some(rank) => match Suite::spec_of_char(bytes[1]) {
                    None => Err(Error::BadSuiteChar(bytes[1])),
                    Some(suite) => Ok(Self::spec_of(rank, suite)),
                },
            }
        }
    }

    pub fn from_str(s: &str) -> (r: Result<Card, Error>)
        ensures
            r == Self::spec_parse(s.spec_bytes()),
            r matches Ok(c) ==> c.wf(),
    {
        let bytes = s.as_bytes();
        if bytes.len() != 2 {
            return Err(Error::BadLength);
        }
        let rank = match Rank::from_ascii(bytes[0]) {
            Ok(rank) => rank,
            Err(e) => {
                return Err(e);
            },
        };
        let suite = match Suite::from_ascii(bytes[1]) {
            Ok(suite) => suite,
            Err(e) => {
                return Err(e);
            },
        };
        Ok(Card::of(rank, suite))
    }

    pub fn rank(self) -> (r: Rank)
        requires
            self.wf(),
        ensures
            r.as_int() == self.rank_int(),
    {
        Rank::from_i8(self.0 % 16).unwrap()
    }

    pub fn suite(self) -> (r: Suite)
        requires
            self.wf(),
        ensures
            r.as_int() == self.suite_int(),
    {
        Suite::from_i8(self.0 / 16).unwrap()
    }

    pub fn to_index(self) -> (r: i8)
        ensures
            r == self.0,
    {
        self.0
    }

    pub fn to_index_u64(self) -> (r: u64)
        requires
            self.wf(),
        ensures
            r == self.0,
    {
        self.0 as u64
    }

    pub fn to_usize(self) -> (r: usize)
        requires
            self.wf(),
        ensures
            r == self.0,
    {
        self.0 as usize
    }

    /// The two-byte token that names the card.
    pub open spec fn spec_token(self) -> Seq<u8> {
        seq![
            Rank::spec_from_int(self.rank_int()).unwrap().spec_char(),
            Suite::spec_from_int(self.suite_int()).unwrap().spec_char(),
        ]
    }

    /// The token as characters, as a `String` view shows them.
    pub open spec fn spec_token_chars(self) -> Seq<char> {
        seq![
            Rank::spec_from_int(self.rank_int()).unwrap().spec_char_c(),
            Suite::spec_from_int(self.suite_int()).unwrap().spec_char_c(),
        ]
    }

    /// Parsing a card's own token yields the card back, and a token that
    /// parses to a card is that card's token.
    pub proof fn lemma_token_round_trip(self, bytes: Seq<u8>)
        requires
            self.wf(),
        ensures
            Self::spec_parse(self.spec_token()) == Ok::<Card, Error>(self),
            Self::spec_parse(bytes) == Ok::<Card, Error>(self) ==> bytes =~= self.spec_token(),
    {
        let rank = Rank::spec_from_int(self.rank_int()).unwrap();
        let suite = Suite::spec_from_int(self.suite_int()).unwrap();
        rank.lemma_char_round_trip();
        suite.lemma_char_round_trip();
        assert(Self::spec_of(rank, suite) == self);
        if Self::spec_parse(bytes) == Ok::<Card, Error>(self) {
            let rank2 = Rank::spec_of_char(bytes[0]).unwrap();
            let suite2 = Suite::spec_of_char(bytes[1]).unwrap();
            assert(Self::spec_of(rank2, suite2) == self);
            assert(rank2 == rank && suite2 == suite);
        }
    }

    /// The two-character token that names the card.
    pub fn to_string(self) -> (r: String)
        requires
            self.wf(),
        ensures
            r@ =~= self.spec_token_chars(),
    {
        let rank = self.rank();
        let suite = self.suite();
        let mut out = rank_str(rank).to_owned();
        out.append(suite_str(suite));
        proof {
            assert(Rank::spec_from_int(rank.as_int()) == Some(rank));
            assert(Suite::spec_from_int(suite.as_int()) == Some(suite));
        }
        out
    }

    /// All 52 cards: suites in ascending order, ranks ascending inside a suite.
    pub fn all() -> (r: Vec<Card>)
        ensures
            r@.len() == 52,
            forall|i: int|
                0 <= i < 52 ==> (#[trigger] r@[i]) == Card((16 * (i / 13) + i % 13) as i8),
            forall|i: int| 0 <= i < 52 ==> (#[trigger] r@[i]).wf(),
    {
        let mut out: Vec<Card> = Vec::new();
        let mut s: i8 = 0;
        while s < 4
            invariant
                0 <= s <= 4,
                out@.len() == 13 * s,
                forall|i: int|
                    0 <= i < out@.len() ==> (#[trigger] out@[i]) == Card(
                        (16 * (i / 13) + i % 13) as i8,
                    ),
                forall|i: int| 0 <= i < out@.len() ==> (#[trigger] out@[i]).wf(),
            decreases 4 - s,
        {
            let mut v: i8 = 0;
            while v < 13
                invariant
                    0 <= s < 4,
                    0 <= v <= 13,
                    out@.len() == 13 * s + v,
                    forall|i: int|
                        0 <= i < out@.len() ==> (#[trigger] out@[i]) == Card(
                            (16 * (i / 13) + i % 13) as i8,
                        ),
                    forall|i: int| 0 <= i < out@.len() ==> (#[trigger] out@[i]).wf(),
                decreases 13 - v,
            {
                let c = Card(16 * s + v);
                proof {
                    let i = out@.len() as int;
                    assert(i == 13 * s + v);
                    assert(i / 13 == s && i % 13 == v && (16 * s + v) % 16 == v && (16 * s + v)
                        / 16 == s) by (nonlinear_arith)
                        requires
                            i == 13 * s + v,
                            0 <= v < 13,
                            0 <= s < 4,
                    ;
                    assert(c.wf());
                }
                out.push(c);
                v = v + 1;
            }
            s = s + 1;
        }
        out
    }

    /// Rank-first comparison, suite order only as a deterministic tie-break.
    /// Negative when `self` sorts below `other`, zero when equal, positive above.
    pub fn cmp_by_rank(self, other: Card) -> (r: i8)
        requires
            self.wf(),
            other.wf(),
        ensures
            r < 0 <==> (self.rank_int() < other.rank_int() || (self.rank_int()
                == other.rank_int() && self.suite_int() < other.suite_int())),
            r == 0 <==> (self.rank_int() == other.rank_int() && self.suite_int()
                == other.suite_int()),
    {
        let ra = self.0 % 16;
        let rb = other.0 % 16;
        if ra < rb {
            -1
        } else if ra > rb {
            1
        } else {
            let sa = self.0 / 16;
            let sb = other.0 / 16;
            if sa < sb {
                -1
            } else if sa > sb {
                1
            } else {
                0
            }
        }
    }
}

/// The rank's one-character name as a string slice.
fn rank_str(rank: Rank) -> (r: &'static str)
    ensures
        r@ =~= seq![rank.spec_char_c()],
{
    let out = match rank {
        Rank::Two => "2",
        Rank::Three => "3",
        Rank::Four => "4",
        Rank::Five => "5",
        Rank::Six => "6",
        Rank::Seven => "7",
        Rank::Eight => "8",
        Rank::Nine => "9",
        Rank::Ten => "T",
        Rank::Jack => "J",
        Rank::Queen => "Q",
        Rank::King => "K",
        Rank::Ace => "A",
    };
    proof {
        reveal_strlit("2");
        reveal_strlit("3");
        reveal_strlit("4");
        reveal_strlit("5");
        reveal_strlit("6");
        reveal_strlit("7");
        reveal_strlit("8");
        reveal_strlit("9");
        reveal_strlit("T");
        reveal_strlit("J");
        reveal_strlit("Q");
        reveal_strlit("K");
        reveal_strlit("A");
    }
    out
}

/// The suite's one-character name as a string slice.
fn suite_str(suite: Suite) -> (r: &'static str)
    ensures
        r@ =~= seq![suite.spec_char_c()],
{
    let out = match suite {
        Suite::Diamonds => "d",
        Suite::Spades => "s",
        Suite::Hearts => "h",
        Suite::Clubs => "c",
    };
    proof {
        reveal_strlit("d");
        reveal_strlit("s");
        reveal_strlit("h");
        reveal_strlit("c");
    }
    out
}

} // verus!
