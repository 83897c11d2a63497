//! A player's two private cards, kept in rank-then-suite descending order.

use vstd::prelude::*;

use crate::card::Card;
use crate::cards::Cards;
use crate::error::Error;
use vstd::string::StringSliceAdditionalSpecFns;

verus! {

#[derive(Clone, Copy, Debug, Hash, PartialEq, Eq, Structural)]
pub struct Hand(pub Card, pub Card);

impl Hand {
    /// Card `a` sorts above card `b`: higher rank, or same rank and higher suite.
    pub open spec fn spec_above(a: Card, b: Card) -> bool {
        a.rank_int() > b.rank_int() || (a.rank_int() == b.rank_int() && a.suite_int()
            > b.suite_int())
    }

    pub open spec fn wf(self) -> bool {
        self.0.wf() && self.1.wf() && Self::spec_above(self.0, self.1)
    }

    /// Orders two distinct cards into a hand.
    pub fn of_two_cards(a: Card, b: Card) -> (r: Hand)
        requires
            a.wf(),
            b.wf(),
            a != b,
        ensures
            r.wf(),
            (r.0 == a && r.1 == b) || (r.0 == b && r.1 == a),
    {
        proof {
            assert(a.0 == 16 * a.suite_int() + a.rank_int());
            assert(b.0 == 16 * b.suite_int() + b.rank_int());
        }
        let c = a.cmp_by_rank(b);
        if c < 0 {
            Hand(b, a)
        } else {
            Hand(a, b)
        }
    }

    /// The higher card.
    pub fn high(self) -> (r: Card)
        ensures
            r == self.0,
    {
        self.0
    }

    /// The lower card.
    pub fn low(self) -> (r: Card)
        ensures
            r == self.1,
    {
        self.1
    }

    pub open spec fn spec_suited(self) -> bool {
        self.0.suite_int() == self.1.suite_int()
    }

    pub fn suited(self) -> (r: bool)
        requires
            self.wf(),
        ensures
            r == self.spec_suited(),
    {
        self.high().suite() == self.low().suite()
    }

    pub fn to_card_array(self) -> (r: [Card; 2])
        ensures
            r@ =~= seq![self.0, self.1],
    {
        [self.high(), self.low()]
    }

    /// The two cards as a mask.
    pub open spec fn spec_mask(self) -> Cards {
        Cards((1u64 << (self.0.0 as u64)) | (1u64 << (self.1.0 as u64)))
    }

    /// The two cards as a set.
    pub fn to_cards(self) -> (r: Cards)
        requires
            self.wf(),
        ensures
            r.wf(),
            r == self.spec_mask(),
            r.spec_count() == 2,
            r.spec_has(self.0),
            r.spec_has(self.1),
            forall|j: u64|
                j < 64 ==> r.spec_has_i(j) == (j == self.0.0 as u64 || j == self.1.0 as u64),
    {
        proof {
            crate::cards::lemma_or_misc64(1u64 << (self.0.0 as u64), 0u64);
        }
        proof {
            assert(self.0.0 == 16 * self.0.suite_int() + self.0.rank_int());
            assert(self.1.0 == 16 * self.1.suite_int() + self.1.rank_int());
            crate::bits::lemma_bit64_zero();
        }
        let c0 = Cards::empty();
        let c1 = c0.with(self.high());
        proof {
            assert(self.0.0 != self.1.0);
            assert(self.1.0 as u64 != self.0.0 as u64);
            assert(c1.spec_has_i(self.1.0 as u64) == (c0.spec_has_i(self.1.0 as u64) || self.1.0
                as u64 == self.0.0 as u64));
            assert(!c1.spec_has(self.1));
        }
        let c2 = c1.with(self.low());
        proof {
            assert(c2.spec_has_i(self.0.0 as u64));
        }
        c2
    }

    /// Rank-first comparison of two hands, suites only as a deterministic
    /// tie-break; negative when `self` sorts below `other`.
    pub fn cmp_by_rank(self, other: Hand) -> (r: i8)
        requires
            self.wf(),
            other.wf(),
        ensures
            r == 0 <==> self == other,
    {
        proof {
            assert(self.0.0 == 16 * self.0.suite_int() + self.0.rank_int());
            assert(self.1.0 == 16 * self.1.suite_int() + self.1.rank_int());
            assert(other.0.0 == 16 * other.0.suite_int() + other.0.rank_int());
            assert(other.1.0 == 16 * other.1.suite_int() + other.1.rank_int());
        }
        let hr = self.high().rank().to_i8() - other.high().rank().to_i8();
        if hr != 0 {
            return if hr < 0 {
                -1
            } else {
                1
            };
        }
        let lr = self.low().rank().to_i8() - other.low().rank().to_i8();
        if lr != 0 {
            return if lr < 0 {
                -1
            } else {
                1
            };
        }
        let hs = self.high().suite().to_i8() - other.high().suite().to_i8();
        if hs != 0 {
            return if hs < 0 {
                -1
            } else {
                1
            };
        }
        let ls = self.low().suite().to_i8() - other.low().suite().to_i8();
        if ls != 0 {
            return if ls < 0 {
                -1
            } else {
                1
            };
        }
        0
    }

    /// A coarse table index; two hands may share it.
    pub fn to_index(self) -> (r: usize)
        requires
            self.wf(),
        ensures
            r == self.0.0 * self.1.0,
    {
        let a = self.high().to_usize();
        let b = self.low().to_usize();
        proof {
            assert(a * b <= 63 * 63) by (nonlinear_arith)
                requires
                    a <= 63,
                    b <= 63,
            ;
        }
        a * b
    }

    /// What parsing a four-byte hand token yields.
    pub open spec fn spec_parse(bytes: Seq<u8>) -> Result<Hand, Error> {
        match Cards::spec_parse(bytes) {
            Err(e) => Err(e),
            Ok(cards) => if cards.spec_count() != 2 {
                Err(Error::BadHandSize(cards.spec_count() as u8))
            } else {
                Ok(cards.spec_to_hand().unwrap())
            },
        }
    }

    pub fn from_str(s: &str) -> (r: Result<Hand, Error>)
        ensures
            r == Self::spec_parse(s.spec_bytes()),
            r matches Ok(h) ==> h.wf(),
    {
        let cards = match Cards::from_str(s) {
            Ok(cards) => cards,
            Err(e) => {
                return Err(e);
            },
        };
        let n = cards.count();
        if n != 2 {
            return Err(Error::BadHandSize(n));
        }
        Ok(cards.to_hand().unwrap())
    }
}

impl Cards {
    /// The two cards of a two-card set, ordered into a hand.
    pub open spec fn spec_to_hand(self) -> Option<Hand> {
        if self.spec_count() == 2 {
            let i = Self::spec_top_index(self.0);
            let j = Self::spec_top_index(self.0 & !(1u64 << (i as u64)));
            let a = Card(i as i8);
            let b = Card(j as i8);
            Some(
                if Hand::spec_above(a, b) {
                    Hand(a, b)
                } else {
                    Hand(b, a)
                },
            )
        } else {
            None
        }
    }

    /// The set seen as a hand, when it holds exactly two cards.
    pub fn to_hand(self) -> (r: Option<Hand>)
        requires
            self.wf(),
        ensures
            r == self.spec_to_hand(),
            r matches Some(h) ==> h.wf() && self.spec_has(h.0) && self.spec_has(h.1) && h.0 != h.1,
    {
        let mut iter = self.iter();
        let a = match iter.next() {
            Some(a) => a,
            None => {
                proof {
                    crate::bits::lemma_pop64_zero(self.0);
                }
                return None;
            },
        };
        let ghost m1 = iter.0;
        let b = match iter.next() {
            Some(b) => b,
            None => {
                proof {
                    crate::bits::lemma_pop64_zero(self.0);
                    crate::bits::lemma_pop64_zero(iter.0.0);
                }
                return None;
            },
        };
        proof {
            assert(!m1.spec_has_i(a.0 as u64));
            assert(m1.spec_has_i(b.0 as u64));
        }
        if iter.0.count() != 0 {
            return None;
        }
        proof {
            crate::bits::lemma_pop64_zero(iter.0.0);
            assert(self.spec_count() == 2);
            assert(a.0 as u64 != b.0 as u64);
            assert(a.0 != b.0);
            assert(self.spec_has_i(b.0 as u64));
        }
        let h = Hand::of_two_cards(a, b);
        proof {
            assert(Card(a.0 as int as i8) == a);
            assert(Card(b.0 as int as i8) == b);
            if Hand::spec_above(a, b) {
                assert(!Hand::spec_above(b, a));
                assert(h == Hand(a, b));
            } else {
                assert(h == Hand(b, a));
            }
        }
        Some(h)
    }
}

} // verus!
