//! Sets of cards as 64-bit masks, and sets of ranks as 13-bit masks.

use vstd::prelude::*;

use crate::bits::{
    bit16, bit64, lemma_bit64_and, lemma_bit64_diff, lemma_bit64_or, lemma_bit64_single,
    lemma_bit_val, lemma_pop64_add_bit, lemma_pop64_le64, lemma_pop64_sub_bit, lemma_pop64_zero,
    pop16, pop64,
};
use crate::card::Card;
use crate::error::Error;
use crate::rank::Rank;
use crate::suite::Suite;
use vstd::std_specs::bits::{
    axiom_u16_leading_zeros, axiom_u64_leading_zeros, u16_leading_zeros, u64_leading_zeros,
};
use vstd::string::StringSliceAdditionalSpecFns;

verus! {

/// A set of cards, one bit per card index.
#[derive(Clone, Copy, Debug, PartialEq, Eq, Structural)]
pub struct Cards(pub u64);

/// A set of ranks, one bit per rank.
#[derive(Clone, Copy, Debug, PartialEq, Eq, Structural)]
pub struct CardsByRank(pub u16);

/// Masks stay inside the four 13-rank lanes; the bit-vector prover needs the
/// literal value, so the named constants equal it.
pub proof fn lemma_wf_ops(a: u64, b: u64)
    by (bit_vector)
    requires
        a & 0x1fff_1fff_1fff_1fffu64 == a,
        b & 0x1fff_1fff_1fff_1fffu64 == b,
    ensures
        (a | b) & 0x1fff_1fff_1fff_1fffu64 == (a | b),
        (a & b) & 0x1fff_1fff_1fff_1fffu64 == (a & b),
        (a & !b) & 0x1fff_1fff_1fff_1fffu64 == (a & !b),
        ((!a) & 0x1fff_1fff_1fff_1fffu64) & 0x1fff_1fff_1fff_1fffu64 == ((!a)
            & 0x1fff_1fff_1fff_1fffu64),
        0u64 & 0x1fff_1fff_1fff_1fffu64 == 0u64,
{
}

/// Every bit of a well-formed mask is a valid card index.
pub proof fn lemma_wf_bit(m: u64, j: u64)
    by (bit_vector)
    requires
        m & 0x1fff_1fff_1fff_1fffu64 == m,
        j < 64,
        bit64(m, j),
    ensures
        j % 16 < 13,
{
}

/// A valid card's bit lies inside the full mask.
pub proof fn lemma_card_bit_wf(j: u64)
    by (bit_vector)
    requires
        j < 64,
        j % 16 < 13,
    ensures
        (1u64 << j) & 0x1fff_1fff_1fff_1fffu64 == (1u64 << j),
{
}

/// The mask constants, as the bit-vector prover sees them.
pub proof fn lemma_mask_constants()
    by (bit_vector)
    ensures
        0u64 & 0x1fff_1fff_1fff_1fffu64 == 0u64,
        0x1fff_1fff_1fff_1fffu64 & 0x1fff_1fff_1fff_1fffu64 == 0x1fff_1fff_1fff_1fffu64,
        0u16 & 0x1fffu16 == 0u16,
        0x100fu16 & 0x1fffu16 == 0x100fu16,
        0x2fu16 & 0x1fffu16 == 0x2fu16,
{
}

/// The empty rank mask has no bits.
pub proof fn lemma_bit16_zero()
    by (bit_vector)
    ensures
        forall|i: u16| i < 16 ==> !(#[trigger] crate::bits::bit16(0u16, i)),
{
}

/// Union is commutative and the empty mask its unit.
pub proof fn lemma_or_misc16(a: u16, b: u16, c: u16)
    by (bit_vector)
    ensures
        a | b == b | a,
        a | 0u16 == a,
        0u16 | a == a,
        a | (b | c) == (a | b) | c,
{
}

/// Union is commutative and the empty mask its unit.
pub proof fn lemma_or_misc64(a: u64, b: u64)
    by (bit_vector)
    ensures
        a | b == b | a,
        a | 0u64 == a,
        0u64 | a == a,
{
}

/// Testing a card's bit by masking agrees with `bit64`.
pub proof fn lemma_test_bit(m: u64, j: u64)
    by (bit_vector)
    requires
        j < 64,
    ensures
        ((m & (1u64 << j)) != 0) == bit64(m, j),
{
}

impl Cards {
    pub const MASK_SINGLE: u64 = 0x1fff;

    pub const MASK_FULL: u64 = 0x1fff_1fff_1fff_1fff;

    /// Only bits at valid card indices are set.
    pub open spec fn wf(self) -> bool {
        self.0 & Self::MASK_FULL == self.0
    }

    /// Whether the bit at index `j` is set.
    pub open spec fn spec_has_i(self, j: u64) -> bool {
        bit64(self.0, j)
    }

    /// Whether the card is in the set.
    pub open spec fn spec_has(self, c: Card) -> bool {
        bit64(self.0, c.0 as u64)
    }

    /// The number of cards in the set.
    pub open spec fn spec_count(self) -> nat {
        pop64(self.0)
    }

    pub fn empty() -> (r: Cards)
        ensures
            r.0 == 0,
            r.wf(),
            r.spec_count() == 0,
    {
        proof {
            lemma_mask_constants();
            assert(pop64(0) == 0);
        }
        Cards(0)
    }

    pub fn full() -> (r: Cards)
        ensures
            r.0 == Self::MASK_FULL,
            r.wf(),
    {
        proof {
            lemma_mask_constants();
        }
        Cards(Self::MASK_FULL)
    }

    /// The set of one card.
    pub fn single(card: Card) -> (r: Cards)
        requires
            card.wf(),
        ensures
            r.wf(),
            r.0 == 1u64 << (card.0 as u64),
            r.spec_has(card),
            forall|j: u64| j < 64 ==> r.spec_has_i(j) == (j == card.0 as u64),
            r.spec_count() == 1,
    {
        proof {
            lemma_card_bit_wf(card.0 as u64);
            lemma_bit64_single(card.0 as u64);
            crate::bits::lemma_pop64_single(card.0 as u64);
        }
        Cards(1u64 << card.to_index_u64())
    }

    pub fn has(self, card: Card) -> (r: bool)
        requires
            card.wf(),
        ensures
            r == self.spec_has(card),
    {
        proof {
            lemma_test_bit(self.0, card.0 as u64);
        }
        (self.0 & (1u64 << card.to_index_u64())) != 0
    }

    /// Adds the card unless it is already present; reports whether it was added.
    pub fn try_add(&mut self, card: Card) -> (r: bool)
        requires
            old(self).wf(),
            card.wf(),
        ensures
            r == !old(self).spec_has(card),
            final(self).wf(),
            r ==> final(self).0 == old(self).0 | (1u64 << card.0 as u64),
            !r ==> *final(self) == *old(self),
            final(self).spec_has(card),
            forall|j: u64|
                j < 64 ==> final(self).spec_has_i(j) == (old(self).spec_has_i(j) || (r && j
                    == card.0 as u64)),
            r ==> final(self).spec_count() == old(self).spec_count() + 1,
            !r ==> final(self).spec_count() == old(self).spec_count(),
    {
        if self.has(card) {
            false
        } else {
            let j = card.to_index_u64();
            proof {
                lemma_bit64_or(self.0, 1u64 << j);
                lemma_bit64_single(j);
                lemma_pop64_add_bit(self.0, j);
                lemma_card_bit_wf(j);
                lemma_wf_ops(self.0, 1u64 << j);
            }
            self.0 = self.0 | (1u64 << j);
            true
        }
    }

    /// Adds a card that must not be present yet.
    pub fn add(&mut self, card: Card)
        requires
            old(self).wf(),
            card.wf(),
            !old(self).spec_has(card),
        ensures
            final(self).wf(),
            final(self).0 == old(self).0 | (1u64 << card.0 as u64),
            final(self).spec_has(card),
            forall|j: u64|
                j < 64 ==> final(self).spec_has_i(j) == (old(self).spec_has_i(j) || j == card.0
                    as u64),
            final(self).spec_count() == old(self).spec_count() + 1,
    {
        let _added = self.try_add(card);
    }

    /// The set with one more card, which must not be present yet.
    pub fn with(self, card: Card) -> (r: Cards)
        requires
            self.wf(),
            card.wf(),
            !self.spec_has(card),
        ensures
            r.wf(),
            r.0 == self.0 | (1u64 << card.0 as u64),
            r.spec_has(card),
            forall|j: u64|
                j < 64 ==> r.spec_has_i(j) == (self.spec_has_i(j) || j == card.0 as u64),
            r.spec_count() == self.spec_count() + 1,
    {
        let mut out = self;
        out.add(card);
        out
    }

    /// Takes out a card that must be present.
    pub fn remove(&mut self, card: Card)
        requires
            old(self).wf(),
            card.wf(),
            old(self).spec_has(card),
        ensures
            final(self).wf(),
            final(self).0 == old(self).0 & !(1u64 << card.0 as u64),
            !final(self).spec_has(card),
            forall|j: u64|
                j < 64 ==> final(self).spec_has_i(j) == (old(self).spec_has_i(j) && j != card.0
                    as u64),
            final(self).spec_count() + 1 == old(self).spec_count(),
    {
        let j = card.to_index_u64();
        proof {
            lemma_bit64_diff(self.0, 1u64 << j);
            lemma_bit64_single(j);
            lemma_pop64_sub_bit(self.0, j);
            lemma_card_bit_wf(j);
            lemma_wf_ops(self.0, 1u64 << j);
        }
        self.0 = self.0 & !(1u64 << j);
    }

    pub fn count(self) -> (r: u8)
        ensures
            r == self.spec_count(),
    {
        proof {
            lemma_pop64_le64(self.0);
        }
        let mut m: u64 = self.0;
        let mut c: u8 = 0;
        while m != 0
            invariant
                c + pop64(m) == pop64(self.0),
                pop64(self.0) <= 64,
            decreases m,
        {
            c = c + (m % 2) as u8;
            m = m / 2;
        }
        c
    }

    /// Intersection.
    pub fn and(self, other: Cards) -> (r: Cards)
        requires
            self.wf(),
            other.wf(),
        ensures
            r.0 == self.0 & other.0,
            r.wf(),
            forall|j: u64| j < 64 ==> r.spec_has_i(j) == (self.spec_has_i(j) && other.spec_has_i(j)),
    {
        proof {
            lemma_wf_ops(self.0, other.0);
            lemma_bit64_and(self.0, other.0);
        }
        Cards(self.0 & other.0)
    }

    /// Union.
    pub fn or(self, other: Cards) -> (r: Cards)
        requires
            self.wf(),
            other.wf(),
        ensures
            r.0 == self.0 | other.0,
            r.wf(),
            forall|j: u64| j < 64 ==> r.spec_has_i(j) == (self.spec_has_i(j) || other.spec_has_i(j)),
    {
        proof {
            lemma_wf_ops(self.0, other.0);
            lemma_bit64_or(self.0, other.0);
        }
        Cards(self.0 | other.0)
    }

    /// Complement within the 52-card universe.
    pub fn complement(self) -> (r: Cards)
        requires
            self.wf(),
        ensures
            r.0 == (!self.0) & Self::MASK_FULL,
            r.wf(),
            forall|j: u64|
                j < 64 && j % 16 < 13 ==> r.spec_has_i(j) == !self.spec_has_i(j),
            forall|j: u64|
                j < 64 && !(j % 16 < 13) ==> !r.spec_has_i(j),
    {
        proof {
            lemma_wf_ops(self.0, self.0);
            lemma_complement_bits(self.0);
        }
        Cards((!self.0) & Self::MASK_FULL)
    }

    /// The set difference `self` minus `other`.
    pub fn minus(self, other: Cards) -> (r: Cards)
        requires
            self.wf(),
            other.wf(),
        ensures
            r.0 == self.0 & !other.0,
            r.wf(),
            forall|j: u64|
                j < 64 ==> r.spec_has_i(j) == (self.spec_has_i(j) && !other.spec_has_i(j)),
    {
        proof {
            lemma_wf_ops(self.0, other.0);
            lemma_bit64_diff(self.0, other.0);
        }
        Cards(self.0 & !other.0)
    }

    /// The index of the highest set bit, as `Card::from_index` reads it.
    pub open spec fn spec_top_index(m: u64) -> int {
        63 - u64_leading_zeros(m)
    }

    /// The highest card of the set, if the set is not empty.
    pub fn first(self) -> (r: Option<Card>)
        requires
            self.wf(),
        ensures
            self.0 == 0 ==> r is None,
            self.0 != 0 ==> (r matches Some(c) && c.wf() && c.0 == Self::spec_top_index(self.0)
                && self.spec_has(c) && (forall|j: u64|
                j < 64 && self.spec_has_i(j) ==> j <= c.0)),
    {
        proof {
            axiom_u64_leading_zeros(self.0);
            if self.0 != 0 {
                let top = (63 - u64_leading_zeros(self.0)) as u64;
                lemma_bit_val(self.0, top);
                assert(bit64(self.0, top));
                lemma_wf_bit(self.0, top);
                assert forall|j: u64| j < 64 && self.spec_has_i(j) implies j <= top by {
                    if j > top {
                        assert((self.0 >> j) & 1u64 == 0u64);
                    }
                }
            }
        }
        let lz = self.0.leading_zeros();
        if lz >= 64 {
            None
        } else {
            let index: i8 = (63 - lz) as i8;
            Card::from_index(index)
        }
    }

    /// What parsing a card-list token yields, two bytes per card, walking
    /// from the front with the cards seen so far in `acc`.
    pub open spec fn spec_parse_rec(bytes: Seq<u8>, acc: u64) -> Result<u64, Error>
        decreases bytes.len(),
    {
        if bytes.len() == 0 {
            Ok(acc)
        } else if bytes.len() == 1 {
            Err(Error::BadLength)
        } else {
            match Card::spec_parse(seq![bytes[0], bytes[1]]) {
                Err(e) => Err(e),
                Ok(c) => if bit64(acc, c.0 as u64) {
                    Err(Error::DuplicateCard(c))
                } else {
                    Self::spec_parse_rec(bytes.skip(2), acc | (1u64 << c.0 as u64))
                },
            }
        }
    }

    /// What parsing a card-list token yields.
    pub open spec fn spec_parse(bytes: Seq<u8>) -> Result<Cards, Error> {
        if bytes.len() % 2 != 0 {
            Err(Error::BadLength)
        } else {
            match Self::spec_parse_rec(bytes, 0) {
                Ok(m) => Ok(Cards(m)),
                Err(e) => Err(e),
            }
        }
    }

    pub fn from_str(s: &str) -> (r: Result<Cards, Error>)
        ensures
            r == Self::spec_parse(s.spec_bytes()),
            r matches Ok(c) ==> c.wf(),
    {
        let bytes = s.as_bytes();
        if bytes.len() % 2 != 0 {
            return Err(Error::BadLength);
        }
        let mut cards = Cards::empty();
        let mut i: usize = 0;
        proof {
            assert(bytes@.skip(0) =~= bytes@);
        }
        while i < bytes.len()
            invariant
                i % 2 == 0,
                i <= bytes@.len(),
                bytes@.len() % 2 == 0,
                bytes@ == s.spec_bytes(),
                cards.wf(),
                Self::spec_parse_rec(bytes@, 0) == Self::spec_parse_rec(
                    bytes@.skip(i as int),
                    cards.0,
                ),
            decreases bytes@.len() - i,
        {
            let b0 = bytes[i];
            let b1 = bytes[i + 1];
            proof {
                assert(bytes@.skip(i as int)[0] == b0);
                assert(bytes@.skip(i as int)[1] == b1);
                assert(bytes@.skip(i as int).skip(2) =~= bytes@.skip(i as int + 2));
            }
            let rank = match Rank::from_ascii(b0) {
                Ok(rank) => rank,
                Err(e) => {
                    return Err(e);
                },
            };
            let suite = match Suite::from_ascii(b1) {
                Ok(suite) => suite,
                Err(e) => {
                    return Err(e);
                },
            };
            let card = Card::of(rank, suite);
            proof {
                assert(Card::spec_parse(seq![b0, b1]) == Ok::<Card, Error>(card));
            }
            if !cards.try_add(card) {
                return Err(Error::DuplicateCard(card));
            }
            i = i + 2;
        }
        Ok(cards)
    }

    /// The set of the listed cards, if no card repeats; walks from the front
    /// with the cards seen so far in `acc`.
    pub open spec fn spec_from_slice_rec(cs: Seq<Card>, acc: u64) -> Option<u64>
        decreases cs.len(),
    {
        if cs.len() == 0 {
            Some(acc)
        } else if bit64(acc, cs[0].0 as u64) {
            None
        } else {
            Self::spec_from_slice_rec(cs.skip(1), acc | (1u64 << cs[0].0 as u64))
        }
    }

    /// The set of the listed cards, or nothing when a card repeats.
    pub open spec fn spec_from_slice(cs: Seq<Card>) -> Option<Cards> {
        match Self::spec_from_slice_rec(cs, 0) {
            Some(m) => Some(Cards(m)),
            None => None,
        }
    }

    pub fn from_slice(s: &[Card]) -> (r: Option<Cards>)
        requires
            forall|i: int| 0 <= i < s@.len() ==> (#[trigger] s@[i]).wf(),
        ensures
            r == Self::spec_from_slice(s@),
            r matches Some(c) ==> c.wf(),
    {
        let mut cards = Cards::empty();
        let mut i: usize = 0;
        proof {
            assert(s@.skip(0) =~= s@);
        }
        while i < s.len()
            invariant
                i <= s@.len(),
                forall|k: int| 0 <= k < s@.len() ==> (#[trigger] s@[k]).wf(),
                cards.wf(),
                Self::spec_from_slice_rec(s@, 0) == Self::spec_from_slice_rec(
                    s@.skip(i as int),
                    cards.0,
                ),
            decreases s@.len() - i,
        {
            let card = s[i];
            proof {
                assert(s@.skip(i as int)[0] == card);
                assert(s@.skip(i as int).skip(1) =~= s@.skip(i as int + 1));
            }
            if !cards.try_add(card) {
                return None;
            }
            i = i + 1;
        }
        Some(cards)
    }

    /// Yields the cards in descending index order.
    pub fn iter(self) -> (r: CardsIter)
        requires
            self.wf(),
        ensures
            r.0 == self,
    {
        CardsIter(self)
    }
}

/// Bits of the complement stay inside the universe.
pub proof fn lemma_complement_bits(m: u64)
    by (bit_vector)
    ensures
        forall|j: u64|
            j < 64 && j % 16 < 13 ==> #[trigger] bit64((!m) & 0x1fff_1fff_1fff_1fffu64, j)
                == !bit64(m, j),
        forall|j: u64|
            j < 64 && !(j % 16 < 13) ==> !(#[trigger] bit64((!m) & 0x1fff_1fff_1fff_1fffu64, j)),
{
}

// ---- 13-bit rank masks -----------------------------------------------------

pub proof fn lemma_bit16_or(a: u16, b: u16)
    by (bit_vector)
    ensures
        forall|i: u16| i < 16 ==> #[trigger] bit16(a | b, i) == (bit16(a, i) || bit16(b, i)),
{
}

pub proof fn lemma_bit16_diff(a: u16, b: u16)
    by (bit_vector)
    ensures
        forall|i: u16| i < 16 ==> #[trigger] bit16(a & !b, i) == (bit16(a, i) && !bit16(b, i)),
{
}

pub proof fn lemma_bit16_single(j: u16)
    by (bit_vector)
    requires
        j < 16,
    ensures
        forall|i: u16| i < 16 ==> #[trigger] bit16(1u16 << j, i) == (i == j),
{
}

pub proof fn lemma_test_bit16(m: u16, j: u16)
    by (bit_vector)
    requires
        j < 16,
    ensures
        ((m & (1u16 << j)) != 0) == bit16(m, j),
{
}

/// Rank masks stay inside the 13 rank bits.
pub proof fn lemma_wf16_ops(a: u16, b: u16)
    by (bit_vector)
    requires
        a & 0x1fffu16 == a,
        b & 0x1fffu16 == b,
    ensures
        (a | b) & 0x1fffu16 == (a | b),
        (a & b) & 0x1fffu16 == (a & b),
        (a & !b) & 0x1fffu16 == (a & !b),
        forall|i: u16| 13 <= i < 16 ==> !(#[trigger] bit16(a, i)),
{
}

pub proof fn lemma_pop16_add_bit(m: u16, j: u16)
    requires
        j < 16,
        !bit16(m, j),
    ensures
        pop16(m | (1u16 << j)) == pop16(m) + 1,
{
    assert((m | (1u16 << j)) as u64 == (m as u64) | (1u64 << (j as u64)) && !bit64(
        m as u64,
        j as u64,
    )) by (bit_vector)
        requires
            j < 16,
            !bit16(m, j),
    ;
    lemma_pop64_add_bit(m as u64, j as u64);
}

pub proof fn lemma_pop16_single(j: u16)
    requires
        j < 16,
    ensures
        pop16(1u16 << j) == 1,
{
    assert((1u16 << j) as u64 == 1u64 << (j as u64)) by (bit_vector)
        requires
            j < 16,
    ;
    crate::bits::lemma_pop64_single(j as u64);
}

/// The bits of a disjoint union of rank masks add up.
pub proof fn lemma_pop16_disjoint(a: u16, b: u16)
    requires
        a & b == 0,
    ensures
        pop16(a | b) == pop16(a) + pop16(b),
{
    assert((a | b) as u64 == (a as u64) | (b as u64) && (a as u64) & (b as u64) == 0)
        by (bit_vector)
        requires
            a & b == 0,
    ;
    crate::bits::lemma_pop64_disjoint(a as u64, b as u64);
}

/// A mask that misses bit `j` is disjoint from that bit.
pub proof fn lemma_single_disjoint16(b: u16, j: u16)
    by (bit_vector)
    requires
        j < 16,
        !bit16(b, j),
    ensures
        (1u16 << j) & b == 0,
{
}

pub proof fn lemma_pop16_sub_bit(m: u16, j: u16)
    requires
        j < 16,
        bit16(m, j),
    ensures
        pop16(m & !(1u16 << j)) + 1 == pop16(m),
{
    assert((m & !(1u16 << j)) as u64 == (m as u64) & !(1u64 << (j as u64)) && bit64(
        m as u64,
        j as u64,
    )) by (bit_vector)
        requires
            j < 16,
            bit16(m, j),
    ;
    lemma_pop64_sub_bit(m as u64, j as u64);
}

impl CardsByRank {
    /// The mask that holds every rank.
    pub const MASK: u16 = 0x1fff;

    /// The wheel straight: Ace plus Five down to Two.
    pub const WHEEL: u16 = 0x100f;

    pub open spec fn wf(self) -> bool {
        self.0 & 0x1fff == self.0
    }

    pub open spec fn spec_has_i(self, r: u16) -> bool {
        bit16(self.0, r)
    }

    pub open spec fn spec_has(self, rank: Rank) -> bool {
        bit16(self.0, rank.as_int() as u16)
    }

    pub open spec fn spec_count(self) -> nat {
        pop16(self.0)
    }

    pub fn empty() -> (r: CardsByRank)
        ensures
            r.0 == 0,
            r.wf(),
    {
        proof {
            lemma_mask_constants();
        }
        CardsByRank(0)
    }

    pub fn has(self, rank: Rank) -> (r: bool)
        ensures
            r == self.spec_has(rank),
    {
        let j = rank.to_u16();
        proof {
            lemma_test_bit16(self.0, rank.as_int() as u16);
        }
        (self.0 & (1u16 << j)) != 0
    }

    pub fn try_add(&mut self, rank: Rank) -> (r: bool)
        requires
            old(self).wf(),
        ensures
            r == !old(self).spec_has(rank),
            final(self).wf(),
            r ==> final(self).0 == old(self).0 | (1u16 << rank.as_int() as u16),
            !r ==> *final(self) == *old(self),
            final(self).spec_has(rank),
            forall|i: u16|
                i < 16 ==> final(self).spec_has_i(i) == (old(self).spec_has_i(i) || (r && i
                    == rank.as_int() as u16)),
            r ==> final(self).spec_count() == old(self).spec_count() + 1,
            !r ==> final(self).spec_count() == old(self).spec_count(),
    {
        if self.has(rank) {
            false
        } else {
            let j = rank.to_u16();
            proof {
                let ji = rank.as_int() as u16;
                lemma_bit16_or(self.0, 1u16 << ji);
                lemma_bit16_single(ji);
                lemma_pop16_add_bit(self.0, ji);
                lemma_rank_bit_wf(ji);
                lemma_wf16_ops(self.0, 1u16 << ji);
            }
            self.0 = self.0 | (1u16 << j);
            true
        }
    }

    pub fn add(&mut self, rank: Rank)
        requires
            old(self).wf(),
            !old(self).spec_has(rank),
        ensures
            final(self).wf(),
            final(self).0 == old(self).0 | (1u16 << rank.as_int() as u16),
            final(self).spec_has(rank),
            forall|i: u16|
                i < 16 ==> final(self).spec_has_i(i) == (old(self).spec_has_i(i) || i == rank.as_int()
                    as u16),
            final(self).spec_count() == old(self).spec_count() + 1,
    {
        let _added = self.try_add(rank);
    }

    pub fn remove(&mut self, rank: Rank)
        requires
            old(self).wf(),
            old(self).spec_has(rank),
        ensures
            final(self).wf(),
            final(self).0 == old(self).0 & !(1u16 << rank.as_int() as u16),
            !final(self).spec_has(rank),
            forall|i: u16|
                i < 16 ==> final(self).spec_has_i(i) == (old(self).spec_has_i(i) && i != rank.as_int()
                    as u16),
            final(self).spec_count() + 1 == old(self).spec_count(),
    {
        let j = rank.to_u16();
        proof {
            let ji = rank.as_int() as u16;
            lemma_bit16_diff(self.0, 1u16 << ji);
            lemma_bit16_single(ji);
            lemma_pop16_sub_bit(self.0, ji);
            lemma_rank_bit_wf(ji);
            lemma_wf16_ops(self.0, 1u16 << ji);
        }
        self.0 = self.0 & !(1u16 << j);
    }

    /// The mask without the given rank, which must be present.
    pub fn without(self, rank: Rank) -> (r: CardsByRank)
        requires
            self.wf(),
            self.spec_has(rank),
        ensures
            r.wf(),
            r.0 == self.0 & !(1u16 << rank.as_int() as u16),
            !r.spec_has(rank),
            forall|i: u16|
                i < 16 ==> r.spec_has_i(i) == (self.spec_has_i(i) && i != rank.as_int() as u16),
            r.spec_count() + 1 == self.spec_count(),
    {
        let mut out = self;
        out.remove(rank);
        out
    }

    pub fn count(self) -> (r: i8)
        ensures
            r == self.spec_count(),
            0 <= r <= 16,
    {
        proof {
            vstd::arithmetic::power2::lemma2_to64();
            crate::bits::lemma_pop64_le(self.0 as u64, 16);
        }
        let mut m: u16 = self.0;
        let mut c: i8 = 0;
        while m != 0
            invariant
                c + pop64(m as u64) == pop16(self.0),
                pop16(self.0) <= 16,
                c <= 16,
            decreases m,
        {
            c = c + (m % 2) as i8;
            m = m / 2;
        }
        c
    }

    pub fn count_u8(self) -> (r: u8)
        ensures
            r == self.spec_count(),
    {
        self.count() as u8
    }

    /// Union.
    pub fn or(self, other: CardsByRank) -> (r: CardsByRank)
        requires
            self.wf(),
            other.wf(),
        ensures
            r.0 == self.0 | other.0,
            r.wf(),
            forall|i: u16| i < 16 ==> r.spec_has_i(i) == (self.spec_has_i(i) || other.spec_has_i(i)),
    {
        proof {
            lemma_wf16_ops(self.0, other.0);
            lemma_bit16_or(self.0, other.0);
        }
        CardsByRank(self.0 | other.0)
    }

    /// The mask that holds one rank.
    pub fn only(rank: Rank) -> (r: CardsByRank)
        ensures
            r.0 == (1u16 << (rank.as_int() as u16)),
            r.wf(),
            pop16(r.0) == 1,
            forall|i: u16| i < 16 ==> r.spec_has_i(i) == (i == rank.as_int()),
    {
        let j = rank.to_u16();
        proof {
            lemma_rank_bit_wf(j);
            lemma_bit16_single(j);
            lemma_pop16_single(j);
        }
        CardsByRank(1u16 << j)
    }

    /// The index of the highest set rank bit.
    pub open spec fn spec_high(m: u16) -> int {
        15 - u16_leading_zeros(m)
    }

    /// The highest rank of the mask, if the mask is not empty.
    pub fn highest_rank(self) -> (r: Option<Rank>)
        requires
            self.wf(),
        ensures
            self.0 == 0 ==> r is None,
            self.0 != 0 ==> (r matches Some(rk) && rk.as_int() == Self::spec_high(self.0)
                && self.spec_has(rk) && (forall|i: u16|
                i < 16 && self.spec_has_i(i) ==> i <= rk.as_int())),
    {
        proof {
            axiom_u16_leading_zeros(self.0);
            if self.0 != 0 {
                let top = (15 - u16_leading_zeros(self.0)) as u16;
                lemma_bit_val16(self.0, top);
                assert(bit16(self.0, top));
                lemma_rank_high_wf(self.0, top);
                assert forall|i: u16| i < 16 && self.spec_has_i(i) implies i <= top by {
                    if i > top {
                        assert((self.0 >> i) & 1u16 == 0u16);
                    }
                }
            }
        }
        let lz = self.0.leading_zeros();
        if lz >= 16 {
            None
        } else {
            Rank::from_i8((15 - lz) as i8)
        }
    }

    /// The mask of the `n` highest ranks of `m` (all of them when fewer).
    pub open spec fn spec_top_bits(m: u16, n: nat) -> u16
        decreases n,
    {
        if n == 0 || m == 0 {
            0
        } else {
            (1u16 << (Self::spec_high(m) as u16)) | Self::spec_top_bits(
                m & !(1u16 << (Self::spec_high(m) as u16)),
                (n - 1) as nat,
            )
        }
    }

    pub fn take_top_n(self, n: u8) -> (r: CardsByRank)
        requires
            self.wf(),
        ensures
            r.0 == Self::spec_top_bits(self.0, n as nat),
            r.wf(),
        decreases n,
    {
        if n == 0 || self.0 == 0 {
            let out = CardsByRank::empty();
            out
        } else {
            let top = self.highest_rank().unwrap();
            let rest = self.without(top);
            let mut out = rest.take_top_n(n - 1);
            proof {
                let ji = top.as_int() as u16;
                lemma_sub_preserves(self.0, rest.0, ji);
                if out.spec_has(top) {
                    lemma_top_bits_subset(rest.0, (n - 1) as nat);
                    assert(bit16(rest.0, ji));
                    assert(false);
                }
            }
            out.add(top);
            proof {
                assert(out.0 == (1u16 << (top.as_int() as u16)) | Self::spec_top_bits(
                    rest.0,
                    (n - 1) as nat,
                )) by {
                    lemma_or_misc16(
                        Self::spec_top_bits(rest.0, (n - 1) as nat),
                        1u16 << (top.as_int() as u16),
                        0,
                    );
                }
            }
            out
        }
    }

    /// Whether the mask holds the given five-rank window.
    pub open spec fn spec_window(s: int) -> u16 {
        0x1fu16 << (s as u16)
    }

    pub open spec fn contains16(m: u16, w: u16) -> bool {
        m & w == w
    }

    /// The highest five-in-a-row window held by `m`, looking at shifts `0..=s`.
    pub open spec fn spec_best_window(m: u16, s: int) -> Option<u16>
        decreases s + 1,
    {
        if s < 0 {
            None
        } else if Self::contains16(m, Self::spec_window(s)) {
            Some(Self::spec_window(s))
        } else {
            Self::spec_best_window(m, s - 1)
        }
    }

    /// The highest straight of the mask: the top five-in-a-row window, or the
    /// wheel when only Ace plus Five..Two is present.
    pub open spec fn spec_straight(m: u16) -> Option<u16> {
        match Self::spec_best_window(m, 8) {
            Some(w) => Some(w),
            None => if m & 0x100f == 0x100f {
                Some(0x100fu16)
            } else {
                None
            },
        }
    }

    pub fn straight(self) -> (r: Option<CardsByRank>)
        requires
            self.wf(),
        ensures
            match r {
                Some(w) => Some(w.0) == Self::spec_straight(self.0) && w.wf(),
                None => Self::spec_straight(self.0) is None,
            },
    {
        let mut best: Option<CardsByRank> = None;
        if self.0 & Self::WHEEL == Self::WHEEL {
            proof {
                lemma_mask_constants();
            }
            best = Some(CardsByRank(Self::WHEEL));
        }
        let mut shift: u16 = 0;
        while shift <= 8
            invariant
                self.wf(),
                shift <= 9,
                match Self::spec_best_window(self.0, shift - 1) {
                    Some(w) => best matches Some(b) && b.0 == w && b.wf(),
                    None => if self.0 & 0x100f == 0x100f {
                        best matches Some(b) && b.0 == 0x100f && b.wf()
                    } else {
                        best is None
                    },
                },
            decreases 9 - shift,
        {
            let window: u16 = 0x1fu16 << shift;
            if self.0 & window == window {
                proof {
                    lemma_window_wf(shift);
                }
                best = Some(CardsByRank(window));
            }
            shift = shift + 1;
        }
        best
    }
}

/// A rank index below 13 stays inside the rank mask.
pub proof fn lemma_rank_bit_wf(j: u16)
    by (bit_vector)
    requires
        j < 16,
    ensures
        j < 13 ==> (1u16 << j) & 0x1fffu16 == (1u16 << j),
{
}

/// The highest bit of a well-formed rank mask is a valid rank.
proof fn lemma_rank_high_wf(m: u16, j: u16)
    by (bit_vector)
    requires
        m & 0x1fffu16 == m,
        j < 16,
        bit16(m, j),
    ensures
        j < 13,
{
}

proof fn lemma_bit_val16(m: u16, j: u16)
    by (bit_vector)
    ensures
        (m >> j) & 1 == 0 || (m >> j) & 1 == 1,
{
}

/// Removing the top bit keeps the rest intact.
proof fn lemma_sub_preserves(m: u16, rest: u16, j: u16)
    by (bit_vector)
    requires
        j < 16,
        rest == m & !(1u16 << j),
    ensures
        rest & m == rest,
{
}

/// The top bits of a mask are a submask.
pub proof fn lemma_top_bits_subset(m: u16, n: nat)
    ensures
        forall|i: u16|
            i < 16 && #[trigger] bit16(CardsByRank::spec_top_bits(m, n), i) ==> bit16(m, i),
    decreases n,
{
    if n == 0 || m == 0 {
        lemma_bit16_zero();
    } else {
        let hi = CardsByRank::spec_high(m) as u16;
        axiom_u16_leading_zeros(m);
        lemma_bit_val16(m, hi);
        assert(hi < 16);
        let rest = m & !(1u16 << hi);
        lemma_top_bits_subset(rest, (n - 1) as nat);
        lemma_bit16_or(1u16 << hi, CardsByRank::spec_top_bits(rest, (n - 1) as nat));
        lemma_bit16_single(hi);
        lemma_bit16_diff(m, 1u16 << hi);
        assert(bit16(m, hi));
    }
}

proof fn lemma_window_wf(s: u16)
    by (bit_vector)
    requires
        s <= 8,
    ensures
        (0x1fu16 << s) & 0x1fffu16 == (0x1fu16 << s),
{
}

// ---- Bridges between card masks and rank masks ------------------------------

impl Cards {
    /// The four-lane collapse of a card mask: the ranks present in any suite.
    pub open spec fn spec_ranks(m: u64) -> u16 {
        ((m | (m >> 16) | (m >> 32) | (m >> 48)) & 0x1fff) as u16
    }

    /// One suite's lane as a rank mask.
    pub open spec fn spec_lane(m: u64, s: int) -> u16 {
        ((m >> ((16 * s) as u64)) & 0x1fff) as u16
    }

    /// The mask of the four cards of one rank.
    pub open spec fn spec_of_rank(rk: int) -> u64 {
        0x0001_0001_0001_0001u64 << (rk as u64)
    }

    /// The number of cards of one rank in the set.
    pub open spec fn spec_count_rank(m: u64, rk: int) -> nat {
        (if bit64(m, rk as u64) {
            1nat
        } else {
            0nat
        }) + (if bit64(m, (rk + 16) as u64) {
            1nat
        } else {
            0nat
        }) + (if bit64(m, (rk + 32) as u64) {
            1nat
        } else {
            0nat
        }) + (if bit64(m, (rk + 48) as u64) {
            1nat
        } else {
            0nat
        })
    }

    /// All ranks that occur in the set.
    pub fn by_rank(self) -> (r: CardsByRank)
        requires
            self.wf(),
        ensures
            r.0 == Self::spec_ranks(self.0),
            r.wf(),
    {
        proof {
            lemma_ranks_wf(self.0);
        }
        let n = self.0;
        CardsByRank(((n | (n >> 16) | (n >> 32) | (n >> 48)) & Self::MASK_SINGLE) as u16)
    }

    /// One suite's ranks.
    pub fn suite_lane(self, suite: Suite) -> (r: CardsByRank)
        requires
            self.wf(),
        ensures
            r.0 == Self::spec_lane(self.0, suite.as_int()),
            r.wf(),
    {
        proof {
            lemma_lane_wf(self.0, suite.as_int() as u64);
        }
        let sh = suite.to_index_u64();
        CardsByRank(((self.0 >> sh) & Self::MASK_SINGLE) as u16)
    }

    /// All four cards of the given rank.
    pub fn of_rank(rank: Rank) -> (r: Cards)
        ensures
            r.0 == Self::spec_of_rank(rank.as_int()),
            r.wf(),
            forall|j: u64|
                j < 64 ==> r.spec_has_i(j) == (j % 16 == rank.as_int()),
    {
        proof {
            lemma_of_rank_bits(rank.as_int() as u64);
        }
        Cards(0x0001_0001_0001_0001u64 << rank.to_u8() as u64)
    }

    /// The set without every card of the given rank.
    pub fn without_rank(self, rank: Rank) -> (r: Cards)
        requires
            self.wf(),
        ensures
            r.wf(),
            r.0 == self.0 & !Self::spec_of_rank(rank.as_int()),
            forall|j: u64|
                j < 64 ==> r.spec_has_i(j) == (self.spec_has_i(j) && j % 16 != rank.as_int()),
    {
        let mask = Self::of_rank(rank);
        let r = self.minus(mask);
        proof {
            assert forall|j: u64| j < 64 implies r.spec_has_i(j) == (self.spec_has_i(j) && j % 16
                != rank.as_int()) by {}
        }
        r
    }

    /// The `n` highest cards of the set (all of them when fewer).
    pub open spec fn spec_take(m: u64, n: nat) -> u64
        decreases n,
    {
        if n == 0 || m == 0 {
            0
        } else {
            (1u64 << (Self::spec_top_index(m) as u64)) | Self::spec_take(
                m & !(1u64 << (Self::spec_top_index(m) as u64)),
                (n - 1) as nat,
            )
        }
    }

    pub fn take_n(self, n: u8) -> (r: Cards)
        requires
            self.wf(),
        ensures
            r.0 == Self::spec_take(self.0, n as nat),
            r.wf(),
        decreases n,
    {
        if n == 0 || self.0 == 0 {
            Cards::empty()
        } else {
            let top = self.first().unwrap();
            let mut rest = self;
            rest.remove(top);
            let mut out = rest.take_n(n - 1);
            proof {
                let ji = top.0 as u64;
                if out.spec_has(top) {
                    lemma_take_subset(rest.0, (n - 1) as nat);
                    assert(bit64(rest.0, ji));
                    assert(false);
                }
            }
            out.add(top);
            proof {
                lemma_or_misc64(Self::spec_take(rest.0, (n - 1) as nat), 1u64 << (top.0 as u64));
            }
            out
        }
    }

    /// The per-rank counts as a sequence.
    pub open spec fn spec_counts_of(m: u64) -> Seq<u8> {
        Seq::new(13, |rk: int| Self::spec_count_rank(m, rk) as u8)
    }

    /// How many cards of each rank the set holds.
    pub fn counts(self) -> (r: [u8; 13])
        requires
            self.wf(),
        ensures
            forall|rk: int| 0 <= rk < 13 ==> r@[rk] == Self::spec_count_rank(self.0, rk),
            r@ =~= Self::spec_counts_of(self.0),
    {
        let mut out: [u8; 13] = [0; 13];
        let mut rk: u8 = 0;
        while rk < 13
            invariant
                rk <= 13,
                forall|i: int| 0 <= i < rk ==> out@[i] == Self::spec_count_rank(self.0, i),
            decreases 13 - rk,
        {
            let j = rk as u64;
            proof {
                lemma_bit_val(self.0, j);
                lemma_bit_val(self.0, (j + 16) as u64);
                lemma_bit_val(self.0, (j + 32) as u64);
                lemma_bit_val(self.0, (j + 48) as u64);
            }
            let b0 = ((self.0 >> j) & 1) as u8;
            let b1 = ((self.0 >> (j + 16)) & 1) as u8;
            let b2 = ((self.0 >> (j + 32)) & 1) as u8;
            let b3 = ((self.0 >> (j + 48)) & 1) as u8;
            let c: u8 = b0 + b1 + b2 + b3;
            out[rk as usize] = c;
            rk = rk + 1;
        }
        out
    }
}

/// The rank collapse keeps only valid rank bits, and reads as an or of lanes.
pub proof fn lemma_ranks_wf(m: u64)
    by (bit_vector)
    ensures
        Cards::spec_ranks(m) & 0x1fffu16 == Cards::spec_ranks(m),
        forall|r: u16|
            r < 13 ==> #[trigger] bit16(Cards::spec_ranks(m), r) == (bit64(m, r as u64) || bit64(
                m,
                (r + 16) as u64,
            ) || bit64(m, (r + 32) as u64) || bit64(m, (r + 48) as u64)),
{
}

/// A lane keeps only valid rank bits, and reads back into the card mask.
proof fn lemma_lane_wf(m: u64, s: u64)
    by (bit_vector)
    requires
        s < 4,
    ensures
        Cards::spec_lane(m, s as int) & 0x1fffu16 == Cards::spec_lane(m, s as int),
        forall|r: u16|
            r < 13 ==> #[trigger] bit16(Cards::spec_lane(m, s as int), r) == bit64(
                m,
                (16 * s + r) as u64,
            ),
{
}

/// The four-card mask of one rank: its bits, and its well-formedness.
proof fn lemma_of_rank_bits(rk: u64)
    by (bit_vector)
    requires
        rk < 13,
    ensures
        (0x0001_0001_0001_0001u64 << rk) & 0x1fff_1fff_1fff_1fffu64 == (0x0001_0001_0001_0001u64
            << rk),
        forall|j: u64|
            j < 64 ==> #[trigger] bit64(0x0001_0001_0001_0001u64 << rk, j) == (j % 16 == rk),
{
}

/// The top cards of a mask are a submask.
pub proof fn lemma_take_subset(m: u64, n: nat)
    ensures
        forall|j: u64| j < 64 && #[trigger] bit64(Cards::spec_take(m, n), j) ==> bit64(m, j),
    decreases n,
{
    if n == 0 || m == 0 {
        crate::bits::lemma_bit64_zero();
    } else {
        let hi = Cards::spec_top_index(m) as u64;
        axiom_u64_leading_zeros(m);
        lemma_bit_val(m, hi);
        let rest = m & !(1u64 << hi);
        lemma_take_subset(rest, (n - 1) as nat);
        lemma_bit64_or(1u64 << hi, Cards::spec_take(rest, (n - 1) as nat));
        lemma_bit64_single(hi);
        lemma_bit64_diff(m, 1u64 << hi);
        assert(bit64(m, hi));
    }
}

/// Shifting sixteen places up keeps the number of set bits, low bits permitting.
proof fn lemma_pop64_shl16(y: u64)
    requires
        y < 0x1_0000_0000_0000,
    ensures
        pop64((y * 0x10000) as u64) == pop64(y),
{
    let y1 = (y * 2) as u64;
    let y2 = (y1 * 2) as u64;
    let y3 = (y2 * 2) as u64;
    let y4 = (y3 * 2) as u64;
    let y5 = (y4 * 2) as u64;
    let y6 = (y5 * 2) as u64;
    let y7 = (y6 * 2) as u64;
    let y8 = (y7 * 2) as u64;
    let y9 = (y8 * 2) as u64;
    let y10 = (y9 * 2) as u64;
    let y11 = (y10 * 2) as u64;
    let y12 = (y11 * 2) as u64;
    let y13 = (y12 * 2) as u64;
    let y14 = (y13 * 2) as u64;
    let y15 = (y14 * 2) as u64;
    lemma_pop64_double_here(y);
    lemma_pop64_double_here(y1);
    lemma_pop64_double_here(y2);
    lemma_pop64_double_here(y3);
    lemma_pop64_double_here(y4);
    lemma_pop64_double_here(y5);
    lemma_pop64_double_here(y6);
    lemma_pop64_double_here(y7);
    lemma_pop64_double_here(y8);
    lemma_pop64_double_here(y9);
    lemma_pop64_double_here(y10);
    lemma_pop64_double_here(y11);
    lemma_pop64_double_here(y12);
    lemma_pop64_double_here(y13);
    lemma_pop64_double_here(y14);
    lemma_pop64_double_here(y15);
}

proof fn lemma_pop64_double_here(m: u64)
    requires
        m < 0x8000_0000_0000_0000,
    ensures
        pop64((2 * m) as u64) == pop64(m),
{
    if m != 0 {
        assert(((2 * m) as u64) % 2 == 0 && ((2 * m) as u64) / 2 == m);
    }
}

/// The full deck holds 52 cards.
pub proof fn lemma_pop64_mask_full()
    ensures
        pop64(0x1fff_1fff_1fff_1fffu64) == 52,
{
    assert(pop64(0x0u64) == 0);
    assert(pop64(0x1u64) == 1);
    assert(pop64(0x3u64) == 2);
    assert(pop64(0x7u64) == 3);
    assert(pop64(0xfu64) == 4);
    assert(pop64(0x1fu64) == 5);
    assert(pop64(0x3fu64) == 6);
    assert(pop64(0x7fu64) == 7);
    assert(pop64(0xffu64) == 8);
    assert(pop64(0x1ffu64) == 9);
    assert(pop64(0x3ffu64) == 10);
    assert(pop64(0x7ffu64) == 11);
    assert(pop64(0xfffu64) == 12);
    assert(pop64(0x1fffu64) == 13);
    lemma_pop64_shl16(0x1fff);
    lemma_pop64_shl16(0x1fff_0000);
    lemma_pop64_shl16(0x1fff_0000_0000);
    assert(0x1fffu64 * 0x10000 == 0x1fff_0000u64 && 0x1fff_0000u64 * 0x10000
        == 0x1fff_0000_0000u64 && 0x1fff_0000_0000u64 * 0x10000 == 0x1fff_0000_0000_0000u64);
    assert(0x1fff_1fffu64 == 0x1fff_0000u64 | 0x1fffu64 && 0x1fff_0000u64 & 0x1fffu64 == 0
        && 0x1fff_1fff_1fffu64 == 0x1fff_0000_0000u64 | 0x1fff_1fffu64 && 0x1fff_0000_0000u64
        & 0x1fff_1fffu64 == 0 && 0x1fff_1fff_1fff_1fffu64 == 0x1fff_0000_0000_0000u64
        | 0x1fff_1fff_1fffu64 && 0x1fff_0000_0000_0000u64 & 0x1fff_1fff_1fffu64 == 0)
        by (bit_vector);
    crate::bits::lemma_pop64_disjoint(0x1fff_0000u64, 0x1fffu64);
    crate::bits::lemma_pop64_disjoint(0x1fff_0000_0000u64, 0x1fff_1fffu64);
    crate::bits::lemma_pop64_disjoint(0x1fff_0000_0000_0000u64, 0x1fff_1fff_1fffu64);
}

/// A set and its complement split the 52 cards between them.
pub proof fn lemma_pop64_complement(m: u64)
    requires
        m & 0x1fff_1fff_1fff_1fffu64 == m,
    ensures
        pop64((!m) & 0x1fff_1fff_1fff_1fffu64) + pop64(m) == 52,
{
    assert(m & ((!m) & 0x1fff_1fff_1fff_1fffu64) == 0 && (m | ((!m)
        & 0x1fff_1fff_1fff_1fffu64)) == 0x1fff_1fff_1fff_1fffu64) by (bit_vector)
        requires
            m & 0x1fff_1fff_1fff_1fffu64 == m,
    ;
    crate::bits::lemma_pop64_disjoint(m, (!m) & 0x1fff_1fff_1fff_1fffu64);
    lemma_pop64_mask_full();
}

/// Walks a card set from its highest card down.
pub struct CardsIter(pub Cards);

impl CardsIter {
    pub fn next(&mut self) -> (r: Option<Card>)
        requires
            old(self).0.wf(),
        ensures
            final(self).0.wf(),
            old(self).0.0 == 0 ==> r is None && *final(self) == *old(self),
            old(self).0.0 != 0 ==> (r matches Some(c) && c.wf() && c.0 == Cards::spec_top_index(
                old(self).0.0,
            ) && old(self).0.spec_has(c) && (
            forall|j: u64| j < 64 && old(self).0.spec_has_i(j) ==> j <= c.0) && final(self).0.0
                == old(self).0.0 & !(1u64 << c.0 as u64) && final(self).0.spec_count() + 1 == old(
                self,
            ).0.spec_count() && (forall|j: u64|
                j < 64 ==> final(self).0.spec_has_i(j) == (old(self).0.spec_has_i(j) && j != c.0
                    as u64))),
    {
        match self.0.first() {
            Some(card) => {
                self.0.remove(card);
                Some(card)
            },
            None => None,
        }
    }
}

} // verus!
