//! Hand classification and the totally ordered 32-bit hand score.
//!
//! A score packs the hand category and its decisive ranks into the top bits
//! and the remaining ranks, highest first, into four-bit groups below, so
//! that plain integer order agrees with poker order.  The one exception the
//! packing must handle itself is the wheel: the straight A-2-3-4-5 ranks
//! below 2-3-4-5-6, so its groups are written as if its top card were the
//! Five.

use vstd::prelude::*;

use crate::bits::{bit16, lemma_pop64_disjoint, lemma_pop64_single, pop16, pop64};
use crate::cards::{
    lemma_bit16_diff, lemma_bit16_or, lemma_bit16_single, lemma_pop16_add_bit, lemma_top_bits_subset,
    lemma_wf16_ops, Cards, CardsByRank,
};
use crate::card::Card;
use crate::rank::Rank;
use crate::suite::Suite;
use vstd::std_specs::bits::{axiom_u16_leading_zeros, u16_leading_zeros};

verus! {

/// The nine hand categories, with the ranks that define the category.
#[derive(Clone, Copy, Debug, PartialEq, Eq, Structural)]
pub enum HandRanking {
    HighCard,
    OnePair(Rank),
    TwoPair { first: Rank, second: Rank },
    ThreeOfAKind(Rank),
    Straight,
    Flush,
    FullHouse { trips: Rank, pair: Rank },
    FourOfAKind(Rank),
    StraightFlush,
    RoyalFlush,
}

impl HandRanking {
    /// The category and its defining ranks as one integer: the category in
    /// the top bits, defining ranks in four-bit groups below.
    pub open spec fn spec_u16(self) -> int {
        match self {
            HandRanking::HighCard => 0,
            HandRanking::OnePair(p) => 256 + p.as_int(),
            HandRanking::TwoPair { first, second } => 512 + 16 * first.as_int() + second.as_int(),
            HandRanking::ThreeOfAKind(t) => 768 + t.as_int(),
            HandRanking::Straight => 1024,
            HandRanking::Flush => 1280,
            HandRanking::FullHouse { trips, pair } => 1536 + 16 * trips.as_int() + pair.as_int(),
            HandRanking::FourOfAKind(q) => 1792 + q.as_int(),
            HandRanking::StraightFlush => 2048,
            HandRanking::RoyalFlush => 2304,
        }
    }

    pub fn to_u16(self) -> (r: u16)
        ensures
            r == self.spec_u16(),
            r < 2560,
    {
        match self {
            HandRanking::HighCard => 0,
            HandRanking::OnePair(p) => 256 + p.to_u16(),
            HandRanking::TwoPair { first, second } => 512 + 16 * first.to_u16() + second.to_u16(),
            HandRanking::ThreeOfAKind(t) => 768 + t.to_u16(),
            HandRanking::Straight => 1024,
            HandRanking::Flush => 1280,
            HandRanking::FullHouse { trips, pair } => 1536 + 16 * trips.to_u16() + pair.to_u16(),
            HandRanking::FourOfAKind(q) => 1792 + q.to_u16(),
            HandRanking::StraightFlush => 2048,
            HandRanking::RoyalFlush => 2304,
        }
    }
}

/// The weight of the four-bit group at position `pos` (0 is the lowest).
pub open spec fn spec_nib_base(pos: int) -> int {
    if pos <= 0 {
        1
    } else if pos == 1 {
        0x10
    } else if pos == 2 {
        0x100
    } else if pos == 3 {
        0x1000
    } else {
        0x10000
    }
}

fn nib_base(pos: u8) -> (r: u32)
    requires
        pos <= 4,
    ensures
        r == spec_nib_base(pos as int),
{
    if pos == 0 {
        1
    } else if pos == 1 {
        0x10
    } else if pos == 2 {
        0x100
    } else if pos == 3 {
        0x1000
    } else {
        0x10000
    }
}

/// The ranks of `m`, highest first, packed into four-bit groups from
/// position `pos` downward.
pub open spec fn spec_pack(m: u16, pos: int) -> int
    decreases pos + 1,
{
    if m == 0 || pos < 0 {
        0
    } else {
        CardsByRank::spec_high(m) * spec_nib_base(pos) + spec_pack(
            m & !(1u16 << (CardsByRank::spec_high(m) as u16)),
            pos - 1,
        )
    }
}

/// Packed groups stay below the next group's weight.
pub proof fn lemma_pack_bound(m: u16, pos: int)
    requires
        pos <= 4,
    ensures
        0 <= spec_pack(m, pos) < 16 * spec_nib_base(pos),
    decreases pos + 1,
{
    if m == 0 || pos < 0 {
    } else {
        let hi = CardsByRank::spec_high(m);
        axiom_u16_leading_zeros(m);
        assert(0 <= hi <= 15);
        lemma_pack_bound(m & !(1u16 << (hi as u16)), pos - 1);
    }
}

/// The four-bit groups of a score: the wheel is written with the Five on top.
pub open spec fn spec_nibbles(ranking: HandRanking, ranks: u16) -> int {
    if (ranking is Straight || ranking is StraightFlush) && ranks == 0x100f {
        0x32100
    } else {
        spec_pack(ranks, 4)
    }
}

/// The score of a classified hand.
pub open spec fn spec_encode(ranking: HandRanking, ranks: u16) -> int {
    ranking.spec_u16() * 0x100000 + spec_nibbles(ranking, ranks)
}

/// A totally ordered hand strength: a higher score wins the pot.
#[derive(Clone, Copy, Debug, PartialEq, Eq, PartialOrd, Ord, Structural)]
pub struct Score(pub u32);

impl Score {
    pub fn zero() -> (r: Score)
        ensures
            r.0 == 0,
    {
        Score(0)
    }
}

/// The best five-card hand of a larger set: its category and the ranks of
/// its five cards.
#[derive(Clone, Copy, Debug)]
pub struct Top5 {
    pub ranking: HandRanking,
    pub ranks: CardsByRank,
}

impl Top5 {
    pub open spec fn wf(self) -> bool {
        self.ranks.wf() && pop16(self.ranks.0) <= 5
    }

    /// The weakest poker hand: seven-high with no pair, flush or straight.
    pub fn worst() -> (r: Top5)
        ensures
            r.ranking is HighCard,
            r.ranks.0 == 0x2f,
            r.wf(),
    {
        proof {
            crate::cards::lemma_mask_constants();
            assert(0x2fu64 == 0x20u64 | 0xfu64 && 0x20u64 & 0xfu64 == 0 && 1u64 << 5 == 0x20u64)
                by (bit_vector);
            lemma_pop64_single(5);
            lemma_pop64_disjoint(0x20u64, 0xfu64);
            assert(pop64(0x0u64) == 0);
            assert(pop64(0x1u64) == 1);
            assert(pop64(0x3u64) == 2);
            assert(pop64(0x7u64) == 3);
            assert(pop64(0xfu64) == 4);
        }
        Top5 { ranking: HandRanking::HighCard, ranks: CardsByRank(0x2f) }
    }

    /// The packed score; integer order on scores is poker order.
    pub fn to_score(self) -> (r: Score)
        requires
            self.wf(),
        ensures
            r.0 == spec_encode(self.ranking, self.ranks.0),
    {
        let cat = self.ranking.to_u16();
        let is_straight = match self.ranking {
            HandRanking::Straight => true,
            HandRanking::StraightFlush => true,
            _ => false,
        };
        let nibbles: u32 = if is_straight && self.ranks.0 == 0x100f {
            0x32100
        } else {
            pack_ranks(self.ranks)
        };
        proof {
            lemma_pack_bound(self.ranks.0, 4);
        }
        Score((cat as u32) * 0x100000 + nibbles)
    }

    /// Rank-first comparison of two classified hands: negative when `self`
    /// loses to `villain`, zero when they split the pot.
    pub fn compare(self, villain: Top5) -> (r: i8)
        requires
            self.wf(),
            villain.wf(),
        ensures
            r < 0 <==> spec_encode(self.ranking, self.ranks.0) < spec_encode(
                villain.ranking,
                villain.ranks.0,
            ),
            r == 0 <==> spec_encode(self.ranking, self.ranks.0) == spec_encode(
                villain.ranking,
                villain.ranks.0,
            ),
    {
        let a = self.to_score();
        let b = villain.to_score();
        if a.0 < b.0 {
            -1
        } else if a.0 == b.0 {
            0
        } else {
            1
        }
    }
}

/// Packs the ranks of the mask, highest first, into four-bit groups from
/// position four downward.
fn pack_ranks(ranks: CardsByRank) -> (r: u32)
    requires
        ranks.wf(),
        pop16(ranks.0) <= 5,
    ensures
        r == spec_pack(ranks.0, 4),
{
    let mut rem = ranks;
    let mut pos: u8 = 4;
    let mut acc: u32 = 0;
    proof {
        lemma_pack_bound(ranks.0, 4);
    }
    loop
        invariant
            rem.wf(),
            pos <= 4,
            pop16(rem.0) <= pos + 1,
            acc + spec_pack(rem.0, pos as int) == spec_pack(ranks.0, 4),
            0 <= acc <= spec_pack(ranks.0, 4) < 0x100000,
        decreases pop16(rem.0),
    {
        let top = match rem.highest_rank() {
            Some(top) => top,
            None => {
                return acc;
            },
        };
        proof {
            lemma_pack_bound(rem.0 & !(1u16 << (top.as_int() as u16)), pos as int - 1);
            lemma_pack_bound(rem.0, pos as int);
            if pos == 0 {
                // a sixth rank cannot exist: the count bound forces rem empty here
                crate::bits::lemma_pop64_zero(rem.0 as u64);
                lemma_pop16_pos(rem.0, top.as_int() as u16);
            }
        }
        acc = acc + top.to_u32() * nib_base(pos);
        rem = rem.without(top);
        if pos == 0 {
            proof {
                crate::bits::lemma_pop64_zero(rem.0 as u64);
            }
            return acc;
        }
        pos = pos - 1;
    }
}

// ---- Classification ---------------------------------------------------------

/// The highest rank at or below `r` of which at least `n` cards are held.
pub open spec fn spec_best_n(c: Seq<u8>, n: u8, r: int) -> Option<int>
    decreases r + 1,
{
    if r < 0 {
        None
    } else if c[r] >= n {
        Some(r)
    } else {
        spec_best_n(c, n, r - 1)
    }
}

fn best_n(counts: &[u8; 13], n: u8) -> (r: Option<Rank>)
    ensures
        match r {
            Some(rk) => spec_best_n(counts@, n, 12) == Some(rk.as_int()) && counts@[rk.as_int()]
                >= n,
            None => spec_best_n(counts@, n, 12) is None,
        },
{
    let mut i: i8 = 12;
    loop
        invariant
            -1 <= i <= 12,
            spec_best_n(counts@, n, 12) == spec_best_n(counts@, n, i as int),
        decreases i + 1,
    {
        if i < 0 {
            return None;
        }
        if counts[i as usize] >= n {
            return Rank::from_i8(i);
        }
        i = i - 1;
    }
}

/// The mask of the ranks with a positive count, among ranks below `k`.
pub open spec fn spec_present_rec(c: Seq<u8>, k: int) -> u16
    decreases k,
{
    if k <= 0 {
        0
    } else {
        spec_present_rec(c, k - 1) | (if c[k - 1] > 0 {
            1u16 << ((k - 1) as u16)
        } else {
            0u16
        })
    }
}

/// The mask of the ranks with a positive count.
pub open spec fn spec_present(c: Seq<u8>) -> u16 {
    spec_present_rec(c, 13)
}

pub proof fn lemma_present_bits(c: Seq<u8>, k: int)
    requires
        k <= 13,
    ensures
        spec_present_rec(c, k) & 0x1fff == spec_present_rec(c, k),
        forall|i: u16|
            i < 16 ==> (#[trigger] bit16(spec_present_rec(c, k), i) <==> (i < k && c[i as int]
                > 0)),
    decreases k,
{
    if k <= 0 {
        crate::cards::lemma_bit16_zero();
        crate::cards::lemma_mask_constants();
    } else {
        lemma_present_bits(c, k - 1);
        let prev = spec_present_rec(c, k - 1);
        let bit = if c[k - 1] > 0 {
            1u16 << ((k - 1) as u16)
        } else {
            0u16
        };
        lemma_bit16_or(prev, bit);
        lemma_bit16_single((k - 1) as u16);
        crate::cards::lemma_bit16_zero();
        crate::cards::lemma_rank_bit_wf((k - 1) as u16);
        crate::cards::lemma_or_misc16(prev, 0, 0);
        crate::cards::lemma_mask_constants();
        lemma_wf16_ops(prev, bit);
    }
}

fn present_of_counts(counts: &[u8; 13]) -> (r: CardsByRank)
    ensures
        r.0 == spec_present(counts@),
        r.wf(),
        forall|i: u16| i < 16 ==> (r.spec_has_i(i) <==> (i < 13 && counts@[i as int] > 0)),
{
    let mut mask = CardsByRank::empty();
    let mut k: u8 = 0;
    while k < 13
        invariant
            mask.0 == spec_present_rec(counts@, k as int),
            mask.wf(),
            k <= 13,
        decreases 13 - k,
    {
        proof {
            lemma_present_bits(counts@, k as int);
        }
        if counts[k as usize] > 0 {
            let rk = Rank::from_i8(k as i8).unwrap();
            mask.add(rk);
        } else {
            proof {
                crate::cards::lemma_or_misc16(mask.0, 0, 0);
            }
        }
        k = k + 1;
    }
    proof {
        lemma_present_bits(counts@, 13);
    }
    mask
}

/// The straight, trips, pair and high-card tail of the classification, over
/// the per-rank counts and the mask `p` of present ranks.
pub open spec fn spec_rest(c: Seq<u8>, p: u16) -> (HandRanking, u16) {
    match CardsByRank::spec_straight(p) {
        Some(w) => (HandRanking::Straight, w),
        None => match spec_best_n(c, 3, 12) {
            Some(t) => (
                HandRanking::ThreeOfAKind(Rank::spec_from_int(t).unwrap()),
                (1u16 << (t as u16)) | CardsByRank::spec_top_bits(p & !(1u16 << (t as u16)), 2),
            ),
            None => match spec_best_n(c, 2, 12) {
                Some(p1) => match spec_best_n(c.update(p1, 0u8), 2, 12) {
                    Some(p2) => (
                        HandRanking::TwoPair {
                            first: Rank::spec_from_int(p1).unwrap(),
                            second: Rank::spec_from_int(p2).unwrap(),
                        },
                        (1u16 << (p1 as u16)) | (1u16 << (p2 as u16))
                            | CardsByRank::spec_top_bits(
                            p & !(1u16 << (p1 as u16)) & !(1u16 << (p2 as u16)),
                            1,
                        ),
                    ),
                    None => (
                        HandRanking::OnePair(Rank::spec_from_int(p1).unwrap()),
                        (1u16 << (p1 as u16)) | CardsByRank::spec_top_bits(
                            p & !(1u16 << (p1 as u16)),
                            3,
                        ),
                    ),
                },
                None => (HandRanking::HighCard, CardsByRank::spec_top_bits(p, 5)),
            },
        },
    }
}

/// The full classification over counts alone, flushes set aside.
pub open spec fn spec_nonflush(c: Seq<u8>) -> (HandRanking, u16) {
    let p = spec_present(c);
    match spec_best_n(c, 4, 12) {
        Some(q) => (
            HandRanking::FourOfAKind(Rank::spec_from_int(q).unwrap()),
            (1u16 << (q as u16)) | CardsByRank::spec_top_bits(p & !(1u16 << (q as u16)), 1),
        ),
        None => match spec_best_n(c, 3, 12) {
            Some(t) => match spec_best_n(c.update(t, 0u8), 2, 12) {
                Some(pp) => (
                    HandRanking::FullHouse {
                        trips: Rank::spec_from_int(t).unwrap(),
                        pair: Rank::spec_from_int(pp).unwrap(),
                    },
                    (1u16 << (t as u16)) | (1u16 << (pp as u16)),
                ),
                None => spec_rest(c, p),
            },
            None => spec_rest(c, p),
        },
    }
}

/// At most `n` ranks are taken.
pub proof fn lemma_top_bits_pop(m: u16, n: nat)
    ensures
        pop16(CardsByRank::spec_top_bits(m, n)) <= n,
    decreases n,
{
    if n == 0 || m == 0 {
        crate::bits::lemma_pop64_zero(0);
    } else {
        let hi = CardsByRank::spec_high(m) as u16;
        axiom_u16_leading_zeros(m);
        let rest = m & !(1u16 << hi);
        lemma_top_bits_pop(rest, (n - 1) as nat);
        lemma_top_bits_subset(rest, (n - 1) as nat);
        let tb = CardsByRank::spec_top_bits(rest, (n - 1) as nat);
        crate::cards::lemma_bit16_diff(m, 1u16 << hi);
        crate::cards::lemma_bit16_single(hi);
        assert(!bit16(tb, hi));
        crate::cards::lemma_single_disjoint16(tb, hi);
        crate::cards::lemma_pop16_disjoint(1u16 << hi, tb);
        crate::cards::lemma_pop16_single(hi);
    }
}

/// Classifies from per-rank counts alone: no flush can be seen from counts.
fn nonflush_eval(counts: &[u8; 13]) -> (r: (HandRanking, CardsByRank))
    ensures
        (r.0, r.1.0) == spec_nonflush(counts@),
        r.1.wf(),
        pop16(r.1.0) <= 5,
{
    let present = present_of_counts(counts);
    if let Some(q) = best_n(counts, 4) {
        proof {
            assert(present.spec_has_i(q.as_int() as u16));
        }
        let kick = present.without(q).take_top_n(1);
        let lead = CardsByRank::only(q);
        proof {
            lemma_rank_sel_pop(present.0, q.as_int() as u16, 1);
        }
        let ranks = lead.or(kick);
        return (HandRanking::FourOfAKind(q), ranks);
    }
    if let Some(t) = best_n(counts, 3) {
        let mut c2 = *counts;
        c2[t.to_usize()] = 0;
        proof {
            assert(c2@ =~= counts@.update(t.as_int(), 0u8));
        }
        if let Some(pp) = best_n(&c2, 2) {
            let lead = CardsByRank::only(t);
            let second = CardsByRank::only(pp);
            proof {
                assert(pp.as_int() != t.as_int());
                assert(!second.spec_has_i(t.as_int() as u16));
                crate::cards::lemma_single_disjoint16(second.0, t.as_int() as u16);
                crate::cards::lemma_pop16_disjoint(lead.0, second.0);
            }
            let ranks = lead.or(second);
            return (HandRanking::FullHouse { trips: t, pair: pp }, ranks);
        }
    }
    rest_eval(counts, present)
}

/// The pair-or-less tail shared by the counts path and the card-set path.
/// `present` must be the mask of the ranks with a positive count.
fn rest_eval(counts: &[u8; 13], present: CardsByRank) -> (r: (HandRanking, CardsByRank))
    requires
        present.wf(),
        forall|i: u16| i < 16 ==> (present.spec_has_i(i) <==> (i < 13 && counts@[i as int] > 0)),
    ensures
        (r.0, r.1.0) == spec_rest(counts@, present.0),
        r.1.wf(),
        pop16(r.1.0) <= 5,
{
    if let Some(w) = present.straight() {
        proof {
            lemma_straight_pop(present.0);
        }
        return (HandRanking::Straight, w);
    }
    if let Some(t) = best_n(counts, 3) {
        proof {
            assert(present.spec_has_i(t.as_int() as u16));
        }
        let kick = present.without(t).take_top_n(2);
        let lead = CardsByRank::only(t);
        proof {
            lemma_rank_sel_pop(present.0, t.as_int() as u16, 2);
        }
        return (HandRanking::ThreeOfAKind(t), lead.or(kick));
    }
    if let Some(p1) = best_n(counts, 2) {
        let mut c2 = *counts;
        c2[p1.to_usize()] = 0;
        proof {
            assert(c2@ =~= counts@.update(p1.as_int(), 0u8));
        }
        proof {
            assert(present.spec_has_i(p1.as_int() as u16));
        }
        let rest1 = present.without(p1);
        if let Some(p2) = best_n(&c2, 2) {
            proof {
                assert(present.spec_has_i(p2.as_int() as u16));
                assert(rest1.spec_has_i(p2.as_int() as u16));
            }
            let kick = rest1.without(p2).take_top_n(1);
            let lead = CardsByRank::only(p1);
            let second = CardsByRank::only(p2);
            proof {
                assert(p2.as_int() != p1.as_int());
                lemma_rank_sel_pop(rest1.0, p2.as_int() as u16, 1);
                let inner = second.0 | CardsByRank::spec_top_bits(
                    rest1.0 & !(1u16 << (p2.as_int() as u16)),
                    1,
                );
                assert(!bit16(inner, p1.as_int() as u16)) by {
                    let j1 = p1.as_int() as u16;
                    assert(!second.spec_has_i(j1));
                    assert(!rest1.spec_has_i(j1));
                    crate::cards::lemma_bit16_or(
                        second.0,
                        CardsByRank::spec_top_bits(rest1.0 & !(1u16 << (p2.as_int() as u16)), 1),
                    );
                    lemma_top_bits_subset(rest1.0 & !(1u16 << (p2.as_int() as u16)), 1);
                    crate::cards::lemma_bit16_diff(rest1.0, 1u16 << (p2.as_int() as u16));
                }
                crate::cards::lemma_single_disjoint16(inner, p1.as_int() as u16);
                crate::cards::lemma_pop16_disjoint(lead.0, inner);
                crate::cards::lemma_or_misc16(lead.0, second.0, CardsByRank::spec_top_bits(
                    rest1.0 & !(1u16 << (p2.as_int() as u16)),
                    1,
                ));
            }
            return (HandRanking::TwoPair { first: p1, second: p2 }, lead.or(second.or(kick)));
        }
        let kick = rest1.take_top_n(3);
        let lead = CardsByRank::only(p1);
        proof {
            lemma_rank_sel_pop(present.0, p1.as_int() as u16, 3);
        }
        return (HandRanking::OnePair(p1), lead.or(kick));
    }
    proof {
        lemma_top_bits_pop(present.0, 5);
    }
    (HandRanking::HighCard, present.take_top_n(5))
}

/// One leading rank and `n` kickers drawn from the rest make at most
/// `n + 1` ranks.
proof fn lemma_rank_sel_pop(p: u16, j: u16, n: nat)
    requires
        j < 16,
    ensures
        pop16((1u16 << j) | CardsByRank::spec_top_bits(p & !(1u16 << j), n)) <= n + 1,
        pop16(CardsByRank::spec_top_bits(p & !(1u16 << j), n)) <= n,
{
    let rest = p & !(1u16 << j);
    let tb = CardsByRank::spec_top_bits(rest, n);
    lemma_top_bits_pop(rest, n);
    lemma_top_bits_subset(rest, n);
    crate::cards::lemma_bit16_diff(p, 1u16 << j);
    crate::cards::lemma_bit16_single(j);
    assert(!bit16(tb, j));
    crate::cards::lemma_single_disjoint16(tb, j);
    crate::cards::lemma_pop16_disjoint(1u16 << j, tb);
    crate::cards::lemma_pop16_single(j);
}

/// Every straight holds exactly five ranks.
pub proof fn lemma_straight_pop(m: u16)
    ensures
        match CardsByRank::spec_straight(m) {
            Some(w) => pop16(w) == 5,
            None => true,
        },
{
    lemma_best_window_pop(m, 8);
    if CardsByRank::spec_best_window(m, 8) is None && m & 0x100f == 0x100f {
        assert(0x100fu16 as u64 == (1u64 << 12) | 0xfu64 && (1u64 << 12) & 0xfu64 == 0)
            by (bit_vector);
        lemma_pop64_single(12);
        lemma_pop64_disjoint(1u64 << 12, 0xfu64);
        assert(pop64(0x0u64) == 0);
        assert(pop64(0x1u64) == 1);
        assert(pop64(0x3u64) == 2);
        assert(pop64(0x7u64) == 3);
        assert(pop64(0xfu64) == 4);
    }
}

proof fn lemma_best_window_pop(m: u16, s: int)
    requires
        s <= 8,
    ensures
        match CardsByRank::spec_best_window(m, s) {
            Some(w) => pop16(w) == 5,
            None => true,
        },
    decreases s + 1,
{
    if s >= 0 {
        if CardsByRank::contains16(m, CardsByRank::spec_window(s)) {
            lemma_window_pop(s);
        } else {
            lemma_best_window_pop(m, s - 1);
        }
    }
}

/// A five-rank window holds five ranks wherever it sits.
proof fn lemma_window_pop(s: int)
    ensures
        0 <= s <= 8 ==> pop16(CardsByRank::spec_window(s)) == 5,
    decreases s + 1,
{
    if s == 0 {
        assert(pop64(0x0u64) == 0);
        assert(pop64(0x1u64) == 1);
        assert(pop64(0x3u64) == 2);
        assert(pop64(0x7u64) == 3);
        assert(pop64(0xfu64) == 4);
        assert(pop64(0x1fu64) == 5);
        assert(CardsByRank::spec_window(0) == 0x1fu16) by (bit_vector);
    } else if 0 < s <= 8 {
        lemma_window_pop(s - 1);
        let sh = s as u16;
        assert((0x1fu16 << sh) as u64 == 2 * ((0x1fu16 << ((sh - 1) as u16)) as u64)
            && ((0x1fu16 << ((sh - 1) as u16)) as u64) < 0x8000_0000_0000_0000u64) by (bit_vector)
            requires
                1 <= sh <= 8,
        ;
        lemma_pop64_double((0x1fu16 << ((sh - 1) as u16)) as u64);
    }
}

/// Doubling shifts the bits up and keeps their number.
proof fn lemma_pop64_double(m: u64)
    requires
        m < 0x8000_0000_0000_0000,
    ensures
        pop64((2 * m) as u64) == pop64(m),
{
    if m != 0 {
        assert(((2 * m) as u64) % 2 == 0 && ((2 * m) as u64) / 2 == m);
    }
}

// ---- Flushes, the full classification, and the fast score -------------------

impl Cards {
    /// The lowest suite whose lane holds five or more cards, looking from `s` up.
    pub open spec fn spec_flush_lane_from(m: u64, s: int) -> Option<int>
        decreases 4 - s,
    {
        if s < 0 || s >= 4 {
            None
        } else if pop16(Self::spec_lane(m, s)) >= 5 {
            Some(s)
        } else {
            Self::spec_flush_lane_from(m, s + 1)
        }
    }

    pub open spec fn spec_flush_lane(m: u64) -> Option<int> {
        Self::spec_flush_lane_from(m, 0)
    }

    /// The first suite lane that holds a straight, looking from `s` up.
    pub open spec fn spec_sf_from(m: u64, s: int) -> Option<u16>
        decreases 4 - s,
    {
        if s < 0 || s >= 4 {
            None
        } else {
            match CardsByRank::spec_straight(Self::spec_lane(m, s)) {
                Some(w) => Some(w),
                None => Self::spec_sf_from(m, s + 1),
            }
        }
    }

    pub open spec fn spec_straight_flush(m: u64) -> Option<u16> {
        Self::spec_sf_from(m, 0)
    }

    /// Whether some suite holds five or more cards.
    pub fn is_flush(self) -> (r: bool)
        requires
            self.wf(),
        ensures
            r == (Self::spec_flush_lane(self.0) is Some),
    {
        let mut s: i8 = 0;
        loop
            invariant
                0 <= s <= 4,
                self.wf(),
                Self::spec_flush_lane(self.0) == Self::spec_flush_lane_from(self.0, s as int),
            decreases 4 - s,
        {
            if s >= 4 {
                return false;
            }
            let suite = Suite::from_i8(s).unwrap();
            let lane = self.suite_lane(suite);
            if lane.count() >= 5 {
                return true;
            }
            s = s + 1;
        }
    }

    /// The five highest ranks of the flush suite, if a flush exists.
    pub fn flush(self) -> (r: Option<CardsByRank>)
        requires
            self.wf(),
        ensures
            match Self::spec_flush_lane(self.0) {
                Some(s) => r matches Some(w) && w.0 == CardsByRank::spec_top_bits(
                    Self::spec_lane(self.0, s),
                    5,
                ) && w.wf() && pop16(w.0) <= 5,
                None => r is None,
            },
    {
        let mut s: i8 = 0;
        loop
            invariant
                0 <= s <= 4,
                self.wf(),
                Self::spec_flush_lane(self.0) == Self::spec_flush_lane_from(self.0, s as int),
            decreases 4 - s,
        {
            if s >= 4 {
                return None;
            }
            let suite = Suite::from_i8(s).unwrap();
            let lane = self.suite_lane(suite);
            if lane.count() >= 5 {
                proof {
                    lemma_top_bits_pop(lane.0, 5);
                }
                return Some(lane.take_top_n(5));
            }
            s = s + 1;
        }
    }

    /// The straight of a suite lane, if one suite holds a straight.
    pub fn straight_flush(self) -> (r: Option<CardsByRank>)
        requires
            self.wf(),
        ensures
            match Self::spec_straight_flush(self.0) {
                Some(w) => r matches Some(b) && b.0 == w && b.wf() && pop16(w) == 5,
                None => r is None,
            },
    {
        let mut s: i8 = 0;
        loop
            invariant
                0 <= s <= 4,
                self.wf(),
                Self::spec_straight_flush(self.0) == Self::spec_sf_from(self.0, s as int),
            decreases 4 - s,
        {
            if s >= 4 {
                return None;
            }
            let suite = Suite::from_i8(s).unwrap();
            let lane = self.suite_lane(suite);
            proof {
                lemma_straight_pop(lane.0);
            }
            if let Some(w) = lane.straight() {
                return Some(w);
            }
            s = s + 1;
        }
    }

    /// The flush-or-lower tail of the full classification.
    pub open spec fn spec_top5_tail(m: u64, c: Seq<u8>, p: u16) -> (HandRanking, u16) {
        match Self::spec_flush_lane(m) {
            Some(s) => (HandRanking::Flush, CardsByRank::spec_top_bits(Self::spec_lane(m, s), 5)),
            None => spec_rest(c, p),
        }
    }

    /// The best five-card hand of the set: straight flush, then four of a
    /// kind, full house, flush, and the pair-or-less tail.
    pub open spec fn spec_top5(m: u64) -> (HandRanking, u16) {
        let c = Self::spec_counts_of(m);
        let p = Self::spec_ranks(m);
        match Self::spec_straight_flush(m) {
            Some(w) => if w == 0x1f00 {
                (HandRanking::RoyalFlush, w)
            } else {
                (HandRanking::StraightFlush, w)
            },
            None => match spec_best_n(c, 4, 12) {
                Some(q) => (
                    HandRanking::FourOfAKind(Rank::spec_from_int(q).unwrap()),
                    (1u16 << (q as u16)) | CardsByRank::spec_top_bits(
                        p & !(1u16 << (q as u16)),
                        1,
                    ),
                ),
                None => match spec_best_n(c, 3, 12) {
                    Some(t) => match spec_best_n(c.update(t, 0u8), 2, 12) {
                        Some(pp) => (
                            HandRanking::FullHouse {
                                trips: Rank::spec_from_int(t).unwrap(),
                                pair: Rank::spec_from_int(pp).unwrap(),
                            },
                            (1u16 << (t as u16)) | (1u16 << (pp as u16)),
                        ),
                        None => Self::spec_top5_tail(m, c, p),
                    },
                    None => Self::spec_top5_tail(m, c, p),
                },
            },
        }
    }

    /// Classifies the best five-card hand of a five-to-seven card set.
    pub fn top5(self) -> (r: Top5)
        requires
            self.wf(),
        ensures
            (r.ranking, r.ranks.0) == Self::spec_top5(self.0),
            r.wf(),
    {
        let counts = self.counts();
        let present = self.by_rank();
        proof {
            lemma_present_is_ranks(self.0, counts@, present.0);
        }
        if let Some(w) = self.straight_flush() {
            let ranking = if w.0 == 0x1f00 {
                HandRanking::RoyalFlush
            } else {
                HandRanking::StraightFlush
            };
            return Top5 { ranking, ranks: w };
        }
        if let Some(q) = best_n(&counts, 4) {
            proof {
                assert(present.spec_has_i(q.as_int() as u16));
            }
            let kick = present.without(q).take_top_n(1);
            let lead = CardsByRank::only(q);
            proof {
                lemma_rank_sel_pop(present.0, q.as_int() as u16, 1);
            }
            return Top5 { ranking: HandRanking::FourOfAKind(q), ranks: lead.or(kick) };
        }
        if let Some(t) = best_n(&counts, 3) {
            let mut c2 = counts;
            c2[t.to_usize()] = 0;
            proof {
                assert(c2@ =~= counts@.update(t.as_int(), 0u8));
            }
            if let Some(pp) = best_n(&c2, 2) {
                let lead = CardsByRank::only(t);
                let second = CardsByRank::only(pp);
                proof {
                    assert(pp.as_int() != t.as_int());
                    assert(!second.spec_has_i(t.as_int() as u16));
                    crate::cards::lemma_single_disjoint16(second.0, t.as_int() as u16);
                    crate::cards::lemma_pop16_disjoint(lead.0, second.0);
                }
                return Top5 {
                    ranking: HandRanking::FullHouse { trips: t, pair: pp },
                    ranks: lead.or(second),
                };
            }
        }
        if let Some(w) = self.flush() {
            return Top5 { ranking: HandRanking::Flush, ranks: w };
        }
        let (ranking, ranks) = rest_eval(&counts, present);
        Top5 { ranking, ranks }
    }

    /// The layered score: the rank-count classification, corrected for
    /// flushes and straight flushes.
    pub open spec fn spec_score_value(m: u64) -> int {
        let c = Self::spec_counts_of(m);
        let nf = spec_nonflush(c);
        if Self::spec_flush_lane(m) is None {
            spec_encode(nf.0, nf.1)
        } else if nf.0 is Straight && Self::spec_straight_flush(m) is Some {
            let w = Self::spec_straight_flush(m).unwrap();
            if w == 0x1f00 {
                spec_encode(HandRanking::RoyalFlush, w)
            } else {
                spec_encode(HandRanking::StraightFlush, w)
            }
        } else if nf.0 is FullHouse || nf.0 is FourOfAKind {
            spec_encode(nf.0, nf.1)
        } else {
            spec_encode(
                HandRanking::Flush,
                CardsByRank::spec_top_bits(
                    Self::spec_lane(m, Self::spec_flush_lane(m).unwrap()),
                    5,
                ),
            )
        }
    }

    /// Scores the set without walking the full classification: the rank
    /// counts decide everything except flushes, which are patched in after.
    ///
    /// The classification is total over well-formed sets; poker meaning
    /// attaches to sets of five to seven cards, and the showdown engines
    /// only ever score those.
    pub fn score_fast(self) -> (r: Score)
        requires
            self.wf(),
        ensures
            r.0 == Self::spec_score_value(self.0),
    {
        let counts = self.counts();
        let (nfr, nfm) = nonflush_eval(&counts);
        let nf = Top5 { ranking: nfr, ranks: nfm };
        if !self.is_flush() {
            return nf.to_score();
        }
        let is_straight = matches!(nfr, HandRanking::Straight);
        if is_straight {
            if let Some(w) = self.straight_flush() {
                let ranking = if w.0 == 0x1f00 {
                    HandRanking::RoyalFlush
                } else {
                    HandRanking::StraightFlush
                };
                return Top5 { ranking, ranks: w }.to_score();
            }
        }
        let keep = matches!(nfr, HandRanking::FullHouse { .. }) || matches!(
            nfr,
            HandRanking::FourOfAKind(_),
        );
        if keep {
            return nf.to_score();
        }
        let w = self.flush().unwrap();
        Top5 { ranking: HandRanking::Flush, ranks: w }.to_score()
    }
}

impl Score {
    /// The score that the rank counts alone warrant, flushes set aside.
    pub fn from_counts(counts: &[u8; 13]) -> (r: Score)
        ensures
            r.0 == spec_encode(spec_nonflush(counts@).0, spec_nonflush(counts@).1),
    {
        let (ranking, ranks) = nonflush_eval(counts);
        Top5 { ranking, ranks }.to_score()
    }
}

/// The ranks present in a card set are the ranks with a positive count.
proof fn lemma_present_is_ranks(m: u64, c: Seq<u8>, p: u16)
    requires
        c =~= Cards::spec_counts_of(m),
        p == Cards::spec_ranks(m),
    ensures
        forall|i: u16| i < 16 ==> (bit16(p, i) <==> (i < 13 && c[i as int] > 0)),
{
    crate::cards::lemma_ranks_wf(m);
    crate::cards::lemma_wf16_ops(p, p);
    assert forall|i: u16| i < 16 implies (bit16(p, i) <==> (i < 13 && c[i as int] > 0)) by {
        if i < 13 {
            assert(c[i as int] == Cards::spec_count_rank(m, i as int));
        }
    }
}

/// Two flushless card sets with the same rank counts score the same: the
/// layered score then reduces to the rank-count classification.
pub proof fn lemma_score_from_counts(m1: u64, m2: u64)
    requires
        Cards::spec_counts_of(m1) =~= Cards::spec_counts_of(m2),
        Cards::spec_flush_lane(m1) is None,
        Cards::spec_flush_lane(m2) is None,
    ensures
        Cards::spec_score_value(m1) == Cards::spec_score_value(m2),
{
    assert(Cards::spec_counts_of(m1) == Cards::spec_counts_of(m2));
}

/// Exchanging a card of the set for an absent card of the same rank keeps
/// every rank count.
pub proof fn lemma_swap_equal_rank_counts(m: u64, a: Card, b: Card)
    requires
        a.wf(),
        b.wf(),
        a.rank_int() == b.rank_int(),
        crate::bits::bit64(m, a.0 as u64),
        !crate::bits::bit64(m, b.0 as u64),
    ensures
        Cards::spec_counts_of((m & !(1u64 << (a.0 as u64))) | (1u64 << (b.0 as u64)))
            =~= Cards::spec_counts_of(m),
{
    let m2 = (m & !(1u64 << (a.0 as u64))) | (1u64 << (b.0 as u64));
    let ja = a.0 as u64;
    let jb = b.0 as u64;
    crate::bits::lemma_bit64_diff(m, 1u64 << ja);
    crate::bits::lemma_bit64_or(m & !(1u64 << ja), 1u64 << jb);
    crate::bits::lemma_bit64_single(ja);
    crate::bits::lemma_bit64_single(jb);
    assert(a.0 == 16 * a.suite_int() + a.rank_int());
    assert(b.0 == 16 * b.suite_int() + b.rank_int());
    assert forall|r: int| 0 <= r < 13 implies Cards::spec_count_rank(m2, r)
        == Cards::spec_count_rank(m, r) by {
        assert(crate::bits::bit64(m2, r as u64) == ((crate::bits::bit64(m, r as u64) && r as u64
            != ja) || r as u64 == jb));
        assert(crate::bits::bit64(m2, (r + 16) as u64) == ((crate::bits::bit64(m, (r + 16) as u64)
            && (r + 16) as u64 != ja) || (r + 16) as u64 == jb));
        assert(crate::bits::bit64(m2, (r + 32) as u64) == ((crate::bits::bit64(m, (r + 32) as u64)
            && (r + 32) as u64 != ja) || (r + 32) as u64 == jb));
        assert(crate::bits::bit64(m2, (r + 48) as u64) == ((crate::bits::bit64(m, (r + 48) as u64)
            && (r + 48) as u64 != ja) || (r + 48) as u64 == jb));
    }
}

/// A mask with a set bit has a positive count.
proof fn lemma_pop16_pos(m: u16, j: u16)
    requires
        j < 16,
        bit16(m, j),
    ensures
        pop16(m) >= 1,
{
    crate::bits::lemma_pop64_zero(m as u64);
    assert(m != 0) by (bit_vector)
        requires
            j < 16,
            bit16(m, j),
    ;
}

} // verus!
