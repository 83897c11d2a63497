//! Showdown equity: exact enumeration over board completions and villain
//! hands, and Monte-Carlo simulation against unconstrained villains.
//!
//! Tallies are integers.  A tied pot is split in units of 1/2520 of a pot
//! (2520 is divisible by every player count up to nine), so the invariant
//! `sum(wins) * 2520 + sum(ties) == total * 2520` holds exactly.

use rand::rngs::SmallRng;
use vstd::prelude::*;

use crate::bits::{bit64, pop64};
use crate::card::Card;
use crate::cards::{lemma_pop64_complement, lemma_pop64_mask_full, Cards};
use crate::hand::Hand;
use crate::range::RangeTable;
use crate::rng::{rng_below, rng_from_entropy, shuffle_vec};
use crate::range::spec_all_hands;
use crate::score::Score;
use vstd::pervasive::VecAdditionalExecFns;

verus! {

/// One unit of pot, in split-pot fractions.
pub const TIE_UNIT: u64 = 2520;

/// Totals stay below this bound so that a tied pot still fits in the tally.
pub const TOTAL_CAP: u64 = 0x10_0000_0000_0000;

/// The sum of a tally vector.
pub open spec fn sum64(s: Seq<u64>) -> int
    decreases s.len(),
{
    if s.len() == 0 {
        0
    } else {
        s[0] + sum64(s.skip(1))
    }
}

pub proof fn lemma_sum64_nonneg(s: Seq<u64>)
    ensures
        sum64(s) >= 0,
    decreases s.len(),
{
    if s.len() > 0 {
        lemma_sum64_nonneg(s.skip(1));
    }
}

pub proof fn lemma_sum64_bound(s: Seq<u64>, i: int)
    requires
        0 <= i < s.len(),
    ensures
        s[i] <= sum64(s),
    decreases s.len(),
{
    lemma_sum64_nonneg(s.skip(1));
    if i > 0 {
        lemma_sum64_bound(s.skip(1), i - 1);
    }
}

pub proof fn lemma_sum64_update(s: Seq<u64>, i: int, v: u64)
    requires
        0 <= i < s.len(),
    ensures
        sum64(s.update(i, v)) == sum64(s) - s[i] + v,
    decreases s.len(),
{
    if i == 0 {
        assert(s.update(0, v).skip(1) =~= s.skip(1));
    } else {
        assert(s.update(i, v).skip(1) =~= s.skip(1).update(i - 1, v));
        lemma_sum64_update(s.skip(1), i - 1, v);
    }
}

pub proof fn lemma_sum64_push(s: Seq<u64>, v: u64)
    ensures
        sum64(s.push(v)) == sum64(s) + v,
    decreases s.len(),
{
    assert(sum64(Seq::<u64>::empty()) == 0);
    if s.len() == 0 {
        assert(s.push(v).skip(1) =~= Seq::<u64>::empty());
        assert(s.push(v)[0] == v);
    } else {
        assert(s.push(v).skip(1) =~= s.skip(1).push(v));
        assert(s.push(v)[0] == s[0]);
        lemma_sum64_push(s.skip(1), v);
    }
}

/// The highest score among the first `k`.
pub open spec fn spec_max_upto(s: Seq<Score>, k: int) -> int
    decreases k,
{
    if k <= 1 {
        s[0].0 as int
    } else if s[k - 1].0 as int > spec_max_upto(s, k - 1) {
        s[k - 1].0 as int
    } else {
        spec_max_upto(s, k - 1)
    }
}

/// How many of the first `k` scores equal `v`.
pub open spec fn spec_cnt(s: Seq<Score>, k: int, v: int) -> nat
    decreases k,
{
    if k <= 0 {
        0
    } else {
        spec_cnt(s, k - 1, v) + if s[k - 1].0 as int == v {
            1nat
        } else {
            0nat
        }
    }
}

/// Credits one pot: the unique best score wins it whole, or the tied best
/// scores split it evenly in `TIE_UNIT` fractions.
#[verifier::loop_isolation(false)]
pub fn showdown(scores: &Vec<Score>, wins: &mut Vec<u64>, ties: &mut Vec<u64>)
    requires
        1 <= scores@.len() <= 9,
        old(wins)@.len() == scores@.len(),
        old(ties)@.len() == scores@.len(),
        sum64(old(wins)@) < TOTAL_CAP,
        sum64(old(ties)@) + 2520 <= u64::MAX,
    ensures
        final(wins)@.len() == scores@.len(),
        final(ties)@.len() == scores@.len(),
        ({
            let mx = spec_max_upto(scores@, scores@.len() as int);
            let k = spec_cnt(scores@, scores@.len() as int, mx);
            &&& (k == 1 ==> final(ties)@ =~= old(ties)@ && (forall|i: int|
                0 <= i < scores@.len() ==> final(wins)@[i] == old(wins)@[i] + (
                if scores@[i].0 as int == mx {
                    1int
                } else {
                    0int
                })))
            &&& (k != 1 ==> final(wins)@ =~= old(wins)@ && (forall|i: int|
                0 <= i < scores@.len() ==> final(ties)@[i] == old(ties)@[i] + (
                if scores@[i].0 as int == mx {
                    (2520int / (k as int))
                } else {
                    0int
                })))
        }),
        sum64(final(wins)@) * 2520 + sum64(final(ties)@) == sum64(old(wins)@) * 2520 + sum64(
            old(ties)@,
        ) + 2520,
{
    let n = scores.len();
    let mut max_score: u32 = scores[0].0;
    let mut k: usize = 1;
    let mut i: usize = 1;
    proof {
        assert(spec_cnt(scores@, 0, max_score as int) == 0);
        assert(spec_cnt(scores@, 1, max_score as int) == 1);
    }
    while i < n
        invariant
            1 <= i <= n,
            max_score == spec_max_upto(scores@, i as int),
            k == spec_cnt(scores@, i as int, max_score as int),
            1 <= k <= i,
        decreases n - i,
    {
        let s = scores[i].0;
        if s > max_score {
            proof {
                lemma_cnt_above(scores@, i as int, s as int);
            }
            max_score = s;
            k = 1;
        } else if s == max_score {
            k = k + 1;
        }
        i = i + 1;
    }
    let ghost mx = spec_max_upto(scores@, n as int);
    let ghost kk = spec_cnt(scores@, n as int, mx);
    if k == 1 {
        let ghost wins0 = wins@;
        let mut w: usize = 0;
        while w < n
            invariant
                w <= n,
                wins@ =~= wins0,
                ties@.len() == n,
                forall|j: int| 0 <= j < w ==> scores@[j].0 < max_score,
            decreases n - w,
        {
            if scores[w].0 == max_score {
                proof {
                    lemma_sum64_bound(wins@, w as int);
                    lemma_sum64_update(wins@, w as int, (wins@[w as int] + 1) as u64);
                    lemma_cnt_unique(scores@, n as int, max_score as int, w as int);
                }
                let t = wins[w];
                wins.set(w, t + 1);
                return ;
            }
            proof {
                lemma_max_ge(scores@, n as int, w as int);
                lemma_cnt_missing(scores@, n as int, max_score as int, w as int + 1);
            }
            w = w + 1;
        }
        proof {
            lemma_cnt_missing(scores@, n as int, max_score as int, n as int);
            lemma_max_is_some(scores@, n as int);
            assert(false);
        }
    } else {
        let ratio: u64 = 2520 / (k as u64);
        let ghost ties0 = ties@;
        let ghost sum0 = sum64(ties@);
        let mut w: usize = 0;
        while w < n
            invariant
                w <= n,
                wins@.len() == n,
                ties@.len() == n,
                ratio == 2520int / (kk as int),
                forall|j: int|
                    0 <= j < w ==> ties@[j] == ties0[j] + (if scores@[j].0 as int == mx {
                        ratio as int
                    } else {
                        0int
                    }),
                forall|j: int| w <= j < n ==> ties@[j] == ties0[j],
                sum64(ties@) == sum0 + spec_cnt(scores@, w as int, mx) * ratio,
            decreases n - w,
        {
            if scores[w].0 == max_score {
                proof {
                    lemma_sum64_bound(ties@, w as int);
                    lemma_sum64_update(ties@, w as int, (ties@[w as int] + ratio) as u64);
                    lemma_cnt_le(scores@, n as int, mx, w as int + 1);
                    assert(spec_cnt(scores@, w as int + 1, mx) == spec_cnt(scores@, w as int, mx)
                        + 1);
                    assert(spec_cnt(scores@, w as int, mx) * ratio + ratio == (spec_cnt(
                        scores@,
                        w as int,
                        mx,
                    ) + 1) * ratio) by (nonlinear_arith);
                    assert((spec_cnt(scores@, w as int, mx) + 1) * ratio <= kk * ratio) by (
                    nonlinear_arith)
                        requires
                            spec_cnt(scores@, w as int, mx) + 1 <= kk,
                            ratio >= 0,
                    ;
                    assert(kk * ratio <= 2520) by (nonlinear_arith)
                        requires
                            2 <= kk <= 9,
                            ratio == 2520int / (kk as int),
                    ;
                }
                let t = ties[w];
                ties.set(w, t + ratio);
            }
            w = w + 1;
        }
        proof {
            assert(kk * ratio == 2520) by (nonlinear_arith)
                requires
                    2 <= kk <= 9,
                    ratio == 2520int / (kk as int),
            ;
        }
    }
}

/// A larger value than the running maximum has not occurred yet.
proof fn lemma_cnt_above(s: Seq<Score>, k: int, v: int)
    requires
        0 <= k <= s.len(),
        v > spec_max_upto(s, k),
    ensures
        spec_cnt(s, k, v) == 0,
    decreases k,
{
    if k > 0 {
        assert(spec_max_upto(s, k) >= s[k - 1].0);
        assert(s[k - 1].0 != v);
        if k > 1 {
            assert(spec_max_upto(s, k) >= spec_max_upto(s, k - 1));
            lemma_cnt_above(s, k - 1, v);
        }
        assert(spec_cnt(s, k, v) == spec_cnt(s, k - 1, v));
    }
}

/// With a unique maximum, the first hit is the only one.
proof fn lemma_cnt_unique(s: Seq<Score>, n: int, v: int, w: int)
    requires
        0 <= w < n <= s.len(),
        spec_cnt(s, n, v) == 1,
        s[w].0 == v,
        forall|j: int| 0 <= j < w ==> s[j].0 < v,
    ensures
        forall|j: int| 0 <= j < n && j != w ==> s[j].0 != v,
    decreases n,
{
    assert forall|j: int| 0 <= j < n && j != w implies s[j].0 != v by {
        if s[j].0 == v {
            lemma_cnt_two(s, n, v, if j < w {
                j
            } else {
                w
            }, if j < w {
                w
            } else {
                j
            });
        }
    }
}

/// Two distinct hits force a count of at least two.
proof fn lemma_cnt_two(s: Seq<Score>, n: int, v: int, a: int, b: int)
    requires
        0 <= a < b < n <= s.len(),
        s[a].0 == v,
        s[b].0 == v,
    ensures
        spec_cnt(s, n, v) >= 2,
    decreases n,
{
    if n - 1 > b {
        lemma_cnt_two(s, n - 1, v, a, b);
    } else {
        lemma_cnt_ge_one(s, n - 1, v, a);
    }
}

proof fn lemma_cnt_ge_one(s: Seq<Score>, n: int, v: int, a: int)
    requires
        0 <= a < n <= s.len(),
        s[a].0 == v,
    ensures
        spec_cnt(s, n, v) >= 1,
    decreases n,
{
    if n - 1 > a {
        lemma_cnt_ge_one(s, n - 1, v, a);
    }
}

/// Every entry lies at or below the running maximum.
proof fn lemma_max_ge(s: Seq<Score>, n: int, j: int)
    requires
        0 <= j < n <= s.len(),
    ensures
        s[j].0 <= spec_max_upto(s, n),
    decreases n,
{
    if j < n - 1 {
        lemma_max_ge(s, n - 1, j);
    }
}

/// If the maximum misses the first `w` entries, its count there is zero.
proof fn lemma_cnt_missing(s: Seq<Score>, n: int, v: int, w: int)
    requires
        0 <= w <= n <= s.len(),
        forall|j: int| 0 <= j < w ==> s[j].0 < v,
    ensures
        spec_cnt(s, w, v) == 0,
    decreases w,
{
    if w > 0 {
        lemma_cnt_missing(s, n, v, w - 1);
    }
}

/// The maximum of a non-empty list occurs in it.
proof fn lemma_max_is_some(s: Seq<Score>, k: int)
    requires
        1 <= k <= s.len(),
    ensures
        exists|j: int| 0 <= j < k && s[j].0 == spec_max_upto(s, k),
        spec_cnt(s, k, spec_max_upto(s, k)) >= 1,
    decreases k,
{
    if k == 1 {
        assert(s[0].0 == spec_max_upto(s, 1));
    } else {
        if s[k - 1].0 as int > spec_max_upto(s, k - 1) {
        } else {
            lemma_max_is_some(s, k - 1);
        }
    }
    let j = choose|j: int| 0 <= j < k && s[j].0 == spec_max_upto(s, k);
    lemma_cnt_ge_one(s, k, spec_max_upto(s, k), j);
}

/// The count within a prefix never exceeds the full count.
proof fn lemma_cnt_le(s: Seq<Score>, n: int, v: int, w: int)
    requires
        0 <= w <= n <= s.len(),
    ensures
        spec_cnt(s, w, v) <= spec_cnt(s, n, v),
    decreases n - w,
{
    if w < n {
        lemma_cnt_le(s, n, v, w + 1);
    }
}

// ---- Tallies ----------------------------------------------------------------

/// One player's tally: whole pots won, split-pot fractions collected, and
/// the number of pots played.  The fractions are in units of
/// `1 / TIE_UNIT` of a pot.
#[derive(Clone, Copy, Debug, PartialEq, Eq, Structural)]
pub struct Equity {
    pub wins: u64,
    pub ties: u64,
    pub total: u64,
}

impl Equity {
    fn from_total_wins_ties(total: u64, wins: &Vec<u64>, ties: &Vec<u64>) -> (r: Vec<Equity>)
        requires
            total != 0,
            wins@.len() == ties@.len(),
        ensures
            r@.len() == wins@.len(),
            forall|i: int|
                0 <= i < r@.len() ==> (#[trigger] r@[i]) == (Equity {
                    wins: wins@[i],
                    ties: ties@[i],
                    total,
                }),
    {
        let mut out: Vec<Equity> = Vec::new();
        let mut i: usize = 0;
        while i < wins.len()
            invariant
                i <= wins@.len(),
                wins@.len() == ties@.len(),
                out@.len() == i,
                forall|j: int|
                    0 <= j < i ==> (#[trigger] out@[j]) == (Equity {
                        wins: wins@[j],
                        ties: ties@[j],
                        total,
                    }),
            decreases wins@.len() - i,
        {
            out.push(Equity { wins: wins[i], ties: ties[i], total });
            i = i + 1;
        }
        out
    }
}

/// The sums of the tallies of a result vector.
pub open spec fn sum_wins(es: Seq<Equity>) -> int
    decreases es.len(),
{
    if es.len() == 0 {
        0
    } else {
        es[0].wins + sum_wins(es.skip(1))
    }
}

pub open spec fn sum_ties(es: Seq<Equity>) -> int
    decreases es.len(),
{
    if es.len() == 0 {
        0
    } else {
        es[0].ties + sum_ties(es.skip(1))
    }
}

// ---- Input validation --------------------------------------------------------

/// Hero holds two cards, the board at most five, nothing collides, and the
/// villain count is sane.
pub open spec fn spec_valid_input_base(community: Cards, hero: Cards, villains: int) -> bool {
    &&& hero.spec_count() == 2
    &&& community.spec_count() <= 5
    &&& pop64(community.0 | hero.0) == community.spec_count() + hero.spec_count()
    &&& 1 <= villains <= 8
}

/// Whether a range holds at least one cell.
pub open spec fn spec_nonempty(t: RangeTable) -> bool {
    exists|k: int| 0 <= k < 13 && (#[trigger] t.table@[k]).0 != 0
}

/// Additionally every villain range holds at least one cell.
pub open spec fn spec_valid_input(
    community: Cards,
    hero: Cards,
    ranges: Seq<RangeTable>,
) -> bool {
    &&& spec_valid_input_base(community, hero, ranges.len() as int)
    &&& forall|i: int| 0 <= i < ranges.len() ==> spec_nonempty(#[trigger] ranges[i])
}

fn valid_input_without_ranges(community_cards: Cards, hero_cards: Cards, villain_count: usize) -> (
    r: bool)
    requires
        community_cards.wf(),
        hero_cards.wf(),
    ensures
        r == spec_valid_input_base(community_cards, hero_cards, villain_count as int),
{
    let known_cards = community_cards.or(hero_cards);
    hero_cards.count() == 2 && community_cards.count() <= 5 && known_cards.count()
        == community_cards.count() + hero_cards.count() && villain_count >= 1 && villain_count <= 8
}

fn valid_input(community_cards: Cards, hero_cards: Cards, villain_ranges: &Vec<RangeTable>) -> (r:
    bool)
    requires
        community_cards.wf(),
        hero_cards.wf(),
        forall|i: int| 0 <= i < villain_ranges@.len() ==> (#[trigger] villain_ranges@[i]).wf(),
    ensures
        r == spec_valid_input(community_cards, hero_cards, villain_ranges@),
{
    if !valid_input_without_ranges(community_cards, hero_cards, villain_ranges.len()) {
        return false;
    }
    let mut i: usize = 0;
    while i < villain_ranges.len()
        invariant
            i <= villain_ranges@.len(),
            forall|k: int| 0 <= k < villain_ranges@.len() ==> (#[trigger] villain_ranges@[k]).wf(),
            forall|k: int| 0 <= k < i ==> spec_nonempty(#[trigger] villain_ranges@[k]),
        decreases villain_ranges@.len() - i,
    {
        if villain_ranges[i].is_empty() {
            return false;
        }
        proof {
            assert(spec_nonempty(villain_ranges@[i as int])) by {
                if forall|row: int|
                    0 <= row < 13 ==> (#[trigger] villain_ranges@[i as int].table@[row]).0 == 0 {
                    assert(false);
                }
            }
        }
        i = i + 1;
    }
    true
}

// ---- The combinatorial pre-flight bound --------------------------------------

/// `a * b`, saturating at the largest 128-bit value.
pub open spec fn spec_sat_mul(a: int, b: int) -> int {
    if a * b > u128::MAX {
        u128::MAX as int
    } else {
        a * b
    }
}

/// The product `start * (start - 1) * ... `, `k` factors, saturating.
pub open spec fn spec_prod_desc(start: int, k: nat) -> int
    decreases k,
{
    if k == 0 {
        1
    } else {
        spec_sat_mul(spec_prod_desc(start, (k - 1) as nat), start - (k - 1))
    }
}

/// The bound times each range's card count, saturating.
pub open spec fn spec_ranges_prod(count0: int, ranges: Seq<RangeTable>, i: int) -> int
    decreases ranges.len() - i,
{
    if i < 0 || i >= ranges.len() {
        count0
    } else {
        spec_ranges_prod(
            spec_sat_mul(count0, 2 * (ranges[i].spec_num_hands() as int)),
            ranges,
            i + 1,
        )
    }
}

/// An upper bound on the tuples the enumerator can visit: board completions
/// times villain hand counts, capped by the bound that ignores the ranges.
pub open spec fn spec_total_combos_upper_bound(community: Cards, ranges: Seq<RangeTable>) -> int {
    let c = community.spec_count() as int;
    let boards = spec_prod_desc(50 - c, (5 - c) as nat);
    let max_count = spec_prod_desc(50 - c, (5 - c + 2 * ranges.len()) as nat);
    let count = spec_ranges_prod(boards, ranges, 0);
    if count < max_count {
        count
    } else {
        max_count
    }
}

/// The pre-flight bound: how many `(board, villain hands)` tuples there
/// could at most be, card exclusion ignored.  The contract pins the formula
/// itself; that the fold of `spec_enumeration` visits no more leaves than
/// this is left as an arithmetic fact outside the contracts.
pub fn total_combos_upper_bound(community_cards: Cards, villain_ranges: &Vec<RangeTable>) -> (r:
    u128)
    requires
        community_cards.wf(),
        community_cards.spec_count() <= 5,
        1 <= villain_ranges@.len() <= 8,
        forall|i: int| 0 <= i < villain_ranges@.len() ==> (#[trigger] villain_ranges@[i]).wf(),
    ensures
        r == spec_total_combos_upper_bound(community_cards, villain_ranges@),
{
    let c = community_cards.count();
    let ghost ci = community_cards.spec_count() as int;
    let boards = prod_desc(50 - (c as u128), 5 - c);
    let max_count = prod_desc(50 - (c as u128), 5 - c + 2 * (villain_ranges.len() as u8));
    let mut count = boards;
    let mut i: usize = 0;
    while i < villain_ranges.len()
        invariant
            i <= villain_ranges@.len(),
            forall|k: int| 0 <= k < villain_ranges@.len() ==> (#[trigger] villain_ranges@[k]).wf(),
            spec_ranges_prod(boards as int, villain_ranges@, 0) == spec_ranges_prod(
                count as int,
                villain_ranges@,
                i as int,
            ),
        decreases villain_ranges@.len() - i,
    {
        let cards = villain_ranges[i].count_cards();
        count = match count.checked_mul(cards as u128) {
            Some(n) => n,
            None => u128::MAX,
        };
        i = i + 1;
    }
    if count < max_count {
        count
    } else {
        max_count
    }
}

// ---- The shuffled residual deck ------------------------------------------------

/// The cards not known at construction time, shuffled once.  Draws sample
/// uniformly from the live prefix `..len` and park the drawn card behind it;
/// a reset revives the whole deck without reshuffling.
pub struct Deck {
    pub cards: Vec<Card>,
    pub max_len: usize,
    pub len: usize,
}

impl Deck {
    pub open spec fn wf(self) -> bool {
        &&& self.len <= self.max_len == self.cards@.len()
        &&& forall|i: int| 0 <= i < self.cards@.len() ==> (#[trigger] self.cards@[i]).wf()
        &&& self.cards@.no_duplicates()
    }

    /// A full shuffled deck: exactly the 52 cards outside `known_cards`, in
    /// an order the generator picks.
    pub fn from_cards(rng: &mut SmallRng, known_cards: Cards) -> (r: Deck)
        requires
            known_cards.wf(),
        ensures
            r.wf(),
            r.len == r.max_len,
            r.max_len == 52 - known_cards.spec_count(),
            forall|i: int|
                0 <= i < r.cards@.len() ==> !known_cards.spec_has(#[trigger] r.cards@[i]),
            forall|c: Card| c.wf() && !known_cards.spec_has(c) ==> r.cards@.contains(c),
    {
        let rest = known_cards.complement();
        proof {
            lemma_pop64_complement(known_cards.0);
            crate::bits::lemma_pop64_le64(known_cards.0);
            lemma_pop64_mask_full();
            crate::bits::lemma_pop64_subset(known_cards.0, 0x1fff_1fff_1fff_1fffu64);
            crate::cards::lemma_complement_bits(known_cards.0);
            lemma_subset_alg(rest.0, rest.0, 0);
        }
        let mut cards: Vec<Card> = Vec::new();
        let mut iter = rest.iter();
        while iter.0 .0 != 0
            invariant
                iter.0.wf(),
                rest.wf(),
                rest.0 == (!known_cards.0) & 0x1fff_1fff_1fff_1fffu64,
                known_cards.wf(),
                iter.0.0 & rest.0 == iter.0.0,
                cards@.len() + iter.0.spec_count() == rest.spec_count(),
                forall|i: int| 0 <= i < cards@.len() ==> (#[trigger] cards@[i]).wf(),
                forall|i: int|
                    0 <= i < cards@.len() ==> !known_cards.spec_has(#[trigger] cards@[i]),
                forall|j: u64|
                    j < 64 && #[trigger] rest.spec_has_i(j) ==> (iter.0.spec_has_i(j) || exists|
                        i: int,
                    |
                        0 <= i < cards@.len() && (#[trigger] cards@[i]).0 as u64 == j),
                forall|i: int, j: u64|
                    0 <= i < cards@.len() && j < 64 && #[trigger] iter.0.spec_has_i(j) ==> j < (
                    #[trigger] cards@[i]).0,
                cards@.no_duplicates(),
            decreases iter.0.spec_count(),
        {
            proof {
                crate::bits::lemma_pop64_zero(iter.0.0);
            }
            let ghost pre = cards@;
            let ghost iter0 = iter.0;
            let card = iter.next().unwrap();
            proof {
                assert(iter0.spec_has_i(card.0 as u64));
                crate::cards::lemma_complement_bits(known_cards.0);
                crate::bits::lemma_bit64_and(iter0.0, rest.0);
                assert(bit64(iter0.0 & rest.0, card.0 as u64) == (bit64(iter0.0, card.0 as u64)
                    && bit64(rest.0, card.0 as u64)));
                assert(rest.spec_has_i(card.0 as u64));
                assert(!known_cards.spec_has(card));
                lemma_subset_alg(iter0.0, rest.0, card.0 as u64);
            }
            cards.push(card);
            proof {
                assert forall|j: u64|
                    j < 64 && #[trigger] rest.spec_has_i(j) implies (iter.0.spec_has_i(j)
                    || exists|i: int|
                    0 <= i < cards@.len() && (#[trigger] cards@[i]).0 as u64 == j) by {
                    if !iter.0.spec_has_i(j) && iter0.spec_has_i(j) {
                        assert(cards@[cards@.len() - 1].0 as u64 == j);
                    } else if !iter.0.spec_has_i(j) {
                        let i = choose|i: int|
                            0 <= i < pre.len() && (#[trigger] pre[i]).0 as u64 == j;
                        assert(cards@[i].0 as u64 == j);
                    }
                }
                assert forall|i: int, j: u64|
                    0 <= i < cards@.len() && j < 64 && #[trigger] iter.0.spec_has_i(j) implies j
                    < (#[trigger] cards@[i]).0 by {
                    if i < pre.len() {
                        assert(cards@[i] == pre[i]);
                    }
                }
                assert forall|i: int, j: int|
                    0 <= i < j < cards@.len() implies cards@[i] != cards@[j] by {
                    if j == cards@.len() - 1 {
                        assert((card.0 as u64) < pre[i].0);
                    }
                }
            }
        }
        proof {
            crate::bits::lemma_pop64_zero(iter.0.0);
        }
        let n = cards.len();
        let ghost before = cards@;
        shuffle_vec(rng, &mut cards);
        proof {
            before.to_multiset_ensures();
            cards@.to_multiset_ensures();
            assert forall|i: int|
                0 <= i < cards@.len() implies (#[trigger] cards@[i]).wf() && !known_cards.spec_has(
                cards@[i],
            ) by {
                let c = cards@[i];
                assert(cards@.contains(c));
                assert(cards@.to_multiset().count(c) > 0);
                assert(before.contains(c));
                let j = choose|j: int| 0 <= j < before.len() && before[j] == c;
            }
            crate::cards::lemma_complement_bits(known_cards.0);
            crate::bits::lemma_bit64_zero();
            assert forall|c: Card| c.wf() && !known_cards.spec_has(c) implies cards@.contains(
                c,
            ) by {
                assert(rest.spec_has_i(c.0 as u64));
                assert(!iter.0.spec_has_i(c.0 as u64));
                let i = choose|i: int|
                    0 <= i < before.len() && (#[trigger] before[i]).0 as u64 == c.0 as u64;
                assert(0 <= before[i].0 && 0 <= c.0);
                assert(before[i] == c);
                assert(before.contains(c));
                assert(before.to_multiset().count(c) > 0);
            }
            before.lemma_multiset_has_no_duplicates();
            cards@.lemma_multiset_has_no_duplicates_conv();
        }
        Deck { cards, max_len: n, len: n }
    }

    /// Draws one card uniformly from the live prefix and parks it behind the
    /// live prefix by swapping.
    pub fn draw(&mut self, rng: &mut SmallRng) -> (r: Option<Card>)
        requires
            old(self).wf(),
        ensures
            final(self).wf(),
            final(self).max_len == old(self).max_len,
            old(self).len == 0 ==> r is None && *final(self) == *old(self),
            old(self).len > 0 ==> (r matches Some(c) && c.wf() && final(self).len == old(
                self,
            ).len - 1 && c == final(self).cards@[final(self).len as int] && (exists|i: int|
                0 <= i < old(self).len && final(self).cards@ =~= (#[trigger] old(
                    self,
                ).cards@.update(i, old(self).cards@[old(self).len - 1])).update(
                    old(self).len - 1,
                    old(self).cards@[i],
                ))),
            forall|k: int|
                old(self).len <= k < old(self).cards@.len() ==> final(self).cards@[k] == old(
                    self,
                ).cards@[k],
    {
        if self.len == 0 {
            None
        } else {
            let index = rng_below(rng, self.len);
            let card = self.cards[index];
            let last = self.cards[self.len - 1];
            self.cards.set(index, last);
            self.cards.set(self.len - 1, card);
            self.len = self.len - 1;
            proof {
                lemma_swap_no_dup(old(self).cards@, index as int, old(self).len - 1);
                assert(self.cards@ =~= old(self).cards@.update(
                    index as int,
                    old(self).cards@[old(self).len - 1],
                ).update(old(self).len - 1, old(self).cards@[index as int]));
            }
            Some(card)
        }
    }

    /// Draws two cards as a hand.
    pub fn hand(&mut self, rng: &mut SmallRng) -> (r: Option<Hand>)
        requires
            old(self).wf(),
        ensures
            final(self).wf(),
            final(self).max_len == old(self).max_len,
            old(self).len < 2 ==> r is None && final(self).len == 0,
            old(self).len >= 2 ==> (r matches Some(h) && h.wf() && final(self).len == old(
                self,
            ).len - 2),
    {
        let ghost len0 = self.len;
        let a = match self.draw(rng) {
            Some(a) => a,
            None => {
                return None;
            },
        };
        let ghost mid = *self;
        let b = match self.draw(rng) {
            Some(b) => b,
            None => {
                return None;
            },
        };
        proof {
            assert(a == mid.cards@[mid.len as int]);
            assert(self.cards@[mid.len as int] == mid.cards@[mid.len as int]);
            assert(b == self.cards@[self.len as int]);
            assert(self.len < mid.len);
            assert(a != b);
            assert(a.0 != b.0);
        }
        Some(Hand::of_two_cards(a, b))
    }

    /// Revives every card without reshuffling.
    pub fn reset(&mut self)
        requires
            old(self).wf(),
        ensures
            final(self).wf(),
            final(self).cards@ == old(self).cards@,
            final(self).max_len == old(self).max_len,
            final(self).len == final(self).max_len,
    {
        self.len = self.max_len;
    }
}

// ---- The meaning of the exact enumeration ------------------------------------
//
// The fold below is the enumerator's contract: it walks the board completions
// (each level picks the highest card not yet visited, then its lower
// siblings), then the villains' hands in range order, skipping collisions,
// and credits one pot per complete assignment.  The enumerator must return
// exactly this fold's tallies.

/// A player's score: the layered score of board and hole cards.  One path
/// judges every pot, the hero's hand and the villains' alike.
pub open spec fn spec_score_of(m: u64) -> Score {
    Score(Cards::spec_score_value(m) as u32)
}

/// One pot credited to the tallies, while the total has room.
pub open spec fn spec_showdown_update(
    scores: Seq<Score>,
    total: u64,
    wins: Seq<u64>,
    ties: Seq<u64>,
) -> (u64, Seq<u64>, Seq<u64>) {
    if total < TOTAL_CAP {
        let mx = spec_max_upto(scores, scores.len() as int);
        let k = spec_cnt(scores, scores.len() as int, mx);
        if k == 1 {
            (
                (total + 1) as u64,
                Seq::new(
                    wins.len(),
                    |i: int|
                        (wins[i] + if scores[i].0 as int == mx {
                            1int
                        } else {
                            0int
                        }) as u64,
                ),
                ties,
            )
        } else {
            (
                (total + 1) as u64,
                wins,
                Seq::new(
                    ties.len(),
                    |i: int|
                        (ties[i] + if scores[i].0 as int == mx {
                            2520int / (k as int)
                        } else {
                            0int
                        }) as u64,
                ),
            )
        }
    } else {
        (total, wins, ties)
    }
}

/// The fold over the board completions: fills the board, then the villains.
/// `prefixed` scores fixed so far live in the villain fold's `prefix`.
pub open spec fn spec_enum_boards(
    vr: Seq<RangeTable>,
    hero: Cards,
    community: Cards,
    visited: Cards,
    remainder: int,
    total: u64,
    wins: Seq<u64>,
    ties: Seq<u64>,
) -> (u64, Seq<u64>, Seq<u64>)
    decreases 1int, remainder, 1int, 0int,
    when remainder >= 0 && visited.wf() && 1 <= vr.len()
{
    if remainder == 0 {
        let known = Cards(hero.0 | community.0);
        spec_enum_villains(vr, community, known, seq![spec_score_of(known.0)], total, wins, ties)
    } else {
        spec_enum_boards_iter(vr, hero, community, visited, remainder, total, wins, ties)
    }
}

/// One level's loop: picks each unvisited card from the highest down.
pub open spec fn spec_enum_boards_iter(
    vr: Seq<RangeTable>,
    hero: Cards,
    community: Cards,
    visited: Cards,
    remainder: int,
    total: u64,
    wins: Seq<u64>,
    ties: Seq<u64>,
) -> (u64, Seq<u64>, Seq<u64>)
    decreases 1int, remainder, 0int, 52 - pop64(visited.0),
    when remainder >= 1 && visited.wf() && 1 <= vr.len()
    via spec_enum_boards_iter_dec
{
    let rest = (!visited.0) & 0x1fff_1fff_1fff_1fffu64;
    if rest == 0 {
        (total, wins, ties)
    } else {
        let card_bit = 1u64 << (Cards::spec_top_index(rest) as u64);
        let sub = spec_enum_boards(
            vr,
            hero,
            Cards(community.0 | card_bit),
            Cards(visited.0 | card_bit),
            remainder - 1,
            total,
            wins,
            ties,
        );
        spec_enum_boards_iter(
            vr,
            hero,
            community,
            Cards(visited.0 | card_bit),
            remainder,
            sub.0,
            sub.1,
            sub.2,
        )
    }
}

#[via_fn]
proof fn spec_enum_boards_iter_dec(
    vr: Seq<RangeTable>,
    hero: Cards,
    community: Cards,
    visited: Cards,
    remainder: int,
    total: u64,
    wins: Seq<u64>,
    ties: Seq<u64>,
) {
    lemma_pop64_mask_full();
    crate::bits::lemma_pop64_subset(visited.0, 0x1fff_1fff_1fff_1fffu64);
    let rest = (!visited.0) & 0x1fff_1fff_1fff_1fffu64;
    if rest != 0 {
        let idx = Cards::spec_top_index(rest) as u64;
        vstd::std_specs::bits::axiom_u64_leading_zeros(rest);
        crate::bits::lemma_bit_val(rest, idx);
        crate::cards::lemma_wf_ops(visited.0, visited.0);
        crate::cards::lemma_wf_bit(rest, idx);
        assert(bit64(rest, idx));
        crate::cards::lemma_complement_bits(visited.0);
        assert(!bit64(visited.0, idx));
        crate::bits::lemma_pop64_add_bit(visited.0, idx);
        crate::cards::lemma_card_bit_wf(idx);
        crate::cards::lemma_wf_ops(visited.0, 1u64 << idx);
        crate::bits::lemma_pop64_subset(visited.0 | (1u64 << idx), 0x1fff_1fff_1fff_1fffu64);
    }
}

/// The fold over one villain's hands, then the next villain's, then the pot.
/// `prefix` holds the scores fixed so far: the hero's, then one per villain.
pub open spec fn spec_enum_villains(
    vr: Seq<RangeTable>,
    community: Cards,
    known: Cards,
    prefix: Seq<Score>,
    total: u64,
    wins: Seq<u64>,
    ties: Seq<u64>,
) -> (u64, Seq<u64>, Seq<u64>)
    decreases 0int, vr.len() + 1 - prefix.len(), 1int, 0int,
    when 1 <= prefix.len() <= vr.len()
{
    spec_enum_villains_iter(
        vr,
        community,
        known,
        prefix,
        spec_all_hands(vr[prefix.len() - 1]),
        0,
        total,
        wins,
        ties,
    )
}

/// One villain's loop over the hands of its range, in range order.
pub open spec fn spec_enum_villains_iter(
    vr: Seq<RangeTable>,
    community: Cards,
    known: Cards,
    prefix: Seq<Score>,
    hands: Seq<Hand>,
    i: int,
    total: u64,
    wins: Seq<u64>,
    ties: Seq<u64>,
) -> (u64, Seq<u64>, Seq<u64>)
    decreases 0int, vr.len() + 1 - prefix.len(), 0int, hands.len() - i,
    when 1 <= prefix.len() <= vr.len() && 0 <= i <= hands.len()
{
    if i >= hands.len() {
        (total, wins, ties)
    } else {
        let h = hands[i];
        if bit64(known.0, h.0.0 as u64) || bit64(known.0, h.1.0 as u64) {
            spec_enum_villains_iter(vr, community, known, prefix, hands, i + 1, total, wins, ties)
        } else {
            let player_cards = (community.0 | (1u64 << (h.0.0 as u64))) | (1u64 << (h.1.0 as u64));
            let prefix2 = prefix.push(spec_score_of(player_cards));
            let known2 = Cards((known.0 | (1u64 << (h.0.0 as u64))) | (1u64 << (h.1.0 as u64)));
            let sub = if prefix2.len() == vr.len() + 1 {
                spec_showdown_update(prefix2, total, wins, ties)
            } else {
                spec_enum_villains(vr, community, known2, prefix2, total, wins, ties)
            };
            spec_enum_villains_iter(vr, community, known, prefix, hands, i + 1, sub.0, sub.1, sub.2)
        }
    }
}

/// What the exact enumerator computes: the fold over every board completion
/// and villain hand assignment, starting from empty tallies.
pub open spec fn spec_enumeration(community: Cards, hero: Cards, vr: Seq<RangeTable>) -> (
    u64,
    Seq<u64>,
    Seq<u64>,
) {
    spec_enum_boards(
        vr,
        hero,
        community,
        Cards(community.0 | hero.0),
        5 - community.spec_count(),
        0,
        Seq::new(vr.len() + 1, |i: int| 0u64),
        Seq::new(vr.len() + 1, |i: int| 0u64),
    )
}

// ---- The exact enumerator -----------------------------------------------------

/// The recursion state of the exact enumerator.
struct EquityCalculator<'a> {
    known_cards: Cards,
    hero_cards: Cards,
    visited_community_cards: Cards,
    community_cards: Cards,
    villain_ranges: &'a Vec<RangeTable>,
    hand_ranking_scores: Vec<Score>,
    total: u64,
    wins: Vec<u64>,
    ties: Vec<u64>,
}

impl<'a> EquityCalculator<'a> {
    spec fn wf(self) -> bool {
        &&& self.known_cards.wf()
        &&& self.hero_cards.wf()
        &&& self.visited_community_cards.wf()
        &&& self.community_cards.wf()
        &&& 1 <= self.villain_ranges@.len() <= 8
        &&& forall|i: int|
            0 <= i < self.villain_ranges@.len() ==> (#[trigger] self.villain_ranges@[i]).wf()
        &&& self.hand_ranking_scores@.len() == self.villain_ranges@.len() + 1
        &&& self.wins@.len() == self.villain_ranges@.len() + 1
        &&& self.ties@.len() == self.villain_ranges@.len() + 1
        &&& self.total <= TOTAL_CAP
        &&& sum64(self.wins@) * 2520 + sum64(self.ties@) == self.total * 2520
    }

    /// The fields a recursive step must hand back unchanged.
    spec fn same_frame(self, other: Self) -> bool {
        &&& self.hero_cards == other.hero_cards
        &&& self.villain_ranges == other.villain_ranges
    }

    /// Counts the tuple under the cursor, while the tallies have room.
    fn showdown_leaf(&mut self)
        requires
            old(self).wf(),
        ensures
            final(self).wf(),
            old(self).same_frame(*final(self)),
            final(self).community_cards == old(self).community_cards,
            final(self).known_cards == old(self).known_cards,
            final(self).visited_community_cards == old(self).visited_community_cards,
            final(self).hand_ranking_scores == old(self).hand_ranking_scores,
            final(self).total >= old(self).total,
            (final(self).total, final(self).wins@, final(self).ties@) == spec_showdown_update(
                old(self).hand_ranking_scores@,
                old(self).total,
                old(self).wins@,
                old(self).ties@,
            ),
    {
        if self.total < TOTAL_CAP {
            proof {
                lemma_sum64_nonneg(self.ties@);
                lemma_sum64_nonneg(self.wins@);
                assert(sum64(self.wins@) * 2520 <= self.total * 2520) by (nonlinear_arith)
                    requires
                        sum64(self.wins@) * 2520 + sum64(self.ties@) == self.total * 2520,
                        sum64(self.ties@) >= 0,
                ;
                assert(sum64(self.wins@) < TOTAL_CAP) by (nonlinear_arith)
                    requires
                        sum64(self.wins@) * 2520 <= self.total * 2520,
                        self.total < TOTAL_CAP,
                        sum64(self.wins@) >= 0,
                ;
                assert(self.total * 2520 + 2520 == (self.total + 1) * 2520) by (nonlinear_arith);
                assert((self.total + 1) * 2520 <= TOTAL_CAP * 2520) by (nonlinear_arith)
                    requires
                        self.total + 1 <= TOTAL_CAP,
                ;
            }
            self.total = self.total + 1;
            showdown(&self.hand_ranking_scores, &mut self.wins, &mut self.ties);
            proof {
                let sc = self.hand_ranking_scores@;
                let up = spec_showdown_update(
                    sc,
                    old(self).total,
                    old(self).wins@,
                    old(self).ties@,
                );
                let mx = spec_max_upto(sc, sc.len() as int);
                let k = spec_cnt(sc, sc.len() as int, mx);
                if k == 1 {
                    assert(self.wins@ =~= up.1);
                    assert(self.ties@ =~= up.2);
                } else {
                    assert(self.wins@ =~= up.1);
                    assert(self.ties@ =~= up.2);
                }
            }
        }
    }

    /// Walks every completion of the board, each exactly once: each level
    /// picks any card not visited yet and marks it visited for the siblings
    /// that follow.
    fn boards(&mut self, remainder: usize)
        requires
            old(self).wf(),
            old(self).community_cards.0 & old(self).visited_community_cards.0 == old(
                self,
            ).community_cards.0,
        ensures
            final(self).wf(),
            old(self).same_frame(*final(self)),
            final(self).hand_ranking_scores@.len() == old(self).hand_ranking_scores@.len(),
            final(self).total >= old(self).total,
            (final(self).total, final(self).wins@, final(self).ties@) == spec_enum_boards(
                old(self).villain_ranges@,
                old(self).hero_cards,
                old(self).community_cards,
                old(self).visited_community_cards,
                remainder as int,
                old(self).total,
                old(self).wins@,
                old(self).ties@,
            ),
        decreases 1int, remainder,
    {
        if remainder == 0 {
            let known = self.hero_cards.or(self.community_cards);
            let sc = known.score_fast();
            self.hand_ranking_scores.set(0, sc);
            self.known_cards = known;
            proof {
                lemma_subset_alg(self.community_cards.0, self.hero_cards.0, 0);
                assert(known == Cards(self.hero_cards.0 | self.community_cards.0));
                assert(sc == spec_score_of(known.0));
                assert(self.hand_ranking_scores@.take(1) =~= seq![sc]);
            }
            let n = self.villain_ranges.len();
            self.villains(n - 1);
            return ;
        }
        let current_community_cards = self.community_cards;
        let mut current_visited = self.visited_community_cards;
        let ghost target = spec_enum_boards_iter(
            self.villain_ranges@,
            self.hero_cards,
            current_community_cards,
            current_visited,
            remainder as int,
            self.total,
            self.wins@,
            self.ties@,
        );
        proof {
            lemma_pop64_mask_full();
            crate::bits::lemma_pop64_subset(current_visited.0, 0x1fff_1fff_1fff_1fffu64);
            assert(spec_enum_boards(
                self.villain_ranges@,
                self.hero_cards,
                self.community_cards,
                self.visited_community_cards,
                remainder as int,
                self.total,
                self.wins@,
                self.ties@,
            ) == target);
        }
        loop
            invariant
                self.wf(),
                current_visited.wf(),
                current_community_cards.wf(),
                current_community_cards.0 & current_visited.0 == current_community_cards.0,
                old(self).same_frame(*self),
                self.hero_cards == old(self).hero_cards,
                self.hand_ranking_scores@.len() == old(self).hand_ranking_scores@.len(),
                self.total >= old(self).total,
                remainder >= 1,
                spec_enum_boards(
                    old(self).villain_ranges@,
                    old(self).hero_cards,
                    old(self).community_cards,
                    old(self).visited_community_cards,
                    remainder as int,
                    old(self).total,
                    old(self).wins@,
                    old(self).ties@,
                ) == target,
                target == spec_enum_boards_iter(
                    self.villain_ranges@,
                    self.hero_cards,
                    current_community_cards,
                    current_visited,
                    remainder as int,
                    self.total,
                    self.wins@,
                    self.ties@,
                ),
            decreases 52 - pop64(current_visited.0), 0int,
        {
            proof {
                lemma_pop64_mask_full();
                crate::bits::lemma_pop64_subset(current_visited.0, 0x1fff_1fff_1fff_1fffu64);
            }
            let rest = current_visited.complement();
            let card = match rest.first() {
                Some(card) => card,
                None => {
                    return ;
                },
            };
            proof {
                let j = card.0 as u64;
                assert(rest.spec_has_i(j));
                assert(!current_visited.spec_has_i(j));
                crate::bits::lemma_bit64_and(current_community_cards.0, current_visited.0);
                assert(bit64(current_community_cards.0 & current_visited.0, j) == (bit64(
                    current_community_cards.0,
                    j,
                ) && bit64(current_visited.0, j)));
                assert(!current_community_cards.spec_has(card));
                assert(!current_visited.spec_has(card));
            }
            self.community_cards = current_community_cards.with(card);
            let ghost old_visited = current_visited;
            current_visited.add(card);
            self.visited_community_cards = current_visited;
            proof {
                lemma_subset_alg(current_community_cards.0, old_visited.0, card.0 as u64);
                lemma_pop64_mask_full();
                crate::bits::lemma_pop64_subset(current_visited.0, 0x1fff_1fff_1fff_1fffu64);
                assert(card.0 as u64 == Cards::spec_top_index(rest.0) as u64);
                assert(self.community_cards == Cards(
                    current_community_cards.0 | (1u64 << (card.0 as u64)),
                ));
                assert(current_visited == Cards(old_visited.0 | (1u64 << (card.0 as u64))));
            }
            let ghost tallies_before = (self.total, self.wins@, self.ties@);
            self.boards(remainder - 1);
            proof {
                assert((self.total, self.wins@, self.ties@) == spec_enum_boards(
                    self.villain_ranges@,
                    self.hero_cards,
                    Cards(current_community_cards.0 | (1u64 << (card.0 as u64))),
                    current_visited,
                    remainder as int - 1,
                    tallies_before.0,
                    tallies_before.1,
                    tallies_before.2,
                ));
                assert(target == spec_enum_boards_iter(
                    self.villain_ranges@,
                    self.hero_cards,
                    current_community_cards,
                    current_visited,
                    remainder as int,
                    self.total,
                    self.wins@,
                    self.ties@,
                ));
            }
        }
    }

    /// Walks every assignment of hands to villains in declared order,
    /// skipping hands that collide with the cards already on the table.
    fn villains(&mut self, remainder: usize)
        requires
            old(self).wf(),
            remainder < old(self).villain_ranges@.len(),
            old(self).community_cards.0 & old(self).known_cards.0 == old(self).community_cards.0,
        ensures
            final(self).wf(),
            old(self).same_frame(*final(self)),
            final(self).community_cards == old(self).community_cards,
            final(self).hand_ranking_scores@.len() == old(self).hand_ranking_scores@.len(),
            final(self).total >= old(self).total,
            final(self).hand_ranking_scores@.take(
                old(self).villain_ranges@.len() - remainder,
            ) =~= old(self).hand_ranking_scores@.take(old(self).villain_ranges@.len() - remainder),
            (final(self).total, final(self).wins@, final(self).ties@) == spec_enum_villains(
                old(self).villain_ranges@,
                old(self).community_cards,
                old(self).known_cards,
                old(self).hand_ranking_scores@.take(old(self).villain_ranges@.len() - remainder),
                old(self).total,
                old(self).wins@,
                old(self).ties@,
            ),
        decreases 0int, remainder,
    {
        let nvill = self.villain_ranges.len();
        let player_index = nvill - remainder - 1;
        let hands = (&self.villain_ranges[player_index]).for_each_hand();
        let current_known_cards = self.known_cards;
        let ghost np1 = nvill - remainder;
        let ghost prefix = self.hand_ranking_scores@.take(np1 as int);
        let ghost target = spec_enum_villains(
            self.villain_ranges@,
            self.community_cards,
            current_known_cards,
            prefix,
            self.total,
            self.wins@,
            self.ties@,
        );
        proof {
            assert(hands@ == spec_all_hands(self.villain_ranges@[player_index as int]));
            assert(target == spec_enum_villains_iter(
                self.villain_ranges@,
                self.community_cards,
                current_known_cards,
                prefix,
                hands@,
                0,
                self.total,
                self.wins@,
                self.ties@,
            ));
        }
        let mut i: usize = 0;
        while i < hands.len()
            invariant
                self.wf(),
                old(self).same_frame(*self),
                self.community_cards == old(self).community_cards,
                self.hand_ranking_scores@.len() == old(self).hand_ranking_scores@.len(),
                self.total >= old(self).total,
                current_known_cards.wf(),
                current_known_cards == old(self).known_cards,
                self.community_cards.0 & current_known_cards.0 == self.community_cards.0,
                remainder < self.villain_ranges@.len(),
                nvill == self.villain_ranges@.len(),
                player_index == nvill - remainder - 1,
                np1 == nvill - remainder,
                player_index + 1 < self.hand_ranking_scores@.len(),
                forall|k: int| 0 <= k < hands@.len() ==> (#[trigger] hands@[k]).wf(),
                i <= hands@.len(),
                self.hand_ranking_scores@.take(np1 as int) =~= prefix,
                prefix == old(self).hand_ranking_scores@.take(np1 as int),
                target == spec_enum_villains(
                    self.villain_ranges@,
                    self.community_cards,
                    current_known_cards,
                    prefix,
                    old(self).total,
                    old(self).wins@,
                    old(self).ties@,
                ),
                target == spec_enum_villains_iter(
                    self.villain_ranges@,
                    self.community_cards,
                    current_known_cards,
                    prefix,
                    hands@,
                    i as int,
                    self.total,
                    self.wins@,
                    self.ties@,
                ),
            decreases hands@.len() - i,
        {
            let hand = hands[i];
            let ghost iold = i as int;
            i = i + 1;
            if current_known_cards.has(hand.high()) || current_known_cards.has(hand.low()) {
                proof {
                    assert(bit64(current_known_cards.0, hand.0.0 as u64) || bit64(
                        current_known_cards.0,
                        hand.1.0 as u64,
                    ));
                }
                continue ;
            }
            proof {
                let j0 = hand.0.0 as u64;
                let j1 = hand.1.0 as u64;
                crate::bits::lemma_bit64_and(self.community_cards.0, current_known_cards.0);
                assert(bit64(self.community_cards.0 & current_known_cards.0, j0) == (bit64(
                    self.community_cards.0,
                    j0,
                ) && bit64(current_known_cards.0, j0)));
                assert(bit64(self.community_cards.0 & current_known_cards.0, j1) == (bit64(
                    self.community_cards.0,
                    j1,
                ) && bit64(current_known_cards.0, j1)));
                assert(!self.community_cards.spec_has(hand.0));
                assert(!self.community_cards.spec_has(hand.1));
                assert(hand.0.0 == 16 * hand.0.suite_int() + hand.0.rank_int());
                assert(hand.1.0 == 16 * hand.1.suite_int() + hand.1.rank_int());
                assert(hand.0.0 != hand.1.0);
            }
            let c1 = self.community_cards.with(hand.high());
            proof {
                assert(c1.spec_has_i(hand.1.0 as u64) == (self.community_cards.spec_has_i(
                    hand.1.0 as u64,
                ) || hand.1.0 as u64 == hand.0.0 as u64));
                assert(!c1.spec_has(hand.1));
            }
            let player_cards = c1.with(hand.low());
            let sc = player_cards.score_fast();
            self.hand_ranking_scores.set(player_index + 1, sc);
            let k1 = current_known_cards.with(hand.high());
            proof {
                assert(k1.spec_has_i(hand.1.0 as u64) == (current_known_cards.spec_has_i(
                    hand.1.0 as u64,
                ) || hand.1.0 as u64 == hand.0.0 as u64));
                assert(!k1.spec_has(hand.1));
            }
            let new_known = k1.with(hand.low());
            self.known_cards = new_known;
            proof {
                lemma_subset_alg(self.community_cards.0, current_known_cards.0, hand.0.0 as u64);
                lemma_subset_alg(self.community_cards.0, k1.0, hand.1.0 as u64);
                assert(sc == spec_score_of(player_cards.0));
                assert(self.hand_ranking_scores@.take(np1 as int + 1) =~= prefix.push(sc));
                assert(new_known == Cards(
                    (current_known_cards.0 | (1u64 << (hand.0.0 as u64))) | (1u64 << (hand.1.0
                        as u64)),
                ));
            }
            let ghost tallies_before = (self.total, self.wins@, self.ties@);
            if remainder != 0 {
                self.villains(remainder - 1);
            } else {
                self.showdown_leaf();
            }
            proof {
                let prefix2 = prefix.push(sc);
                if remainder == 0 {
                    assert(prefix2 =~= old(self).hand_ranking_scores@.take(np1 as int).push(sc));
                    assert(prefix2.len() == nvill + 1);
                    assert(prefix2 =~= self.hand_ranking_scores@);
                    assert((self.total, self.wins@, self.ties@) == spec_showdown_update(
                        prefix2,
                        tallies_before.0,
                        tallies_before.1,
                        tallies_before.2,
                    ));
                } else {
                    assert((self.total, self.wins@, self.ties@) == spec_enum_villains(
                        self.villain_ranges@,
                        self.community_cards,
                        new_known,
                        prefix2,
                        tallies_before.0,
                        tallies_before.1,
                        tallies_before.2,
                    ));
                }
                assert(self.hand_ranking_scores@.take(np1 as int) =~= prefix);
                assert(target == spec_enum_villains_iter(
                    self.villain_ranges@,
                    self.community_cards,
                    current_known_cards,
                    prefix,
                    hands@,
                    iold + 1,
                    self.total,
                    self.wins@,
                    self.ties@,
                ));
            }
        }
    }
}

impl Equity {
    /// Exact equities: walks every board completion and every villain hand
    /// assignment within the declared ranges.  Yields nothing when the input
    /// is invalid; also when the pre-flight bound finds the enumeration too
    /// large to tally, or when every assignment collides and no tuple at all
    /// was scored.
    pub fn enumerate(
        community_cards: Cards,
        hero_hand: Hand,
        villain_ranges: &Vec<RangeTable>,
    ) -> (r: Option<Vec<Equity>>)
        requires
            community_cards.wf(),
            hero_hand.wf(),
            forall|i: int| 0 <= i < villain_ranges@.len() ==> (#[trigger] villain_ranges@[i]).wf(),
        ensures
            !spec_valid_input(community_cards, hero_hand.spec_mask(), villain_ranges@) ==> r
                is None,
            spec_total_combos_upper_bound(community_cards, villain_ranges@) > TOTAL_CAP ==> r
                is None,
            (spec_valid_input(community_cards, hero_hand.spec_mask(), villain_ranges@)
                && spec_total_combos_upper_bound(community_cards, villain_ranges@) <= TOTAL_CAP)
                ==> (r is Some <==> spec_enumeration(
                community_cards,
                hero_hand.spec_mask(),
                villain_ranges@,
            ).0 > 0),
            r matches Some(es) ==> ({
                let fold = spec_enumeration(community_cards, hero_hand.spec_mask(), villain_ranges@);
                &&& spec_valid_input(community_cards, hero_hand.spec_mask(), villain_ranges@)
                &&& es@.len() == villain_ranges@.len() + 1
                &&& es@[0].total > 0
                &&& forall|i: int|
                    0 <= i < es@.len() ==> (#[trigger] es@[i]) == (Equity {
                        wins: fold.1[i],
                        ties: fold.2[i],
                        total: fold.0,
                    })
                &&& forall|i: int| 0 <= i < es@.len() ==> (#[trigger] es@[i]).total == es@[0].total
                &&& sum_wins(es@) * 2520 + sum_ties(es@) == es@[0].total * 2520
            }),
    {
        let hero_cards = hero_hand.to_cards();
        if !valid_input(community_cards, hero_cards, villain_ranges) {
            return None;
        }
        let bound = total_combos_upper_bound(community_cards, villain_ranges);
        if bound > (TOTAL_CAP as u128) {
            return None;
        }
        let n = villain_ranges.len();
        let (scores, wins, ties) = fresh_tallies(n + 1);
        let visited = community_cards.or(hero_cards);
        proof {
            lemma_subset_alg(community_cards.0, hero_cards.0, 0);
        }
        let mut calc = EquityCalculator {
            known_cards: Cards::empty(),
            hero_cards,
            visited_community_cards: visited,
            community_cards,
            villain_ranges,
            hand_ranking_scores: scores,
            total: 0,
            wins,
            ties,
        };
        let remaining = 5 - community_cards.count();
        proof {
            let fold = spec_enumeration(community_cards, hero_hand.spec_mask(), villain_ranges@);
            assert(calc.wins@ == Seq::new(villain_ranges@.len() + 1, |i: int| 0u64));
            assert(remaining as int == 5 - community_cards.spec_count());
        }
        calc.boards(remaining as usize);
        proof {
            let fold = spec_enumeration(community_cards, hero_hand.spec_mask(), villain_ranges@);
            assert((calc.total, calc.wins@, calc.ties@) == fold);
        }
        if calc.total == 0 {
            return None;
        }
        let es = Equity::from_total_wins_ties(calc.total, &calc.wins, &calc.ties);
        proof {
            lemma_sums_map(es@, calc.wins@, calc.ties@, calc.total);
        }
        Some(es)
    }

    /// Monte-Carlo equities against unconstrained villains: per round, the
    /// deck is revived, the board completed, and every villain dealt two
    /// cards.  Yields nothing exactly when the input is invalid or no
    /// rounds were asked for.
    pub fn simulate(
        start_community_cards: Cards,
        hero_hand: Hand,
        villain_count: usize,
        rounds: u64,
    ) -> (r: Option<Vec<Equity>>)
        requires
            start_community_cards.wf(),
            hero_hand.wf(),
            rounds <= TOTAL_CAP,
        ensures
            r is Some <==> (spec_valid_input_base(
                start_community_cards,
                hero_hand.spec_mask(),
                villain_count as int,
            ) && rounds > 0),
            r matches Some(es) ==> ({
                &&& es@.len() == villain_count + 1
                &&& forall|i: int| 0 <= i < es@.len() ==> (#[trigger] es@[i]).total == rounds
                &&& sum_wins(es@) * 2520 + sum_ties(es@) == rounds * 2520
            }),
    {
        let hero_cards = hero_hand.to_cards();
        if !valid_input_without_ranges(start_community_cards, hero_cards, villain_count) {
            return None;
        }
        if rounds == 0 {
            return None;
        }
        let mut rng = rng_from_entropy();
        let remaining_community_cards = 5 - start_community_cards.count();
        let player_count = villain_count + 1;
        let (mut scores, mut wins, mut ties) = fresh_tallies(player_count);
        let known = start_community_cards.or(hero_cards);
        proof {
            lemma_pop64_mask_full();
        }
        let mut deck = Deck::from_cards(&mut rng, known);
        let mut round: u64 = 0;
        while round < rounds
            invariant
                deck.wf(),
                deck.max_len >= 45,
                hero_cards.wf(),
                start_community_cards.wf(),
                scores@.len() == player_count,
                wins@.len() == player_count,
                ties@.len() == player_count,
                2 <= player_count == villain_count + 1 <= 9,
                remaining_community_cards <= 5,
                round <= rounds <= TOTAL_CAP,
                sum64(wins@) * 2520 + sum64(ties@) == round * 2520,
            decreases rounds - round,
        {
            deck.reset();
            let mut community_cards = start_community_cards;
            let mut d: u8 = 0;
            while d < remaining_community_cards
                invariant
                    deck.wf(),
                    deck.max_len >= 45,
                    d <= remaining_community_cards <= 5,
                    deck.len == deck.max_len - d,
                    community_cards.wf(),
                decreases remaining_community_cards - d,
            {
                let card = deck.draw(&mut rng).unwrap();
                community_cards = community_cards.or(Cards::single(card));
                d = d + 1;
            }
            let hero_board = community_cards.or(hero_cards);
            scores.set(0, hero_board.score_fast());
            let mut p: usize = 1;
            while p < player_count
                invariant
                    deck.wf(),
                    deck.max_len >= 45,
                    1 <= p <= player_count <= 9,
                    deck.len == deck.max_len - remaining_community_cards - 2 * (p - 1),
                    remaining_community_cards <= 5,
                    community_cards.wf(),
                    scores@.len() == player_count,
                decreases player_count - p,
            {
                let hand = deck.hand(&mut rng).unwrap();
                let player_cards = community_cards.or(hand.to_cards());
                scores.set(p, player_cards.score_fast());
                p = p + 1;
            }
            proof {
                lemma_sum64_nonneg(ties@);
                lemma_sum64_nonneg(wins@);
                assert(sum64(wins@) * 2520 <= round * 2520) by (nonlinear_arith)
                    requires
                        sum64(wins@) * 2520 + sum64(ties@) == round * 2520,
                        sum64(ties@) >= 0,
                ;
                assert(sum64(wins@) < TOTAL_CAP) by (nonlinear_arith)
                    requires
                        sum64(wins@) * 2520 <= round * 2520,
                        round < TOTAL_CAP,
                        sum64(wins@) >= 0,
                ;
                assert(round * 2520 + 2520 == (round + 1) * 2520) by (nonlinear_arith);
                assert((round + 1) * 2520 <= TOTAL_CAP * 2520) by (nonlinear_arith)
                    requires
                        round + 1 <= TOTAL_CAP,
                ;
            }
            showdown(&scores, &mut wins, &mut ties);
            round = round + 1;
        }
        let es = Equity::from_total_wins_ties(rounds, &wins, &ties);
        proof {
            lemma_sums_map(es@, wins@, ties@, rounds);
        }
        Some(es)
    }
}

/// Zeroed score and tally vectors of the given length.
fn fresh_tallies(n: usize) -> (r: (Vec<Score>, Vec<u64>, Vec<u64>))
    ensures
        r.0@.len() == n,
        r.1@.len() == n,
        r.2@.len() == n,
        sum64(r.1@) == 0,
        sum64(r.2@) == 0,
        r.1@ == Seq::new(n as nat, |i: int| 0u64),
        r.2@ == Seq::new(n as nat, |i: int| 0u64),
{
    let mut scores: Vec<Score> = Vec::new();
    let mut wins: Vec<u64> = Vec::new();
    let mut ties: Vec<u64> = Vec::new();
    let mut i: usize = 0;
    while i < n
        invariant
            scores@.len() == i,
            wins@.len() == i,
            ties@.len() == i,
            i <= n,
            sum64(wins@) == 0,
            sum64(ties@) == 0,
            forall|k: int| 0 <= k < i ==> wins@[k] == 0u64 && ties@[k] == 0u64,
        decreases n - i,
    {
        proof {
            lemma_sum64_push(wins@, 0);
            lemma_sum64_push(ties@, 0);
        }
        scores.push(Score::zero());
        wins.push(0);
        ties.push(0);
        i = i + 1;
    }
    proof {
        assert(wins@ =~= Seq::new(n as nat, |i: int| 0u64));
        assert(ties@ =~= Seq::new(n as nat, |i: int| 0u64));
    }
    (scores, wins, ties)
}

/// Pointwise equal tallies have equal sums.
proof fn lemma_sums_map(es: Seq<Equity>, wins: Seq<u64>, ties: Seq<u64>, total: u64)
    requires
        es.len() == wins.len() == ties.len(),
        forall|i: int|
            0 <= i < es.len() ==> (#[trigger] es[i]) == (Equity {
                wins: wins[i],
                ties: ties[i],
                total,
            }),
    ensures
        sum_wins(es) == sum64(wins),
        sum_ties(es) == sum64(ties),
    decreases es.len(),
{
    if es.len() > 0 {
        assert forall|i: int|
            0 <= i < es.skip(1).len() implies (#[trigger] es.skip(1)[i]) == (Equity {
            wins: wins.skip(1)[i],
            ties: ties.skip(1)[i],
            total,
        }) by {
            assert(es.skip(1)[i] == es[i + 1]);
        }
        lemma_sums_map(es.skip(1), wins.skip(1), ties.skip(1), total);
    }
}

/// Mask inclusion: a set sits inside its unions, adding one card to both a
/// set and its superset keeps the inclusion, and growing the superset alone
/// keeps it too.
pub proof fn lemma_subset_alg(c: u64, v: u64, j: u64)
    by (bit_vector)
    requires
        j < 64,
    ensures
        c & c == c,
        c & v == v & c,
        c & (c | v) == c,
        c & (v | c) == c,
        c & v == c ==> (c | (1u64 << j)) & (v | (1u64 << j)) == (c | (1u64 << j)),
        c & v == c ==> c & (v | (1u64 << j)) == c,
        c & v == c ==> (c & !(1u64 << j)) & v == (c & !(1u64 << j)),
        v & c == c ==> c & v == c,
{
}

/// Swapping two entries keeps a sequence free of duplicates.
proof fn lemma_swap_no_dup(s: Seq<Card>, i: int, j: int)
    requires
        0 <= i < s.len(),
        0 <= j < s.len(),
        s.no_duplicates(),
    ensures
        s.update(i, s[j]).update(j, s[i]).no_duplicates(),
{
    let t = s.update(i, s[j]).update(j, s[i]);
    assert forall|p: int, q: int| 0 <= p < q < t.len() implies t[p] != t[q] by {
        assert(s[if p == i {
            j
        } else if p == j {
            i
        } else {
            p
        }] == t[p]);
        assert(s[if q == i {
            j
        } else if q == j {
            i
        } else {
            q
        }] == t[q]);
    }
}

/// The saturating descending product.
fn prod_desc(start: u128, k: u8) -> (r: u128)
    requires
        k <= 21,
        start >= k,
    ensures
        r == spec_prod_desc(start as int, k as nat),
{
    let mut r: u128 = 1;
    let mut j: u8 = 0;
    while j < k
        invariant
            j <= k,
            start >= k,
            r == spec_prod_desc(start as int, j as nat),
        decreases k - j,
    {
        r = match r.checked_mul(start - (j as u128)) {
            Some(n) => n,
            None => u128::MAX,
        };
        j = j + 1;
    }
    r
}

} // verus!
