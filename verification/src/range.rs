//! Compressed hand ranges: a 13-by-13 table of cells, one row of rank bits
//! per rank.  The cell at row `a`, column `b` means the suited hand `a-b`
//! when `a > b`, the offsuit hand `b-a` when `a < b`, and the pair on the
//! diagonal.

use vstd::prelude::*;

use crate::bits::{bit16, pop16};
use crate::card::Card;
use crate::cards::{Cards, CardsByRank};
use crate::error::Error;
use crate::hand::Hand;
use crate::rank::Rank;
use crate::suite::Suite;
use vstd::string::StringSliceAdditionalSpecFns;

verus! {

/// One cell of a range: the ordered ranks and whether the hand is suited.
#[derive(Clone, Copy, Debug, PartialEq, Eq, Structural)]
pub(crate) struct RangeEntry {
    pub high: Rank,
    pub low: Rank,
    pub suited: bool,
}

impl RangeEntry {
    /// Pairs sit on the diagonal and are never suited.
    pub(crate) open spec fn wf(self) -> bool {
        self.high.as_int() >= self.low.as_int() && (self.high == self.low ==> !self.suited)
    }

    /// The row and column of the entry's cell.
    pub(crate) open spec fn spec_cell(self) -> (int, int) {
        if self.suited {
            (self.high.as_int(), self.low.as_int())
        } else {
            (self.low.as_int(), self.high.as_int())
        }
    }
}

/// A set of two-card hands, compressed to 13 rows of rank bits.
#[derive(Clone, Copy, Debug)]
pub struct RangeTable {
    pub table: [CardsByRank; 13],
}

/// The row a hand falls in: its high rank when suited, its low rank when not.
pub open spec fn spec_row_of(h: Hand) -> int {
    if h.spec_suited() {
        h.0.rank_int()
    } else {
        h.1.rank_int()
    }
}

/// The column a hand falls in.
pub open spec fn spec_col_of(h: Hand) -> int {
    if h.spec_suited() {
        h.1.rank_int()
    } else {
        h.0.rank_int()
    }
}

/// The thirteen rows of a range table as raw rank masks.
pub open spec fn spec_rows(t: RangeTable) -> Seq<u16> {
    Seq::new(13, |i: int| t.table@[i].0)
}

impl RangeTable {
    pub open spec fn wf(self) -> bool {
        forall|i: int| 0 <= i < 13 ==> (#[trigger] self.table@[i]).wf()
    }

    /// Whether the cell at row `a`, column `b` is set.
    pub open spec fn spec_cell(self, a: int, b: int) -> bool {
        bit16(self.table@[a].0, b as u16)
    }

    /// Whether the range holds the hand.
    pub open spec fn spec_contains_hand(self, h: Hand) -> bool {
        self.spec_cell(spec_row_of(h), spec_col_of(h))
    }

    pub fn empty() -> (r: RangeTable)
        ensures
            r.wf(),
            forall|i: int| 0 <= i < 13 ==> (#[trigger] r.table@[i]).0 == 0,
            forall|h: Hand| h.wf() ==> !r.spec_contains_hand(h),
    {
        let row = CardsByRank::empty();
        let t = RangeTable { table: [row;13] };
        proof {
            crate::bits::lemma_bit64_zero();
            crate::cards::lemma_bit16_zero();
            assert forall|h: Hand| h.wf() implies !t.spec_contains_hand(h) by {
                assert(0 <= spec_col_of(h) < 13);
            }
        }
        t
    }

    /// Whether the range holds the hand.
    pub fn contains(&self, hand: Hand) -> (r: bool)
        requires
            self.wf(),
            hand.wf(),
        ensures
            r == self.spec_contains_hand(hand),
    {
        let suited = hand.suited();
        let hr = hand.high().rank();
        let lr = hand.low().rank();
        let (a, b) = if suited {
            (hr, lr)
        } else {
            (lr, hr)
        };
        self.table[a.to_usize()].has(b)
    }

    pub(crate) fn contains_entry(&self, entry: RangeEntry) -> (r: bool)
        requires
            self.wf(),
            entry.wf(),
        ensures
            r == self.spec_cell(entry.spec_cell().0, entry.spec_cell().1),
    {
        let (a, b) = if entry.suited {
            (entry.high, entry.low)
        } else {
            (entry.low, entry.high)
        };
        self.table[a.to_usize()].has(b)
    }

    /// Sets the entry's cell; reports `false` when it was already set.
    pub(crate) fn try_add(&mut self, entry: RangeEntry) -> (r: bool)
        requires
            old(self).wf(),
            entry.wf(),
        ensures
            final(self).wf(),
            r == !old(self).spec_cell(entry.spec_cell().0, entry.spec_cell().1),
            !r ==> final(self).table@ =~= old(self).table@,
            forall|a: int, b: int|
                0 <= a < 13 && 0 <= b < 16 ==> final(self).spec_cell(a, b) == (old(self).spec_cell(
                    a,
                    b,
                ) || (r && a == entry.spec_cell().0 && b == entry.spec_cell().1)),
            r ==> spec_rows(*final(self)) =~= spec_rows(*old(self)).update(
                entry.spec_cell().0,
                spec_rows(*old(self))[entry.spec_cell().0] | (1u16 << (entry.spec_cell().1 as u16)),
            ),
            !r ==> spec_rows(*final(self)) =~= spec_rows(*old(self)),
    {
        let (a, b) = if entry.suited {
            (entry.high, entry.low)
        } else {
            (entry.low, entry.high)
        };
        let i = a.to_usize();
        let mut row = self.table[i];
        let added = row.try_add(b);
        if added {
            self.table[i] = row;
            proof {
                assert forall|a2: int, b2: int| 0 <= a2 < 13 && 0 <= b2 < 16 implies self.spec_cell(
                    a2,
                    b2,
                ) == (old(self).spec_cell(a2, b2) || (a2 == entry.spec_cell().0 && b2
                    == entry.spec_cell().1)) by {
                    if a2 == a.as_int() {
                        assert(self.table@[a2].spec_has_i(b2 as u16) == (old(
                            self,
                        ).table@[a2].spec_has_i(b2 as u16) || b2 == b.as_int()));
                    }
                }
            }
        }
        added
    }

    /// Whether no cell is set.
    pub fn is_empty(&self) -> (r: bool)
        requires
            self.wf(),
        ensures
            r == (forall|i: int| 0 <= i < 13 ==> (#[trigger] self.table@[i]).0 == 0),
    {
        let mut i: usize = 0;
        while i < 13
            invariant
                i <= 13,
                forall|k: int| 0 <= k < i ==> (#[trigger] self.table@[k]).0 == 0,
            decreases 13 - i,
        {
            if self.table[i].0 != 0 {
                return false;
            }
            i = i + 1;
        }
        true
    }

    /// The number of set cells among rows below `k`.
    pub open spec fn spec_cells_rec(t: Seq<CardsByRank>, k: int) -> nat
        decreases k,
    {
        if k <= 0 {
            0
        } else {
            Self::spec_cells_rec(t, k - 1) + pop16(t[k - 1].0)
        }
    }

    /// The number of set cells.
    pub open spec fn spec_cells(self) -> nat {
        Self::spec_cells_rec(self.table@, 13)
    }

    /// The number of set cells of the table.
    pub fn count(&self) -> (r: u8)
        requires
            self.wf(),
        ensures
            r == self.spec_cells(),
    {
        let mut i: usize = 0;
        let mut total: u8 = 0;
        while i < 13
            invariant
                i <= 13,
                self.wf(),
                total == Self::spec_cells_rec(self.table@, i as int),
                total <= 16 * i,
            decreases 13 - i,
        {
            proof {
                vstd::arithmetic::power2::lemma2_to64();
                crate::bits::lemma_pop64_le(self.table@[i as int].0 as u64, 16);
            }
            total = total + self.table[i].count_u8();
            i = i + 1;
        }
        total
    }
}

/// The four one-suit hands of the suited cell `h-l`, in suite order.
pub open spec fn spec_suited_hands(h: int, l: int) -> Seq<Hand> {
    seq![
        Hand(Card((16 * 0 + h) as i8), Card((16 * 0 + l) as i8)),
        Hand(Card((16 * 1 + h) as i8), Card((16 * 1 + l) as i8)),
        Hand(Card((16 * 2 + h) as i8), Card((16 * 2 + l) as i8)),
        Hand(Card((16 * 3 + h) as i8), Card((16 * 3 + l) as i8)),
    ]
}

/// The twelve two-suit hands of the offsuit cell `h-l`, high card's suite
/// first.
pub open spec fn spec_offsuit_hands(h: int, l: int) -> Seq<Hand> {
    seq![
        Hand(Card((16 * 0 + h) as i8), Card((16 * 1 + l) as i8)),
        Hand(Card((16 * 0 + h) as i8), Card((16 * 2 + l) as i8)),
        Hand(Card((16 * 0 + h) as i8), Card((16 * 3 + l) as i8)),
        Hand(Card((16 * 1 + h) as i8), Card((16 * 0 + l) as i8)),
        Hand(Card((16 * 1 + h) as i8), Card((16 * 2 + l) as i8)),
        Hand(Card((16 * 1 + h) as i8), Card((16 * 3 + l) as i8)),
        Hand(Card((16 * 2 + h) as i8), Card((16 * 0 + l) as i8)),
        Hand(Card((16 * 2 + h) as i8), Card((16 * 1 + l) as i8)),
        Hand(Card((16 * 2 + h) as i8), Card((16 * 3 + l) as i8)),
        Hand(Card((16 * 3 + h) as i8), Card((16 * 0 + l) as i8)),
        Hand(Card((16 * 3 + h) as i8), Card((16 * 1 + l) as i8)),
        Hand(Card((16 * 3 + h) as i8), Card((16 * 2 + l) as i8)),
    ]
}

/// The six hands of the pair cell of rank `r`, higher suite first.
pub open spec fn spec_pair_hands(r: int) -> Seq<Hand> {
    seq![
        Hand(Card((16 * 1 + r) as i8), Card((16 * 0 + r) as i8)),
        Hand(Card((16 * 2 + r) as i8), Card((16 * 0 + r) as i8)),
        Hand(Card((16 * 2 + r) as i8), Card((16 * 1 + r) as i8)),
        Hand(Card((16 * 3 + r) as i8), Card((16 * 0 + r) as i8)),
        Hand(Card((16 * 3 + r) as i8), Card((16 * 1 + r) as i8)),
        Hand(Card((16 * 3 + r) as i8), Card((16 * 2 + r) as i8)),
    ]
}

/// The concrete hands of one cell, empty when the cell is clear.
pub open spec fn spec_cell_hands(t: RangeTable, a: int, b: int) -> Seq<Hand> {
    if !t.spec_cell(a, b) {
        Seq::empty()
    } else if a > b {
        spec_suited_hands(a, b)
    } else if a < b {
        spec_offsuit_hands(b, a)
    } else {
        spec_pair_hands(a)
    }
}

/// The hands of row `a`'s cells at columns below `k`, in column order.
pub open spec fn spec_row_hands(t: RangeTable, a: int, k: int) -> Seq<Hand>
    decreases k,
{
    if k <= 0 {
        Seq::empty()
    } else {
        spec_row_hands(t, a, k - 1) + spec_cell_hands(t, a, k - 1)
    }
}

/// The hands of the rows below `k`, in row order.
pub open spec fn spec_hands_upto(t: RangeTable, k: int) -> Seq<Hand>
    decreases k,
{
    if k <= 0 {
        Seq::empty()
    } else {
        spec_hands_upto(t, k - 1) + spec_row_hands(t, k - 1, 13)
    }
}

/// Every concrete hand of the range, row by row, column by column, in the
/// fixed per-cell suite order.
pub open spec fn spec_all_hands(t: RangeTable) -> Seq<Hand> {
    spec_hands_upto(t, 13)
}

/// Builds a hand from rank and suite codes; the first card must sort above.
fn mk_hand(ra: Rank, sa: i8, rb: Rank, sb: i8) -> (r: Hand)
    requires
        0 <= sa < 4,
        0 <= sb < 4,
        ra.as_int() > rb.as_int() || (ra.as_int() == rb.as_int() && sa > sb),
    ensures
        r == (Hand(
            Card::spec_of(ra, Suite::spec_from_int(sa as int).unwrap()),
            Card::spec_of(rb, Suite::spec_from_int(sb as int).unwrap()),
        )),
        r.wf(),
        r.0.rank_int() == ra.as_int() && r.0.suite_int() == sa,
        r.1.rank_int() == rb.as_int() && r.1.suite_int() == sb,
{
    let a = Card::of(ra, Suite::from_i8(sa).unwrap());
    let b = Card::of(rb, Suite::from_i8(sb).unwrap());
    Hand(a, b)
}

/// The four one-suit hands of a suited cell.
fn suited_cell_hands(high: Rank, low: Rank) -> (r: Vec<Hand>)
    requires
        high.as_int() > low.as_int(),
    ensures
        r@.len() == 4,
        forall|i: int|
            0 <= i < r@.len() ==> (#[trigger] r@[i]).wf() && r@[i].spec_suited() && spec_row_of(
                r@[i],
            ) == high.as_int() && spec_col_of(r@[i]) == low.as_int(),
        forall|h: Hand|
            h.wf() && h.spec_suited() && h.0.rank_int() == high.as_int() && h.1.rank_int()
                == low.as_int() ==> r@.contains(h),
        forall|i: int, j: int| 0 <= i < j < r@.len() ==> r@[i] != r@[j],
        r@ =~= spec_suited_hands(high.as_int(), low.as_int()),
{
    let mut out: Vec<Hand> = Vec::new();
    out.push(mk_hand(high, 0, low, 0));
    out.push(mk_hand(high, 1, low, 1));
    out.push(mk_hand(high, 2, low, 2));
    out.push(mk_hand(high, 3, low, 3));
    proof {
        assert forall|h: Hand|
            h.wf() && h.spec_suited() && h.0.rank_int() == high.as_int() && h.1.rank_int()
                == low.as_int() implies out@.contains(h) by {
            let sa = h.0.suite_int();
            assert(h.0.0 == 16 * h.0.suite_int() + h.0.rank_int());
            assert(h.1.0 == 16 * h.1.suite_int() + h.1.rank_int());
            assert(out@[sa] == h);
        }
    }
    out
}

/// The twelve two-suit hands of an offsuit cell.
fn offsuit_cell_hands(high: Rank, low: Rank) -> (r: Vec<Hand>)
    requires
        high.as_int() > low.as_int(),
    ensures
        r@.len() == 12,
        forall|i: int|
            0 <= i < r@.len() ==> (#[trigger] r@[i]).wf() && !r@[i].spec_suited() && spec_row_of(
                r@[i],
            ) == low.as_int() && spec_col_of(r@[i]) == high.as_int(),
        forall|h: Hand|
            h.wf() && !h.spec_suited() && h.0.rank_int() == high.as_int() && h.1.rank_int()
                == low.as_int() ==> r@.contains(h),
        forall|i: int, j: int| 0 <= i < j < r@.len() ==> r@[i] != r@[j],
        r@ =~= spec_offsuit_hands(high.as_int(), low.as_int()),
{
    let mut out: Vec<Hand> = Vec::new();
    out.push(mk_hand(high, 0, low, 1));
    out.push(mk_hand(high, 0, low, 2));
    out.push(mk_hand(high, 0, low, 3));
    out.push(mk_hand(high, 1, low, 0));
    out.push(mk_hand(high, 1, low, 2));
    out.push(mk_hand(high, 1, low, 3));
    out.push(mk_hand(high, 2, low, 0));
    out.push(mk_hand(high, 2, low, 1));
    out.push(mk_hand(high, 2, low, 3));
    out.push(mk_hand(high, 3, low, 0));
    out.push(mk_hand(high, 3, low, 1));
    out.push(mk_hand(high, 3, low, 2));
    proof {
        assert forall|h: Hand|
            h.wf() && !h.spec_suited() && h.0.rank_int() == high.as_int() && h.1.rank_int()
                == low.as_int() implies out@.contains(h) by {
            let sa = h.0.suite_int();
            let sb = h.1.suite_int();
            assert(h.0.0 == 16 * h.0.suite_int() + h.0.rank_int());
            assert(h.1.0 == 16 * h.1.suite_int() + h.1.rank_int());
            let i: int = if sa == 0 && sb == 1 {
                0
            } else if sa == 0 && sb == 2 {
                1
            } else if sa == 0 && sb == 3 {
                2
            } else if sa == 1 && sb == 0 {
                3
            } else if sa == 1 && sb == 2 {
                4
            } else if sa == 1 && sb == 3 {
                5
            } else if sa == 2 && sb == 0 {
                6
            } else if sa == 2 && sb == 1 {
                7
            } else if sa == 2 && sb == 3 {
                8
            } else if sa == 3 && sb == 0 {
                9
            } else if sa == 3 && sb == 1 {
                10
            } else {
                11
            };
            assert(out@[i] == h);
        }
    }
    out
}

/// The six hands of a pair cell.
fn pair_cell_hands(rank: Rank) -> (r: Vec<Hand>)
    ensures
        r@.len() == 6,
        forall|i: int|
            0 <= i < r@.len() ==> (#[trigger] r@[i]).wf() && !r@[i].spec_suited() && spec_row_of(
                r@[i],
            ) == rank.as_int() && spec_col_of(r@[i]) == rank.as_int(),
        forall|h: Hand|
            h.wf() && h.0.rank_int() == rank.as_int() && h.1.rank_int() == rank.as_int()
                ==> r@.contains(h),
        forall|i: int, j: int| 0 <= i < j < r@.len() ==> r@[i] != r@[j],
        r@ =~= spec_pair_hands(rank.as_int()),
{
    let mut out: Vec<Hand> = Vec::new();
    out.push(mk_hand(rank, 1, rank, 0));
    out.push(mk_hand(rank, 2, rank, 0));
    out.push(mk_hand(rank, 2, rank, 1));
    out.push(mk_hand(rank, 3, rank, 0));
    out.push(mk_hand(rank, 3, rank, 1));
    out.push(mk_hand(rank, 3, rank, 2));
    proof {
        assert forall|h: Hand|
            h.wf() && h.0.rank_int() == rank.as_int() && h.1.rank_int() == rank.as_int() implies
            out@.contains(h) by {
            let sa = h.0.suite_int();
            let sb = h.1.suite_int();
            assert(h.0.0 == 16 * h.0.suite_int() + h.0.rank_int());
            assert(h.1.0 == 16 * h.1.suite_int() + h.1.rank_int());
            assert(sa > sb);
            let i: int = if sa == 1 {
                0
            } else if sa == 2 && sb == 0 {
                1
            } else if sa == 2 {
                2
            } else if sa == 3 && sb == 0 {
                3
            } else if sa == 3 && sb == 1 {
                4
            } else {
                5
            };
            assert(out@[i] == h);
        }
    }
    out
}

impl RangeTable {
    /// The weight of one cell: how many concrete hands it stands for.
    pub open spec fn spec_cell_weight(self, a: int, b: int) -> nat {
        if !self.spec_cell(a, b) {
            0
        } else if a > b {
            4
        } else if a < b {
            12
        } else {
            6
        }
    }

    /// The weights of row `a`'s cells at columns below `k`.
    pub open spec fn spec_row_weight(self, a: int, k: int) -> nat
        decreases k,
    {
        if k <= 0 {
            0
        } else {
            self.spec_row_weight(a, k - 1) + self.spec_cell_weight(a, k - 1)
        }
    }

    /// The weights of the rows below `k`.
    pub open spec fn spec_weight_upto(self, k: int) -> nat
        decreases k,
    {
        if k <= 0 {
            0
        } else {
            self.spec_weight_upto(k - 1) + self.spec_row_weight(k - 1, 13)
        }
    }

    /// How many concrete hands the range stands for.
    pub open spec fn spec_num_hands(self) -> nat {
        self.spec_weight_upto(13)
    }

    /// Every concrete hand of the range, each exactly once.
    pub fn for_each_hand(&self) -> (r: Vec<Hand>)
        requires
            self.wf(),
        ensures
            forall|i: int|
                0 <= i < r@.len() ==> (#[trigger] r@[i]).wf() && self.spec_contains_hand(r@[i]),
            forall|h: Hand| h.wf() && self.spec_contains_hand(h) ==> r@.contains(h),
            forall|i: int, j: int| 0 <= i < j < r@.len() ==> r@[i] != r@[j],
            r@.len() == self.spec_num_hands(),
            r@ == spec_all_hands(*self),
    {
        let mut out: Vec<Hand> = Vec::new();
        let mut row: u8 = 0;
        proof {
            assert(out@ =~= spec_hands_upto(*self, 0) + spec_row_hands(*self, 0, 0));
        }
        while row < 13
            invariant
                self.wf(),
                row <= 13,
                out@ =~= spec_hands_upto(*self, row as int) + spec_row_hands(*self, row as int, 0),
                out@.len() == self.spec_weight_upto(row as int),
                forall|i: int|
                    0 <= i < out@.len() ==> (#[trigger] out@[i]).wf() && self.spec_contains_hand(
                        out@[i],
                    ) && spec_row_of(out@[i]) < row,
                forall|h: Hand|
                    h.wf() && self.spec_contains_hand(h) && spec_row_of(h) < row ==> out@.contains(
                        h,
                    ),
                forall|i: int, j: int| 0 <= i < j < out@.len() ==> out@[i] != out@[j],
            decreases 13 - row,
        {
            let mut col: u8 = 0;
            while col < 13
                invariant
                    self.wf(),
                    row < 13,
                    col <= 13,
                    out@ =~= spec_hands_upto(*self, row as int) + spec_row_hands(
                        *self,
                        row as int,
                        col as int,
                    ),
                    out@.len() == self.spec_weight_upto(row as int) + self.spec_row_weight(
                        row as int,
                        col as int,
                    ),
                    forall|i: int|
                        0 <= i < out@.len() ==> (#[trigger] out@[i]).wf()
                            && self.spec_contains_hand(out@[i]) && (spec_row_of(out@[i]) < row || (
                        spec_row_of(out@[i]) == row && spec_col_of(out@[i]) < col)),
                    forall|h: Hand|
                        h.wf() && self.spec_contains_hand(h) && (spec_row_of(h) < row || (
                        spec_row_of(h) == row && spec_col_of(h) < col)) ==> out@.contains(h),
                    forall|i: int, j: int| 0 <= i < j < out@.len() ==> out@[i] != out@[j],
                decreases 13 - col,
            {
                let col_rank = Rank::from_i8(col as i8).unwrap();
                let row_rank = Rank::from_i8(row as i8).unwrap();
                let ghost old_out = out@;
                if self.table[row as usize].has(col_rank) {
                    let mut cell: Vec<Hand> = if row > col {
                        suited_cell_hands(row_rank, col_rank)
                    } else if row < col {
                        offsuit_cell_hands(col_rank, row_rank)
                    } else {
                        pair_cell_hands(row_rank)
                    };
                    let ghost cellseq = cell@;
                    proof {
                        assert forall|i: int| 0 <= i < cellseq.len() implies (
                        #[trigger] cellseq[i]).wf() && spec_row_of(cellseq[i]) == row && spec_col_of(
                            cellseq[i],
                        ) == col && self.spec_contains_hand(cellseq[i]) by {}
                    }
                    out.append(&mut cell);
                    proof {
                        assert forall|h: Hand|
                            h.wf() && self.spec_contains_hand(h) && (spec_row_of(h) < row || (
                            spec_row_of(h) == row && spec_col_of(h) < col + 1)) implies
                            out@.contains(h) by {
                            if spec_row_of(h) == row && spec_col_of(h) == col {
                                assert(h.0.rank_int() >= h.1.rank_int());
                                if h.spec_suited() {
                                    assert(cellseq.contains(h));
                                } else if h.0.rank_int() == h.1.rank_int() {
                                    assert(cellseq.contains(h));
                                } else {
                                    assert(cellseq.contains(h));
                                }
                                let k = choose|k: int|
                                    0 <= k < cellseq.len() && cellseq[k] == h;
                                assert(out@[old_out.len() + k] == h);
                            } else {
                                assert(old_out.contains(h));
                                let k = choose|k: int| 0 <= k < old_out.len() && old_out[k] == h;
                                assert(out@[k] == h);
                            }
                        }
                        assert forall|i: int, j: int|
                            0 <= i < j < out@.len() implies out@[i] != out@[j] by {
                            if i < old_out.len() && j >= old_out.len() {
                                assert(spec_row_of(out@[i]) < row || spec_col_of(out@[i]) < col);
                                assert(spec_row_of(out@[j]) == row && spec_col_of(out@[j]) == col);
                            }
                        }
                    }
                    proof {
                        assert(out@ =~= spec_hands_upto(*self, row as int) + spec_row_hands(
                            *self,
                            row as int,
                            col as int + 1,
                        ));
                    }
                } else {
                    proof {
                        assert forall|h: Hand|
                            h.wf() && self.spec_contains_hand(h) && (spec_row_of(h) < row || (
                            spec_row_of(h) == row && spec_col_of(h) < col + 1)) implies
                            out@.contains(h) by {
                            if spec_row_of(h) == row && spec_col_of(h) == col {
                                assert(!self.spec_cell(row as int, col as int));
                                assert(false);
                            }
                        }
                        assert(out@ =~= spec_hands_upto(*self, row as int) + spec_row_hands(
                            *self,
                            row as int,
                            col as int + 1,
                        ));
                    }
                }
                col = col + 1;
            }
            proof {
                assert(out@ =~= spec_hands_upto(*self, row as int + 1) + spec_row_hands(
                    *self,
                    row as int + 1,
                    0,
                ));
            }
            row = row + 1;
        }
        proof {
            assert(out@ =~= spec_all_hands(*self));
        }
        out
    }

    /// Twice the number of concrete hands of the range: the number of cards
    /// they name, repeats counted.
    pub fn count_cards(&self) -> (r: u32)
        requires
            self.wf(),
        ensures
            r == 2 * self.spec_num_hands(),
    {
        let hands = self.for_each_hand();
        proof {
            lemma_num_hands_bound(*self);
        }
        (hands.len() as u32) * 2
    }

    /// The range with every cell set.
    pub fn full() -> (r: RangeTable)
        ensures
            r.wf(),
            forall|a: int, b: int| 0 <= a < 13 && 0 <= b < 13 ==> r.spec_cell(a, b),
            forall|h: Hand| h.wf() ==> r.spec_contains_hand(h),
    {
        let mut t = RangeTable::empty();
        let mut row: u8 = 0;
        while row < 13
            invariant
                t.wf(),
                row <= 13,
                forall|a: int, b: int|
                    0 <= a < 13 && 0 <= b < 13 && (a < row) ==> t.spec_cell(a, b),
            decreases 13 - row,
        {
            let mut col: u8 = 0;
            while col < 13
                invariant
                    t.wf(),
                    row < 13,
                    col <= 13,
                    forall|a: int, b: int|
                        0 <= a < 13 && 0 <= b < 13 && (a < row || (a == row && b < col))
                            ==> t.spec_cell(a, b),
                decreases 13 - col,
            {
                let row_rank = Rank::from_i8(row as i8).unwrap();
                let col_rank = Rank::from_i8(col as i8).unwrap();
                let entry = if row >= col {
                    RangeEntry { high: row_rank, low: col_rank, suited: row > col }
                } else {
                    RangeEntry { high: col_rank, low: row_rank, suited: false }
                };
                let _set = t.try_add(entry);
                col = col + 1;
            }
            row = row + 1;
        }
        proof {
            assert forall|h: Hand| h.wf() implies t.spec_contains_hand(h) by {
                assert(0 <= spec_row_of(h) < 13 && 0 <= spec_col_of(h) < 13);
            }
        }
        t
    }
}

// ---- The range-string grammar ------------------------------------------------

/// Sets the cell at row `a`, column `b`, or nothing when already set.
pub open spec fn spec_set_cell(rows: Seq<u16>, a: int, b: int) -> Option<Seq<u16>> {
    if bit16(rows[a], b as u16) {
        None
    } else {
        Some(rows.update(a, rows[a] | (1u16 << (b as u16))))
    }
}

/// Sets the cell of the entry `high-low`, suited or not.
pub open spec fn spec_set_entry(rows: Seq<u16>, high: int, low: int, suited: bool) -> Option<
    Seq<u16>,
> {
    if suited {
        spec_set_cell(rows, high, low)
    } else {
        spec_set_cell(rows, low, high)
    }
}

/// Sets every pair cell from rank `x` up to aces.
pub open spec fn spec_set_pairs_run(rows: Seq<u16>, x: int) -> Option<Seq<u16>>
    decreases 13 - x,
{
    if x >= 13 {
        Some(rows)
    } else {
        match spec_set_cell(rows, x, x) {
            None => None,
            Some(r2) => spec_set_pairs_run(r2, x + 1),
        }
    }
}

/// Sets the entries `high-x` for `x` from a low rank up to just under `high`.
pub open spec fn spec_set_asc_run(rows: Seq<u16>, high: int, x: int, suited: bool) -> Option<
    Seq<u16>,
>
    decreases high - x,
{
    if x >= high {
        Some(rows)
    } else {
        match spec_set_entry(rows, high, x, suited) {
            None => None,
            Some(r2) => spec_set_asc_run(r2, high, x + 1, suited),
        }
    }
}

/// Turns a duplicate cell into its error.
pub open spec fn spec_added(r: Option<Seq<u16>>) -> Result<Seq<u16>, Error> {
    match r {
        None => Err(Error::DuplicateRangeEntry),
        Some(rows) => Ok(rows),
    }
}

/// What one range entry, as bytes, does to the table rows.
///
/// The accepted shapes are `XX`, `XX+`, `XYs`, `XYs+`, `XYo` and `XYo+`,
/// with `X` and `Y` ranks and, for the non-pair shapes, `X` strictly above
/// `Y`.
pub open spec fn spec_parse_entry(rows: Seq<u16>, e: Seq<u8>) -> Result<Seq<u16>, Error> {
    if e.len() == 2 && e[0] == e[1] {
        match Rank::spec_of_char(e[0]) {
            None => Err(Error::BadRankChar(e[0])),
            Some(rk) => spec_added(spec_set_cell(rows, rk.as_int(), rk.as_int())),
        }
    } else if e.len() == 3 && e[0] == e[1] && e[2] == 43 {
        match Rank::spec_of_char(e[0]) {
            None => Err(Error::BadRankChar(e[0])),
            Some(rk) => spec_added(spec_set_pairs_run(rows, rk.as_int())),
        }
    } else if e.len() == 3 && (e[2] == 111 || e[2] == 115) {
        match Rank::spec_of_char(e[0]) {
            None => Err(Error::BadRankChar(e[0])),
            Some(h) => match Rank::spec_of_char(e[1]) {
                None => Err(Error::BadRankChar(e[1])),
                Some(l) => if l.as_int() >= h.as_int() {
                    Err(Error::LowNotBelowHigh)
                } else {
                    spec_added(spec_set_entry(rows, h.as_int(), l.as_int(), e[2] == 115))
                },
            },
        }
    } else if e.len() == 4 && (e[2] == 111 || e[2] == 115) && e[3] == 43 {
        match Rank::spec_of_char(e[0]) {
            None => Err(Error::BadRankChar(e[0])),
            Some(h) => match Rank::spec_of_char(e[1]) {
                None => Err(Error::BadRankChar(e[1])),
                Some(l) => if l.as_int() >= h.as_int() {
                    Err(Error::LowNotBelowHigh)
                } else {
                    spec_added(spec_set_asc_run(rows, h.as_int(), l.as_int(), e[2] == 115))
                },
            },
        }
    } else {
        Err(Error::BadRangeEntry)
    }
}

/// The position of the first comma at or after `i`, or the length.
pub open spec fn spec_find_comma(bytes: Seq<u8>, i: int) -> int
    decreases bytes.len() - i,
{
    if i < 0 || i >= bytes.len() {
        bytes.len() as int
    } else if bytes[i] == 44 {
        i
    } else {
        spec_find_comma(bytes, i + 1)
    }
}

pub proof fn lemma_find_comma(bytes: Seq<u8>, i: int)
    requires
        0 <= i <= bytes.len(),
    ensures
        i <= spec_find_comma(bytes, i) <= bytes.len(),
    decreases bytes.len() - i,
{
    if i < bytes.len() && bytes[i] != 44 {
        lemma_find_comma(bytes, i + 1);
    }
}

/// What the comma-separated list of entries from offset `i` on does to the
/// table rows.
pub open spec fn spec_parse_rec(rows: Seq<u16>, bytes: Seq<u8>, i: int) -> Result<Seq<u16>, Error>
    decreases bytes.len() - i,
    when 0 <= i <= bytes.len()
    via spec_parse_rec_decreases
{
    let k = spec_find_comma(bytes, i);
    match spec_parse_entry(rows, bytes.subrange(i, k)) {
        Err(e) => Err(e),
        Ok(r2) => if k >= bytes.len() {
            Ok(r2)
        } else {
            spec_parse_rec(r2, bytes, k + 1)
        },
    }
}

#[via_fn]
proof fn spec_parse_rec_decreases(rows: Seq<u16>, bytes: Seq<u8>, i: int) {
    lemma_find_comma(bytes, i);
}

/// What parsing a whole range string yields: the rows of the table, or the
/// first error.
pub open spec fn spec_parse_range(bytes: Seq<u8>) -> Result<Seq<u16>, Error> {
    spec_parse_rec(Seq::new(13, |i: int| 0u16), bytes, 0)
}

/// Sets one entry's cell, or reports the duplicate.
fn add_entry_checked(t: &mut RangeTable, entry: RangeEntry) -> (r: Result<(), Error>)
    requires
        old(t).wf(),
        entry.wf(),
    ensures
        final(t).wf(),
        match r {
            Ok(_) => spec_set_entry(
                spec_rows(*old(t)),
                entry.high.as_int(),
                entry.low.as_int(),
                entry.suited,
            ) == Some(spec_rows(*final(t))),
            Err(e) => spec_set_entry(
                spec_rows(*old(t)),
                entry.high.as_int(),
                entry.low.as_int(),
                entry.suited,
            ) is None && e == Error::DuplicateRangeEntry,
        },
{
    if t.try_add(entry) {
        Ok(())
    } else {
        Err(Error::DuplicateRangeEntry)
    }
}

/// Sets every pair cell from `rk` up to aces, or reports the duplicate.
#[verifier::loop_isolation(false)]
fn add_pairs_run(t: &mut RangeTable, rk: Rank) -> (r: Result<(), Error>)
    requires
        old(t).wf(),
    ensures
        final(t).wf(),
        match r {
            Ok(_) => spec_set_pairs_run(spec_rows(*old(t)), rk.as_int()) == Some(
                spec_rows(*final(t)),
            ),
            Err(e) => spec_set_pairs_run(spec_rows(*old(t)), rk.as_int()) is None && e
                == Error::DuplicateRangeEntry,
        },
{
    let ghost rows0 = spec_rows(*t);
    let mut x: i8 = rk.to_i8();
    while x < 13
        invariant
            t.wf(),
            rk.as_int() <= x <= 13,
            spec_set_pairs_run(rows0, rk.as_int()) == spec_set_pairs_run(spec_rows(*t), x as int),
        decreases 13 - x,
    {
        let xr = Rank::from_i8(x).unwrap();
        let entry = RangeEntry { high: xr, low: xr, suited: false };
        if !t.try_add(entry) {
            return Err(Error::DuplicateRangeEntry);
        }
        x = x + 1;
    }
    Ok(())
}

/// Sets the entries `high-x` for `x` from `l` up to just under `h`, or
/// reports the duplicate.
#[verifier::loop_isolation(false)]
fn add_asc_run(t: &mut RangeTable, h: Rank, l: Rank, suited: bool) -> (r: Result<(), Error>)
    requires
        old(t).wf(),
        l.as_int() < h.as_int(),
    ensures
        final(t).wf(),
        match r {
            Ok(_) => spec_set_asc_run(spec_rows(*old(t)), h.as_int(), l.as_int(), suited) == Some(
                spec_rows(*final(t)),
            ),
            Err(e) => spec_set_asc_run(spec_rows(*old(t)), h.as_int(), l.as_int(), suited) is None
                && e == Error::DuplicateRangeEntry,
        },
{
    let ghost rows0 = spec_rows(*t);
    let mut x: i8 = l.to_i8();
    let hi = h.to_i8();
    while x < hi
        invariant
            t.wf(),
            l.as_int() <= x <= hi,
            hi == h.as_int() < 13,
            spec_set_asc_run(rows0, h.as_int(), l.as_int(), suited) == spec_set_asc_run(
                spec_rows(*t),
                h.as_int(),
                x as int,
                suited,
            ),
        decreases hi - x,
    {
        let xr = Rank::from_i8(x).unwrap();
        let entry = RangeEntry { high: h, low: xr, suited };
        if !t.try_add(entry) {
            return Err(Error::DuplicateRangeEntry);
        }
        x = x + 1;
    }
    Ok(())
}

/// Applies one entry, the bytes `i..j`, to the table.
#[verifier::rlimit(50)]
fn apply_entry(t: &mut RangeTable, bytes: &[u8], i: usize, j: usize) -> (r: Result<(), Error>)
    requires
        old(t).wf(),
        i <= j <= bytes@.len(),
    ensures
        final(t).wf(),
        match r {
            Ok(_) => spec_parse_entry(spec_rows(*old(t)), bytes@.subrange(i as int, j as int))
                == Ok::<Seq<u16>, Error>(spec_rows(*final(t))),
            Err(e) => spec_parse_entry(spec_rows(*old(t)), bytes@.subrange(i as int, j as int))
                == Err::<Seq<u16>, Error>(e),
        },
{
    let ghost e = bytes@.subrange(i as int, j as int);
    let n = j - i;
    if n == 2 && bytes[i] == bytes[i + 1] {
        let rk = match Rank::from_ascii(bytes[i]) {
            Ok(rk) => rk,
            Err(err) => {
                return Err(err);
            },
        };
        let entry = RangeEntry { high: rk, low: rk, suited: false };
        add_entry_checked(t, entry)
    } else if n == 3 && bytes[i] == bytes[i + 1] && bytes[i + 2] == 43 {
        let rk = match Rank::from_ascii(bytes[i]) {
            Ok(rk) => rk,
            Err(err) => {
                return Err(err);
            },
        };
        add_pairs_run(t, rk)
    } else if n == 3 && (bytes[i + 2] == 111 || bytes[i + 2] == 115) {
        let h = match Rank::from_ascii(bytes[i]) {
            Ok(h) => h,
            Err(err) => {
                return Err(err);
            },
        };
        let l = match Rank::from_ascii(bytes[i + 1]) {
            Ok(l) => l,
            Err(err) => {
                return Err(err);
            },
        };
        if l.to_i8() >= h.to_i8() {
            return Err(Error::LowNotBelowHigh);
        }
        let entry = RangeEntry { high: h, low: l, suited: bytes[i + 2] == 115 };
        add_entry_checked(t, entry)
    } else if n == 4 && (bytes[i + 2] == 111 || bytes[i + 2] == 115) && bytes[i + 3] == 43 {
        let h = match Rank::from_ascii(bytes[i]) {
            Ok(h) => h,
            Err(err) => {
                return Err(err);
            },
        };
        let l = match Rank::from_ascii(bytes[i + 1]) {
            Ok(l) => l,
            Err(err) => {
                return Err(err);
            },
        };
        if l.to_i8() >= h.to_i8() {
            return Err(Error::LowNotBelowHigh);
        }
        add_asc_run(t, h, l, bytes[i + 2] == 115)
    } else {
        Err(Error::BadRangeEntry)
    }
}

impl RangeTable {
    /// Parses a comma-separated range string.
    #[verifier::loop_isolation(false)]
    pub fn parse(range_str: &str) -> (r: Result<RangeTable, Error>)
        ensures
            match r {
                Ok(t) => t.wf() && spec_parse_range(range_str.spec_bytes()) == Ok::<
                    Seq<u16>,
                    Error,
                >(spec_rows(t)),
                Err(e) => spec_parse_range(range_str.spec_bytes()) == Err::<Seq<u16>, Error>(e),
            },
    {
        let bytes = range_str.as_bytes();
        let mut t = RangeTable::empty();
        proof {
            assert(spec_rows(t) =~= Seq::new(13, |i: int| 0u16));
        }
        let mut i: usize = 0;
        loop
            invariant
                t.wf(),
                i <= bytes@.len(),
                bytes@ == range_str.spec_bytes(),
                spec_parse_range(range_str.spec_bytes()) == spec_parse_rec(
                    spec_rows(t),
                    bytes@,
                    i as int,
                ),
            decreases bytes@.len() - i,
        {
            let mut j = i;
            while j < bytes.len() && bytes[j] != 44
                invariant
                    i <= j <= bytes@.len(),
                    spec_find_comma(bytes@, i as int) == spec_find_comma(bytes@, j as int),
                decreases bytes@.len() - j,
            {
                j = j + 1;
            }
            proof {
                assert(spec_find_comma(bytes@, i as int) == j);
            }
            match apply_entry(&mut t, bytes, i, j) {
                Ok(_) => {},
                Err(e) => {
                    return Err(e);
                },
            }
            if j == bytes.len() {
                return Ok(t);
            }
            i = j + 1;
        }
    }
}

impl RangeTable {
    /// Every card that occurs in some hand of the range.
    pub fn card_set(&self) -> (r: Cards)
        requires
            self.wf(),
        ensures
            r.wf(),
            forall|c: Card|
                c.wf() ==> ((#[trigger] r.spec_has(c)) <==> exists|h: Hand|
                    h.wf() && #[trigger] self.spec_contains_hand(h) && (h.0 == c || h.1 == c)),
    {
        let hands = self.for_each_hand();
        let mut cards = Cards::empty();
        let mut i: usize = 0;
        proof {
            crate::bits::lemma_bit64_zero();
        }
        while i < hands.len()
            invariant
                self.wf(),
                i <= hands@.len(),
                cards.wf(),
                forall|k: int|
                    0 <= k < hands@.len() ==> (#[trigger] hands@[k]).wf()
                        && self.spec_contains_hand(hands@[k]),
                forall|h: Hand| h.wf() && self.spec_contains_hand(h) ==> hands@.contains(h),
                forall|j: u64|
                    j < 64 ==> ((#[trigger] cards.spec_has_i(j)) <==> exists|k: int|
                        0 <= k < i && ((#[trigger] hands@[k]).0.0 as u64 == j || hands@[k].1.0
                            as u64 == j)),
            decreases hands@.len() - i,
        {
            let hand = hands[i];
            let ghost pre = cards;
            cards.try_add(hand.high());
            let ghost midc = cards;
            cards.try_add(hand.low());
            proof {
                assert forall|j: u64|
                    j < 64 implies ((#[trigger] cards.spec_has_i(j)) <==> exists|k: int|
                    0 <= k < i + 1 && ((#[trigger] hands@[k]).0.0 as u64 == j || hands@[k].1.0
                        as u64 == j)) by {
                    if cards.spec_has_i(j) {
                        if !pre.spec_has_i(j) {
                            assert(hands@[i as int].0.0 as u64 == j || hands@[i as int].1.0 as u64
                                == j);
                        } else {
                            let k = choose|k: int|
                                0 <= k < i && ((#[trigger] hands@[k]).0.0 as u64 == j
                                    || hands@[k].1.0 as u64 == j);
                        }
                    } else {
                        assert(!pre.spec_has_i(j));
                    }
                }
            }
            i = i + 1;
        }
        proof {
            assert forall|c: Card|
                c.wf() implies ((#[trigger] cards.spec_has(c)) <==> exists|h: Hand|
                h.wf() && #[trigger] self.spec_contains_hand(h) && (h.0 == c || h.1 == c)) by {
                if cards.spec_has(c) {
                    assert(cards.spec_has_i(c.0 as u64));
                    assert(exists|k: int|
                        0 <= k < hands@.len() && ((#[trigger] hands@[k]).0.0 as u64 == c.0 as u64
                            || hands@[k].1.0 as u64 == c.0 as u64));
                    let k = choose|k: int|
                        0 <= k < hands@.len() && ((#[trigger] hands@[k]).0.0 as u64 == c.0 as u64
                            || hands@[k].1.0 as u64 == c.0 as u64);
                    let h = hands@[k];
                    assert(h.wf() && self.spec_contains_hand(h));
                    assert(0 <= h.0.0 && 0 <= h.1.0 && 0 <= c.0);
                    assert(h.0.0 == c.0 || h.1.0 == c.0);
                    assert(h.0 == c || h.1 == c);
                } else {
                    if exists|h: Hand|
                        h.wf() && #[trigger] self.spec_contains_hand(h) && (h.0 == c || h.1 == c) {
                        let h = choose|h: Hand|
                            h.wf() && #[trigger] self.spec_contains_hand(h) && (h.0 == c || h.1
                                == c);
                        assert(hands@.contains(h));
                        let k = choose|k: int| 0 <= k < hands@.len() && hands@[k] == h;
                        assert(hands@[k].0.0 as u64 == c.0 as u64 || hands@[k].1.0 as u64 == c.0
                            as u64);
                        assert(cards.spec_has_i(c.0 as u64));
                        assert(false);
                    }
                }
            }
        }
        cards
    }

    /// The concrete hands as a hash set.  The hash model of a derived key
    /// type is unspecified, so nothing is stated of the view.
    pub fn to_set(&self) -> (r: std::collections::HashSet<Hand>)
        requires
            self.wf(),
    {
        let hands = self.for_each_hand();
        let mut out: std::collections::HashSet<Hand> = std::collections::HashSet::new();
        let mut i: usize = 0;
        while i < hands.len()
            decreases hands@.len() - i,
        {
            out.insert(hands[i]);
            i = i + 1;
        }
        out
    }
}

/// A pool of `(hand, player)` pairs for rejection sampling: hands are drawn
/// uniformly, and a round succeeds only when every player could be assigned
/// a hand free of collisions.
pub struct RangeSimulator {
    pub hands: Vec<(Hand, u8)>,
}

impl RangeSimulator {
    pub open spec fn wf(self) -> bool {
        forall|i: int| 0 <= i < self.hands@.len() ==> (#[trigger] self.hands@[i]).0.wf()
    }

    pub fn new() -> (r: RangeSimulator)
        ensures
            r.hands@.len() == 0,
            r.wf(),
    {
        RangeSimulator { hands: Vec::new() }
    }

    /// Adds one player's hands; each player is added at most once.
    pub fn add(&mut self, hands: &Vec<Hand>, index: u8)
        requires
            old(self).wf(),
            forall|i: int| 0 <= i < hands@.len() ==> (#[trigger] hands@[i]).wf(),
            forall|i: int| 0 <= i < old(self).hands@.len() ==> (#[trigger] old(self).hands@[i]).1
                != index,
        ensures
            final(self).wf(),
            final(self).hands@.len() == old(self).hands@.len() + hands@.len(),
            forall|i: int|
                0 <= i < old(self).hands@.len() ==> (#[trigger] final(self).hands@[i]) == old(
                    self,
                ).hands@[i],
            forall|i: int|
                0 <= i < hands@.len() ==> (#[trigger] final(self).hands@[old(self).hands@.len()
                    + i]) == (hands@[i], index),
    {
        let mut i: usize = 0;
        while i < hands.len()
            invariant
                i <= hands@.len(),
                forall|k: int| 0 <= k < hands@.len() ==> (#[trigger] hands@[k]).wf(),
                self.hands@.len() == old(self).hands@.len() + i,
                forall|k: int|
                    0 <= k < old(self).hands@.len() ==> (#[trigger] self.hands@[k]) == old(
                        self,
                    ).hands@[k],
                forall|k: int|
                    0 <= k < i ==> (#[trigger] self.hands@[old(self).hands@.len() + k]) == (
                    hands@[k],
                    index,
                ),
                self.wf(),
            decreases hands@.len() - i,
        {
            self.hands.push((hands[i], index));
            i = i + 1;
        }
    }

    /// Shuffles the pool.
    pub fn shuffle(&mut self, rng: &mut rand::rngs::SmallRng)
        requires
            old(self).wf(),
        ensures
            final(self).wf(),
            final(self).hands@.len() == old(self).hands@.len(),
            final(self).hands@.to_multiset() == old(self).hands@.to_multiset(),
    {
        let ghost before = self.hands@;
        crate::rng::shuffle_vec(rng, &mut self.hands);
        proof {
            before.to_multiset_ensures();
            self.hands@.to_multiset_ensures();
            assert forall|i: int|
                0 <= i < self.hands@.len() implies (#[trigger] self.hands@[i]).0.wf() by {
                let p = self.hands@[i];
                assert(self.hands@.contains(p));
                assert(self.hands@.to_multiset().count(p) > 0);
                assert(before.to_multiset().count(p) > 0);
                assert(before.contains(p));
                let j = choose|j: int| 0 <= j < before.len() && before[j] == p;
            }
        }
    }

    /// Tries to deal every player a pool hand that collides neither with the
    /// known cards nor with another dealt hand, drawing uniformly without
    /// replacement.  On success every slot is filled; the dealt hands and
    /// the known cards are pairwise card-disjoint.
    pub fn random_hands(
        &mut self,
        rng: &mut rand::rngs::SmallRng,
        known_cards: Cards,
        hands: &mut Vec<Option<Hand>>,
    ) -> (r: bool)
        requires
            old(self).wf(),
            known_cards.wf(),
        ensures
            final(self).wf(),
            final(self).hands@.len() == old(self).hands@.len(),
            final(self).hands@.to_multiset() == old(self).hands@.to_multiset(),
            final(hands)@.len() == old(hands)@.len(),
            r ==> forall|i: int| 0 <= i < final(hands)@.len() ==> (#[trigger] final(hands)@[i])
                is Some,
            !r && old(hands)@.len() >= 1 ==> exists|i: int|
                0 <= i < final(hands)@.len() && final(hands)@[i] is None,
            forall|i: int|
                0 <= i < final(hands)@.len() ==> ((#[trigger] final(hands)@[i]) matches Some(h)
                    ==> h.wf() && !known_cards.spec_has(h.0) && !known_cards.spec_has(h.1)
                    && old(self).hands@.contains((h, i as u8))),
            forall|i: int, k: int|
                0 <= i < k < final(hands)@.len() ==> ((#[trigger] final(hands)@[i]) matches Some(
                    hi,
                ) ==> ((#[trigger] final(hands)@[k]) matches Some(hk) ==> (hi.0 != hk.0 && hi.0
                    != hk.1 && hi.1 != hk.0 && hi.1 != hk.1))),
    {
        let n = hands.len();
        let mut slot: usize = 0;
        while slot < n
            invariant
                slot <= n,
                hands@.len() == n,
                forall|i: int| 0 <= i < slot ==> (#[trigger] hands@[i]) is None,
            decreases n - slot,
        {
            hands.set(slot, None);
            slot = slot + 1;
        }
        let mut remaining_players = n;
        let mut len = self.hands.len();
        let mut km = known_cards;
        proof {
            lemma_assignment_inv_empty(hands@, km, known_cards);
            crate::equity::lemma_subset_alg(known_cards.0, known_cards.0, 0);
            lemma_none_count_all(hands@);
        }
        while len > 0
            invariant
                self.wf(),
                self.hands@.len() == old(self).hands@.len(),
                self.hands@.to_multiset() == old(self).hands@.to_multiset(),
                len <= self.hands@.len(),
                hands@.len() == n,
                n == old(hands)@.len(),
                km.wf(),
                km.0 & known_cards.0 == known_cards.0,
                spec_assignment_inv(hands@, km, known_cards),
                forall|i: int|
                    0 <= i < hands@.len() ==> ((#[trigger] hands@[i]) matches Some(h) ==> old(
                        self,
                    ).hands@.contains((h, i as u8))),
                remaining_players == spec_none_count(hands@),
                remaining_players <= n,
                n >= 1 ==> remaining_players >= 1,
            decreases len,
        {
            let hand_index = crate::rng::rng_below(rng, len);
            let (hand, player_index) = self.hands[hand_index];
            let ghost tag = player_index;
            let player_index = player_index as usize;

            if player_index < n {
                let slot_free = match hands[player_index] {
                    Some(_) => false,
                    None => true,
                };
                if slot_free && !km.has(hand.high()) && !km.has(hand.low()) {
                    proof {
                        assert(hand.0.0 == 16 * hand.0.suite_int() + hand.0.rank_int());
                        assert(hand.1.0 == 16 * hand.1.suite_int() + hand.1.rank_int());
                        assert(hand.0.0 != hand.1.0);
                        crate::bits::lemma_bit64_and(km.0, known_cards.0);
                        assert(crate::bits::bit64(km.0 & known_cards.0, hand.0.0 as u64) == (
                        crate::bits::bit64(km.0, hand.0.0 as u64) && crate::bits::bit64(
                            known_cards.0,
                            hand.0.0 as u64,
                        )));
                        assert(crate::bits::bit64(km.0 & known_cards.0, hand.1.0 as u64) == (
                        crate::bits::bit64(km.0, hand.1.0 as u64) && crate::bits::bit64(
                            known_cards.0,
                            hand.1.0 as u64,
                        )));
                        assert(!known_cards.spec_has(hand.0));
                        assert(!known_cards.spec_has(hand.1));
                    }
                    proof {
                        let entry = self.hands@[hand_index as int];
                        self.hands@.to_multiset_ensures();
                        old(self).hands@.to_multiset_ensures();
                        assert(self.hands@.contains(entry));
                        assert(self.hands@.to_multiset().count(entry) > 0);
                        assert(old(self).hands@.contains(entry));
                        assert(entry == (hand, tag));
                        assert(tag as usize == player_index);
                        assert(player_index as u8 == tag);
                        lemma_none_count_fill(hands@, player_index as int, hand);
                    }
                    hands.set(player_index, Some(hand));
                    let k1 = km.with(hand.high());
                    proof {
                        assert(k1.spec_has_i(hand.1.0 as u64) == (km.spec_has_i(hand.1.0 as u64)
                            || hand.1.0 as u64 == hand.0.0 as u64));
                    }
                    let km2 = k1.with(hand.low());
                    proof {
                        lemma_assignment_inv_extend(
                            old(self).hands@,
                            hands@,
                            km,
                            km2,
                            known_cards,
                            player_index as int,
                            hand,
                        );
                        crate::equity::lemma_subset_alg(known_cards.0, km.0, hand.0.0 as u64);
                        crate::equity::lemma_subset_alg(
                            known_cards.0,
                            km.0 | (1u64 << (hand.0.0 as u64)),
                            hand.1.0 as u64,
                        );
                        crate::equity::lemma_subset_alg(km2.0, known_cards.0, 0);
                    }
                    km = km2;
                    if remaining_players > 0 {
                        remaining_players = remaining_players - 1;
                    }
                    if remaining_players == 0 {
                        proof {
                            lemma_none_count_zero(hands@);
                        }
                        let filled = all_filled(hands);
                        if filled {
                            return true;
                        }
                    }
                }
            }
            let last = self.hands[len - 1];
            let picked = self.hands[hand_index];
            let ghost pool_before = self.hands@;
            proof {
                lemma_swap_multiset(pool_before, hand_index as int, len - 1);
            }
            self.hands.set(hand_index, last);
            self.hands.set(len - 1, picked);
            proof {
                let pj = pool_before[len - 1];
                let pi = pool_before[hand_index as int];
                assert(self.hands@ =~= pool_before.update(hand_index as int, pj).update(
                    len - 1,
                    pi,
                ));
            }
            len = len - 1;
        }
        proof {
            if n >= 1 {
                lemma_none_count_pos(hands@);
            }
        }
        false
    }
}

/// How many slots hold nothing yet.
pub open spec fn spec_none_count(hands: Seq<Option<Hand>>) -> nat
    decreases hands.len(),
{
    if hands.len() == 0 {
        0
    } else {
        spec_none_count(hands.drop_last()) + if hands.last() is None {
            1nat
        } else {
            0nat
        }
    }
}

/// All-empty slots count their full length.
proof fn lemma_none_count_all(hands: Seq<Option<Hand>>)
    requires
        forall|i: int| 0 <= i < hands.len() ==> (#[trigger] hands[i]) is None,
    ensures
        spec_none_count(hands) == hands.len(),
    decreases hands.len(),
{
    if hands.len() > 0 {
        lemma_none_count_all(hands.drop_last());
    }
}

/// Filling an empty slot lowers the count by one.
proof fn lemma_none_count_fill(hands: Seq<Option<Hand>>, i: int, h: Hand)
    requires
        0 <= i < hands.len(),
        hands[i] is None,
    ensures
        spec_none_count(hands.update(i, Some(h))) + 1 == spec_none_count(hands),
    decreases hands.len(),
{
    if i == hands.len() - 1 {
        assert(hands.update(i, Some(h)).drop_last() =~= hands.drop_last());
    } else {
        assert(hands.update(i, Some(h)).drop_last() =~= hands.drop_last().update(i, Some(h)));
        lemma_none_count_fill(hands.drop_last(), i, h);
    }
}

/// A zero count means every slot is filled.
proof fn lemma_none_count_zero(hands: Seq<Option<Hand>>)
    requires
        spec_none_count(hands) == 0,
    ensures
        forall|i: int| 0 <= i < hands.len() ==> (#[trigger] hands[i]) is Some,
    decreases hands.len(),
{
    if hands.len() > 0 {
        lemma_none_count_zero(hands.drop_last());
        assert forall|i: int| 0 <= i < hands.len() implies (#[trigger] hands[i]) is Some by {
            if i < hands.len() - 1 {
                assert(hands.drop_last()[i] is Some);
            }
        }
    }
}

/// A positive count means some slot is empty.
proof fn lemma_none_count_pos(hands: Seq<Option<Hand>>)
    requires
        spec_none_count(hands) >= 1,
    ensures
        exists|i: int| 0 <= i < hands.len() && hands[i] is None,
    decreases hands.len(),
{
    if hands.last() is None {
        assert(hands[hands.len() - 1] is None);
    } else {
        lemma_none_count_pos(hands.drop_last());
        let i = choose|i: int| 0 <= i < hands.drop_last().len() && hands.drop_last()[i] is None;
        assert(hands[i] is None);
    }
}

/// Swapping two pool entries keeps the pool's multiset.
proof fn lemma_swap_multiset<T>(s: Seq<T>, i: int, j: int)
    requires
        0 <= i < s.len(),
        0 <= j < s.len(),
    ensures
        s.update(i, s[j]).update(j, s[i]).to_multiset() == s.to_multiset(),
{
    broadcast use vstd::seq_lib::to_multiset_update;
    broadcast use vstd::multiset::group_multiset_axioms;

    let s1 = s.update(i, s[j]);
    let s2 = s1.update(j, s[i]);
    if i == j {
        assert(s2 =~= s);
    } else {
        let m = s.to_multiset();
        s.to_multiset_ensures();
        s1.to_multiset_ensures();
        assert(s.contains(s[i]));
        assert(m.count(s[i]) > 0);
        assert(s1.contains(s[j])) by {
            assert(s1[j] == s[j]);
        }
        assert(s1.to_multiset() == m.insert(s[j]).remove(s[i]));
        assert(s1.to_multiset().count(s[j]) > 0);
        assert(s2.to_multiset() == s1.to_multiset().insert(s[i]).remove(s1[j]));
        assert(s1[j] == s[j]);
        assert forall|x: T| s2.to_multiset().count(x) == m.count(x) by {
            assert(s2.to_multiset().count(x) == m.insert(s[j]).remove(s[i]).insert(s[i]).remove(
                s[j],
            ).count(x));
        }
        assert(s2.to_multiset() =~= s.to_multiset());
    }
}

/// Whether every slot is filled.
fn all_filled(hands: &Vec<Option<Hand>>) -> (r: bool)
    ensures
        r == forall|i: int| 0 <= i < hands@.len() ==> (#[trigger] hands@[i]) is Some,
{
    let mut i: usize = 0;
    while i < hands.len()
        invariant
            i <= hands@.len(),
            forall|k: int| 0 <= k < i ==> (#[trigger] hands@[k]) is Some,
        decreases hands@.len() - i,
    {
        match hands[i] {
            Some(_) => {},
            None => {
                return false;
            },
        }
        i = i + 1;
    }
    true
}

/// All dealt hands are inside the accumulated mask `km`, outside the known
/// cards, and pairwise disjoint.
pub open spec fn spec_assignment_inv(hands: Seq<Option<Hand>>, km: Cards, known: Cards) -> bool {
    &&& forall|i: int|
        0 <= i < hands.len() ==> ((#[trigger] hands[i]) matches Some(h) ==> h.wf() && km.spec_has(
            h.0,
        ) && km.spec_has(h.1) && !known.spec_has(h.0) && !known.spec_has(h.1))
    &&& forall|i: int, k: int|
        0 <= i < k < hands.len() ==> ((#[trigger] hands[i]) matches Some(hi) ==> ((
        #[trigger] hands[k]) matches Some(hk) ==> (hi.0 != hk.0 && hi.0 != hk.1 && hi.1 != hk.0
            && hi.1 != hk.1)))
}

proof fn lemma_assignment_inv_empty(hands: Seq<Option<Hand>>, km: Cards, known: Cards)
    requires
        forall|i: int| 0 <= i < hands.len() ==> (#[trigger] hands[i]) is None,
    ensures
        spec_assignment_inv(hands, km, known),
{
}

/// Dealing one more collision-free hand keeps the assignment invariant.
proof fn lemma_assignment_inv_extend(
    pool: Seq<(Hand, u8)>,
    hands: Seq<Option<Hand>>,
    km: Cards,
    km2: Cards,
    known: Cards,
    slot: int,
    hand: Hand,
)
    requires
        0 <= slot < hands.len(),
        hands[slot] == Some(hand),
        hand.wf(),
        forall|i: int|
            0 <= i < hands.len() && i != slot ==> ((#[trigger] hands[i]) matches Some(h) ==> h.wf()
                && km.spec_has(h.0) && km.spec_has(h.1) && !known.spec_has(h.0) && !known.spec_has(
                h.1,
            )),
        forall|i: int, k: int|
            0 <= i < k < hands.len() && i != slot && k != slot ==> ((#[trigger] hands[i]) matches
            Some(hi) ==> ((#[trigger] hands[k]) matches Some(hk) ==> (hi.0 != hk.0 && hi.0 != hk.1
                && hi.1 != hk.0 && hi.1 != hk.1))),
        !km.spec_has(hand.0),
        !km.spec_has(hand.1),
        !known.spec_has(hand.0),
        !known.spec_has(hand.1),
        km.0 & known.0 == known.0,
        forall|j: u64|
            j < 64 ==> km2.spec_has_i(j) == (km.spec_has_i(j) || j == hand.0.0 as u64 || j
                == hand.1.0 as u64),
    ensures
        spec_assignment_inv(hands, km2, known),
{
    assert forall|i: int|
        0 <= i < hands.len() implies ((#[trigger] hands[i]) matches Some(h) ==> h.wf()
        && km2.spec_has(h.0) && km2.spec_has(h.1) && !known.spec_has(h.0) && !known.spec_has(
        h.1,
    )) by {
        if hands[i] is Some {
            let h = hands[i].unwrap();
            assert(0 <= h.0.0 < 64 && 0 <= h.1.0 < 64);
            assert(km2.spec_has_i(h.0.0 as u64) == (km.spec_has_i(h.0.0 as u64) || h.0.0 as u64
                == hand.0.0 as u64 || h.0.0 as u64 == hand.1.0 as u64));
            assert(km2.spec_has_i(h.1.0 as u64) == (km.spec_has_i(h.1.0 as u64) || h.1.0 as u64
                == hand.0.0 as u64 || h.1.0 as u64 == hand.1.0 as u64));
        }
    }
    assert forall|i: int, k: int|
        0 <= i < k < hands.len() implies ((#[trigger] hands[i]) matches Some(hi) ==> ((
    #[trigger] hands[k]) matches Some(hk) ==> (hi.0 != hk.0 && hi.0 != hk.1 && hi.1 != hk.0
        && hi.1 != hk.1))) by {
        if hands[i] is Some && hands[k] is Some {
            let hi = hands[i].unwrap();
            let hk = hands[k].unwrap();
            if i == slot {
                assert(km.spec_has(hk.0) && km.spec_has(hk.1));
            } else if k == slot {
                assert(km.spec_has(hi.0) && km.spec_has(hi.1));
            }
        }
    }
}

/// A range stands for at most 13 * 13 * 12 concrete hands.
proof fn lemma_num_hands_bound(t: RangeTable)
    ensures
        t.spec_num_hands() <= 2028,
{
    assert forall|a: int| 0 <= a < 13 implies t.spec_row_weight(a, 13) <= 156 by {
        lemma_row_weight_bound(t, a, 13);
    }
    lemma_weight_upto_bound(t, 13);
}

proof fn lemma_row_weight_bound(t: RangeTable, a: int, k: int)
    requires
        0 <= k <= 13,
    ensures
        t.spec_row_weight(a, k) <= 12 * k,
    decreases k,
{
    if k > 0 {
        lemma_row_weight_bound(t, a, k - 1);
    }
}

proof fn lemma_weight_upto_bound(t: RangeTable, k: int)
    requires
        0 <= k <= 13,
    ensures
        t.spec_weight_upto(k) <= 156 * k,
    decreases k,
{
    if k > 0 {
        lemma_weight_upto_bound(t, k - 1);
        lemma_row_weight_bound(t, k - 1, 13);
    }
}

} // verus!
