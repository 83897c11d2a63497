//! A table of seats: the hero's cards, the board, and per-seat villain
//! ranges, with a folded seat or the hero's own seat holding no range.

use vstd::prelude::*;

use crate::cards::Cards;
use crate::range::RangeTable;

verus! {

pub struct Ring {
    pub hero_position: usize,
    pub hero_cards: Cards,
    pub community_cards: Cards,
    /// One entry per seat; a folded seat and the hero's seat hold nothing.
    pub cards: Vec<Option<RangeTable>>,
    /// Stack sizes in hundredths of a big blind.
    pub stack_sizes: Vec<u32>,
}

/// The ranges of the seats that still hold one, in seat order.
pub open spec fn spec_some_tables(s: Seq<Option<RangeTable>>) -> Seq<RangeTable>
    decreases s.len(),
{
    if s.len() == 0 {
        Seq::empty()
    } else {
        match s.last() {
            Some(t) => spec_some_tables(s.drop_last()).push(t),
            None => spec_some_tables(s.drop_last()),
        }
    }
}

impl Ring {
    pub fn community_cards(&self) -> (r: Cards)
        ensures
            r == self.community_cards,
    {
        self.community_cards
    }

    pub fn hero_cards(&self) -> (r: Cards)
        ensures
            r == self.hero_cards,
    {
        self.hero_cards
    }

    /// The ranges of the seats that still hold one.
    pub fn villain_cards(&self) -> (r: Vec<RangeTable>)
        ensures
            r@ == spec_some_tables(self.cards@),
    {
        let mut out: Vec<RangeTable> = Vec::new();
        let mut i: usize = 0;
        while i < self.cards.len()
            invariant
                i <= self.cards@.len(),
                out@ == spec_some_tables(self.cards@.take(i as int)),
            decreases self.cards@.len() - i,
        {
            proof {
                assert(self.cards@.take(i as int + 1).drop_last() =~= self.cards@.take(i as int));
                assert(self.cards@.take(i as int + 1).last() == self.cards@[i as int]);
            }
            match self.cards[i] {
                Some(table) => {
                    out.push(table);
                },
                None => {},
            }
            i = i + 1;
        }
        proof {
            assert(self.cards@.take(self.cards@.len() as int) =~= self.cards@);
        }
        out
    }
}

} // verus!
