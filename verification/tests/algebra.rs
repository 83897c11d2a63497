//! The card algebra: tokens, masks, counts.

use holdem_equity::card::Card;
use holdem_equity::cards::{Cards, CardsByRank};
use holdem_equity::error::Error;
use holdem_equity::hand::Hand;
use holdem_equity::rank::Rank;
use holdem_equity::suite::Suite;

#[test]
fn card_token_round_trip() {
    let tokens = ["As", "Td", "2c", "9h", "Kd", "Qs", "Jc", "7h"];
    for t in tokens {
        let card = Card::from_str(t).unwrap();
        assert_eq!(card.to_string(), t);
    }
}

#[test]
fn every_card_round_trips() {
    for card in Card::all() {
        let token = card.to_string();
        assert_eq!(token.len(), 2);
        let back = Card::from_str(&token).unwrap();
        assert_eq!(back, card);
    }
}

#[test]
fn card_parse_errors() {
    assert_eq!(Card::from_str(""), Err(Error::BadLength));
    assert_eq!(Card::from_str("A"), Err(Error::BadLength));
    assert_eq!(Card::from_str("Asd"), Err(Error::BadLength));
    assert_eq!(Card::from_str("Xs"), Err(Error::BadRankChar(b'X')));
    assert_eq!(Card::from_str("Ax"), Err(Error::BadSuiteChar(b'x')));
    assert_eq!(Card::from_str("as"), Err(Error::BadRankChar(b'a')));
}

#[test]
fn card_coding() {
    let c = Card::of(Rank::Ace, Suite::Clubs);
    assert_eq!(c.to_index(), 3 * 16 + 12);
    assert_eq!(c.rank(), Rank::Ace);
    assert_eq!(c.suite(), Suite::Clubs);
    assert_eq!(Card::from_index(60), Some(c));
    assert_eq!(Card::from_index(13), None);
    assert_eq!(Card::from_index(-1), None);
    assert_eq!(Card::from_index(64), None);
}

#[test]
fn cards_count_is_popcount() {
    let cards = Cards::from_str("AsKsQh2d").unwrap();
    assert_eq!(cards.count(), 4);
    assert_eq!(cards.0.count_ones(), 4);
    assert_eq!(cards.0 & Cards::MASK_FULL, cards.0);
    let full = Cards::full();
    assert_eq!(full.count(), 52);
    assert_eq!(full.0.count_ones(), 52);
    assert_eq!(Cards::empty().count(), 0);
}

#[test]
fn cards_set_operations() {
    let mut cards = Cards::empty();
    let ace = Card::from_str("As").unwrap();
    let king = Card::from_str("Kd").unwrap();
    assert!(cards.try_add(ace));
    assert!(!cards.try_add(ace));
    assert!(!cards.has(king));
    cards.add(king);
    assert!(cards.has(ace) && cards.has(king));
    assert_eq!(cards.count(), 2);
    cards.remove(ace);
    assert!(!cards.has(ace));
    assert_eq!(cards.count(), 1);
}

#[test]
fn cards_parse_duplicate() {
    let dup = Cards::from_str("AsAs");
    assert_eq!(dup, Err(Error::DuplicateCard(Card::from_str("As").unwrap())));
    assert_eq!(Cards::from_str("AsK"), Err(Error::BadLength));
}

#[test]
fn cards_iter_descends() {
    let cards = Cards::from_str("2dAsKc").unwrap();
    let mut iter = cards.iter();
    let first = iter.next().unwrap();
    let second = iter.next().unwrap();
    let third = iter.next().unwrap();
    assert!(iter.next().is_none());
    assert!(first.to_index() > second.to_index());
    assert!(second.to_index() > third.to_index());
}

#[test]
fn by_rank_collapses_suits() {
    let cards = Cards::from_str("AsAdAc2h").unwrap();
    let ranks = cards.by_rank();
    assert_eq!(ranks.count(), 2);
    assert!(ranks.has(Rank::Ace));
    assert!(ranks.has(Rank::Two));
    assert!(!ranks.has(Rank::King));
}

#[test]
fn straight_detection_prefers_highest() {
    // ranks 2..6 and ace: the six-high straight wins over the wheel
    let mut ranks = CardsByRank::empty();
    for r in [Rank::Two, Rank::Three, Rank::Four, Rank::Five, Rank::Six, Rank::Ace] {
        ranks.add(r);
    }
    let straight = ranks.straight().unwrap();
    assert!(straight.has(Rank::Six));
    assert!(!straight.has(Rank::Ace));
    // drop the six: only the wheel is left
    let wheel = ranks.without(Rank::Six).straight().unwrap();
    assert!(wheel.has(Rank::Ace));
    assert!(wheel.has(Rank::Five));
    assert_eq!(wheel.0, CardsByRank::WHEEL);
    // no five-in-a-row at all
    let none = CardsByRank(0b1010101010101).straight();
    assert!(none.is_none());
}

#[test]
fn hand_orders_cards() {
    let h = Hand::from_str("2dAs").unwrap();
    assert_eq!(h.high(), Card::from_str("As").unwrap());
    assert_eq!(h.low(), Card::from_str("2d").unwrap());
    assert!(!h.suited());
    let s = Hand::from_str("7h2h").unwrap();
    assert!(s.suited());
    assert_eq!(Hand::from_str("AsKsQs"), Err(Error::BadHandSize(3)));
    assert_eq!(Hand::from_str("As"), Err(Error::BadHandSize(1)));
}

#[test]
fn hand_of_two_cards_orders_by_rank_then_suite() {
    let a = Card::from_str("Ks").unwrap();
    let b = Card::from_str("Kd").unwrap();
    let h = Hand::of_two_cards(b, a);
    assert_eq!(h.high(), a);
    assert_eq!(h.low(), b);
    assert_eq!(h.cmp_by_rank(Hand::of_two_cards(a, b)), 0);
}

#[test]
fn rank_and_suite_round_trips() {
    for v in 0..13 {
        let rank = Rank::from_i8(v).unwrap();
        assert_eq!(rank.to_i8(), v);
        assert_eq!(Rank::from_ascii(rank.to_ascii()).unwrap(), rank);
    }
    for v in 0..4 {
        let suite = Suite::from_i8(v).unwrap();
        assert_eq!(suite.to_i8(), v);
        assert_eq!(Suite::from_ascii(suite.to_ascii()).unwrap(), suite);
    }
    assert_eq!(Rank::Five.predecessor(), Some(Rank::Four));
    assert_eq!(Rank::Two.predecessor(), None);
    assert_eq!(Rank::King.successor(), Some(Rank::Ace));
    assert_eq!(Rank::Ace.successor(), None);
    let run = Rank::range(Rank::Ten, Rank::Ace);
    assert_eq!(run, vec![Rank::Ten, Rank::Jack, Rank::Queen, Rank::King, Rank::Ace]);
}
