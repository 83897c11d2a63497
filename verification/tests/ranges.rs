//! Range strings, the 13-by-13 table, and hand enumeration.

use holdem_equity::cards::Cards;
use holdem_equity::error::Error;
use holdem_equity::hand::Hand;
use holdem_equity::range::RangeTable;

fn hand(s: &str) -> Hand {
    Hand::from_str(s).unwrap()
}

#[test]
fn parse_single_entries() {
    let t = RangeTable::parse("AA").unwrap();
    assert!(t.contains(hand("AsAd")));
    assert!(!t.contains(hand("AsKs")));
    assert_eq!(t.count(), 1);

    let t = RangeTable::parse("AKs").unwrap();
    assert!(t.contains(hand("AsKs")));
    assert!(!t.contains(hand("AsKd")));
    assert!(!t.contains(hand("AsAd")));

    let t = RangeTable::parse("AKo").unwrap();
    assert!(t.contains(hand("AsKd")));
    assert!(!t.contains(hand("AsKs")));
}

#[test]
fn parse_plus_entries() {
    let t = RangeTable::parse("TT+").unwrap();
    assert_eq!(t.count(), 5);
    assert!(t.contains(hand("TsTd")));
    assert!(t.contains(hand("AsAd")));
    assert!(!t.contains(hand("9s9d")));

    let t = RangeTable::parse("A2s+").unwrap();
    assert_eq!(t.count(), 12);
    assert!(t.contains(hand("As2s")));
    assert!(t.contains(hand("AsKs")));
    assert!(!t.contains(hand("As2d")));

    let t = RangeTable::parse("KJo+").unwrap();
    assert_eq!(t.count(), 2);
    assert!(t.contains(hand("KsJd")));
    assert!(t.contains(hand("KsQd")));
    assert!(!t.contains(hand("KsTd")));
    assert!(!t.contains(hand("KsJs")));
}

#[test]
fn parse_composite_range() {
    let t = RangeTable::parse("22+,A2s+,KJo+").unwrap();
    assert_eq!(t.count(), 13 + 12 + 2);
    assert!(t.contains(hand("2s2d")));
    assert!(t.contains(hand("As4s")));
    assert!(t.contains(hand("KcQh")));
    assert!(!t.contains(hand("JsTs")));
}

#[test]
fn parse_errors() {
    assert_eq!(RangeTable::parse("").unwrap_err(), Error::BadRangeEntry);
    assert_eq!(RangeTable::parse("AA,").unwrap_err(), Error::BadRangeEntry);
    assert_eq!(RangeTable::parse("hello").unwrap_err(), Error::BadRangeEntry);
    assert_eq!(RangeTable::parse("XX").unwrap_err(), Error::BadRankChar(b'X'));
    assert_eq!(RangeTable::parse("KAo").unwrap_err(), Error::LowNotBelowHigh);
    assert_eq!(RangeTable::parse("AAo").unwrap_err(), Error::LowNotBelowHigh);
    assert_eq!(RangeTable::parse("AA,AA").unwrap_err(), Error::DuplicateRangeEntry);
    assert_eq!(RangeTable::parse("22+,55").unwrap_err(), Error::DuplicateRangeEntry);
    assert_eq!(RangeTable::parse("A2s+,A5s").unwrap_err(), Error::DuplicateRangeEntry);
}

#[test]
fn cell_hand_counts() {
    // a suited cell stands for 4 hands, an offsuit one for 12, a pair for 6
    assert_eq!(RangeTable::parse("AKs").unwrap().for_each_hand().len(), 4);
    assert_eq!(RangeTable::parse("AKo").unwrap().for_each_hand().len(), 12);
    assert_eq!(RangeTable::parse("QQ").unwrap().for_each_hand().len(), 6);
    assert_eq!(RangeTable::parse("AKs").unwrap().count_cards(), 8);
    assert_eq!(RangeTable::parse("AKo").unwrap().count_cards(), 24);
    assert_eq!(RangeTable::parse("QQ").unwrap().count_cards(), 12);
}

#[test]
fn for_each_hand_agrees_with_contains() {
    let t = RangeTable::parse("TT+,A2s+,KJo+").unwrap();
    let hands = t.for_each_hand();
    // no hand repeats
    for i in 0..hands.len() {
        for j in (i + 1)..hands.len() {
            assert_ne!(hands[i].cmp_by_rank(hands[j]), 0);
        }
    }
    // every enumerated hand is contained
    for h in &hands {
        assert!(t.contains(*h));
    }
    // membership in the vector matches contains, over a probe set
    for probe in ["AsKs", "As2s", "TsTd", "KdJc", "9s9d", "As2d", "QhJh"] {
        let h = hand(probe);
        let listed = hands.iter().any(|x| x.cmp_by_rank(h) == 0);
        assert_eq!(listed, t.contains(h));
    }
}

#[test]
fn full_table_counts() {
    let t = RangeTable::full();
    assert_eq!(t.count() as u32, 169);
    // 1326 two-card combinations in a 52-card deck
    assert_eq!(t.for_each_hand().len(), 1326);
    assert_eq!(t.count_cards(), 2652);
    assert!(!t.is_empty());
    assert!(RangeTable::empty().is_empty());
}

#[test]
fn card_set_collects_hand_cards() {
    let t = RangeTable::parse("AA").unwrap();
    let cards = t.card_set();
    assert_eq!(cards.count(), 4);
    assert!(cards.has(holdem_equity::card::Card::from_str("As").unwrap()));
    assert!(!cards.has(holdem_equity::card::Card::from_str("Ks").unwrap()));
    let empty = RangeTable::empty().card_set();
    assert_eq!(empty, Cards::empty());
}

#[test]
fn to_set_holds_each_hand_once() {
    let t = RangeTable::parse("AKs,QQ").unwrap();
    let set = t.to_set();
    assert_eq!(set.len(), 4 + 6);
    assert!(set.contains(&hand("AsKs")));
    assert!(!set.contains(&hand("AsKd")));
}
