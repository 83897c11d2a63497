//! The seven-card evaluator: categories, kickers, and the score order.

use holdem_equity::cards::Cards;
use holdem_equity::rank::Rank;
use holdem_equity::score::{HandRanking, Score, Top5};

fn top5(s: &str) -> Top5 {
    Cards::from_str(s).unwrap().top5()
}

fn score(s: &str) -> Score {
    Cards::from_str(s).unwrap().score_fast()
}

#[test]
fn six_high_straight_beats_wheel() {
    // hand As2s on board 3h4d5c6cKh: the straight runs two to six, not the wheel
    let t = top5("As2s3h4d5c6cKh");
    assert_eq!(t.ranking, HandRanking::Straight);
    assert!(t.ranks.has(Rank::Six));
    assert!(!t.ranks.has(Rank::Ace));
    // the wheel itself ranks below the six-high straight
    let wheel = score("As2s3h4d5cKhQd");
    let six_high = score("2s3h4d5c6cKhQd");
    assert!(wheel.0 < six_high.0);
    let wheel5 = top5("As2s3h4d5cKhQd");
    assert_eq!(wheel5.ranking, HandRanking::Straight);
}

#[test]
fn categories_are_recognized() {
    assert_eq!(top5("TsJsQsKsAs2d3d").ranking, HandRanking::RoyalFlush);
    assert_eq!(top5("4s5s6s7s8sAdAh").ranking, HandRanking::StraightFlush);
    assert_eq!(
        top5("7c7d7h7s9cKd2s").ranking,
        HandRanking::FourOfAKind(Rank::Seven),
    );
    assert_eq!(
        top5("7c7d7h9s9cKd2s").ranking,
        HandRanking::FullHouse { trips: Rank::Seven, pair: Rank::Nine },
    );
    assert_eq!(top5("2s5s8sTsKs9c7d").ranking, HandRanking::Flush);
    assert_eq!(top5("5s6d7h8c9sKdAc").ranking, HandRanking::Straight);
    assert_eq!(
        top5("7c7d7h9s8cKd2s").ranking,
        HandRanking::ThreeOfAKind(Rank::Seven),
    );
    assert_eq!(
        top5("7c7d9h9s8cKd2s").ranking,
        HandRanking::TwoPair { first: Rank::Nine, second: Rank::Seven },
    );
    assert_eq!(top5("7c7d9h8sJcKd2s").ranking, HandRanking::OnePair(Rank::Seven));
    assert_eq!(top5("7c2d9h8sJcKdAs").ranking, HandRanking::HighCard);
}

#[test]
fn score_fast_agrees_with_top5() {
    let boards = [
        "TsJsQsKsAs2d3d",
        "4s5s6s7s8sAdAh",
        "7c7d7h7s9cKd2s",
        "7c7d7h9s9cKd2s",
        "2s5s8sTsKs9c7d",
        "5s6d7h8c9sKdAc",
        "7c7d7h9s8cKd2s",
        "7c7d9h9s8cKd2s",
        "7c7d9h8sJcKd2s",
        "7c2d9h8sJcKdAs",
        "As2s3h4d5cKhQd",
        "As2s3s4s5sKhQd",
    ];
    for b in boards {
        let cards = Cards::from_str(b).unwrap();
        assert_eq!(cards.top5().to_score(), cards.score_fast(), "{}", b);
    }
}

#[test]
fn steel_wheel_is_no_royal() {
    let t = top5("As2s3s4s5sKhQd");
    assert_eq!(t.ranking, HandRanking::StraightFlush);
    // and it still ranks below a six-high straight flush
    let steel = score("As2s3s4s5sKhQd");
    let six = score("2s3s4s5s6sKhQd");
    assert!(steel.0 < six.0);
}

#[test]
fn kickers_break_ties() {
    let better_kicker = score("AsAd9h8sKcJd2s");
    let worse_kicker = score("AsAd9h8sQcJd2s");
    assert!(better_kicker.0 > worse_kicker.0);
    let tied_a = score("AsAd9h8sKcJd2s");
    let tied_b = score("AhAc9d8cKdJh2c");
    assert_eq!(tied_a, tied_b);
}

#[test]
fn flush_beats_straight_and_below() {
    let flush = score("2s5s8sTsKsQcJh");
    let straight = score("9cTdJhQcKd2s5h");
    assert!(flush.0 > straight.0);
    let full_house = score("2s2d2h5s5dTsKs");
    assert!(full_house.0 > flush.0);
}

#[test]
fn compare_matches_score_order() {
    let royal = top5("TsJsQsKsAs2d3d");
    let quads = top5("7c7d7h7s9cKd2s");
    assert!(royal.compare(quads) > 0);
    assert!(quads.compare(royal) < 0);
    assert_eq!(royal.compare(top5("TsJsQsKsAs4c5h")), 0);
    let worst = Top5::worst();
    assert_eq!(worst.ranking, HandRanking::HighCard);
    assert!(quads.compare(worst) > 0);
}

#[test]
fn from_counts_matches_cards() {
    // three nines, a pair of kings and two low cards, no flush possible
    let cards = Cards::from_str("9s9d9hKcKd2s5h").unwrap();
    let counts = cards.counts();
    assert_eq!(Score::from_counts(&counts), cards.score_fast());
    assert_eq!(counts, [1u8, 0, 0, 1, 0, 0, 0, 3, 0, 0, 0, 2, 0]);
}
