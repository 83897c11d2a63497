//! Showdowns: the exact enumerator, the simulator, and the deck.

use holdem_equity::cards::Cards;
use holdem_equity::equity::{total_combos_upper_bound, Deck, Equity};
use holdem_equity::hand::Hand;
use holdem_equity::range::{RangeSimulator, RangeTable};
use rand::SeedableRng;

fn equity_percent(e: Equity) -> f64 {
    (e.wins as f64 + e.ties as f64 / 2520.0) / e.total as f64
}

fn enumerate(board: &str, hero: &str, ranges: &[&str]) -> Vec<Equity> {
    let board = Cards::from_str(board).unwrap();
    let hero = Hand::from_str(hero).unwrap();
    let ranges: Vec<RangeTable> = ranges.iter().map(|r| RangeTable::parse(r).unwrap()).collect();
    Equity::enumerate(board, hero, &ranges).unwrap()
}

#[test]
fn royal_on_board_splits_the_pot() {
    // the royal flush plays from the board for both players: every pot splits
    let es = enumerate("TsJsQsKsAs", "AdKd", &["AA"]);
    assert_eq!(es.len(), 2);
    // hero holds Ad and Kd, so the one villain combination left is AhAc
    assert_eq!(es[0].total, 1);
    assert_eq!(es[0].wins, 0);
    assert_eq!(es[1].wins, 0);
    assert_eq!(es[0].ties, 1260);
    assert_eq!(es[1].ties, 1260);
    assert!((equity_percent(es[0]) - 0.5).abs() < 1e-12);
}

#[test]
fn set_over_set_wins_whole() {
    let es = enumerate("7c7d2h5s9c", "7h7s", &["KK"]);
    assert_eq!(es.len(), 2);
    assert_eq!(es[0].total, 6);
    assert_eq!(es[0].wins, 6);
    assert_eq!(es[0].ties, 0);
    assert_eq!(es[1].wins, 0);
    assert_eq!(es[1].ties, 0);
}

#[test]
fn flush_beats_every_queen_jack() {
    let es = enumerate("2s5s8sTsKd", "AsKs", &["QJo"]);
    assert_eq!(es.len(), 2);
    assert_eq!(es[0].total, 12);
    assert_eq!(es[0].wins, 12);
    assert_eq!(es[0].ties, 0);
}

#[test]
fn overcards_against_queens() {
    // hero AsKs on 2c7d9h against QQ: the classic race, pinned exactly
    let es = enumerate("2c7d9h", "AsKs", &["QQ"]);
    assert_eq!(es.len(), 2);
    let total = es[0].total;
    assert!(total > 0);
    // the tallies add up to the pot count exactly
    assert_eq!(
        (es[0].wins + es[1].wins) * 2520 + es[0].ties + es[1].ties,
        total * 2520,
    );
    // six queen pairs times the 990 turn-and-river completions of 45 cards
    assert_eq!(total, 5940);
    assert_eq!(es[0].wins, 1422);
    assert_eq!(es[0].ties, 0);
    assert_eq!(es[1].wins, 5940 - 1422);
    assert_eq!(es[1].ties, 0);
    let hero = equity_percent(es[0]);
    assert!(hero > 0.20 && hero < 0.35, "hero equity {}", hero);
}

#[test]
fn enumerate_rejects_bad_input() {
    let board = Cards::from_str("2c7d9h").unwrap();
    let hero = Hand::from_str("AsKs").unwrap();
    // an empty villain range is invalid
    let ranges = vec![RangeTable::empty()];
    assert!(Equity::enumerate(board, hero, &ranges).is_none());
    // no villains at all is invalid
    let none: Vec<RangeTable> = Vec::new();
    assert!(Equity::enumerate(board, hero, &none).is_none());
    // a board of six cards is invalid
    let long = Cards::from_str("2c7d9hTs2d5h").unwrap();
    let aa = vec![RangeTable::parse("AA").unwrap()];
    assert!(Equity::enumerate(long, hero, &aa).is_none());
    // hero cards colliding with the board are invalid
    let collide = Cards::from_str("As7d9h").unwrap();
    assert!(Equity::enumerate(collide, hero, &aa).is_none());
}

#[test]
fn simulate_rejects_bad_input() {
    let board = Cards::from_str("2c7d9h").unwrap();
    let hero = Hand::from_str("AsKs").unwrap();
    assert!(Equity::simulate(board, hero, 0, 100).is_none());
    assert!(Equity::simulate(board, hero, 9, 100).is_none());
    assert!(Equity::simulate(board, hero, 1, 0).is_none());
    let es = Equity::simulate(board, hero, 2, 100).unwrap();
    assert_eq!(es.len(), 3);
    assert_eq!(es[0].total, 100);
    assert_eq!(
        (es[0].wins + es[1].wins + es[2].wins) * 2520 + es[0].ties + es[1].ties + es[2].ties,
        100 * 2520,
    );
}

#[test]
fn aces_beat_a_random_hand() {
    // aces against one unconstrained villain, preflop
    let board = Cards::empty();
    let hero = Hand::from_str("AsAd").unwrap();
    let rounds: u64 = 1_000_000;
    let es = Equity::simulate(board, hero, 1, rounds).unwrap();
    assert_eq!(es[0].total, rounds);
    let hero_eq = equity_percent(es[0]);
    assert!(hero_eq > 0.845 && hero_eq < 0.860, "hero equity {}", hero_eq);
}

#[test]
fn upper_bound_multiplies_boards_and_ranges() {
    let board = Cards::from_str("2c7d9h").unwrap();
    let aa = vec![RangeTable::parse("AA").unwrap()];
    // two board cards to come from 47, times the 12 cards of the six aces
    assert_eq!(total_combos_upper_bound(board, &aa), 47 * 46 * 12);
    // with a full board only the range sizes remain
    let full_board = Cards::from_str("2c7d9hTsJd").unwrap();
    let two = vec![
        RangeTable::parse("AA").unwrap(),
        RangeTable::parse("KK").unwrap(),
    ];
    assert_eq!(total_combos_upper_bound(full_board, &two), 12 * 12);
}

#[test]
fn deck_draws_without_replacement() {
    let mut rng = rand::rngs::SmallRng::seed_from_u64(7);
    let known = Cards::from_str("AsKs").unwrap();
    let mut deck = Deck::from_cards(&mut rng, known);
    assert_eq!(deck.max_len, 50);
    let mut seen = Cards::empty();
    for _ in 0..50 {
        let c = deck.draw(&mut rng).unwrap();
        assert!(!known.has(c));
        assert!(seen.try_add(c));
    }
    assert!(deck.draw(&mut rng).is_none());
    deck.reset();
    assert_eq!(deck.len, 50);
    assert!(deck.draw(&mut rng).is_some());
    let h = deck.hand(&mut rng).unwrap();
    assert_ne!(h.high().to_index(), h.low().to_index());
}

#[test]
fn pool_deals_disjoint_hands() {
    let mut rng = rand::rngs::SmallRng::seed_from_u64(11);
    let mut sim = RangeSimulator::new();
    let aces = RangeTable::parse("AA").unwrap().for_each_hand();
    let kings = RangeTable::parse("KK").unwrap().for_each_hand();
    sim.add(&aces, 0);
    sim.add(&kings, 1);
    let mut hands: Vec<Option<Hand>> = vec![None, None];
    let known = Cards::from_str("2c7d9h").unwrap();
    let dealt = sim.random_hands(&mut rng, known, &mut hands);
    assert!(dealt);
    let h0 = hands[0].unwrap();
    let h1 = hands[1].unwrap();
    assert!(!known.has(h0.high()) && !known.has(h0.low()));
    assert!(!known.has(h1.high()) && !known.has(h1.low()));
    assert_ne!(h0.high().to_index(), h1.high().to_index());
    assert_ne!(h0.low().to_index(), h1.low().to_index());
    // each dealt hand comes from the pool added for that player
    assert!(aces.iter().any(|h| h.cmp_by_rank(h0) == 0));
    assert!(kings.iter().any(|h| h.cmp_by_rank(h1) == 0));
    // the pool keeps its entries, merely reordered
    assert_eq!(sim.hands.len(), aces.len() + kings.len());
}
