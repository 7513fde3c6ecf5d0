use arcium_poker::deck::Card;
use arcium_poker::evaluator::{evaluate_best_hand, evaluate_hand};
use arcium_poker::types::{HandRank, Rank, Suit};
use std::cmp::Ordering;

fn c(suit: Suit, rank: Rank) -> Card {
    Card::new(suit, rank)
}

#[test]
fn hand_order_royal_straight_flush_quads_full_house() {
    let royal = evaluate_hand(&[
        c(Suit::Hearts, Rank::Ace),
        c(Suit::Hearts, Rank::King),
        c(Suit::Hearts, Rank::Queen),
        c(Suit::Hearts, Rank::Jack),
        c(Suit::Hearts, Rank::Ten),
    ])
    .unwrap();
    let straight_flush = evaluate_hand(&[
        c(Suit::Clubs, Rank::Two),
        c(Suit::Clubs, Rank::Three),
        c(Suit::Clubs, Rank::Four),
        c(Suit::Clubs, Rank::Five),
        c(Suit::Clubs, Rank::Six),
    ])
    .unwrap();
    let quads = evaluate_hand(&[
        c(Suit::Spades, Rank::Nine),
        c(Suit::Hearts, Rank::Nine),
        c(Suit::Diamonds, Rank::Nine),
        c(Suit::Clubs, Rank::Nine),
        c(Suit::Clubs, Rank::Two),
    ])
    .unwrap();
    let full_house = evaluate_hand(&[
        c(Suit::Hearts, Rank::Seven),
        c(Suit::Spades, Rank::Seven),
        c(Suit::Clubs, Rank::Seven),
        c(Suit::Diamonds, Rank::Two),
        c(Suit::Hearts, Rank::Two),
    ])
    .unwrap();
    assert_eq!(royal.rank, HandRank::RoyalFlush);
    assert_eq!(straight_flush.rank, HandRank::StraightFlush);
    assert_eq!(straight_flush.primary_value, 6);
    assert_eq!(quads.rank, HandRank::FourOfAKind);
    assert_eq!(quads.primary_value, 9);
    assert_eq!(quads.kickers, [2, 0, 0, 0, 0]);
    assert_eq!(full_house.rank, HandRank::FullHouse);
    assert_eq!(full_house.primary_value, 7);
    assert_eq!(full_house.secondary_value, 2);
    assert!(royal > straight_flush);
    assert!(straight_flush > quads);
    assert!(quads > full_house);
    assert_eq!(full_house.compare(&royal), Ordering::Less);
}

#[test]
fn wheel_is_five_high_straight() {
    let wheel = evaluate_hand(&[
        c(Suit::Hearts, Rank::Ace),
        c(Suit::Clubs, Rank::Two),
        c(Suit::Diamonds, Rank::Three),
        c(Suit::Spades, Rank::Four),
        c(Suit::Hearts, Rank::Five),
    ])
    .unwrap();
    assert_eq!(wheel.rank, HandRank::Straight);
    assert_eq!(wheel.primary_value, 5);
    let six_high = evaluate_hand(&[
        c(Suit::Hearts, Rank::Six),
        c(Suit::Clubs, Rank::Two),
        c(Suit::Diamonds, Rank::Three),
        c(Suit::Spades, Rank::Four),
        c(Suit::Hearts, Rank::Five),
    ])
    .unwrap();
    assert_eq!(six_high.primary_value, 6);
    assert!(six_high > wheel);
}

#[test]
fn best_of_seven_finds_royal_flush() {
    let hole = [c(Suit::Spades, Rank::Ace), c(Suit::Spades, Rank::King)];
    let community = [
        c(Suit::Spades, Rank::Queen),
        c(Suit::Spades, Rank::Jack),
        c(Suit::Spades, Rank::Ten),
        c(Suit::Clubs, Rank::Two),
        c(Suit::Clubs, Rank::Three),
    ];
    let best = evaluate_best_hand(&hole, &community).unwrap();
    assert_eq!(best.rank, HandRank::RoyalFlush);
    assert_eq!(best.kickers, [14, 13, 12, 11, 10]);
}

#[test]
fn categories_and_kickers() {
    let flush = evaluate_hand(&[
        c(Suit::Diamonds, Rank::King),
        c(Suit::Diamonds, Rank::Nine),
        c(Suit::Diamonds, Rank::Seven),
        c(Suit::Diamonds, Rank::Four),
        c(Suit::Diamonds, Rank::Two),
    ])
    .unwrap();
    assert_eq!(flush.rank, HandRank::Flush);
    assert_eq!(flush.primary_value, 13);
    assert_eq!(flush.kickers, [13, 9, 7, 4, 2]);

    let trips = evaluate_hand(&[
        c(Suit::Diamonds, Rank::Eight),
        c(Suit::Clubs, Rank::Eight),
        c(Suit::Hearts, Rank::Eight),
        c(Suit::Diamonds, Rank::Ace),
        c(Suit::Spades, Rank::Three),
    ])
    .unwrap();
    assert_eq!(trips.rank, HandRank::ThreeOfAKind);
    assert_eq!(trips.primary_value, 8);
    assert_eq!(trips.kickers, [14, 3, 0, 0, 0]);

    let two_pair = evaluate_hand(&[
        c(Suit::Diamonds, Rank::Jack),
        c(Suit::Clubs, Rank::Jack),
        c(Suit::Hearts, Rank::Four),
        c(Suit::Spades, Rank::Four),
        c(Suit::Spades, Rank::Queen),
    ])
    .unwrap();
    assert_eq!(two_pair.rank, HandRank::TwoPair);
    assert_eq!(two_pair.primary_value, 11);
    assert_eq!(two_pair.secondary_value, 4);
    assert_eq!(two_pair.kickers, [12, 0, 0, 0, 0]);

    let pair = evaluate_hand(&[
        c(Suit::Diamonds, Rank::Ten),
        c(Suit::Clubs, Rank::Ten),
        c(Suit::Hearts, Rank::King),
        c(Suit::Spades, Rank::Five),
        c(Suit::Spades, Rank::Two),
    ])
    .unwrap();
    assert_eq!(pair.rank, HandRank::OnePair);
    assert_eq!(pair.primary_value, 10);
    assert_eq!(pair.kickers, [13, 5, 2, 0, 0]);

    let high = evaluate_hand(&[
        c(Suit::Diamonds, Rank::Ten),
        c(Suit::Clubs, Rank::Eight),
        c(Suit::Hearts, Rank::King),
        c(Suit::Spades, Rank::Five),
        c(Suit::Spades, Rank::Two),
    ])
    .unwrap();
    assert_eq!(high.rank, HandRank::HighCard);
    assert_eq!(high.primary_value, 13);
    assert_eq!(high.kickers, [13, 10, 8, 5, 2]);

    assert!(flush > trips);
    assert!(trips > two_pair);
    assert!(two_pair > pair);
    assert!(pair > high);
}

#[test]
fn kickers_break_ties_and_equal_hands_tie() {
    let a = evaluate_hand(&[
        c(Suit::Diamonds, Rank::Ten),
        c(Suit::Clubs, Rank::Ten),
        c(Suit::Hearts, Rank::King),
        c(Suit::Spades, Rank::Six),
        c(Suit::Spades, Rank::Two),
    ])
    .unwrap();
    let b = evaluate_hand(&[
        c(Suit::Hearts, Rank::Ten),
        c(Suit::Spades, Rank::Ten),
        c(Suit::Clubs, Rank::King),
        c(Suit::Hearts, Rank::Five),
        c(Suit::Hearts, Rank::Two),
    ])
    .unwrap();
    let a2 = evaluate_hand(&[
        c(Suit::Hearts, Rank::Ten),
        c(Suit::Spades, Rank::Ten),
        c(Suit::Clubs, Rank::King),
        c(Suit::Hearts, Rank::Six),
        c(Suit::Clubs, Rank::Two),
    ])
    .unwrap();
    assert!(a > b);
    assert_eq!(a.compare(&a2), Ordering::Equal);
    assert!(a == a2);
    assert!(a != b);
}
