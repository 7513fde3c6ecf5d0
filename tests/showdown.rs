use arcium_poker::deck::Card;
use arcium_poker::evaluator::{evaluate_hand, EvaluatedHand};
use arcium_poker::pot::{PotManager, SidePot};
use arcium_poker::showdown::{
    calculate_rake, determine_all_winners, determine_main_pot_winners, determine_side_pot_winners,
    evaluate_and_determine_winners,
};
use arcium_poker::types::{HandRank, Rank, Suit};

fn c(suit: Suit, rank: Rank) -> Card {
    Card::new(suit, rank)
}

fn pair_of_tens(s: Suit) -> EvaluatedHand {
    evaluate_hand(&[
        c(s, Rank::Ten),
        c(Suit::Clubs, Rank::Ten),
        c(Suit::Hearts, Rank::King),
        c(Suit::Spades, Rank::Six),
        c(Suit::Spades, Rank::Two),
    ])
    .unwrap()
}

fn high_card() -> EvaluatedHand {
    evaluate_hand(&[
        c(Suit::Diamonds, Rank::Nine),
        c(Suit::Clubs, Rank::Seven),
        c(Suit::Hearts, Rank::King),
        c(Suit::Spades, Rank::Five),
        c(Suit::Spades, Rank::Two),
    ])
    .unwrap()
}

#[test]
fn split_pot_gives_odd_chip_to_first_seat() {
    let hands = vec![(1u8, pair_of_tens(Suit::Diamonds)), (4u8, pair_of_tens(Suit::Hearts))];
    let winners = determine_main_pot_winners(&hands, 101);
    assert_eq!(winners.len(), 2);
    assert_eq!(winners[0].seat_index, 1);
    assert_eq!(winners[0].share, 51);
    assert_eq!(winners[1].seat_index, 4);
    assert_eq!(winners[1].share, 50);
}

#[test]
fn best_hand_takes_whole_pot() {
    let hands = vec![(0u8, high_card()), (2u8, pair_of_tens(Suit::Diamonds))];
    let winners = determine_main_pot_winners(&hands, 80);
    assert_eq!(winners.len(), 1);
    assert_eq!(winners[0].seat_index, 2);
    assert_eq!(winners[0].share, 80);
    assert!(determine_main_pot_winners(&vec![], 80).is_empty());
}

#[test]
fn side_pot_only_for_eligible_seats() {
    let hands = vec![(0u8, pair_of_tens(Suit::Diamonds)), (1u8, high_card())];
    let mut side = SidePot::new(30);
    side.add_eligible_player(1);
    let winners = determine_side_pot_winners(&hands, &side);
    assert_eq!(winners.len(), 1);
    assert_eq!(winners[0].seat_index, 1);
    assert_eq!(winners[0].share, 30);
}

#[test]
fn all_pots_paid_per_seat() {
    let hands = vec![(0u8, pair_of_tens(Suit::Diamonds)), (1u8, high_card()), (2u8, pair_of_tens(Suit::Hearts))];
    let mut pots = PotManager::new();
    let mut side = SidePot::new(150);
    side.add_eligible_player(0);
    side.add_eligible_player(1);
    side.add_eligible_player(2);
    pots.side_pots[0] = side;
    pots.side_pot_count = 1;
    let paid = determine_all_winners(&hands, 101, &pots.side_pots, pots.side_pot_count);
    assert_eq!(paid, vec![(0u8, 75 + 51), (2u8, 75 + 50)]);
}

#[test]
fn showdown_evaluation_from_hole_cards() {
    let community = [
        c(Suit::Spades, Rank::Queen),
        c(Suit::Spades, Rank::Jack),
        c(Suit::Spades, Rank::Ten),
        c(Suit::Clubs, Rank::Two),
        c(Suit::Clubs, Rank::Three),
    ];
    let hole = vec![
        (0u8, [c(Suit::Spades, Rank::Ace), c(Suit::Spades, Rank::King)]),
        (1u8, [c(Suit::Hearts, Rank::Ace), c(Suit::Hearts, Rank::King)]),
    ];
    let pots = PotManager::new();
    let paid = evaluate_and_determine_winners(&hole, &community, 500, &pots.side_pots, 0).unwrap();
    assert_eq!(paid, vec![(0u8, 500)]);
    let best = evaluate_hand(&[community[0], community[1], community[2], hole[0].1[0], hole[0].1[1]]).unwrap();
    assert_eq!(best.rank, HandRank::RoyalFlush);
}

#[test]
fn rake_is_capped() {
    assert_eq!(calculate_rake(100_000_000, 2), 2_000_000);
    assert_eq!(calculate_rake(1_000_000_000, 5), 3_000_000);
    assert_eq!(calculate_rake(0, 5), 0);
}

#[test]
fn odd_chip_goes_to_lowest_tied_seat() {
    let hands = vec![(1u8, pair_of_tens(Suit::Diamonds)), (0u8, pair_of_tens(Suit::Hearts))];
    let winners = determine_main_pot_winners(&hands, 101);
    assert_eq!(winners.len(), 2);
    assert_eq!(winners[0].seat_index, 1);
    assert_eq!(winners[0].share, 50);
    assert_eq!(winners[1].seat_index, 0);
    assert_eq!(winners[1].share, 51);
}
