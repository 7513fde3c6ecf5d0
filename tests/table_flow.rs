use arcium_poker::betting::{
    handle_all_in, handle_bet, handle_call, handle_check, handle_fold, handle_player_timeout,
    handle_raise, player_action,
};
use arcium_poker::error::PokerError;
use arcium_poker::flow::{advance_game_stage, start_new_hand};
use arcium_poker::game::Game;
use arcium_poker::player::PlayerState;
use arcium_poker::showdown::settle_uncontested_pot;
use arcium_poker::table::{initialize_game, join_game, leave_game, start_game};
use arcium_poker::types::{GameStage, PlayerActionParam, Pubkey};

const BUY_IN: u64 = 300_000_000;

fn key(n: u8) -> Pubkey {
    Pubkey::new_from_array([n; 32])
}

fn seated_table(players: usize, dealer: u8) -> (Game, Vec<PlayerState>) {
    let mut game = initialize_game(7, key(200), None, None, None, None, None, 1, 1000).unwrap();
    let mut states = Vec::new();
    for i in 0..players {
        let mut ps = PlayerState::default();
        join_game(&mut game, &mut ps, key(i as u8 + 1), key(100), BUY_IN, 0, 1000).unwrap();
        states.push(ps);
    }
    game.dealer_position = dealer;
    (game, states)
}

fn started_table(players: usize, dealer: u8) -> (Game, Vec<PlayerState>) {
    let (mut game, mut states) = seated_table(players, dealer);
    let entropy: Vec<[u8; 32]> = (0..players).map(|i| [i as u8 * 17 + 3; 32]).collect();
    start_game(&mut game, entropy, &mut states, 2000).unwrap();
    (game, states)
}

fn table_chips(game: &Game, states: &[PlayerState]) -> u64 {
    states.iter().map(|s| s.chip_stack).sum::<u64>() + game.pot
}

#[test]
fn initialize_rejects_bad_configs() {
    assert_eq!(
        initialize_game(1, key(9), None, None, None, None, Some(7), 0, 0).unwrap_err(),
        PokerError::InvalidGameConfig
    );
    assert_eq!(
        initialize_game(1, key(9), Some(5), Some(5), None, None, None, 0, 0).unwrap_err(),
        PokerError::InvalidGameConfig
    );
    assert_eq!(
        initialize_game(1, key(9), None, None, Some(99_999_999), None, None, 0, 0).unwrap_err(),
        PokerError::InvalidGameConfig
    );
    assert_eq!(
        initialize_game(1, key(9), None, None, Some(300), Some(200), None, 0, 0).unwrap_err(),
        PokerError::InvalidGameConfig
    );
    let game = initialize_game(1, key(9), None, None, None, None, None, 0, 0).unwrap();
    assert_eq!(game.small_blind, 1_000_000);
    assert_eq!(game.big_blind, 2_000_000);
    assert_eq!(game.max_players, 6);
    assert_eq!(game.stage, GameStage::Waiting);
}

#[test]
fn join_checks_buy_in_and_seats() {
    let (mut game, _states) = seated_table(2, 0);
    let mut ps = PlayerState::default();
    assert_eq!(
        join_game(&mut game, &mut ps, key(50), key(100), 1, 0, 0).unwrap_err(),
        PokerError::BuyInTooLow
    );
    assert_eq!(
        join_game(&mut game, &mut ps, key(50), key(100), 3_000_000_000, 0, 0).unwrap_err(),
        PokerError::BuyInTooHigh
    );
    assert_eq!(
        join_game(&mut game, &mut ps, key(1), key(100), BUY_IN, 0, 0).unwrap_err(),
        PokerError::PlayerAlreadyInGame
    );
    join_game(&mut game, &mut ps, key(50), key(100), BUY_IN, 0, 0).unwrap();
    assert_eq!(ps.seat_index, 2);
    assert_eq!(game.player_count, 3);
}

#[test]
fn start_deals_and_posts_blinds() {
    let (game, states) = started_table(3, 0);
    assert_eq!(game.stage, GameStage::PreFlop);
    assert!(game.deck_initialized);
    assert_eq!(game.deck.next_card_index, 6);
    assert_eq!(game.pot, 3_000_000);
    assert_eq!(game.current_bet, 2_000_000);
    assert_eq!(states[1].chip_stack, BUY_IN - 1_000_000);
    assert_eq!(states[2].chip_stack, BUY_IN - 2_000_000);
    assert_eq!(game.current_player_index, 0);
    for (i, s) in states.iter().enumerate() {
        assert!(s.has_cards);
        assert_eq!(s.encrypted_hole_cards[0] ^ s.hole_card_keys[0], game.deck.encrypted_indices[2 * i]);
        assert_eq!(s.encrypted_hole_cards[1] ^ s.hole_card_keys[1], game.deck.encrypted_indices[2 * i + 1]);
    }
    assert_eq!(table_chips(&game, &states), 3 * BUY_IN);
}

#[test]
fn start_needs_two_players_and_entropy_per_seat() {
    let (mut game, mut states) = seated_table(1, 0);
    assert_eq!(
        start_game(&mut game, vec![[1; 32]], &mut states, 0).unwrap_err(),
        PokerError::NotEnoughPlayers
    );
    let (mut game, mut states) = seated_table(2, 0);
    assert_eq!(
        start_game(&mut game, vec![[1; 32]], &mut states, 0).unwrap_err(),
        PokerError::InvalidGameConfig
    );
    start_game(&mut game, vec![[1; 32], [2; 32]], &mut states, 0).unwrap();
    assert_eq!(
        start_game(&mut game, vec![[1; 32], [2; 32]], &mut states, 0).unwrap_err(),
        PokerError::GameAlreadyStarted
    );
}

#[test]
fn round_completes_only_after_everyone_matches_the_raise() {
    let (mut game, mut states) = started_table(3, 2);
    // Before the flop: seat 2 acts first after the big blind on seat 1.
    assert_eq!(game.current_player_index, 2);
    handle_call(&mut game, &mut states[2], 3000).unwrap();
    handle_call(&mut game, &mut states[0], 3001).unwrap();
    handle_check(&mut game, &mut states[1], 3002).unwrap();
    assert_eq!(game.stage, GameStage::Flop);
    assert_eq!(game.community_cards_revealed, 3);
    assert_eq!(game.current_player_index, 0);
    let chips = table_chips(&game, &states);

    handle_bet(&mut game, &mut states[0], 10_000_000, 4000).unwrap();
    assert_eq!(game.stage, GameStage::Flop);
    handle_call(&mut game, &mut states[1], 4001).unwrap();
    assert_eq!(game.stage, GameStage::Flop);
    handle_raise(&mut game, &mut states[2], 20_000_000, 4002).unwrap();
    assert_eq!(game.current_bet, 30_000_000);
    assert_eq!(game.stage, GameStage::Flop);
    handle_call(&mut game, &mut states[0], 4003).unwrap();
    assert_eq!(game.stage, GameStage::Flop);
    handle_call(&mut game, &mut states[1], 4004).unwrap();
    assert_eq!(game.stage, GameStage::Turn);
    assert_eq!(game.community_cards_revealed, 4);
    assert_eq!(game.current_bet, 0);
    assert_eq!(game.pot, 6_000_000 + 90_000_000);
    assert_eq!(table_chips(&game, &states), chips);
}

#[test]
fn fold_to_one_ends_hand_and_pays_last_seat() {
    let (mut game, mut states) = started_table(2, 0);
    assert_eq!(game.current_player_index, 0);
    let pot = game.pot;
    assert_eq!(pot, 3_000_000);
    handle_fold(&mut game, &mut states, 0, 3000).unwrap();
    assert_eq!(game.stage, GameStage::Finished);
    assert!(states[0].has_folded);
    assert_eq!(states[1].chip_stack, BUY_IN - 2_000_000 + pot);
    assert_eq!(game.pot, 0);
    assert_eq!(states[0].chip_stack + states[1].chip_stack, 2 * BUY_IN);
}

#[test]
fn actions_out_of_turn_or_stage_are_refused() {
    let (mut game, mut states) = started_table(3, 0);
    let before = game;
    assert_eq!(
        handle_call(&mut game, &mut states[1], 3000).unwrap_err(),
        PokerError::NotPlayerTurn
    );
    assert_eq!(game.pot, before.pot);
    assert_eq!(
        handle_check(&mut game, &mut states[0], 3000).unwrap_err(),
        PokerError::InvalidAction
    );
    assert_eq!(
        handle_bet(&mut game, &mut states[0], 5_000_000, 3000).unwrap_err(),
        PokerError::InvalidAction
    );
    assert_eq!(
        handle_raise(&mut game, &mut states[0], 1, 3000).unwrap_err(),
        PokerError::InvalidBetAmount
    );
    assert_eq!(
        handle_raise(&mut game, &mut states[0], BUY_IN, 3000).unwrap_err(),
        PokerError::InsufficientChips
    );
    let (mut waiting, mut seats) = seated_table(2, 0);
    assert_eq!(
        handle_fold(&mut waiting, &mut seats, 0, 0).unwrap_err(),
        PokerError::InvalidGameStage
    );
}

#[test]
fn all_in_and_short_call() {
    let (mut game, mut states) = started_table(2, 0);
    states[1].chip_stack = 5_000_000;
    handle_all_in(&mut game, &mut states[0], 3000).unwrap();
    assert!(states[0].is_all_in);
    assert_eq!(states[0].chip_stack, 0);
    assert_eq!(game.current_bet, BUY_IN);
    handle_call(&mut game, &mut states[1], 3001).unwrap();
    assert_eq!(states[1].chip_stack, 0);
    assert!(states[1].is_all_in);
    assert_eq!(game.stage, GameStage::Flop);
}

#[test]
fn unified_action_and_timeout() {
    let (mut game, mut states) = started_table(3, 0);
    player_action(&mut game, &mut states, 0, PlayerActionParam::Call, 3000).unwrap();
    assert_eq!(game.current_player_index, 1);
    assert_eq!(
        handle_player_timeout(&mut game, &mut states, 1, 3010).unwrap_err(),
        PokerError::InvalidAction
    );
    handle_player_timeout(&mut game, &mut states, 1, 3060).unwrap();
    assert!(states[1].has_folded);
    assert_eq!(game.current_player_index, 2);
    assert_eq!(game.stage, GameStage::PreFlop);
}

#[test]
fn stage_changes_follow_the_rules() {
    let (mut game, _states) = seated_table(2, 0);
    assert_eq!(advance_game_stage(&mut game, 0).unwrap_err(), PokerError::InvalidGameStage);
    assert_eq!(start_new_hand(&mut game).unwrap_err(), PokerError::InvalidGameStage);
    let (mut game, mut states) = started_table(2, 0);
    assert_eq!(
        leave_game(&mut game, &states[0], &key(100)).unwrap_err(),
        PokerError::CannotLeaveDuringHand
    );
    handle_fold(&mut game, &mut states, 0, 3000).unwrap();
    assert_eq!(game.pot, 0);
    assert_eq!(settle_uncontested_pot(&mut game, &mut states), Ok(1));
    start_new_hand(&mut game).unwrap();
    assert_eq!(game.stage, GameStage::Waiting);
    assert_eq!(game.dealer_position, 1);
    assert!(game.active_players[0] && game.active_players[1]);
    assert_eq!(leave_game(&mut game, &states[0], &key(100)).unwrap(), states[0].chip_stack);
    assert_eq!(game.player_count, 1);
}
