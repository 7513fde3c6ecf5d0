use arcium_poker::betting::{
    is_betting_round_complete, validate_all_in, validate_bet, validate_call, validate_check,
    validate_raise,
};
use arcium_poker::deck::EncryptedDeck;
use arcium_poker::error::PokerError;
use arcium_poker::flow::{
    check_all_players_all_in, check_single_player_remaining, check_turn_timeout,
    get_big_blind_position, get_first_player_for_round, get_small_blind_position,
    reveal_community_cards, rotate_dealer_button, should_end_game,
};
use arcium_poker::game::Game;
use arcium_poker::player::PlayerState;
use arcium_poker::pot::{PlayerBetAction, PotManager};
use arcium_poker::protocol::{
    create_deal_instruction, create_mxe_instruction, create_reveal_instruction, generate_deal_nonce,
    generate_nonce, generate_player_nonce, generate_reveal_nonce, EncryptedCard,
};
use arcium_poker::showdown::{abort_hand, distribute_winnings, handle_showdown};
use arcium_poker::table::{deal_hole_cards, handle_shuffle_callback, initialize_game, join_game, start_game};
use arcium_poker::types::{GameStage, Pubkey};
use arcium_poker::utils::{calculate_pot_total, find_next_active_player, validate_buy_in};
use arcium_poker::validation::{
    validate_bet_limits, validate_game_state, validate_no_timeout, validate_player_action,
    validate_state_transition,
};

fn key(n: u8) -> Pubkey {
    Pubkey::new_from_array([n; 32])
}

fn table(players: usize) -> (Game, Vec<PlayerState>) {
    let mut game = initialize_game(3, key(200), None, None, None, None, None, 0, 10).unwrap();
    let mut states = Vec::new();
    for i in 0..players {
        let mut ps = PlayerState::default();
        join_game(&mut game, &mut ps, key(i as u8 + 1), key(100), 400_000_000, 0, 10).unwrap();
        states.push(ps);
    }
    (game, states)
}

#[test]
fn buy_in_and_seat_helpers() {
    assert_eq!(validate_buy_in(5, 10, 20), Err(PokerError::BuyInTooLow));
    assert_eq!(validate_buy_in(25, 10, 20), Err(PokerError::BuyInTooHigh));
    assert_eq!(validate_buy_in(15, 10, 20), Ok(()));
    let active = [false, true, false, true, false, false];
    assert_eq!(find_next_active_player(1, &active, 4), Some(3));
    assert_eq!(find_next_active_player(3, &active, 4), Some(1));
    assert_eq!(find_next_active_player(0, &[false; 6], 4), None);
    assert_eq!(calculate_pot_total(&[5, 10, 20]), 35);
}

#[test]
fn stage_transition_table() {
    assert!(validate_state_transition(GameStage::Waiting, GameStage::PreFlop).is_ok());
    assert!(validate_state_transition(GameStage::River, GameStage::Showdown).is_ok());
    assert!(validate_state_transition(GameStage::Flop, GameStage::Finished).is_ok());
    assert!(validate_state_transition(GameStage::Finished, GameStage::Waiting).is_ok());
    assert_eq!(
        validate_state_transition(GameStage::PreFlop, GameStage::Turn),
        Err(PokerError::InvalidGameStage)
    );
    assert_eq!(
        validate_state_transition(GameStage::Waiting, GameStage::Flop),
        Err(PokerError::InvalidGameStage)
    );
}

#[test]
fn validators_on_a_started_table() {
    let (mut game, mut states) = table(3);
    start_game(&mut game, vec![[1; 32], [2; 32], [3; 32]], &mut states, 20).unwrap();
    assert_eq!(validate_game_state(&game), Ok(()));
    assert_eq!(validate_player_action(&game, &states[0], 0), Ok(()));
    assert_eq!(validate_player_action(&game, &states[1], 1), Err(PokerError::NotPlayerTurn));
    assert_eq!(validate_call(&game, &states[0]), Ok(2_000_000));
    assert_eq!(validate_check(&game, &states[0]), Err(PokerError::InvalidAction));
    assert_eq!(validate_check(&game, &states[2]), Ok(()));
    assert_eq!(validate_bet(&game, &states[0], 5_000_000), Err(PokerError::InvalidAction));
    assert_eq!(validate_raise(&game, &states[0], 4_000_000), Ok(()));
    assert_eq!(validate_raise(&game, &states[0], 3_999_999), Err(PokerError::InvalidBetAmount));
    assert_eq!(validate_all_in(&states[0]), Ok(400_000_000));
    assert_eq!(validate_all_in(&PlayerState::default()), Err(PokerError::InsufficientChips));
    assert!(!is_betting_round_complete(&game, &states));
    assert!(!check_all_players_all_in(&game, &states));
    assert!(!check_single_player_remaining(&game));
    assert_eq!(get_small_blind_position(&game), 1);
    assert_eq!(get_big_blind_position(&game), 2);
    assert_eq!(get_first_player_for_round(&game), 0);
    assert!(check_turn_timeout(&game, 80));
    assert!(!check_turn_timeout(&game, 79));
    assert!(!should_end_game(&game));
}

#[test]
fn open_bet_validation() {
    let (mut game, states) = table(2);
    game.stage = GameStage::Flop;
    assert_eq!(validate_bet(&game, &states[0], 1_000_000), Err(PokerError::InvalidBetAmount));
    assert_eq!(validate_bet(&game, &states[0], 500_000_000), Err(PokerError::InsufficientChips));
    assert_eq!(validate_bet(&game, &states[0], 400_000_000), Ok(()));
    assert_eq!(validate_bet(&game, &states[0], 2_000_000), Ok(()));
}

#[test]
fn community_cards_follow_the_deck() {
    let (mut game, _states) = table(2);
    assert_eq!(reveal_community_cards(&mut game, 3), Err(PokerError::DeckNotInitialized));
    let mut indices = [0u8; 52];
    for i in 0..52 {
        indices[i] = ((i * 7) % 52) as u8;
    }
    game.deck = EncryptedDeck::initialize_from_shuffle(indices, [0; 32], [0; 32]);
    game.deck_initialized = true;
    reveal_community_cards(&mut game, 3).unwrap();
    assert_eq!(game.community_cards_revealed, 3);
    assert_eq!(game.community_cards[0], indices[1]);
    assert_eq!(game.community_cards[2], indices[3]);
    assert_eq!(game.deck.next_card_index, 4);
    reveal_community_cards(&mut game, 2).unwrap();
    assert_eq!(game.community_cards[4], indices[6]);
    assert_eq!(reveal_community_cards(&mut game, 1), Err(PokerError::InvalidCardIndex));
}

#[test]
fn dealer_rotation_and_dealing() {
    let (mut game, mut states) = table(3);
    game.active_players[1] = false;
    rotate_dealer_button(&mut game).unwrap();
    assert_eq!(game.dealer_position, 2);
    game.active_players = [false; 6];
    assert_eq!(rotate_dealer_button(&mut game), Err(PokerError::NotEnoughPlayers));
    assert_eq!(deal_hole_cards(&mut game, &mut states), Err(PokerError::InvalidGameStage));
    game.stage = GameStage::PreFlop;
    game.active_players = [true, true, true, false, false, false];
    game.current_player_index = 0;
    assert_eq!(deal_hole_cards(&mut game, &mut states), Err(PokerError::DeckNotInitialized));
    let mut indices = [0u8; 52];
    for i in 0..52 {
        indices[i] = (51 - i) as u8;
    }
    game.deck = EncryptedDeck::initialize_from_shuffle(indices, [0; 32], [0; 32]);
    game.deck_initialized = true;
    deal_hole_cards(&mut game, &mut states).unwrap();
    let open = |s: &PlayerState, h: usize| s.encrypted_hole_cards[h] ^ s.hole_card_keys[h];
    assert_eq!((open(&states[0], 0), open(&states[0], 1)), (51, 50));
    assert_eq!((open(&states[2], 0), open(&states[2], 1)), (47, 46));
    assert!(states.iter().all(|s| s.has_cards));
}

#[test]
fn showdown_pays_the_best_hand() {
    let (mut game, mut states) = table(2);
    let mut indices = [0u8; 52];
    for i in 0..52 {
        indices[i] = i as u8;
    }
    game.deck = EncryptedDeck::initialize_from_shuffle(indices, [0; 32], [0; 32]);
    game.deck_initialized = true;
    game.stage = GameStage::Showdown;
    game.pot = 40;
    // Seat 0 holds the ace and king of hearts, seat 1 the deuce and three of clubs;
    // the board is ten, jack, queen of hearts, four and five of diamonds.
    states[0].encrypted_hole_cards = [12, 11];
    states[1].encrypted_hole_cards = [26, 27];
    game.community_cards = [8, 9, 10, 15, 16];
    let mut pots = PotManager::new();
    pots.main_pot = 40;
    let before0 = states[0].chip_stack;
    handle_showdown(&mut game, &mut states, &pots).unwrap();
    assert_eq!(game.stage, GameStage::Finished);
    assert_eq!(game.pot, 0);
    assert_eq!(states[0].chip_stack, before0 + 40);

    let (mut other, mut seats) = table(2);
    assert_eq!(handle_showdown(&mut other, &mut seats, &pots), Err(PokerError::InvalidGameStage));
}

#[test]
fn payouts_never_exceed_the_pot() {
    let (mut game, mut states) = table(2);
    game.stage = GameStage::Finished;
    game.pot = 100;
    assert_eq!(
        distribute_winnings(&mut game, &mut states, &vec![(0, 60), (1, 60)]),
        Err(PokerError::InvalidGameConfig)
    );
    assert_eq!(game.pot, 100);
    distribute_winnings(&mut game, &mut states, &vec![(0, 60), (1, 40)]).unwrap();
    assert_eq!(states[0].chip_stack, 400_000_060);
    assert_eq!(states[1].chip_stack, 400_000_040);
    assert_eq!(game.pot, 0);
}

#[test]
fn aborted_hand_returns_bets() {
    let (mut game, mut states) = table(3);
    start_game(&mut game, vec![[1; 32], [2; 32], [3; 32]], &mut states, 20).unwrap();
    abort_hand(&mut game, &mut states).unwrap();
    assert_eq!(game.stage, GameStage::Finished);
    assert_eq!(game.pot, 0);
    for s in &states {
        assert_eq!(s.chip_stack, 400_000_000);
        assert_eq!(s.total_bet_this_hand, 0);
    }
}

#[test]
fn shuffle_callback_sets_the_deck() {
    let (mut game, _states) = table(2);
    let mut id = [0u8; 32];
    id[0] = 3;
    let output: Vec<u8> = (0..60).map(|i| (i % 52) as u8).collect();
    handle_shuffle_callback(&mut game, id, output.clone()).unwrap();
    assert!(game.deck_initialized);
    assert_eq!(game.deck.encrypted_indices[10], 10);
    id[0] = 4;
    let (mut fresh, _s) = table(2);
    assert!(handle_shuffle_callback(&mut fresh, id, output).is_err());
    assert!(!fresh.deck_initialized);
}

#[test]
fn request_framing_and_nonces() {
    let data = create_mxe_instruction(0, &vec![[7; 32], [9; 32]], [1, 2, 3, 4, 5, 6, 7, 8]);
    assert_eq!(data.len(), 1 + 8 + 64);
    assert_eq!(data[0], 0);
    assert_eq!(data[8], 8);
    assert_eq!(data[9], 7);
    assert_eq!(data[72], 9);
    let deal = create_deal_instruction(1, [5; 32], 17, [0; 8]);
    assert_eq!(deal.len(), 42);
    assert_eq!(deal[41], 17);
    let cards = vec![EncryptedCard { encrypted_index: 33, key_shard: [0; 32], owner: key(1) }];
    let reveal = create_reveal_instruction(2, &cards, [0; 8]);
    assert_eq!(reveal, vec![2, 0, 0, 0, 0, 0, 0, 0, 0, 33]);
    let n = generate_nonce(0x0102);
    assert_eq!(n[0], 2);
    assert_eq!(n[1], 1);
    assert_eq!(generate_player_nonce(0x0102, 4)[8], 4);
    let d = generate_deal_nonce(5, 9);
    assert_eq!((d[0], d[8], d[9]), (5, 9, 1));
    let r = generate_reveal_nonce(&[6; 32], 3);
    assert_eq!((r[7], r[8], r[9], r[10]), (6, 3, 2, 0));
}

#[test]
fn bet_record_resets() {
    let mut a = PlayerBetAction::default();
    a.current_round_bet = 5;
    a.total_hand_bet = 9;
    a.has_acted = true;
    a.reset_for_new_round();
    assert_eq!(a.current_round_bet, 0);
    assert_eq!(a.total_hand_bet, 9);
    assert!(!a.has_acted);
    a.is_all_in = true;
    a.reset_for_new_hand();
    assert_eq!(a, PlayerBetAction::default());
}

#[test]
fn bet_limits_and_timeout() {
    assert_eq!(validate_bet_limits(5, 10, 0, 100), Err(PokerError::InvalidBetAmount));
    assert_eq!(validate_bet_limits(5, 10, 0, 5), Ok(()));
    assert_eq!(validate_bet_limits(50, 10, 40, 100), Err(PokerError::InvalidBetAmount));
    assert_eq!(validate_bet_limits(150, 10, 0, 100), Err(PokerError::InsufficientChips));
    assert_eq!(validate_bet_limits(30, 10, 40, 100), Ok(()));
    let (game, _states) = table(2);
    assert_eq!(validate_no_timeout(&game, 69), Ok(()));
    assert_eq!(validate_no_timeout(&game, 70), Err(PokerError::InvalidAction));
}

#[test]
fn round_with_nobody_left_to_bet_is_complete() {
    let (mut game, mut states) = table(2);
    start_game(&mut game, vec![[1; 32], [2; 32]], &mut states, 20).unwrap();
    states[0].is_all_in = true;
    states[1].has_folded = true;
    assert!(is_betting_round_complete(&game, &states));
}
