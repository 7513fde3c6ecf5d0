use arcium_poker::constants::MAX_PLAYERS;
use arcium_poker::pot::{PotManager, SidePot};

#[test]
fn test_simple_pot() {
    let mut pot_manager = PotManager::new();
    pot_manager.add_bet(0, 100);
    pot_manager.add_bet(1, 100);
    assert_eq!(pot_manager.main_pot, 200);
}

#[test]
fn test_side_pot_creation() {
    let mut pot_manager = PotManager::new();
    pot_manager.add_bet(0, 50);
    pot_manager.add_bet(1, 100);
    pot_manager.add_bet(2, 100);

    let mut all_in = [false; MAX_PLAYERS];
    all_in[0] = true;
    let mut active = [false; MAX_PLAYERS];
    active[0] = true;
    active[1] = true;
    active[2] = true;

    pot_manager.calculate_side_pots(3, &all_in, &active).unwrap();

    assert_eq!(pot_manager.side_pots[0].amount, 150);
    assert_eq!(pot_manager.side_pots[0].player_count, 3);

    assert_eq!(pot_manager.main_pot, 100);
}

#[test]
fn side_pot_eligibility_and_main_pot_seats() {
    let mut pot_manager = PotManager::new();
    pot_manager.add_bet(0, 50);
    pot_manager.add_bet(1, 100);
    pot_manager.add_bet(2, 100);
    let all_in = [true, false, false, false, false, false];
    let active = [true, true, true, false, false, false];
    pot_manager.calculate_side_pots(3, &all_in, &active).unwrap();
    assert_eq!(pot_manager.side_pot_count, 1);
    assert!(pot_manager.side_pots[0].is_eligible(0));
    assert!(pot_manager.side_pots[0].is_eligible(1));
    assert!(pot_manager.side_pots[0].is_eligible(2));
    assert!(!pot_manager.side_pots[0].is_eligible(3));
    assert_eq!(pot_manager.get_total_pot(), 250);
}

#[test]
fn no_all_in_keeps_main_pot() {
    let mut pot_manager = PotManager::new();
    pot_manager.add_bet(0, 70);
    pot_manager.add_bet(1, 70);
    let all_in = [false; MAX_PLAYERS];
    let active = [true, true, false, false, false, false];
    pot_manager.calculate_side_pots(2, &all_in, &active).unwrap();
    assert_eq!(pot_manager.side_pot_count, 0);
    assert_eq!(pot_manager.main_pot, 140);
}

#[test]
fn two_all_in_levels_make_two_side_pots() {
    let mut pot_manager = PotManager::new();
    pot_manager.add_bet(0, 30);
    pot_manager.add_bet(1, 80);
    pot_manager.add_bet(2, 200);
    pot_manager.add_bet(3, 200);
    let all_in = [true, true, false, false, false, false];
    let active = [true, true, true, true, false, false];
    pot_manager.calculate_side_pots(4, &all_in, &active).unwrap();
    assert_eq!(pot_manager.side_pot_count, 2);
    assert_eq!(pot_manager.side_pots[0].amount, 120);
    assert_eq!(pot_manager.side_pots[0].player_count, 4);
    assert_eq!(pot_manager.side_pots[1].amount, 150);
    assert_eq!(pot_manager.side_pots[1].player_count, 3);
    assert!(!pot_manager.side_pots[1].is_eligible(0));
    assert_eq!(pot_manager.main_pot, 240);
    assert_eq!(pot_manager.get_total_pot(), 510);
}

#[test]
fn equal_all_in_levels_share_one_pot() {
    let mut pot_manager = PotManager::new();
    pot_manager.add_bet(0, 40);
    pot_manager.add_bet(1, 40);
    pot_manager.add_bet(2, 90);
    let all_in = [true, true, false, false, false, false];
    let active = [true, true, true, false, false, false];
    pot_manager.calculate_side_pots(3, &all_in, &active).unwrap();
    assert_eq!(pot_manager.side_pot_count, 1);
    assert_eq!(pot_manager.side_pots[0].amount, 120);
    assert_eq!(pot_manager.main_pot, 50);
}

#[test]
fn resets_clear_pots() {
    let mut pot_manager = PotManager::new();
    pot_manager.add_bet(4, 25);
    pot_manager.reset_for_new_round();
    assert_eq!(pot_manager.player_contributions[4], 0);
    assert_eq!(pot_manager.main_pot, 25);
    pot_manager.reset_for_new_hand();
    assert_eq!(pot_manager.main_pot, 0);
    let mut side = SidePot::new(10);
    side.add_eligible_player(2);
    side.add_eligible_player(2);
    assert_eq!(side.player_count, 1);
}
