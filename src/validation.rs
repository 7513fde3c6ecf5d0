use vstd::prelude::*;
use crate::error::PokerError;
use crate::flow::stage_after;
use crate::game::{count_marked, Game};
use crate::player::PlayerState;
use crate::protocol::{is_deck_permutation, occurs};
use crate::types::GameStage;

verus! {

/// The stage changes a table may make: a hand starts from waiting, moves
/// through flop, turn, river and showdown one at a time, may end from any
/// stage, and a finished table waits for the next hand.
pub open spec fn legal_transition(from: GameStage, to: GameStage) -> bool {
    ||| from == GameStage::Waiting && to == GameStage::PreFlop
    ||| from == GameStage::PreFlop && to == GameStage::Flop
    ||| from == GameStage::Flop && to == GameStage::Turn
    ||| from == GameStage::Turn && to == GameStage::River
    ||| from == GameStage::River && to == GameStage::Showdown
    ||| to == GameStage::Finished
    ||| from == GameStage::Finished && to == GameStage::Waiting
}

/// Accepts exactly the legal stage changes.
pub fn validate_state_transition(from_stage: GameStage, to_stage: GameStage) -> (r: Result<(), PokerError>)
    ensures
        legal_transition(from_stage, to_stage) ==> r is Ok,
        !legal_transition(from_stage, to_stage) ==> r == Err::<(), PokerError>(
            PokerError::InvalidGameStage,
        ),
{
    let valid = match (from_stage, to_stage) {
        (GameStage::Waiting, GameStage::PreFlop) => true,
        (GameStage::PreFlop, GameStage::Flop) => true,
        (GameStage::Flop, GameStage::Turn) => true,
        (GameStage::Turn, GameStage::River) => true,
        (GameStage::River, GameStage::Showdown) => true,
        (_, GameStage::Finished) => true,
        (GameStage::Finished, GameStage::Waiting) => true,
        _ => false,
    };
    if !valid {
        return Err(PokerError::InvalidGameStage);
    }
    Ok(())
}

/// Closing a betting round is always a legal stage change.
pub proof fn lemma_round_close_is_legal(s: GameStage)
    requires
        s.is_betting(),
    ensures
        legal_transition(s, stage_after(s)),
{
}

proof fn lemma_count_full(e: Seq<bool>, n: int)
    requires
        0 <= n <= e.len(),
        count_marked(e, n) == n,
    ensures
        forall|v: int| 0 <= v < n ==> #[trigger] e[v],
    decreases n,
{
    if n > 0 {
        lemma_count_bound(e, n - 1);
        lemma_count_full(e, n - 1);
    }
}

proof fn lemma_count_none(e: Seq<bool>, n: int)
    requires
        forall|v: int| 0 <= v < n ==> !#[trigger] e[v],
    ensures
        count_marked(e, n) == 0,
    decreases n,
{
    if n > 0 {
        lemma_count_none(e, n - 1);
    }
}

proof fn lemma_count_bound(e: Seq<bool>, n: int)
    ensures
        count_marked(e, n) <= if n < 0 { 0 } else { n },
    decreases n,
{
    if n > 0 {
        lemma_count_bound(e, n - 1);
    }
}

proof fn lemma_count_set(e: Seq<bool>, k: int, n: int)
    requires
        0 <= k < e.len(),
        !e[k],
        0 <= n <= e.len(),
    ensures
        count_marked(e.update(k, true), n) == count_marked(e, n) + if k < n {
            1int
        } else {
            0int
        },
    decreases n,
{
    if n > 0 {
        lemma_count_set(e, k, n - 1);
    }
}

/// A deck is sound when it holds each card position 0 to 51 exactly once.
/// A position past 51 is reported as an invalid card, a repeated one as a
/// deck that was not set up.
pub fn validate_deck_integrity(encrypted_deck: &[u8; 52]) -> (r: Result<(), PokerError>)
    ensures
        r is Ok <==> is_deck_permutation(encrypted_deck@),
        r is Err ==> r == Err::<(), PokerError>(PokerError::InvalidCardIndex) || r == Err::<
            (),
            PokerError,
        >(PokerError::DeckNotInitialized),
{
    let mut seen = [false;52];
    proof {
        lemma_count_none(seen@, 52);
    }
    let mut i: usize = 0;
    while i < 52
        invariant
            i <= 52,
            count_marked(seen@, 52) == i,
            forall|j: int| 0 <= j < i ==> #[trigger] encrypted_deck@[j] < 52,
            forall|j: int, k: int| 0 <= j < i && 0 <= k < i && j != k ==> encrypted_deck@[j] != encrypted_deck@[k],
            forall|v: int| 0 <= v < 52 ==> (#[trigger] seen@[v] <==> exists|j: int| 0 <= j < i && encrypted_deck@[j] == v),
        decreases 52 - i,
    {
        let card_index = encrypted_deck[i];
        if card_index >= 52 {
            return Err(PokerError::InvalidCardIndex);
        }
        if seen[card_index as usize] {
            proof {
                let j = choose|j: int| 0 <= j < i && encrypted_deck@[j] == card_index;
                assert(encrypted_deck@[j] == encrypted_deck@[i as int]);
            }
            return Err(PokerError::DeckNotInitialized);
        }
        proof {
            lemma_count_set(seen@, card_index as int, 52);
        }
        seen[card_index as usize] = true;
        i = i + 1;
    }
    proof {
        lemma_count_full(seen@, 52);
        assert forall|v: int| 0 <= v < 52 implies #[trigger] occurs(encrypted_deck@, v) by {
            assert(seen@[v]);
            let j = choose|j: int| 0 <= j < 52 && encrypted_deck@[j] == v;
        }
    }
    Ok(())
}

/// Checks that a seat may act now: it is its turn, it is still in the
/// hand, and it has not folded.
pub fn validate_player_action(game: &Game, player_state: &PlayerState, seat_index: u8) -> (r: Result<(), PokerError>)
    requires
        game.wf(),
    ensures
        game.current_player_index != seat_index ==> r == Err::<(), PokerError>(
            PokerError::NotPlayerTurn,
        ),
        game.current_player_index == seat_index && !game.active_players@[seat_index as int] ==> r
            == Err::<(), PokerError>(PokerError::PlayerNotInGame),
        game.current_player_index == seat_index && game.active_players@[seat_index as int]
            && player_state.has_folded ==> r == Err::<(), PokerError>(PokerError::InvalidAction),
        game.current_player_index == seat_index && game.active_players@[seat_index as int]
            && !player_state.has_folded ==> r is Ok,
{
    if game.current_player_index != seat_index {
        return Err(PokerError::NotPlayerTurn);
    }
    if !game.active_players[seat_index as usize] {
        return Err(PokerError::PlayerNotInGame);
    }
    if player_state.has_folded {
        return Err(PokerError::InvalidAction);
    }
    Ok(())
}

/// Checks a table's seat bookkeeping: no more players than the table
/// allows, the dealer on a taken seat, and during a hand the turn on a taken
/// seat.
pub fn validate_game_state(game: &Game) -> (r: Result<(), PokerError>)
    ensures
        r is Ok <==> {
            &&& game.player_count <= game.max_players
            &&& game.player_count <= 6
            &&& game.dealer_position < game.player_count
            &&& (game.stage != GameStage::Waiting && game.stage != GameStage::Finished)
                ==> game.current_player_index < game.player_count
        },
        r is Err ==> r == Err::<(), PokerError>(PokerError::InvalidGameConfig),
{
    if game.player_count > game.max_players || game.player_count > 6 {
        return Err(PokerError::InvalidGameConfig);
    }
    if game.dealer_position >= game.player_count {
        return Err(PokerError::InvalidGameConfig);
    }
    if game.stage != GameStage::Waiting && game.stage != GameStage::Finished {
        if game.current_player_index >= game.player_count {
            return Err(PokerError::InvalidGameConfig);
        }
    }
    Ok(())
}

/// A bet within limits: at least `min_bet` unless it is the whole stack,
/// at most `max_bet` when a maximum is set (non-zero), and within the stack.
pub fn validate_bet_limits(bet_amount: u64, min_bet: u64, max_bet: u64, player_chips: u64) -> (r: Result<(), PokerError>)
    ensures
        bet_amount < player_chips && bet_amount < min_bet ==> r == Err::<(), PokerError>(
            PokerError::InvalidBetAmount,
        ),
        !(bet_amount < player_chips && bet_amount < min_bet) && max_bet > 0 && bet_amount > max_bet
            ==> r == Err::<(), PokerError>(PokerError::InvalidBetAmount),
        !(bet_amount < player_chips && bet_amount < min_bet) && !(max_bet > 0 && bet_amount
            > max_bet) && bet_amount > player_chips ==> r == Err::<(), PokerError>(
            PokerError::InsufficientChips,
        ),
        !(bet_amount < player_chips && bet_amount < min_bet) && !(max_bet > 0 && bet_amount
            > max_bet) && bet_amount <= player_chips ==> r is Ok,
{
    if bet_amount < player_chips && bet_amount < min_bet {
        return Err(PokerError::InvalidBetAmount);
    }
    if max_bet > 0 && bet_amount > max_bet {
        return Err(PokerError::InvalidBetAmount);
    }
    if bet_amount > player_chips {
        return Err(PokerError::InsufficientChips);
    }
    Ok(())
}

/// An action is only taken while the turn timeout has not passed.
pub fn validate_no_timeout(game: &Game, current_time: i64) -> (r: Result<(), PokerError>)
    ensures
        current_time - game.last_action_at < crate::constants::TURN_TIMEOUT ==> r is Ok,
        current_time - game.last_action_at >= crate::constants::TURN_TIMEOUT ==> r == Err::<
            (),
            PokerError,
        >(PokerError::InvalidAction),
{
    crate::betting::validate_action_timeout(game, current_time)
}

} // verus!
