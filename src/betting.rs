use vstd::prelude::*;
use crate::constants::{MAX_PLAYERS, MIN_RAISE_MULTIPLIER, TURN_TIMEOUT};
use crate::error::PokerError;
use crate::flow::{advance_game_stage, can_advance, check_turn_timeout, stage_advanced};
use crate::game::{count_marked, Game};
use crate::player::PlayerState;
use crate::types::{GameStage, PlayerActionParam};
use crate::utils::find_next_active_player;

verus! {

// ---------------------------------------------------------------------------
// What an action does
// ---------------------------------------------------------------------------

/// Chips neither appear nor vanish: the seat's stack plus what it bet this
/// hand is unchanged, and whatever left the stack is now in the pot.
pub open spec fn chips_conserved(g0: Game, p0: PlayerState, g1: Game, p1: PlayerState) -> bool {
    &&& p1.chips_owned() == p0.chips_owned()
    &&& g1.pot + p1.chip_stack == g0.pot + p0.chip_stack
}

/// The turn has passed from `before` to the next active seat; with none
/// left the hand is over.
pub open spec fn turn_passed(before: Game, after: Game, now: i64) -> bool {
    let next = before.next_turn();
    &&& next >= 0 ==> after == (Game {
        current_player_index: next as u8,
        last_action_at: now,
        ..before
    })
    &&& next < 0 ==> after == (Game { stage: GameStage::Finished, ..before })
}

/// After a call or a check: a completed round moves the hand to the next
/// stage, otherwise the turn passes on.
pub open spec fn turn_closed(mid: Game, after: Game, now: i64) -> bool {
    &&& mid.round_complete() ==> stage_advanced(mid, after, now)
    &&& !mid.round_complete() ==> turn_passed(mid, after, now)
}

/// `mid` is `g` after seat `seat` put `amount` more into the pot and acted,
/// with `current_bet` the bet to match from now on.
pub open spec fn bet_recorded(
    g: Game,
    mid: Game,
    seat: int,
    amount: int,
    current_bet: int,
    all_in: bool,
) -> bool {
    &&& mid.pot == g.pot + amount
    &&& mid.round_bets@ == g.round_bets@.update(seat, (g.round_bets@[seat] + amount) as u64)
    &&& mid.players_acted@ == g.players_acted@.update(seat, true)
    &&& mid.all_in_players@ == g.all_in_players@.update(seat, g.all_in_players@[seat] || all_in)
    &&& mid.current_bet == current_bet
    &&& mid == (Game {
        pot: mid.pot,
        round_bets: mid.round_bets,
        players_acted: mid.players_acted,
        all_in_players: mid.all_in_players,
        current_bet: mid.current_bet,
        ..g
    })
}

/// The seat's record after it put `amount` more into the pot, having had
/// `round_bet` in this round before.
pub open spec fn seat_paid(p0: PlayerState, p1: PlayerState, round_bet: int, amount: int) -> bool {
    &&& p1.chip_stack == p0.chip_stack - amount
    &&& p1.current_bet == round_bet + amount
    &&& p1.total_bet_this_hand == p0.total_bet_this_hand + amount
    &&& p1.is_all_in == (p0.is_all_in || p1.chip_stack == 0)
    &&& p1 == (PlayerState {
        chip_stack: p1.chip_stack,
        current_bet: p1.current_bet,
        total_bet_this_hand: p1.total_bet_this_hand,
        is_all_in: p1.is_all_in,
        last_action_at: p1.last_action_at,
        ..p0
    })
}

/// What the acting seat has put in this round.
pub open spec fn round_bet_of(g: Game, p: PlayerState) -> int {
    g.round_bets@[p.seat_index as int] as int
}

/// What calling costs the acting seat: the rest of the current bet, or its
/// whole stack when that is less.
pub open spec fn call_cost(g: Game, p: PlayerState) -> int {
    let owed = if g.current_bet >= round_bet_of(g, p) {
        g.current_bet - round_bet_of(g, p)
    } else {
        0
    };
    if owed <= p.chip_stack {
        owed
    } else {
        p.chip_stack as int
    }
}

/// The smallest raise allowed: twice the current bet, or the big blind when
/// nothing has been bet.
pub open spec fn min_raise(g: Game) -> int {
    if g.current_bet == 0 {
        g.big_blind as int
    } else {
        g.current_bet * MIN_RAISE_MULTIPLIER
    }
}

/// Every action starts with these: a betting stage, and the seat's turn.
pub open spec fn may_act(g: Game, p: PlayerState) -> bool {
    g.stage.is_betting() && g.current_player_index == p.seat_index
}

/// The error an action gets when the stage or the turn is wrong.
pub open spec fn turn_error(g: Game, p: PlayerState) -> PokerError {
    if !g.stage.is_betting() {
        PokerError::InvalidGameStage
    } else {
        PokerError::NotPlayerTurn
    }
}

/// What every action needs of its inputs: a well-formed table and seat, and
/// chips that fit in a `u64` together.
pub open spec fn action_ready(g: Game, p: PlayerState) -> bool {
    &&& g.wf()
    &&& p.wf()
    &&& g.pot + p.chip_stack <= u64::MAX
}

// ---------------------------------------------------------------------------
// Validation
// ---------------------------------------------------------------------------

/// The acting seat must be the seat whose turn it is.
pub fn validate_player_turn(game: &Game, player_seat: u8) -> (r: Result<(), PokerError>)
    ensures
        game.current_player_index == player_seat ==> r is Ok,
        game.current_player_index != player_seat ==> r == Err::<(), PokerError>(
            PokerError::NotPlayerTurn,
        ),
{
    if game.current_player_index != player_seat {
        return Err(PokerError::NotPlayerTurn);
    }
    Ok(())
}

/// The seat must hold at least `amount`.
pub fn validate_sufficient_chips(player_state: &PlayerState, amount: u64) -> (r: Result<(), PokerError>)
    ensures
        player_state.chip_stack >= amount ==> r is Ok,
        player_state.chip_stack < amount ==> r == Err::<(), PokerError>(
            PokerError::InsufficientChips,
        ),
{
    if player_state.chip_stack < amount {
        return Err(PokerError::InsufficientChips);
    }
    Ok(())
}

/// What calling costs: the rest of the current bet, capped at the stack.
pub fn validate_call(game: &Game, player_state: &PlayerState) -> (r: Result<u64, PokerError>)
    ensures
        r is Ok,
        r matches Ok(a) && a as int == {
            let owed = if game.current_bet >= player_state.current_bet {
                game.current_bet - player_state.current_bet
            } else {
                0
            };
            if owed <= player_state.chip_stack {
                owed
            } else {
                player_state.chip_stack as int
            }
        },
{
    let call_amount = if game.current_bet >= player_state.current_bet {
        game.current_bet - player_state.current_bet
    } else {
        0
    };
    if call_amount <= player_state.chip_stack {
        Ok(call_amount)
    } else {
        Ok(player_state.chip_stack)
    }
}

/// A raise of `raise_amount` on top of calling: the seat must afford both,
/// and the raise must reach the minimum unless it puts the seat all in.
pub fn validate_raise(game: &Game, player_state: &PlayerState, raise_amount: u64) -> (r: Result<(), PokerError>)
    ensures
        ({
            let owed = if game.current_bet >= player_state.current_bet {
                game.current_bet - player_state.current_bet
            } else {
                0
            };
            let total = owed + raise_amount;
            &&& total > player_state.chip_stack ==> r == Err::<(), PokerError>(
                PokerError::InsufficientChips,
            )
            &&& total <= player_state.chip_stack && raise_amount < min_raise(*game) && total
                != player_state.chip_stack ==> r == Err::<(), PokerError>(
                PokerError::InvalidBetAmount,
            )
            &&& total <= player_state.chip_stack && (raise_amount >= min_raise(*game) || total
                == player_state.chip_stack) ==> r is Ok
        }),
{
    let call_amount: u128 = if game.current_bet >= player_state.current_bet {
        (game.current_bet - player_state.current_bet) as u128
    } else {
        0
    };
    let total_bet: u128 = call_amount + raise_amount as u128;
    if total_bet > player_state.chip_stack as u128 {
        return Err(PokerError::InsufficientChips);
    }
    assert(MIN_RAISE_MULTIPLIER == 2);
    let min: u128 = if game.current_bet == 0 {
        game.big_blind as u128
    } else {
        let b = game.current_bet as u128;
        assert(b * 2 <= u128::MAX) by (nonlinear_arith)
            requires
                b <= u64::MAX,
        ;
        b * MIN_RAISE_MULTIPLIER as u128
    };
    if (raise_amount as u128) < min && total_bet != player_state.chip_stack as u128 {
        return Err(PokerError::InvalidBetAmount);
    }
    Ok(())
}

/// An opening bet: only with no bet to match, at least the big blind unless
/// it is the whole stack, and within the stack.
pub fn validate_bet(game: &Game, player_state: &PlayerState, bet_amount: u64) -> (r: Result<(), PokerError>)
    ensures
        game.current_bet != 0 ==> r == Err::<(), PokerError>(PokerError::InvalidAction),
        game.current_bet == 0 && bet_amount < game.big_blind && bet_amount
            != player_state.chip_stack ==> r == Err::<(), PokerError>(
            PokerError::InvalidBetAmount,
        ),
        game.current_bet == 0 && (bet_amount >= game.big_blind || bet_amount
            == player_state.chip_stack) && bet_amount > player_state.chip_stack ==> r == Err::<
            (),
            PokerError,
        >(PokerError::InsufficientChips),
        game.current_bet == 0 && (bet_amount >= game.big_blind || bet_amount
            == player_state.chip_stack) && bet_amount <= player_state.chip_stack ==> r is Ok,
{
    if game.current_bet != 0 {
        return Err(PokerError::InvalidAction);
    }
    if bet_amount < game.big_blind && bet_amount != player_state.chip_stack {
        return Err(PokerError::InvalidBetAmount);
    }
    validate_sufficient_chips(player_state, bet_amount)
}

/// A check needs the seat to have matched the current bet.
pub fn validate_check(game: &Game, player_state: &PlayerState) -> (r: Result<(), PokerError>)
    ensures
        game.current_bet == player_state.current_bet ==> r is Ok,
        game.current_bet != player_state.current_bet ==> r == Err::<(), PokerError>(
            PokerError::InvalidAction,
        ),
{
    if game.current_bet != player_state.current_bet {
        return Err(PokerError::InvalidAction);
    }
    Ok(())
}

/// Folding is always allowed.
pub fn validate_fold() -> (r: Result<(), PokerError>)
    ensures
        r is Ok,
{
    Ok(())
}

/// Going all in needs chips; the amount is the whole stack.
pub fn validate_all_in(player_state: &PlayerState) -> (r: Result<u64, PokerError>)
    ensures
        player_state.chip_stack > 0 ==> r == Ok::<u64, PokerError>(player_state.chip_stack),
        player_state.chip_stack == 0 ==> r == Err::<u64, PokerError>(
            PokerError::InsufficientChips,
        ),
{
    if player_state.chip_stack == 0 {
        return Err(PokerError::InsufficientChips);
    }
    Ok(player_state.chip_stack)
}

/// Bets are only taken before the flop and on the flop, turn and river.
pub fn validate_betting_stage(game: &Game) -> (r: Result<(), PokerError>)
    ensures
        game.stage.is_betting() ==> r is Ok,
        !game.stage.is_betting() ==> r == Err::<(), PokerError>(PokerError::InvalidGameStage),
{
    match game.stage {
        GameStage::PreFlop | GameStage::Flop | GameStage::Turn | GameStage::River => Ok(()),
        _ => Err(PokerError::InvalidGameStage),
    }
}

/// An action is refused once the turn timeout has passed.
pub fn validate_action_timeout(game: &Game, current_time: i64) -> (r: Result<(), PokerError>)
    ensures
        current_time - game.last_action_at < TURN_TIMEOUT ==> r is Ok,
        current_time - game.last_action_at >= TURN_TIMEOUT ==> r == Err::<(), PokerError>(
            PokerError::InvalidAction,
        ),
{
    if check_turn_timeout(game, current_time) {
        return Err(PokerError::InvalidAction);
    }
    Ok(())
}

/// Whether seat `i` of `seats` is still in the hand and can still bet.
pub open spec fn seat_can_bet(g: Game, seats: Seq<PlayerState>, i: int) -> bool {
    g.active_players@[i] && !seats[i].has_folded && !seats[i].is_all_in
}

/// The betting round is over: every seat that can still bet has acted and
/// matched the current bet. A round where no seat can bet is over.
pub fn is_betting_round_complete(game: &Game, player_states: &[PlayerState]) -> (r: bool)
    requires
        game.wf(),
        player_states@.len() >= game.player_count,
    ensures
        r == (forall|i: int|
            0 <= i < game.player_count && #[trigger] seat_can_bet(*game, player_states@, i)
                ==> game.players_acted@[i] && player_states@[i].current_bet == game.current_bet),
{
    let mut i: usize = 0;
    while i < game.player_count as usize
        invariant
            i <= game.player_count <= MAX_PLAYERS,
            player_states@.len() >= game.player_count,
            forall|j: int|
                0 <= j < i && #[trigger] seat_can_bet(*game, player_states@, j)
                    ==> game.players_acted@[j] && player_states@[j].current_bet == game.current_bet,
        decreases game.player_count - i,
    {
        if game.active_players[i] && !player_states[i].has_folded && !player_states[i].is_all_in {
            assert(seat_can_bet(*game, player_states@, i as int));
            if !game.players_acted[i] || player_states[i].current_bet != game.current_bet {
                return false;
            }
        }
        i = i + 1;
    }
    true
}

// ---------------------------------------------------------------------------
// Turn order
// ---------------------------------------------------------------------------

/// Whether every seat still in that is not all in has acted and matched
/// the current bet.
fn round_is_complete(game: &Game) -> (r: bool)
    requires
        game.wf(),
    ensures
        r == game.round_complete(),
{
    let mut i: usize = 0;
    while i < game.player_count as usize
        invariant
            i <= game.player_count <= MAX_PLAYERS,
            forall|j: int|
                0 <= j < i && #[trigger] game.can_act(j) ==> game.players_acted@[j]
                    && game.round_bets@[j] == game.current_bet,
        decreases game.player_count - i,
    {
        if game.active_players[i] && !game.all_in_players[i] {
            assert(game.can_act(i as int));
            if !game.players_acted[i] || game.round_bets[i] != game.current_bet {
                return false;
            }
        }
        i = i + 1;
    }
    true
}

/// Passes the turn to the next active seat; with none the hand is over.
fn advance_to_next_player(game: &mut Game, now: i64)
    requires
        old(game).shape_ok(),
    ensures
        final(game).wf(),
        turn_passed(*old(game), *final(game), now),
{
    match find_next_active_player(
        game.current_player_index as usize,
        &game.active_players,
        game.player_count as usize,
    ) {
        Some(seat) => {
            game.current_player_index = seat as u8;
            game.last_action_at = now;
        },
        None => {
            game.stage = GameStage::Finished;
        },
    }
}

/// After a call or check: closes the round if it is complete, else passes
/// the turn. Fails only when the deck cannot supply the next stage's cards.
fn advance_to_next_player_or_stage(game: &mut Game, now: i64) -> (r: Result<(), PokerError>)
    requires
        old(game).wf(),
    ensures
        final(game).wf(),
        r is Ok ==> turn_closed(*old(game), *final(game), now),
        r is Ok <== !old(game).round_complete() || can_advance(*old(game)),
{
    if round_is_complete(game) {
        return advance_game_stage(game, now);
    }
    advance_to_next_player(game, now);
    Ok(())
}

/// `mid` is `g0` right after seat `p0` called, before the turn moves on.
pub open spec fn call_recorded(g0: Game, p0: PlayerState, mid: Game) -> bool {
    bet_recorded(
        g0,
        mid,
        p0.seat_index as int,
        call_cost(g0, p0),
        g0.current_bet as int,
        p0.chip_stack == call_cost(g0, p0),
    )
}

/// What a check does: `g1`, `p1` and `r` after the seat `p0` acts on `g0`.
pub open spec fn check_outcome(g0: Game, p0: PlayerState, g1: Game, p1: PlayerState, r: Result<(), PokerError>, now: i64) -> bool {
    &&& g1.wf()
    &&& p1.wf()
    &&& chips_conserved(g0, p0, g1, p1)
    &&& r is Err ==> g1 == g0 && p1 == p0
    &&& !may_act(g0, p0) ==> r == Err::<(), PokerError>(
            turn_error(g0, p0),
        )
    &&& may_act(g0, p0) && round_bet_of(g0, p0)
            != g0.current_bet ==> r == Err::<(), PokerError>(PokerError::InvalidAction)
    &&& may_act(g0, p0) && round_bet_of(g0, p0)
            == g0.current_bet && can_advance(g0) ==> r is Ok
    &&& may_act(g0, p0) && round_bet_of(g0, p0) == g0.current_bet && (forall|mid: Game|
        #[trigger] bet_recorded(g0, mid, p0.seat_index as int, 0, g0.current_bet as int, false)
            ==> !mid.round_complete()) ==> r is Ok
    &&& r is Ok ==> may_act(g0, p0) && exists|mid: Game|
            bet_recorded(
                g0,
                mid,
                p0.seat_index as int,
                0,
                g0.current_bet as int,
                false,
            ) && #[trigger] turn_closed(mid, g1, now)
    &&& r is Ok ==> p1 == (PlayerState {
            current_bet: g0.current_bet,
            ..p0
        })
}

/// What a call does: `g1`, `p1` and `r` after the seat `p0` acts on `g0`.
pub open spec fn call_outcome(g0: Game, p0: PlayerState, g1: Game, p1: PlayerState, r: Result<(), PokerError>, now: i64) -> bool {
    &&& g1.wf()
    &&& p1.wf()
    &&& chips_conserved(g0, p0, g1, p1)
    &&& r is Err ==> g1 == g0 && p1 == p0
    &&& !may_act(g0, p0) ==> r == Err::<(), PokerError>(
            turn_error(g0, p0),
        )
    &&& may_act(g0, p0) && can_advance(g0) ==> r is Ok
    &&& may_act(g0, p0) && (forall|mid: Game| #[trigger] call_recorded(g0, p0, mid)
        ==> !mid.round_complete()) ==> r is Ok
    &&& r is Ok ==> may_act(g0, p0) && exists|mid: Game|
            bet_recorded(
                g0,
                mid,
                p0.seat_index as int,
                call_cost(g0, p0),
                g0.current_bet as int,
                p0.chip_stack == call_cost(g0, p0),
            ) && #[trigger] turn_closed(mid, g1, now)
    &&& r is Ok ==> seat_paid(
            p0,
            p1,
            round_bet_of(g0, p0),
            call_cost(g0, p0),
        )
}

/// What a raise of `raise_amount` does: `g1`, `p1` and `r` after the seat `p0` acts on `g0`.
pub open spec fn raise_outcome(g0: Game, p0: PlayerState, raise_amount: u64, g1: Game, p1: PlayerState, r: Result<(), PokerError>, now: i64) -> bool {
    &&& g1.wf()
    &&& p1.wf()
    &&& chips_conserved(g0, p0, g1, p1)
    &&& r is Err ==> g1 == g0 && p1 == p0
    &&& !may_act(g0, p0) ==> r == Err::<(), PokerError>(
            turn_error(g0, p0),
        )
    &&& may_act(g0, p0) ==> {
            let owed = if g0.current_bet >= round_bet_of(g0, p0) {
                g0.current_bet - round_bet_of(g0, p0)
            } else {
                0
            };
            let total = owed + raise_amount;
            &&& total > p0.chip_stack ==> r == Err::<(), PokerError>(
                PokerError::InsufficientChips,
            )
            &&& total <= p0.chip_stack && raise_amount < min_raise(g0)
                && total != p0.chip_stack ==> r == Err::<(), PokerError>(
                PokerError::InvalidBetAmount,
            )
            &&& total <= p0.chip_stack && (raise_amount >= min_raise(g0)
                || total == p0.chip_stack) ==> {
                &&& r is Ok
                &&& exists|mid: Game|
                    bet_recorded(
                        g0,
                        mid,
                        p0.seat_index as int,
                        total,
                        round_bet_of(g0, p0) + total,
                        p0.chip_stack == total,
                    ) && #[trigger] turn_passed(mid, g1, now)
                &&& seat_paid(
                    p0,
                    p1,
                    round_bet_of(g0, p0),
                    total,
                )
            }
        }
}

/// What an opening bet of `bet_amount` does: `g1`, `p1` and `r` after the seat `p0` acts on `g0`.
pub open spec fn bet_outcome(g0: Game, p0: PlayerState, bet_amount: u64, g1: Game, p1: PlayerState, r: Result<(), PokerError>, now: i64) -> bool {
    &&& g1.wf()
    &&& p1.wf()
    &&& chips_conserved(g0, p0, g1, p1)
    &&& r is Err ==> g1 == g0 && p1 == p0
    &&& !may_act(g0, p0) ==> r == Err::<(), PokerError>(
            turn_error(g0, p0),
        )
    &&& may_act(g0, p0) ==> {
            &&& g0.current_bet != 0 ==> r == Err::<(), PokerError>(
                PokerError::InvalidAction,
            )
            &&& g0.current_bet == 0 && bet_amount < g0.big_blind && bet_amount
                != p0.chip_stack ==> r == Err::<(), PokerError>(
                PokerError::InvalidBetAmount,
            )
            &&& g0.current_bet == 0 && (bet_amount >= g0.big_blind || bet_amount
                == p0.chip_stack) && bet_amount > p0.chip_stack
                ==> r == Err::<(), PokerError>(PokerError::InsufficientChips)
            &&& g0.current_bet == 0 && (bet_amount >= g0.big_blind || bet_amount
                == p0.chip_stack) && bet_amount <= p0.chip_stack
                ==> {
                &&& r is Ok
                &&& exists|mid: Game|
                    bet_recorded(
                        g0,
                        mid,
                        p0.seat_index as int,
                        bet_amount as int,
                        round_bet_of(g0, p0) + bet_amount,
                        p0.chip_stack == bet_amount,
                    ) && #[trigger] turn_passed(mid, g1, now)
                &&& seat_paid(
                    p0,
                    p1,
                    round_bet_of(g0, p0),
                    bet_amount as int,
                )
            }
        }
}

/// What going all in does: `g1`, `p1` and `r` after the seat `p0` acts on `g0`.
pub open spec fn all_in_outcome(g0: Game, p0: PlayerState, g1: Game, p1: PlayerState, r: Result<(), PokerError>, now: i64) -> bool {
    &&& g1.wf()
    &&& p1.wf()
    &&& chips_conserved(g0, p0, g1, p1)
    &&& r is Err ==> g1 == g0 && p1 == p0
    &&& !may_act(g0, p0) ==> r == Err::<(), PokerError>(
            turn_error(g0, p0),
        )
    &&& may_act(g0, p0) && p0.chip_stack == 0 ==> r
            == Err::<(), PokerError>(PokerError::InsufficientChips)
    &&& may_act(g0, p0) && p0.chip_stack > 0 ==> {
            let total = round_bet_of(g0, p0) + p0.chip_stack;
            &&& r is Ok
            &&& exists|mid: Game|
                bet_recorded(
                    g0,
                    mid,
                    p0.seat_index as int,
                    p0.chip_stack as int,
                    if total > g0.current_bet {
                        total
                    } else {
                        g0.current_bet as int
                    },
                    true,
                ) && #[trigger] turn_passed(mid, g1, now)
            &&& seat_paid(
                p0,
                p1,
                round_bet_of(g0, p0),
                p0.chip_stack as int,
            )
            &&& p1.is_all_in
        }
}

// ---------------------------------------------------------------------------
// Actions
// ---------------------------------------------------------------------------

/// Moves `amount` from the acting seat's stack into the pot and marks the
/// seat as having acted; a seat left with no chips is all in.
fn commit_chips(game: &mut Game, player_state: &mut PlayerState, amount: u64, now: i64)
    requires
        action_ready(*old(game), *old(player_state)),
        old(player_state).seat_index < MAX_PLAYERS,
        old(player_state).current_bet == old(game).round_bets@[old(player_state).seat_index as int],
        amount <= old(player_state).chip_stack,
        old(game).stage != GameStage::Waiting,
    ensures
        action_ready(*final(game), *final(player_state)),
        bet_recorded(
            *old(game),
            *final(game),
            old(player_state).seat_index as int,
            amount as int,
            old(game).current_bet as int,
            old(player_state).chip_stack == amount,
        ),
        seat_paid(
            *old(player_state),
            *final(player_state),
            old(player_state).current_bet as int,
            amount as int,
        ),
        final(player_state).last_action_at == now,
        final(game).round_bets@[old(player_state).seat_index as int]
            == final(player_state).current_bet,
        chips_conserved(*old(game), *old(player_state), *final(game), *final(player_state)),
{
    let seat = player_state.seat_index as usize;
    let _ = player_state.place_bet(amount, now);
    game.pot = game.pot + amount;
    game.round_bets[seat] = game.round_bets[seat] + amount;
    game.all_in_players[seat] = game.all_in_players[seat] || player_state.chip_stack == 0;
    game.players_acted[seat] = true;
}

/// The seat folds: with at most one seat left the hand is over, otherwise
/// the turn passes on. Paying the last seat is `handle_fold`'s part.
fn fold_seat(game: &mut Game, player_state: &mut PlayerState, now: i64) -> (r: Result<(), PokerError>)
    requires
        action_ready(*old(game), *old(player_state)),
    ensures
        final(game).wf(),
        final(player_state).wf(),
        chips_conserved(*old(game), *old(player_state), *final(game), *final(player_state)),
        !may_act(*old(game), *old(player_state)) ==> r == Err::<(), PokerError>(
            turn_error(*old(game), *old(player_state)),
        ) && *final(game) == *old(game) && *final(player_state) == *old(player_state),
        may_act(*old(game), *old(player_state)) ==> r is Ok && folded_out(
            *old(game),
            *final(game),
            old(player_state).seat_index as int,
            now,
        ) && *final(player_state) == (PlayerState {
            has_folded: true,
            status: crate::types::PlayerStatus::Folded,
            last_action_at: now,
            ..*old(player_state)
        }),
{
    validate_betting_stage(game)?;
    validate_player_turn(game, player_state.seat_index)?;
    validate_fold()?;
    player_state.fold(now);
    game.active_players[player_state.seat_index as usize] = false;
    if crate::flow::check_single_player_remaining(game) {
        game.stage = GameStage::Finished;
        return Ok(());
    }
    advance_to_next_player(game, now);
    Ok(())
}

/// `after` is `before` once seat `seat` folded: with at most one seat left
/// the hand is over, otherwise the turn passes on.
pub open spec fn folded_out(before: Game, after: Game, seat: int, now: i64) -> bool {
    let left = before.active_players@.update(seat, false);
    let mid = Game { active_players: after.active_players, ..before };
    &&& after.active_players@ == left
    &&& count_marked(left, before.player_count as int) <= 1 ==> after == (Game {
        stage: GameStage::Finished,
        ..mid
    })
    &&& count_marked(left, before.player_count as int) > 1 ==> turn_passed(mid, after, now)
}

/// Passes without betting; allowed once the seat has matched the current
/// bet. Closes the round when every seat has acted and matched.
pub fn handle_check(game: &mut Game, player_state: &mut PlayerState, now: i64) -> (r: Result<(), PokerError>)
    requires
        action_ready(*old(game), *old(player_state)),
    ensures
        check_outcome(*old(game), *old(player_state), *final(game), *final(player_state), r, now),
{
    validate_betting_stage(game)?;
    validate_player_turn(game, player_state.seat_index)?;
    let seat = player_state.seat_index as usize;
    let mut synced = *player_state;
    synced.current_bet = game.round_bets[seat];
    validate_check(game, &synced)?;
    let saved_game = *game;
    let saved_player = *player_state;
    *player_state = synced;
    game.players_acted[seat] = true;
    let ghost mid = *game;
    assert(game.all_in_players@ =~= saved_game.all_in_players@.update(
        seat as int,
        saved_game.all_in_players@[seat as int] || false,
    ));
    assert(game.round_bets@ =~= saved_game.round_bets@.update(
        seat as int,
        (saved_game.round_bets@[seat as int] + 0) as u64,
    ));
    match advance_to_next_player_or_stage(game, now) {
        Ok(()) => {
            assert(turn_closed(mid, *game, now));
            Ok(())
        },
        Err(e) => {
            assert(bet_recorded(saved_game, mid, seat as int, 0, saved_game.current_bet as int, false));
            *game = saved_game;
            *player_state = saved_player;
            Err(e)
        },
    }
}

/// Matches the current bet, or puts the whole stack in when it is short.
/// Closes the round when every seat has acted and matched.
pub fn handle_call(game: &mut Game, player_state: &mut PlayerState, now: i64) -> (r: Result<(), PokerError>)
    requires
        action_ready(*old(game), *old(player_state)),
    ensures
        call_outcome(*old(game), *old(player_state), *final(game), *final(player_state), r, now),
{
    validate_betting_stage(game)?;
    validate_player_turn(game, player_state.seat_index)?;
    let seat = player_state.seat_index as usize;
    let mut synced = *player_state;
    synced.current_bet = game.round_bets[seat];
    let call_amount = validate_call(game, &synced)?;
    let saved_game = *game;
    let saved_player = *player_state;
    *player_state = synced;
    commit_chips(game, player_state, call_amount, now);
    let ghost mid = *game;
    match advance_to_next_player_or_stage(game, now) {
        Ok(()) => {
            assert(turn_closed(mid, *game, now));
            Ok(())
        },
        Err(e) => {
            assert(call_recorded(saved_game, saved_player, mid));
            *game = saved_game;
            *player_state = saved_player;
            Err(e)
        },
    }
}

/// Raises by `raise_amount` on top of calling; the seat's new total becomes
/// the bet to match. The turn passes on.
pub fn handle_raise(
    game: &mut Game,
    player_state: &mut PlayerState,
    raise_amount: u64,
    now: i64,
) -> (r: Result<(), PokerError>)
    requires
        action_ready(*old(game), *old(player_state)),
    ensures
        raise_outcome(*old(game), *old(player_state), raise_amount, *final(game), *final(player_state), r, now),
{
    validate_betting_stage(game)?;
    validate_player_turn(game, player_state.seat_index)?;
    let seat = player_state.seat_index as usize;
    let mut synced = *player_state;
    synced.current_bet = game.round_bets[seat];
    validate_raise(game, &synced, raise_amount)?;
    let call_amount = if game.current_bet >= synced.current_bet {
        game.current_bet - synced.current_bet
    } else {
        0
    };
    let total_bet = call_amount + raise_amount;
    *player_state = synced;
    commit_chips(game, player_state, total_bet, now);
    game.current_bet = player_state.current_bet;
    let ghost mid = *game;
    advance_to_next_player(game, now);
    assert(turn_passed(mid, *game, now));
    Ok(())
}

/// Opens the betting of a round with `bet_amount`, which becomes the bet to
/// match. The turn passes on.
pub fn handle_bet(
    game: &mut Game,
    player_state: &mut PlayerState,
    bet_amount: u64,
    now: i64,
) -> (r: Result<(), PokerError>)
    requires
        action_ready(*old(game), *old(player_state)),
    ensures
        bet_outcome(*old(game), *old(player_state), bet_amount, *final(game), *final(player_state), r, now),
{
    validate_betting_stage(game)?;
    validate_player_turn(game, player_state.seat_index)?;
    let seat = player_state.seat_index as usize;
    let mut synced = *player_state;
    synced.current_bet = game.round_bets[seat];
    validate_bet(game, &synced, bet_amount)?;
    *player_state = synced;
    commit_chips(game, player_state, bet_amount, now);
    game.current_bet = player_state.current_bet;
    let ghost mid = *game;
    advance_to_next_player(game, now);
    assert(turn_passed(mid, *game, now));
    Ok(())
}

/// Puts the whole stack in; when that tops the current bet it becomes the
/// bet to match. The turn passes on.
pub fn handle_all_in(game: &mut Game, player_state: &mut PlayerState, now: i64) -> (r: Result<(), PokerError>)
    requires
        action_ready(*old(game), *old(player_state)),
    ensures
        all_in_outcome(*old(game), *old(player_state), *final(game), *final(player_state), r, now),
{
    validate_betting_stage(game)?;
    validate_player_turn(game, player_state.seat_index)?;
    let all_in_amount = validate_all_in(player_state)?;
    let seat = player_state.seat_index as usize;
    player_state.current_bet = game.round_bets[seat];
    commit_chips(game, player_state, all_in_amount, now);
    if player_state.current_bet > game.current_bet {
        game.current_bet = player_state.current_bet;
    }
    let ghost mid = *game;
    advance_to_next_player(game, now);
    assert(turn_passed(mid, *game, now));
    Ok(())
}

/// The table's seat records, in seat order and well formed, with every
/// chip at the table fitting in a `u64`.
pub open spec fn table_ready(g: Game, seats: Seq<PlayerState>) -> bool {
    &&& g.wf()
    &&& seats.len() == g.player_count
    &&& forall|i: int| 0 <= i < seats.len() ==> (#[trigger] seats[i]).wf() && seats[i].seat_index == i
    &&& stacks_total(seats) + g.pot <= u64::MAX
}

/// What folding seat `seat` does to the table `g0`, `s0`: the seat folds;
/// with one seat left that seat takes the whole pot at once and the hand is
/// over; otherwise the turn passes on.
pub open spec fn fold_outcome(
    g0: Game,
    s0: Seq<PlayerState>,
    seat: int,
    g1: Game,
    s1: Seq<PlayerState>,
    r: Result<(), PokerError>,
    now: i64,
) -> bool {
    let p0 = s0[seat];
    let folded = PlayerState {
        has_folded: true,
        status: crate::types::PlayerStatus::Folded,
        last_action_at: now,
        ..p0
    };
    let left = g0.active_players@.update(seat, false);
    &&& !may_act(g0, p0) ==> r == Err::<(), PokerError>(turn_error(g0, p0)) && g1 == g0 && s1 == s0
    &&& may_act(g0, p0) ==> {
        &&& r is Ok
        &&& exists|mid: Game|
            #[trigger] folded_out(g0, mid, seat, now) && (count_marked(left, g0.player_count as int)
                == 1 ==> exists|w: int|
                0 <= w < g0.player_count && left[w] && g1 == (Game {
                    pot: 0,
                    round_bets: g1.round_bets,
                    ..mid
                }) && s1 == s0.update(seat, folded).update(
                    w,
                    PlayerState { chip_stack: (s0[w].chip_stack + g0.pot) as u64, ..s0[w] },
                )) && (count_marked(left, g0.player_count as int) != 1 ==> g1 == mid && s1
                == s0.update(seat, folded))
    }
}

/// Gives up the hand. When one seat is left it wins the whole pot at once,
/// without any reveal, and the hand is over; otherwise the turn passes on.
pub fn handle_fold(game: &mut Game, player_states: &mut Vec<PlayerState>, seat: usize, now: i64) -> (r: Result<(), PokerError>)
    requires
        table_ready(*old(game), old(player_states)@),
        seat < old(player_states)@.len(),
    ensures
        final(game).wf(),
        final(player_states)@.len() == old(player_states)@.len(),
        stacks_total(final(player_states)@) + final(game).pot == stacks_total(old(player_states)@)
            + old(game).pot,
        fold_outcome(*old(game), old(player_states)@, seat as int, *final(game), final(player_states)@, r, now),
{
    proof {
        lemma_two_stacks_one(player_states@, seat as int);
    }
    let ghost g0 = *game;
    let ghost s0 = player_states@;
    let mut ps = player_states[seat];
    fold_seat(game, &mut ps, now)?;
    let ghost mid = *game;
    player_states.set(seat, ps);
    proof {
        lemma_stacks_update(s0, seat as int, ps);
    }
    let ghost s_mid = player_states@;
    if game.stage == GameStage::Finished && crate::flow::check_single_player_remaining(game) {
        proof {
            assert forall|t: int| 0 <= t < s_mid.len() implies #[trigger] s_mid[t].chip_stack + mid.pot
                <= u64::MAX by {
                lemma_two_stacks_one(s_mid, t);
            }
        }
        match crate::showdown::settle_uncontested_pot(game, player_states) {
            Ok(w) => {
                proof {
                    lemma_stacks_update(s_mid, w as int, player_states@[w as int]);
                    assert(w as int != seat as int);
                }
            },
            Err(_) => {},
        }
    }
    assert(folded_out(g0, mid, seat as int, now));
    Ok(())
}

/// Runs the action a seat submitted; the other seats are untouched but for
/// the last seat taking the pot when everyone else folded.
pub fn player_action(
    game: &mut Game,
    player_states: &mut Vec<PlayerState>,
    seat: usize,
    action: PlayerActionParam,
    now: i64,
) -> (r: Result<(), PokerError>)
    requires
        table_ready(*old(game), old(player_states)@),
        seat < old(player_states)@.len(),
    ensures
        final(game).wf(),
        final(player_states)@.len() == old(player_states)@.len(),
        stacks_total(final(player_states)@) + final(game).pot == stacks_total(old(player_states)@)
            + old(game).pot,
        ({
            let g0 = *old(game);
            let p0 = old(player_states)@[seat as int];
            let g1 = *final(game);
            let p1 = final(player_states)@[seat as int];
            let same = final(player_states)@ == old(player_states)@.update(seat as int, p1);
            match action {
                PlayerActionParam::Fold => fold_outcome(g0, old(player_states)@, seat as int, g1, final(player_states)@, r, now),
                PlayerActionParam::Check => same && check_outcome(g0, p0, g1, p1, r, now),
                PlayerActionParam::Call => same && call_outcome(g0, p0, g1, p1, r, now),
                PlayerActionParam::Bet { amount } => same && bet_outcome(g0, p0, amount, g1, p1, r, now),
                PlayerActionParam::Raise { amount } => same && raise_outcome(g0, p0, amount, g1, p1, r, now),
                PlayerActionParam::AllIn => same && all_in_outcome(g0, p0, g1, p1, r, now),
            }
        }),
{
    if let PlayerActionParam::Fold = action {
        return handle_fold(game, player_states, seat, now);
    }
    proof {
        lemma_two_stacks_one(player_states@, seat as int);
    }
    let ghost g0 = *game;
    let ghost s0 = player_states@;
    let mut ps = player_states[seat];
    let r = match action {
        PlayerActionParam::Check => handle_check(game, &mut ps, now),
        PlayerActionParam::Call => handle_call(game, &mut ps, now),
        PlayerActionParam::Bet { amount } => handle_bet(game, &mut ps, amount, now),
        PlayerActionParam::Raise { amount } => handle_raise(game, &mut ps, amount, now),
        _ => handle_all_in(game, &mut ps, now),
    };
    player_states.set(seat, ps);
    proof {
        lemma_chip_conservation(g0, *game, s0, seat as int, ps);
    }
    r
}

/// Folds a seat that let the turn timeout pass; anyone may ask for it.
pub fn handle_player_timeout(game: &mut Game, player_states: &mut Vec<PlayerState>, seat: usize, now: i64) -> (r: Result<(), PokerError>)
    requires
        table_ready(*old(game), old(player_states)@),
        seat < old(player_states)@.len(),
    ensures
        final(game).wf(),
        final(player_states)@.len() == old(player_states)@.len(),
        stacks_total(final(player_states)@) + final(game).pot == stacks_total(old(player_states)@)
            + old(game).pot,
        now - old(game).last_action_at < TURN_TIMEOUT ==> r == Err::<(), PokerError>(
            PokerError::InvalidAction,
        ) && *final(game) == *old(game) && final(player_states)@ == old(player_states)@,
        now - old(game).last_action_at >= TURN_TIMEOUT ==> fold_outcome(
            *old(game),
            old(player_states)@,
            seat as int,
            *final(game),
            final(player_states)@,
            r,
            now,
        ),
{
    if !check_turn_timeout(game, now) {
        return Err(PokerError::InvalidAction);
    }
    handle_fold(game, player_states, seat, now)
}

/// `g1` and `p1` are `g0` and `p0` after the seat posted a forced bet of
/// `blind`, or its whole stack when that is smaller.
pub open spec fn blind_posted(g0: Game, p0: PlayerState, g1: Game, p1: PlayerState, blind: u64) -> bool {
    let amount = if blind <= p0.chip_stack {
        blind as int
    } else {
        p0.chip_stack as int
    };
    let seat = p0.seat_index as int;
    let total = g0.round_bets@[seat] + amount;
    &&& g1.pot == g0.pot + amount
    &&& g1.round_bets@ == g0.round_bets@.update(seat, total as u64)
    &&& g1.current_bet == if total > g0.current_bet {
        total
    } else {
        g0.current_bet as int
    }
    &&& g1.all_in_players@[seat] == (g0.all_in_players@[seat] || p0.chip_stack == amount)
    &&& seat_paid(p0, p1, g0.round_bets@[seat] as int, amount)
    &&& g1.stage == g0.stage
    &&& g1.current_player_index == g0.current_player_index
    &&& g1.active_players == g0.active_players
    &&& g1.player_count == g0.player_count
    &&& g1.deck == g0.deck
    &&& g1.deck_initialized == g0.deck_initialized
    &&& g1.dealer_position == g0.dealer_position
    &&& g1.small_blind == g0.small_blind
    &&& g1.big_blind == g0.big_blind
}

/// Forced bet of up to `blind` from the seat, all in when its stack is
/// smaller; the bet to match becomes at least the seat's round bet.
fn post_blind(game: &mut Game, player_state: &mut PlayerState, blind: u64, now: i64) -> (r: Result<(), PokerError>)
    requires
        action_ready(*old(game), *old(player_state)),
        old(player_state).seat_index < MAX_PLAYERS,
        old(game).stage != GameStage::Waiting,
    ensures
        r is Ok,
        action_ready(*final(game), *final(player_state)),
        chips_conserved(*old(game), *old(player_state), *final(game), *final(player_state)),
        blind_posted(*old(game), *old(player_state), *final(game), *final(player_state), blind),
{
    let seat = player_state.seat_index as usize;
    let blind_amount = if blind <= player_state.chip_stack {
        blind
    } else {
        player_state.chip_stack
    };
    player_state.current_bet = game.round_bets[seat];
    let acted = game.players_acted[seat];
    commit_chips(game, player_state, blind_amount, now);
    game.players_acted[seat] = acted;
    if player_state.current_bet > game.current_bet {
        game.current_bet = player_state.current_bet;
    }
    Ok(())
}

/// Posts the small blind from the seat.
pub fn post_small_blind(game: &mut Game, player_state: &mut PlayerState, now: i64) -> (r: Result<(), PokerError>)
    requires
        action_ready(*old(game), *old(player_state)),
        old(player_state).seat_index < MAX_PLAYERS,
        old(game).stage != GameStage::Waiting,
    ensures
        r is Ok,
        action_ready(*final(game), *final(player_state)),
        chips_conserved(*old(game), *old(player_state), *final(game), *final(player_state)),
        blind_posted(*old(game), *old(player_state), *final(game), *final(player_state), old(game).small_blind),
{
    let blind = game.small_blind;
    post_blind(game, player_state, blind, now)
}

/// Posts the big blind from the seat.
pub fn post_big_blind(game: &mut Game, player_state: &mut PlayerState, now: i64) -> (r: Result<(), PokerError>)
    requires
        action_ready(*old(game), *old(player_state)),
        old(player_state).seat_index < MAX_PLAYERS,
        old(game).stage != GameStage::Waiting,
    ensures
        r is Ok,
        action_ready(*final(game), *final(player_state)),
        chips_conserved(*old(game), *old(player_state), *final(game), *final(player_state)),
        blind_posted(*old(game), *old(player_state), *final(game), *final(player_state), old(game).big_blind),
{
    let blind = game.big_blind;
    post_blind(game, player_state, blind, now)
}

// ---------------------------------------------------------------------------
// Conservation over the whole table
// ---------------------------------------------------------------------------

/// Sum of the stacks of `seats`.
pub open spec fn stacks_total(seats: Seq<PlayerState>) -> int
    decreases seats.len(),
{
    if seats.len() == 0 {
        0
    } else {
        stacks_total(seats.drop_last()) + seats.last().chip_stack
    }
}

/// Sum over `seats` of the stack plus what was bet this hand.
pub open spec fn owned_total(seats: Seq<PlayerState>) -> int
    decreases seats.len(),
{
    if seats.len() == 0 {
        0
    } else {
        owned_total(seats.drop_last()) + seats.last().chips_owned()
    }
}

proof fn lemma_totals_update(seats: Seq<PlayerState>, k: int, p: PlayerState)
    requires
        0 <= k < seats.len(),
    ensures
        stacks_total(seats.update(k, p)) == stacks_total(seats) - seats[k].chip_stack + p.chip_stack,
        owned_total(seats.update(k, p)) == owned_total(seats) - seats[k].chips_owned() + p.chips_owned(),
    decreases seats.len(),
{
    let u = seats.update(k, p);
    if k == seats.len() - 1 {
        assert(u.drop_last() =~= seats.drop_last());
    } else {
        assert(u.drop_last() =~= seats.drop_last().update(k, p));
        lemma_totals_update(seats.drop_last(), k, p);
    }
}

/// No action creates or destroys chips: when one seat acts and the others
/// are untouched, the stacks of all seats plus the pot stay the same, and
/// so does the sum over all seats of stack plus chips bet this hand. That
/// sum plus the pot stays the same only for actions that put no chips in.
pub proof fn lemma_chip_conservation(
    before: Game,
    after: Game,
    seats: Seq<PlayerState>,
    k: int,
    acted: PlayerState,
)
    requires
        0 <= k < seats.len(),
        chips_conserved(before, seats[k], after, acted),
    ensures
        stacks_total(seats.update(k, acted)) + after.pot == stacks_total(seats) + before.pot,
        owned_total(seats.update(k, acted)) == owned_total(seats),
        after.pot == before.pot ==> owned_total(seats.update(k, acted)) + after.pot == owned_total(
            seats,
        ) + before.pot,
{
    lemma_totals_update(seats, k, acted);
}

/// Two different seats together hold no more than the whole table.
pub proof fn lemma_two_stacks(seats: Seq<PlayerState>, i: int, j: int)
    requires
        0 <= i < seats.len(),
        0 <= j < seats.len(),
        i != j,
    ensures
        seats[i].chip_stack + seats[j].chip_stack <= stacks_total(seats),
        seats[i].chip_stack <= stacks_total(seats),
    decreases seats.len(),
{
    lemma_stacks_nonneg(seats.drop_last());
    if i == seats.len() - 1 {
        lemma_one_stack(seats.drop_last(), j);
    } else if j == seats.len() - 1 {
        lemma_one_stack(seats.drop_last(), i);
    } else {
        lemma_two_stacks(seats.drop_last(), i, j);
    }
}

proof fn lemma_one_stack(seats: Seq<PlayerState>, i: int)
    requires
        0 <= i < seats.len(),
    ensures
        seats[i].chip_stack <= stacks_total(seats),
    decreases seats.len(),
{
    lemma_stacks_nonneg(seats.drop_last());
    if i < seats.len() - 1 {
        lemma_one_stack(seats.drop_last(), i);
    }
}

proof fn lemma_stacks_nonneg(seats: Seq<PlayerState>)
    ensures
        stacks_total(seats) >= 0,
    decreases seats.len(),
{
    if seats.len() > 0 {
        lemma_stacks_nonneg(seats.drop_last());
    }
}

/// One seat holds no more than the whole table.
pub proof fn lemma_two_stacks_one(seats: Seq<PlayerState>, i: int)
    requires
        0 <= i < seats.len(),
    ensures
        seats[i].chip_stack <= stacks_total(seats),
        stacks_total(seats) >= 0,
{
    lemma_one_stack(seats, i);
    lemma_stacks_nonneg(seats);
}

/// Replacing one seat changes the table's stacks by the difference.
pub proof fn lemma_stacks_update(seats: Seq<PlayerState>, k: int, p: PlayerState)
    requires
        0 <= k < seats.len(),
    ensures
        stacks_total(seats.update(k, p)) == stacks_total(seats) - seats[k].chip_stack + p.chip_stack,
{
    lemma_totals_update(seats, k, p);
}

/// Replacing one seat changes the table's owned chips by the difference.
pub proof fn lemma_owned_update(seats: Seq<PlayerState>, k: int, p: PlayerState)
    requires
        0 <= k < seats.len(),
    ensures
        owned_total(seats.update(k, p)) == owned_total(seats) - seats[k].chips_owned() + p.chips_owned(),
{
    lemma_totals_update(seats, k, p);
}

} // verus!
