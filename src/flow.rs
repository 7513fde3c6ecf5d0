use vstd::prelude::*;
use crate::constants::{COMMUNITY_CARDS, MAX_PLAYERS, MIN_PLAYERS, TURN_TIMEOUT};
use crate::deck::EncryptedDeck;
use crate::error::PokerError;
use crate::game::{count_marked, Game};
use crate::player::PlayerState;
use crate::types::GameStage;
use crate::utils::{find_next_active_player, next_active_seat};

verus! {

/// The stage a completed betting round leads to.
pub open spec fn stage_after(s: GameStage) -> GameStage {
    match s {
        GameStage::PreFlop => GameStage::Flop,
        GameStage::Flop => GameStage::Turn,
        GameStage::Turn => GameStage::River,
        GameStage::River => GameStage::Showdown,
        _ => s,
    }
}

/// Community cards revealed on entering stage `s`.
pub open spec fn cards_revealed_at(s: GameStage) -> int {
    match s {
        GameStage::Flop => 3,
        GameStage::Turn => 1,
        GameStage::River => 1,
        _ => 0,
    }
}

/// Seats after the dealer where the search for the first player of a round
/// starts: after the big blind before the flop, after the dealer later.
pub open spec fn first_offset(s: GameStage) -> int {
    if s == GameStage::PreFlop {
        3
    } else {
        1
    }
}

/// The first active seat to act in a round of stage `g.stage`; -1 if none.
pub open spec fn first_to_act(g: Game) -> int {
    next_active_seat(
        g.active_players@,
        g.player_count as int,
        g.dealer_position + first_offset(g.stage) - 1,
    )
}

/// The table after `count` community cards have been revealed: one card
/// burned, then `count` cards dealt face up, in deck order.
pub open spec fn revealed(before: Game, after: Game, count: int) -> bool {
    let first = before.deck.next_card_index + 1;
    &&& after.deck.next_card_index == before.deck.next_card_index + count + 1
    &&& after.deck.encrypted_indices == before.deck.encrypted_indices
    &&& after.community_cards_revealed == before.community_cards_revealed + count
    &&& forall|k: int|
        0 <= k < COMMUNITY_CARDS ==> #[trigger] after.community_cards@[k] == if before.community_cards_revealed
            <= k < before.community_cards_revealed + count {
            before.deck.encrypted_indices@[first + k - before.community_cards_revealed]
        } else {
            before.community_cards@[k]
        }
}

/// A betting round of `g` can be closed: the stage is a betting stage and
/// the deck can supply the burn card and the cards the next stage reveals.
pub open spec fn can_advance(g: Game) -> bool {
    let n = cards_revealed_at(stage_after(g.stage));
    &&& g.stage.is_betting()
    &&& n > 0 ==> {
        &&& g.deck_initialized
        &&& g.community_cards_revealed + n <= 5
        &&& g.deck.next_card_index + n + 1 <= 52
    }
}

/// `after` is `before` moved on to the next stage: a fresh betting round
/// with the first seat after the dealer to act, and the next community
/// cards revealed.
pub open spec fn stage_advanced(before: Game, after: Game, now: i64) -> bool {
    let next = Game { stage: stage_after(before.stage), ..before };
    &&& after.stage == stage_after(before.stage)
    &&& after.current_bet == 0
    &&& forall|i: int| 0 <= i < MAX_PLAYERS ==> !#[trigger] after.players_acted@[i]
    &&& forall|i: int| 0 <= i < MAX_PLAYERS ==> #[trigger] after.round_bets@[i] == 0
    &&& first_to_act(next) >= 0 ==> after.current_player_index == first_to_act(next)
    &&& first_to_act(next) < 0 ==> after.current_player_index == before.current_player_index
    &&& after.last_action_at == now
    &&& cards_revealed_at(after.stage) > 0 ==> revealed(before, after, cards_revealed_at(after.stage))
    &&& cards_revealed_at(after.stage) == 0 ==> after.deck == before.deck
        && after.community_cards == before.community_cards
        && after.community_cards_revealed == before.community_cards_revealed
    &&& after == (Game {
        stage: after.stage,
        current_bet: after.current_bet,
        players_acted: after.players_acted,
        round_bets: after.round_bets,
        current_player_index: after.current_player_index,
        last_action_at: after.last_action_at,
        deck: after.deck,
        community_cards: after.community_cards,
        community_cards_revealed: after.community_cards_revealed,
        ..before
    })
}

/// Burns one card and reveals the next `count` as community cards.
pub fn reveal_community_cards(game: &mut Game, count: u8) -> (r: Result<(), PokerError>)
    requires
        old(game).wf(),
    ensures
        final(game).wf(),
        !old(game).deck_initialized ==> r == Err::<(), PokerError>(PokerError::DeckNotInitialized)
            && *final(game) == *old(game),
        old(game).deck_initialized && (old(game).community_cards_revealed + count > 5
            || old(game).deck.next_card_index + count + 1 > 52) ==> r == Err::<(), PokerError>(
            PokerError::InvalidCardIndex,
        ) && *final(game) == *old(game),
        old(game).deck_initialized && old(game).community_cards_revealed + count <= 5
            && old(game).deck.next_card_index + count + 1 <= 52 ==> {
            &&& r is Ok
            &&& revealed(*old(game), *final(game), count as int)
            &&& *final(game) == (Game {
                deck: final(game).deck,
                community_cards: final(game).community_cards,
                community_cards_revealed: final(game).community_cards_revealed,
                ..*old(game)
            })
        },
{
    if !game.deck_initialized {
        return Err(PokerError::DeckNotInitialized);
    }
    if game.community_cards_revealed as u16 + count as u16 > COMMUNITY_CARDS as u16 {
        return Err(PokerError::InvalidCardIndex);
    }
    if !game.deck.has_cards(count + 1) {
        return Err(PokerError::InvalidCardIndex);
    }
    let _ = game.deck.burn_card();
    let mut i: u8 = 0;
    while i < count
        invariant
            i <= count,
            game.deck.wf(),
            game.deck.next_card_index == old(game).deck.next_card_index + 1 + i,
            old(game).deck.next_card_index + count + 1 <= 52,
            game.deck.encrypted_indices == old(game).deck.encrypted_indices,
            game.community_cards_revealed == old(game).community_cards_revealed + i,
            old(game).community_cards_revealed + count <= 5,
            forall|k: int|
                0 <= k < COMMUNITY_CARDS ==> #[trigger] game.community_cards@[k] == if old(
                    game,
                ).community_cards_revealed <= k < old(game).community_cards_revealed + i {
                    old(game).deck.encrypted_indices@[old(game).deck.next_card_index + 1 + k
                        - old(game).community_cards_revealed]
                } else {
                    old(game).community_cards@[k]
                },
            *game == (Game {
                deck: game.deck,
                community_cards: game.community_cards,
                community_cards_revealed: game.community_cards_revealed,
                ..*old(game)
            }),
        decreases count - i,
    {
        let card_index = match game.deck.get_next_encrypted_card() {
            Ok(c) => c,
            Err(_) => 0,
        };
        let community_index = game.community_cards_revealed as usize;
        game.community_cards[community_index] = card_index;
        game.community_cards_revealed = game.community_cards_revealed + 1;
        i = i + 1;
    }
    Ok(())
}

/// Starts a new betting round: no bet to match, nobody has acted, and the
/// first active seat after the dealer (after the big blind before the flop)
/// is to act. With no active seat the turn stays where it was.
pub fn reset_betting_round(game: &mut Game, now: i64) -> (r: Result<(), PokerError>)
    requires
        old(game).wf(),
        old(game).stage.is_betting() ==> old(game).active_players@[old(
            game,
        ).current_player_index as int] && old(game).current_player_index < old(game).player_count,
    ensures
        r is Ok,
        final(game).wf(),
        final(game).current_bet == 0,
        forall|i: int| 0 <= i < MAX_PLAYERS ==> !#[trigger] final(game).players_acted@[i],
        forall|i: int| 0 <= i < MAX_PLAYERS ==> #[trigger] final(game).round_bets@[i] == 0,
        first_to_act(*old(game)) >= 0 ==> final(game).current_player_index == first_to_act(
            *old(game),
        ),
        first_to_act(*old(game)) < 0 ==> final(game).current_player_index == old(
            game,
        ).current_player_index,
        final(game).last_action_at == now,
        *final(game) == (Game {
            current_bet: final(game).current_bet,
            players_acted: final(game).players_acted,
            round_bets: final(game).round_bets,
            current_player_index: final(game).current_player_index,
            last_action_at: final(game).last_action_at,
            ..*old(game)
        }),
{
    game.current_bet = 0;
    game.players_acted = [false;MAX_PLAYERS];
    game.round_bets = [0;MAX_PLAYERS];
    let offset: usize = if game.stage == GameStage::PreFlop {
        3
    } else {
        1
    };
    let from = game.dealer_position as usize + offset - 1;
    match find_next_active_player(from, &game.active_players, game.player_count as usize) {
        Some(seat) => {
            game.current_player_index = seat as u8;
        },
        None => {},
    }
    game.last_action_at = now;
    Ok(())
}

/// The first seat to act in a round of the current stage; the dealer when
/// no seat is active.
pub fn get_first_player_for_round(game: &Game) -> (r: u8)
    requires
        game.wf(),
    ensures
        first_to_act(*game) >= 0 ==> r as int == first_to_act(*game),
        first_to_act(*game) < 0 ==> r == game.dealer_position,
{
    let offset: usize = if game.stage == GameStage::PreFlop {
        3
    } else {
        1
    };
    let from = game.dealer_position as usize + offset - 1;
    match find_next_active_player(from, &game.active_players, game.player_count as usize) {
        Some(seat) => seat as u8,
        None => game.dealer_position,
    }
}

/// Moves from a finished betting round to the next stage: the round is
/// reset and the flop, turn or river is revealed. Fails before a hand, at
/// showdown and after it, and when the deck cannot supply the cards.
pub fn advance_game_stage(game: &mut Game, now: i64) -> (r: Result<(), PokerError>)
    requires
        old(game).wf(),
    ensures
        final(game).wf(),
        !old(game).stage.is_betting() ==> r == Err::<(), PokerError>(PokerError::InvalidGameStage)
            && *final(game) == *old(game),
        old(game).stage.is_betting() && cards_revealed_at(stage_after(old(game).stage)) > 0
            && !old(game).deck_initialized ==> r == Err::<(), PokerError>(
            PokerError::DeckNotInitialized,
        ) && *final(game) == *old(game),
        old(game).stage.is_betting() && cards_revealed_at(stage_after(old(game).stage)) > 0
            && old(game).deck_initialized && (old(game).community_cards_revealed
            + cards_revealed_at(stage_after(old(game).stage)) > 5 || old(game).deck.next_card_index
            + cards_revealed_at(stage_after(old(game).stage)) + 1 > 52) ==> r == Err::<
            (),
            PokerError,
        >(PokerError::InvalidCardIndex) && *final(game) == *old(game),
        r is Ok ==> old(game).stage.is_betting() && stage_advanced(*old(game), *final(game), now),
        can_advance(*old(game)) ==> r is Ok,
{
    let next_stage = match game.stage {
        GameStage::PreFlop => GameStage::Flop,
        GameStage::Flop => GameStage::Turn,
        GameStage::Turn => GameStage::River,
        GameStage::River => GameStage::Showdown,
        _ => {
            return Err(PokerError::InvalidGameStage);
        },
    };
    let count: u8 = match next_stage {
        GameStage::Flop => 3,
        GameStage::Turn => 1,
        GameStage::River => 1,
        _ => 0,
    };
    if count > 0 {
        if !game.deck_initialized {
            return Err(PokerError::DeckNotInitialized);
        }
        if game.community_cards_revealed as u16 + count as u16 > COMMUNITY_CARDS as u16 {
            return Err(PokerError::InvalidCardIndex);
        }
        if !game.deck.has_cards(count + 1) {
            return Err(PokerError::InvalidCardIndex);
        }
    }
    game.stage = next_stage;
    let _ = reset_betting_round(game, now);
    if count > 0 {
        let _ = reveal_community_cards(game, count);
    }
    Ok(())
}

/// Passes the dealer button to the next active seat.
pub fn rotate_dealer_button(game: &mut Game) -> (r: Result<(), PokerError>)
    requires
        old(game).wf(),
    ensures
        final(game).wf(),
        next_active_seat(
            old(game).active_players@,
            old(game).player_count as int,
            old(game).dealer_position as int,
        ) < 0 ==> r == Err::<(), PokerError>(PokerError::NotEnoughPlayers) && *final(game) == *old(
            game,
        ),
        next_active_seat(
            old(game).active_players@,
            old(game).player_count as int,
            old(game).dealer_position as int,
        ) >= 0 ==> r is Ok && *final(game) == (Game {
            dealer_position: next_active_seat(
                old(game).active_players@,
                old(game).player_count as int,
                old(game).dealer_position as int,
            ) as u8,
            ..*old(game)
        }),
{
    match find_next_active_player(
        game.dealer_position as usize,
        &game.active_players,
        game.player_count as usize,
    ) {
        Some(seat) => {
            game.dealer_position = seat as u8;
            Ok(())
        },
        None => Err(PokerError::NotEnoughPlayers),
    }
}

/// Seat of the small blind: the dealer itself heads-up, else the seat after
/// the dealer.
pub fn get_small_blind_position(game: &Game) -> (r: u8)
    requires
        game.player_count > 0,
        game.wf(),
    ensures
        game.player_count == 2 ==> r == game.dealer_position,
        game.player_count != 2 ==> r as int == (game.dealer_position + 1) % (
        game.player_count as int),
{
    if game.player_count == 2 {
        game.dealer_position
    } else {
        (game.dealer_position + 1) % game.player_count
    }
}

/// Seat of the big blind: the other seat heads-up, else two after the
/// dealer.
pub fn get_big_blind_position(game: &Game) -> (r: u8)
    requires
        game.player_count > 0,
        game.wf(),
    ensures
        game.player_count == 2 ==> r as int == (game.dealer_position + 1) % 2,
        game.player_count != 2 ==> r as int == (game.dealer_position + 2) % (
        game.player_count as int),
{
    if game.player_count == 2 {
        (game.dealer_position + 1) % 2
    } else {
        (game.dealer_position + 2) % game.player_count
    }
}

/// Whether the seat to act has stalled for at least the turn timeout.
pub fn check_turn_timeout(game: &Game, now: i64) -> (r: bool)
    ensures
        r == (now - game.last_action_at >= TURN_TIMEOUT),
{
    (now as i128) - (game.last_action_at as i128) >= TURN_TIMEOUT as i128
}

/// Hands the turn to the next active seat; fails when no seat is active.
pub fn advance_to_next_active_player(game: &mut Game, now: i64) -> (r: Result<(), PokerError>)
    requires
        old(game).wf(),
    ensures
        final(game).wf(),
        old(game).next_turn() < 0 ==> r == Err::<(), PokerError>(PokerError::InvalidGameStage)
            && *final(game) == *old(game),
        old(game).next_turn() >= 0 ==> r is Ok && *final(game) == (Game {
            current_player_index: old(game).next_turn() as u8,
            last_action_at: now,
            ..*old(game)
        }),
{
    match find_next_active_player(
        game.current_player_index as usize,
        &game.active_players,
        game.player_count as usize,
    ) {
        Some(seat) => {
            game.current_player_index = seat as u8;
            game.last_action_at = now;
            Ok(())
        },
        None => Err(PokerError::InvalidGameStage),
    }
}

/// How many of the first `n` seats are active.
fn count_active(active: &[bool; MAX_PLAYERS], n: usize) -> (r: usize)
    requires
        n <= MAX_PLAYERS,
    ensures
        r as int == count_marked(active@, n as int),
        r <= n,
{
    let mut count: usize = 0;
    let mut i: usize = 0;
    while i < n
        invariant
            i <= n <= MAX_PLAYERS,
            count as int == count_marked(active@, i as int),
            count <= i,
        decreases n - i,
    {
        if active[i] {
            count = count + 1;
        }
        i = i + 1;
    }
    count
}

/// Whether at most one seat is still in the hand.
pub fn check_single_player_remaining(game: &Game) -> (r: bool)
    requires
        game.shape_ok(),
    ensures
        r == (count_marked(game.active_players@, game.player_count as int) <= 1),
{
    count_active(&game.active_players, game.player_count as usize) <= 1
}

/// How many of the first `n` seats are in the hand, not folded and not all
/// in.
pub open spec fn count_can_bet(active: Seq<bool>, seats: Seq<PlayerState>, n: int) -> int
    decreases n,
{
    if n <= 0 {
        0
    } else {
        count_can_bet(active, seats, n - 1) + if active[n - 1] && !seats[n - 1].has_folded
            && !seats[n - 1].is_all_in {
            1int
        } else {
            0int
        }
    }
}

/// Whether no more betting is possible: at most one seat in the hand can
/// still bet.
pub fn check_all_players_all_in(game: &Game, player_states: &[PlayerState]) -> (r: bool)
    requires
        game.wf(),
        player_states@.len() >= game.player_count,
    ensures
        r == (count_can_bet(game.active_players@, player_states@, game.player_count as int) <= 1),
{
    let mut count: usize = 0;
    let mut i: usize = 0;
    while i < game.player_count as usize
        invariant
            i <= game.player_count <= MAX_PLAYERS,
            player_states@.len() >= game.player_count,
            count as int == count_can_bet(game.active_players@, player_states@, i as int),
            count <= i,
        decreases game.player_count - i,
    {
        if game.active_players[i] && !player_states[i].has_folded && !player_states[i].is_all_in {
            count = count + 1;
        }
        i = i + 1;
    }
    count <= 1
}

/// The seats that take part in the next hand: every occupied seat.
pub open spec fn reseated(g: Game) -> Seq<bool> {
    Seq::new(
        MAX_PLAYERS as nat,
        |i: int|
            if i < g.player_count {
                !g.players@[i].is_zero()
            } else {
                g.active_players@[i]
            },
    )
}

/// Clears a finished hand so the next can start: every occupied seat is
/// back in, the dealer button moves on, and the table waits for the next
/// shuffle.
pub fn start_new_hand(game: &mut Game) -> (r: Result<(), PokerError>)
    requires
        old(game).wf(),
    ensures
        final(game).wf(),
        old(game).stage != GameStage::Finished ==> r == Err::<(), PokerError>(
            PokerError::InvalidGameStage,
        ) && *final(game) == *old(game),
        r is Ok ==> {
            &&& old(game).stage == GameStage::Finished
            &&& final(game).stage == GameStage::Waiting
            &&& final(game).pot == 0
            &&& final(game).current_bet == 0
            &&& final(game).community_cards_revealed == 0
            &&& !final(game).deck_initialized
            &&& final(game).player_count == old(game).player_count
            &&& final(game).players == old(game).players
            &&& forall|i: int|
                0 <= i < final(game).player_count ==> #[trigger] final(game).active_players@[i]
                    == !old(game).players@[i].is_zero()
            &&& final(game).dealer_position as int == next_active_seat(
                final(game).active_players@,
                final(game).player_count as int,
                old(game).dealer_position as int,
            )
        },
        r is Err && old(game).stage == GameStage::Finished ==> r == Err::<(), PokerError>(
            PokerError::NotEnoughPlayers,
        ) && *final(game) == *old(game),
        old(game).stage == GameStage::Finished && next_active_seat(
            reseated(*old(game)),
            old(game).player_count as int,
            old(game).dealer_position as int,
        ) >= 0 ==> r is Ok,
        old(game).stage == GameStage::Finished && next_active_seat(
            reseated(*old(game)),
            old(game).player_count as int,
            old(game).dealer_position as int,
        ) < 0 ==> r == Err::<(), PokerError>(PokerError::NotEnoughPlayers),
{
    if game.stage != GameStage::Finished {
        return Err(PokerError::InvalidGameStage);
    }
    let mut active = game.active_players;
    let mut i: usize = 0;
    while i < game.player_count as usize
        invariant
            i <= game.player_count <= MAX_PLAYERS,
            forall|j: int| 0 <= j < i ==> #[trigger] active@[j] == !game.players@[j].is_zero(),
            forall|j: int| i <= j < MAX_PLAYERS ==> #[trigger] active@[j] == game.active_players@[j],
        decreases game.player_count - i,
    {
        let empty = crate::types::Pubkey::default();
        active[i] = !game.players[i].same_as(&empty);
        proof {
            assert(empty.bytes@ =~= seq![0u8; 32]);
            if game.players@[i as int].bytes@ == empty.bytes@ {
                assert(game.players@[i as int].is_zero());
            } else {
                assert(!game.players@[i as int].is_zero()) by {
                    if game.players@[i as int].is_zero() {
                        assert(game.players@[i as int].bytes@ =~= empty.bytes@);
                    }
                }
            }
        }
        i = i + 1;
    }
    assert(active@ =~= reseated(*game));
    let dealer = match find_next_active_player(
        game.dealer_position as usize,
        &active,
        game.player_count as usize,
    ) {
        Some(seat) => seat,
        None => {
            return Err(PokerError::NotEnoughPlayers);
        },
    };
    game.active_players = active;
    game.dealer_position = dealer as u8;
    game.stage = GameStage::Waiting;
    game.pot = 0;
    game.current_bet = 0;
    game.round_bets = [0;MAX_PLAYERS];
    game.players_acted = [false;MAX_PLAYERS];
    game.all_in_players = [false;MAX_PLAYERS];
    game.community_cards = [0;COMMUNITY_CARDS];
    game.community_cards_revealed = 0;
    game.deck_initialized = false;
    game.deck = EncryptedDeck::default();
    Ok(())
}

/// Whether too few players remain to go on.
pub fn should_end_game(game: &Game) -> (r: bool)
    ensures
        r == (game.player_count < MIN_PLAYERS),
{
    (game.player_count as usize) < MIN_PLAYERS
}

/// Ends the table's current hand for good.
pub fn end_game(game: &mut Game) -> (r: Result<(), PokerError>)
    requires
        old(game).wf(),
    ensures
        r is Ok,
        final(game).wf(),
        *final(game) == (Game { stage: GameStage::Finished, ..*old(game) }),
{
    game.stage = GameStage::Finished;
    Ok(())
}

} // verus!
