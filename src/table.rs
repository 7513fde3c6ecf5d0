use vstd::prelude::*;
use crate::betting::{post_big_blind, post_small_blind, stacks_total};
use crate::constants::{
    COMMUNITY_CARDS, DEFAULT_BIG_BLIND, DEFAULT_SMALL_BLIND, MAX_BUY_IN, MAX_PLAYERS, MIN_BUY_IN,
    MIN_PLAYERS,
};
use crate::deck::EncryptedDeck;
use crate::error::PokerError;
use crate::flow::{get_big_blind_position, get_small_blind_position};
use crate::game::{seated, Game};
use crate::player::PlayerState;
use crate::protocol::{
    check_shuffle_callback, is_deck_permutation, le_byte, mpc_deal_card, mpc_shuffle_deck, DealParams,
    ErrorCode, ShuffleParams,
};
use crate::types::{GameStage, Pubkey};
use crate::utils::validate_buy_in;

verus! {

/// Whether a table configuration is acceptable: two to six seats, a big
/// blind above the small blind, a minimum buy-in of at least fifty big
/// blinds, and a maximum no lower than the minimum.
pub open spec fn config_ok(small_blind: u64, big_blind: u64, min_buy_in: u64, max_buy_in: u64, max_players: u8) -> bool {
    &&& MIN_PLAYERS <= max_players <= MAX_PLAYERS
    &&& big_blind > small_blind
    &&& min_buy_in >= big_blind * 50
    &&& max_buy_in >= min_buy_in
}

/// Creates a table; settings left out take the defaults.
pub fn initialize_game(
    game_id: u64,
    authority: Pubkey,
    small_blind: Option<u64>,
    big_blind: Option<u64>,
    min_buy_in: Option<u64>,
    max_buy_in: Option<u64>,
    max_players: Option<u8>,
    bump: u8,
    now: i64,
) -> (r: Result<Game, PokerError>)
    ensures
        ({
            let sb = match small_blind {
                Some(v) => v,
                None => DEFAULT_SMALL_BLIND,
            };
            let bb = match big_blind {
                Some(v) => v,
                None => DEFAULT_BIG_BLIND,
            };
            let lo = match min_buy_in {
                Some(v) => v,
                None => MIN_BUY_IN,
            };
            let hi = match max_buy_in {
                Some(v) => v,
                None => MAX_BUY_IN,
            };
            let mp = match max_players {
                Some(v) => v,
                None => MAX_PLAYERS as u8,
            };
            &&& !config_ok(sb, bb, lo, hi, mp) ==> r == Err::<Game, PokerError>(
                PokerError::InvalidGameConfig,
            )
            &&& config_ok(sb, bb, lo, hi, mp) ==> (r matches Ok(g) && g.wf() && g.stage
                == GameStage::Waiting && g.player_count == 0 && g.small_blind == sb && g.big_blind
                == bb && g.min_buy_in == lo && g.max_buy_in == hi && g.max_players == mp
                && g.game_id == game_id && g.authority == authority)
        }),
{
    let small_blind = match small_blind {
        Some(v) => v,
        None => DEFAULT_SMALL_BLIND,
    };
    let big_blind = match big_blind {
        Some(v) => v,
        None => DEFAULT_BIG_BLIND,
    };
    let min_buy_in = match min_buy_in {
        Some(v) => v,
        None => MIN_BUY_IN,
    };
    let max_buy_in = match max_buy_in {
        Some(v) => v,
        None => MAX_BUY_IN,
    };
    let max_players_val = match max_players {
        Some(v) => v,
        None => MAX_PLAYERS as u8,
    };
    if max_players_val < MIN_PLAYERS as u8 || max_players_val > MAX_PLAYERS as u8 {
        return Err(PokerError::InvalidGameConfig);
    }
    if big_blind <= small_blind {
        return Err(PokerError::InvalidGameConfig);
    }
    if (min_buy_in as u128) < (big_blind as u128) * 50 {
        return Err(PokerError::InvalidGameConfig);
    }
    if max_buy_in < min_buy_in {
        return Err(PokerError::InvalidGameConfig);
    }
    Ok(
        Game::new(
            game_id,
            authority,
            small_blind,
            big_blind,
            min_buy_in,
            max_buy_in,
            max_players_val,
            bump,
            now,
        ),
    )
}

/// Seats `player` with `buy_in` chips while the table waits for a hand.
pub fn join_game(
    game: &mut Game,
    player_state: &mut PlayerState,
    player: Pubkey,
    game_key: Pubkey,
    buy_in: u64,
    bump: u8,
    now: i64,
) -> (r: Result<(), PokerError>)
    requires
        old(game).wf(),
    ensures
        final(game).wf(),
        r is Err ==> *final(game) == *old(game) && *final(player_state) == *old(player_state),
        old(game).stage != GameStage::Waiting ==> r == Err::<(), PokerError>(
            PokerError::GameAlreadyStarted,
        ),
        old(game).stage == GameStage::Waiting && buy_in < old(game).min_buy_in ==> r == Err::<
            (),
            PokerError,
        >(PokerError::BuyInTooLow),
        old(game).stage == GameStage::Waiting && old(game).min_buy_in <= buy_in && buy_in > old(
            game,
        ).max_buy_in ==> r == Err::<(), PokerError>(PokerError::BuyInTooHigh),
        old(game).stage == GameStage::Waiting && old(game).min_buy_in <= buy_in <= old(
            game,
        ).max_buy_in && old(game).player_count >= old(game).max_players ==> r == Err::<
            (),
            PokerError,
        >(PokerError::GameFull),
        old(game).stage == GameStage::Waiting && old(game).min_buy_in <= buy_in <= old(
            game,
        ).max_buy_in && old(game).player_count < old(game).max_players && seated(
            old(game).players@,
            old(game).player_count as int,
            player,
        ) ==> r == Err::<(), PokerError>(PokerError::PlayerAlreadyInGame),
        r is Ok ==> {
            &&& final(game).player_count == old(game).player_count + 1
            &&& final(game).players@ == old(game).players@.update(
                old(game).player_count as int,
                player,
            )
            &&& final(player_state).seat_index == old(game).player_count
            &&& final(player_state).chip_stack == buy_in
            &&& final(player_state).player == player
            &&& final(player_state).game == game_key
            &&& final(player_state).wf()
        },
        old(game).stage == GameStage::Waiting && old(game).min_buy_in <= buy_in <= old(
            game,
        ).max_buy_in && old(game).player_count < old(game).max_players && !seated(
            old(game).players@,
            old(game).player_count as int,
            player,
        ) ==> r is Ok,
{
    if game.stage != GameStage::Waiting {
        return Err(PokerError::GameAlreadyStarted);
    }
    validate_buy_in(buy_in, game.min_buy_in, game.max_buy_in)?;
    let seat_index = game.add_player(player)?;
    player_state.initialize(player, game_key, seat_index, buy_in, bump, now);
    Ok(())
}

/// Lets a player leave between hands; returns the chips to pay back.
pub fn leave_game(game: &mut Game, player_state: &PlayerState, game_key: &Pubkey) -> (r: Result<u64, PokerError>)
    requires
        old(game).wf(),
    ensures
        final(game).wf(),
        r is Err ==> *final(game) == *old(game),
        old(game).stage != GameStage::Waiting && old(game).stage != GameStage::Finished ==> r
            == Err::<u64, PokerError>(PokerError::CannotLeaveDuringHand),
        (old(game).stage == GameStage::Waiting || old(game).stage == GameStage::Finished)
            && player_state.game.bytes@ != game_key.bytes@ ==> r == Err::<u64, PokerError>(
            PokerError::PlayerNotInGame,
        ),
        (old(game).stage == GameStage::Waiting || old(game).stage == GameStage::Finished)
            && player_state.game.bytes@ == game_key.bytes@ ==> {
            &&& seated(old(game).players@, old(game).player_count as int, player_state.player)
                ==> r == Ok::<u64, PokerError>(player_state.chip_stack)
            &&& !seated(old(game).players@, old(game).player_count as int, player_state.player)
                ==> r == Err::<u64, PokerError>(PokerError::PlayerNotInGame)
        },
{
    if game.stage != GameStage::Waiting && game.stage != GameStage::Finished {
        return Err(PokerError::CannotLeaveDuringHand);
    }
    if !player_state.game.same_as(game_key) {
        return Err(PokerError::PlayerNotInGame);
    }
    game.remove_player(&player_state.player)?;
    Ok(player_state.chip_stack)
}

/// Deals the next two cards of the deck to one seat; fails, changing
/// nothing, when the deck cannot supply two valid cards.
pub fn deal_cards_to_player(game: &mut Game, player_state: &mut PlayerState) -> (r: Result<(), PokerError>)
    requires
        old(game).wf(),
    ensures
        final(game).wf(),
        r is Err ==> *final(game) == *old(game) && *final(player_state) == *old(player_state),
        ({
            let n = old(game).deck.next_card_index as int;
            let d = old(game).deck.encrypted_indices@;
            &&& (n + 2 <= 52 && d[n] < 52 && d[n + 1] < 52) ==> {
                &&& r is Ok
                &&& final(player_state).hole_card(0) == d[n]
                &&& final(player_state).hole_card(1) == d[n + 1]
                &&& final(player_state).has_cards
                &&& final(game).deck.next_card_index == n + 2
                &&& *final(game) == (Game { deck: final(game).deck, ..*old(game) })
                &&& final(game).deck.encrypted_indices == old(game).deck.encrypted_indices
                &&& *final(player_state) == (PlayerState {
                    encrypted_hole_cards: final(player_state).encrypted_hole_cards,
                    hole_card_keys: final(player_state).hole_card_keys,
                    has_cards: true,
                    ..*old(player_state)
                })
            }
            &&& !(n + 2 <= 52 && d[n] < 52 && d[n + 1] < 52) ==> r == Err::<(), PokerError>(
                PokerError::InvalidCardIndex,
            )
        }),
{
    if !game.deck.has_cards(2) {
        return Err(PokerError::InvalidCardIndex);
    }
    let n = game.deck.next_card_index as usize;
    if game.deck.encrypted_indices[n] >= 52 || game.deck.encrypted_indices[n + 1] >= 52 {
        return Err(PokerError::InvalidCardIndex);
    }
    let session_id = game.encrypted_deck;
    let mut h: usize = 0;
    while h < 2
        invariant
            h <= 2,
            game.wf(),
            game.deck.next_card_index == n + h,
            n + 2 <= 52,
            game.deck.encrypted_indices == old(game).deck.encrypted_indices,
            game.deck.encrypted_indices@[n as int] < 52,
            game.deck.encrypted_indices@[n + 1] < 52,
            *game == (Game { deck: game.deck, ..*old(game) }),
            forall|k: int|
                0 <= k < h ==> #[trigger] player_state.hole_card(k)
                    == game.deck.encrypted_indices@[n + k],
            *player_state == (PlayerState {
                encrypted_hole_cards: player_state.encrypted_hole_cards,
                hole_card_keys: player_state.hole_card_keys,
                ..*old(player_state)
            }),
        decreases 2 - h,
    {
        let card_index = match game.deck.get_next_encrypted_card() {
            Ok(c) => c,
            Err(_) => 0,
        };
        let deal_params = DealParams {
            card_index,
            player: player_state.player,
            session_id,
            game_id: game.game_id,
        };
        let (sealed, key) = match mpc_deal_card(deal_params) {
            Ok(c) => (c.encrypted_index, c.key_shard[0]),
            Err(_) => (card_index, 0),
        };
        assert(sealed ^ key == card_index);
        let ghost before = *player_state;
        player_state.encrypted_hole_cards[h] = sealed;
        player_state.hole_card_keys[h] = key;
        assert(player_state.hole_card(h as int) == card_index);
        assert forall|k: int| 0 <= k < h implies #[trigger] player_state.hole_card(k)
            == game.deck.encrypted_indices@[n + k] by {
            assert(player_state.hole_card(k) == before.hole_card(k));
        }
        h = h + 1;
    }
    assert(player_state.hole_card(0) == game.deck.encrypted_indices@[n as int]);
    assert(player_state.hole_card(1) == game.deck.encrypted_indices@[n + 1]);
    player_state.has_cards = true;
    Ok(())
}

/// Whether every seat record sits at its own position and is well formed.
pub open spec fn seats_in_order(seats: Seq<PlayerState>, n: int) -> bool {
    &&& seats.len() == n
    &&& forall|i: int| 0 <= i < n ==> (#[trigger] seats[i]).seat_index == i && seats[i].wf()
}

proof fn lemma_stacks_equal(a: Seq<PlayerState>, b: Seq<PlayerState>)
    requires
        a.len() == b.len(),
        forall|i: int| 0 <= i < a.len() ==> (#[trigger] a[i]).chip_stack == b[i].chip_stack,
    ensures
        stacks_total(a) == stacks_total(b),
    decreases a.len(),
{
    if a.len() > 0 {
        lemma_stacks_equal(a.drop_last(), b.drop_last());
    }
}

/// Starts a hand: the players' contributions are combined into a shuffle,
/// each seat gets two hole cards in seat order, and the blinds are posted.
/// The seat after the big blind acts first.
pub fn start_game(
    game: &mut Game,
    player_entropy: Vec<[u8; 32]>,
    player_states: &mut Vec<PlayerState>,
    now: i64,
) -> (r: Result<(), PokerError>)
    requires
        old(game).wf(),
        stacks_total(old(player_states)@) <= u64::MAX,
        forall|i: int| 0 <= i < old(player_states)@.len() ==> (#[trigger] old(player_states)@[i]).wf(),
    ensures
        final(game).wf(),
        r is Err ==> *final(game) == *old(game) && final(player_states)@ == old(player_states)@,
        old(game).stage != GameStage::Waiting ==> r == Err::<(), PokerError>(
            PokerError::GameAlreadyStarted,
        ),
        old(game).stage == GameStage::Waiting && old(game).player_count < MIN_PLAYERS ==> r
            == Err::<(), PokerError>(PokerError::NotEnoughPlayers),
        old(game).stage == GameStage::Waiting && old(game).player_count >= MIN_PLAYERS && (
        player_entropy@.len() != old(game).player_count || !seats_in_order(
            old(player_states)@,
            old(game).player_count as int,
        )) ==> r == Err::<(), PokerError>(PokerError::InvalidGameConfig),
        old(game).stage == GameStage::Waiting && old(game).player_count >= MIN_PLAYERS
            && player_entropy@.len() == old(game).player_count && seats_in_order(
            old(player_states)@,
            old(game).player_count as int,
        ) ==> r is Ok,
        r is Ok ==> {
            let n = old(game).player_count as int;
            let d = final(game).deck.encrypted_indices@;
            &&& final(game).stage == GameStage::PreFlop
            &&& final(game).deck_initialized
            &&& is_deck_permutation(d)
            &&& final(game).deck.next_card_index == 2 * n
            &&& final(game).player_count == old(game).player_count
            &&& final(player_states)@.len() == n
            &&& forall|i: int|
                0 <= i < n ==> (#[trigger] final(player_states)@[i]).hole_card(0) == d[2 * i]
                    && final(player_states)@[i].hole_card(1) == d[2 * i + 1]
                    && final(player_states)@[i].has_cards && !final(player_states)@[i].has_folded
                    && final(player_states)@[i].wf()
            &&& forall|i: int| 0 <= i < n ==> #[trigger] final(game).active_players@[i]
            &&& stacks_total(final(player_states)@) + final(game).pot == stacks_total(
                old(player_states)@,
            )
        },
{
    if game.stage != GameStage::Waiting {
        return Err(PokerError::GameAlreadyStarted);
    }
    let pc = game.player_count as usize;
    if pc < MIN_PLAYERS {
        return Err(PokerError::NotEnoughPlayers);
    }
    if player_entropy.len() != pc || player_states.len() != pc {
        return Err(PokerError::InvalidGameConfig);
    }
    let mut i: usize = 0;
    while i < pc
        invariant
            i <= pc == player_states@.len(),
            pc == game.player_count,
            pc >= MIN_PLAYERS,
            *game == *old(game),
            game.wf(),
            game.stage == GameStage::Waiting,
            player_entropy@.len() == pc,
            player_states@ == old(player_states)@,
            forall|j: int| 0 <= j < i ==> (#[trigger] player_states@[j]).seat_index == j,
        decreases pc - i,
    {
        if player_states[i].seat_index as usize != i {
            return Err(PokerError::InvalidGameConfig);
        }
        i = i + 1;
    }
    let mut players: Vec<Pubkey> = Vec::new();
    let mut i: usize = 0;
    while i < pc
        invariant
            i <= pc <= MAX_PLAYERS,
            pc == game.player_count,
            pc >= MIN_PLAYERS,
            *game == *old(game),
            player_states@ == old(player_states)@,
            seats_in_order(player_states@, pc as int),
            player_entropy@.len() == pc,
            players@.len() == i,
        decreases pc - i,
    {
        players.push(game.players[i]);
        i = i + 1;
    }
    let shuffle = match mpc_shuffle_deck(
        ShuffleParams { player_pubkeys: players, player_entropy, game_id: game.game_id },
    ) {
        Ok(s) => s,
        Err(e) => return Err(e),
    };
    let ghost old_states = player_states@;
    game.encrypted_deck = shuffle.session_id;
    game.deck = EncryptedDeck::initialize_from_shuffle(
        shuffle.shuffled_indices,
        shuffle.commitment,
        shuffle.session_id,
    );
    game.deck_initialized = true;
    if game.dealer_position as usize >= pc {
        game.dealer_position = 0;
    }
    let ghost d = game.deck.encrypted_indices@;
    let mut i: usize = 0;
    while i < pc
        invariant
            i <= pc == player_states@.len() == old_states.len(),
            pc == game.player_count,
            2 <= pc <= MAX_PLAYERS,
            game.wf(),
            game.stage == GameStage::Waiting,
            game.pot == 0,
            game.dealer_position < pc,
            game.deck_initialized,
            d == game.deck.encrypted_indices@,
            is_deck_permutation(d),
            game.deck.next_card_index == 2 * i,
            forall|j: int| 0 <= j < pc ==> (#[trigger] player_states@[j]).wf(),
            forall|j: int| 0 <= j < pc ==> (#[trigger] player_states@[j]).seat_index == j,
            forall|j: int|
                0 <= j < pc ==> (#[trigger] player_states@[j]).chip_stack
                    == old_states[j].chip_stack,
            forall|j: int|
                0 <= j < i ==> (#[trigger] player_states@[j]).hole_card(0) == d[2 * j]
                    && player_states@[j].hole_card(1) == d[2 * j + 1]
                    && player_states@[j].has_cards && !player_states@[j].has_folded,
        decreases pc - i,
    {
        let mut seat = player_states[i];
        seat.reset_for_new_hand();
        assert(d[2 * i as int] < 52 && d[2 * i as int + 1] < 52);
        let _ = deal_cards_to_player(game, &mut seat);
        player_states.set(i, seat);
        i = i + 1;
    }
    proof {
        lemma_stacks_equal(player_states@, old_states);
    }
    let small_blind_seat = get_small_blind_position(game) as usize;
    let big_blind_seat = get_big_blind_position(game) as usize;
    let mut active = [false;MAX_PLAYERS];
    let mut i: usize = 0;
    while i < pc
        invariant
            i <= pc <= MAX_PLAYERS,
            forall|j: int| 0 <= j < i ==> #[trigger] active@[j],
        decreases pc - i,
    {
        active[i] = true;
        i = i + 1;
    }
    game.active_players = active;
    game.all_in_players = [false;MAX_PLAYERS];
    game.round_bets = [0;MAX_PLAYERS];
    game.players_acted = [false;MAX_PLAYERS];
    game.community_cards = [0;COMMUNITY_CARDS];
    game.community_cards_revealed = 0;
    game.current_bet = 0;
    game.started_at = now;
    game.last_action_at = now;
    game.current_player_index = ((big_blind_seat + 1) % pc) as u8;
    game.stage = GameStage::PreFlop;
    let ghost before_blinds = player_states@;
    proof {
        let dl = game.dealer_position as int;
        let n = pc as int;
        if n == 2 {
            assert(small_blind_seat == dl);
            assert(big_blind_seat as int == (dl + 1) % 2);
        } else {
            if dl + 2 < n {
                vstd::arithmetic::div_mod::lemma_small_mod((dl + 1) as nat, n as nat);
                vstd::arithmetic::div_mod::lemma_small_mod((dl + 2) as nat, n as nat);
            } else if dl + 2 == n {
                vstd::arithmetic::div_mod::lemma_small_mod((dl + 1) as nat, n as nat);
                vstd::arithmetic::div_mod::lemma_mod_self_0(n);
            } else {
                vstd::arithmetic::div_mod::lemma_mod_self_0(n);
                vstd::arithmetic::div_mod::lemma_mod_add_multiples_vanish(1, n);
                vstd::arithmetic::div_mod::lemma_small_mod(1, n as nat);
            }
        }
        assert(small_blind_seat != big_blind_seat);
        crate::betting::lemma_two_stacks(player_states@, small_blind_seat as int, big_blind_seat as int);
    }
    let ghost before_small = *game;
    let mut sb = player_states[small_blind_seat];
    let _ = post_small_blind(game, &mut sb, now);
    player_states.set(small_blind_seat, sb);
    proof {
        crate::betting::lemma_chip_conservation(before_small, *game, before_blinds, small_blind_seat as int, sb);
    }
    let ghost after_small = player_states@;
    let ghost before_big = *game;
    assert(player_states@[big_blind_seat as int] == before_blinds[big_blind_seat as int]);
    let mut bb = player_states[big_blind_seat];
    let _ = post_big_blind(game, &mut bb, now);
    player_states.set(big_blind_seat, bb);
    proof {
        crate::betting::lemma_chip_conservation(before_big, *game, after_small, big_blind_seat as int, bb);
    }
    Ok(())
}

/// How many of the first `n` seats have no hole cards yet.
pub open spec fn needing_cards(seats: Seq<PlayerState>, n: int) -> int
    decreases n,
{
    if n <= 0 {
        0
    } else {
        needing_cards(seats, n - 1) + if seats[n - 1].has_cards {
            0int
        } else {
            1int
        }
    }
}

proof fn lemma_needing_monotone(seats: Seq<PlayerState>, a: int, b: int)
    requires
        0 <= a <= b,
    ensures
        0 <= needing_cards(seats, a) <= needing_cards(seats, b),
    decreases b,
{
    if b > a {
        lemma_needing_monotone(seats, a, b - 1);
    } else if a > 0 {
        lemma_needing_monotone(seats, 0, a - 1);
    }
}

/// The deck can supply two valid cards to each of the first `n` seats that
/// lack them, from its cursor on.
pub open spec fn deck_covers(g: Game, seats: Seq<PlayerState>, n: int) -> bool {
    let start = g.deck.next_card_index as int;
    let end = start + 2 * needing_cards(seats, n);
    &&& end <= 52
    &&& forall|p: int| start <= p < end ==> #[trigger] g.deck.encrypted_indices@[p] < 52
}

/// Seat `i` after dealing from `g`'s deck: a seat without cards gets the
/// next two cards after those of the seats before it; the others keep
/// theirs.
pub open spec fn dealt_seat(g: Game, before: Seq<PlayerState>, after: Seq<PlayerState>, i: int) -> bool {
    let at = g.deck.next_card_index as int + 2 * needing_cards(before, i);
    let d = g.deck.encrypted_indices@;
    if before[i].has_cards {
        after[i] == before[i]
    } else {
        &&& after[i].hole_card(0) == d[at]
        &&& after[i].hole_card(1) == d[at + 1]
        &&& after[i] == (PlayerState {
            encrypted_hole_cards: after[i].encrypted_hole_cards,
            hole_card_keys: after[i].hole_card_keys,
            has_cards: true,
            ..before[i]
        })
    }
}

/// Deals two hole cards to every seat that has none yet, in seat order.
/// Fails, changing nothing, outside the pre-flop stage, before a shuffle, or
/// when the deck cannot supply the cards.
pub fn deal_hole_cards(game: &mut Game, player_states: &mut Vec<PlayerState>) -> (r: Result<(), PokerError>)
    requires
        old(game).wf(),
    ensures
        final(game).wf(),
        r is Err ==> *final(game) == *old(game) && final(player_states)@ == old(player_states)@,
        old(game).stage != GameStage::PreFlop ==> r == Err::<(), PokerError>(
            PokerError::InvalidGameStage,
        ),
        old(game).stage == GameStage::PreFlop && !old(game).deck_initialized ==> r == Err::<
            (),
            PokerError,
        >(PokerError::DeckNotInitialized),
        old(game).stage == GameStage::PreFlop && old(game).deck_initialized && !deck_covers(
            *old(game),
            old(player_states)@,
            old(player_states)@.len() as int,
        ) ==> r == Err::<(), PokerError>(PokerError::InvalidCardIndex),
        old(game).stage == GameStage::PreFlop && old(game).deck_initialized && deck_covers(
            *old(game),
            old(player_states)@,
            old(player_states)@.len() as int,
        ) ==> r is Ok,
        r is Ok ==> {
            &&& final(player_states)@.len() == old(player_states)@.len()
            &&& forall|i: int|
                0 <= i < old(player_states)@.len() ==> #[trigger] dealt_seat(
                    *old(game),
                    old(player_states)@,
                    final(player_states)@,
                    i,
                )
            &&& forall|i: int|
                0 <= i < final(player_states)@.len() ==> (#[trigger] final(player_states)@[i]).has_cards
            &&& final(game).deck.next_card_index == old(game).deck.next_card_index + 2
                * needing_cards(old(player_states)@, old(player_states)@.len() as int)
            &&& *final(game) == (Game { deck: final(game).deck, ..*old(game) })
        },
{
    if game.stage != GameStage::PreFlop {
        return Err(PokerError::InvalidGameStage);
    }
    if !game.deck_initialized {
        return Err(PokerError::DeckNotInitialized);
    }
    let saved_game = *game;
    let ghost s0 = player_states@;
    let mut dealt: Vec<PlayerState> = Vec::new();
    let mut i: usize = 0;
    while i < player_states.len()
        invariant
            i <= player_states@.len(),
            dealt@.len() == i,
            game.wf(),
            saved_game == *old(game),
            old(game).wf(),
            old(game).stage == GameStage::PreFlop,
            old(game).deck_initialized,
            player_states@ == old(player_states)@,
            s0 == old(player_states)@,
            *game == (Game { deck: game.deck, ..*old(game) }),
            game.deck.encrypted_indices == old(game).deck.encrypted_indices,
            game.deck.next_card_index == old(game).deck.next_card_index + 2 * needing_cards(s0, i as int),
            forall|j: int| 0 <= j < i ==> (#[trigger] dealt@[j]).has_cards,
            forall|j: int| 0 <= j < i ==> #[trigger] dealt_seat(*old(game), s0, dealt@, j),
            deck_covers(*old(game), s0, i as int),
        decreases player_states@.len() - i,
    {
        let mut seat = player_states[i];
        let ghost before_dealt = dealt@;
        proof {
            lemma_needing_monotone(s0, i as int, i as int + 1);
        }
        if !seat.has_cards {
            match deal_cards_to_player(game, &mut seat) {
                Ok(()) => {},
                Err(e) => {
                    proof {
                        lemma_needing_monotone(s0, i as int + 1, s0.len() as int);
                        if deck_covers(*old(game), s0, s0.len() as int) {
                            let at = old(game).deck.next_card_index as int + 2 * needing_cards(s0, i as int);
                            assert(old(game).deck.encrypted_indices@[at] < 52);
                            assert(old(game).deck.encrypted_indices@[at + 1] < 52);
                        }
                    }
                    *game = saved_game;
                    return Err(e);
                },
            }
        }
        dealt.push(seat);
        proof {
            let start = old(game).deck.next_card_index as int;
            let end = start + 2 * needing_cards(s0, i as int + 1);
            assert forall|p: int| start <= p < end implies #[trigger] old(game).deck.encrypted_indices@[p] < 52 by {
                if p >= start + 2 * needing_cards(s0, i as int) {
                    assert(!s0[i as int].has_cards);
                }
            }
            assert forall|j: int| 0 <= j < i + 1 implies #[trigger] dealt_seat(*old(game), s0, dealt@, j) by {
                if j < i {
                    assert(dealt@[j] == before_dealt[j]);
                    assert(dealt_seat(*old(game), s0, before_dealt, j));
                }
            }
        }
        i = i + 1;
    }
    *player_states = dealt;
    Ok(())
}

/// Takes in the result of a shuffle computation for this table: the
/// computation id must name the table's game id and the output must hold a
/// whole deck, whose first 52 bytes become the deck to deal from.
pub fn handle_shuffle_callback(
    game: &mut Game,
    computation_id: [u8; 32],
    encrypted_output: Vec<u8>,
) -> (r: Result<(), ErrorCode>)
    requires
        old(game).wf(),
    ensures
        final(game).wf(),
        r is Ok <==> (forall|i: int| 0 <= i < 8 ==> #[trigger] computation_id@[i] == le_byte(old(game).game_id, i))
            && encrypted_output@.len() >= 52,
        r is Err ==> *final(game) == *old(game),
        r is Ok ==> {
            &&& final(game).deck_initialized
            &&& final(game).deck.encrypted_indices@ == encrypted_output@.subrange(0, 52)
            &&& final(game).deck.next_card_index == 0
        },
{
    check_shuffle_callback(game.game_id, &computation_id, &encrypted_output)?;
    let mut indices = [0u8;52];
    let mut i: usize = 0;
    while i < 52
        invariant
            i <= 52,
            encrypted_output@.len() >= 52,
            forall|j: int| 0 <= j < i ==> #[trigger] indices@[j] == encrypted_output@[j],
        decreases 52 - i,
    {
        indices[i] = encrypted_output[i];
        i = i + 1;
    }
    assert(indices@ =~= encrypted_output@.subrange(0, 52));
    game.deck = EncryptedDeck::initialize_from_shuffle(indices, game.deck.shuffle_commitment, computation_id);
    game.deck_initialized = true;
    Ok(())
}

} // verus!
