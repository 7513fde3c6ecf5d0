use vstd::prelude::*;
use crate::constants::{COMMUNITY_CARDS, MAX_PLAYERS};
use crate::deck::EncryptedDeck;
use crate::error::PokerError;
use crate::types::{GameStage, Pubkey};
use crate::utils::next_active_seat;

verus! {

/// One table: its configuration, its seats and the hand in progress.
#[derive(Clone, Copy, Debug)]
pub struct Game {
    /// Creator of the table.
    pub authority: Pubkey,
    pub game_id: u64,
    pub stage: GameStage,
    pub small_blind: u64,
    pub big_blind: u64,
    pub min_buy_in: u64,
    pub max_buy_in: u64,
    pub max_players: u8,
    pub player_count: u8,
    /// Who sits in each seat; the all-zero key marks an empty seat.
    pub players: [Pubkey; MAX_PLAYERS],
    /// Seats still in the current hand.
    pub active_players: [bool; MAX_PLAYERS],
    /// Seats that have committed their whole stack this hand.
    pub all_in_players: [bool; MAX_PLAYERS],
    pub dealer_position: u8,
    /// Seat whose turn it is.
    pub current_player_index: u8,
    /// Chips bet this hand.
    pub pot: u64,
    /// Amount each seat must have put in this round to stay in.
    pub current_bet: u64,
    /// What each seat has put in this round.
    pub round_bets: [u64; MAX_PLAYERS],
    /// Seats that have acted this round.
    pub players_acted: [bool; MAX_PLAYERS],
    /// Card positions of the revealed community cards.
    pub community_cards: [u8; COMMUNITY_CARDS],
    pub community_cards_revealed: u8,
    /// Session handle of the shuffle that produced the deck.
    pub encrypted_deck: [u8; 32],
    pub deck_initialized: bool,
    /// The shuffled deck of the current hand and its cursor.
    pub deck: EncryptedDeck,
    pub started_at: i64,
    pub last_action_at: i64,
    pub shuffle_session_id: [u8; 32],
    pub bump: u8,
}

/// How many of the first `n` seats are marked.
pub open spec fn count_marked(flags: Seq<bool>, n: int) -> int
    decreases n,
{
    if n <= 0 {
        0
    } else {
        count_marked(flags, n - 1) + if flags[n - 1] {
            1int
        } else {
            0int
        }
    }
}

/// Whether `key` sits in one of the first `n` seats.
pub open spec fn seated(players: Seq<Pubkey>, n: int, key: Pubkey) -> bool {
    exists|i: int| 0 <= i < n && (#[trigger] players[i]).bytes@ == key.bytes@
}

/// `after` is `before` with `player`, found at seat `k`, taken out: marked
/// inactive during a hand, or removed with the seats above moving down while
/// the table waits.
pub open spec fn removed_seat(before: Game, after: Game, player: Pubkey, k: int) -> bool {
    &&& 0 <= k < before.player_count
    &&& before.players@[k].bytes@ == player.bytes@
    &&& before.stage != GameStage::Waiting ==> {
        &&& after.player_count == before.player_count
        &&& after.players@ == before.players@
        &&& after.active_players@ == before.active_players@.update(k, false)
    }
    &&& before.stage == GameStage::Waiting ==> {
        &&& after.player_count == before.player_count - 1
        &&& forall|i: int| 0 <= i < k ==> #[trigger] after.players@[i] == before.players@[i]
        &&& forall|i: int|
            k <= i < after.player_count ==> #[trigger] after.players@[i] == before.players@[i + 1]
        &&& after.players@[after.player_count as int].is_zero()
    }
}

impl Game {
    /// The table's standing invariant.
    pub open spec fn wf(&self) -> bool {
        &&& self.shape_ok()
        &&& self.stage.is_betting() ==> {
            &&& self.player_count >= 1
            &&& self.current_player_index < self.player_count
            &&& self.active_players@[self.current_player_index as int]
        }
    }

    /// Everything the invariant asks but that the seat to act is still in.
    pub open spec fn shape_ok(&self) -> bool {
        &&& self.player_count <= self.max_players <= MAX_PLAYERS
        &&& self.stage == GameStage::Waiting ==> self.pot == 0
        &&& self.community_cards_revealed <= COMMUNITY_CARDS
        &&& self.deck.wf()
        &&& self.current_player_index < MAX_PLAYERS
        &&& self.dealer_position < MAX_PLAYERS
        &&& forall|i: int| 0 <= i < MAX_PLAYERS ==> #[trigger] self.round_bets@[i] <= self.pot
    }

    /// Seat `i` is still in the hand and can still bet.
    pub open spec fn can_act(&self, i: int) -> bool {
        self.active_players@[i] && !self.all_in_players@[i]
    }

    /// The betting round is over: every seat still in that is not all in
    /// has acted and matched the current bet.
    pub open spec fn round_complete(&self) -> bool {
        forall|i: int|
            0 <= i < self.player_count && #[trigger] self.can_act(i) ==> self.players_acted@[i]
                && self.round_bets@[i] == self.current_bet
    }

    /// The seat whose turn comes after the current one; -1 if no seat is
    /// active.
    pub open spec fn next_turn(&self) -> int {
        next_active_seat(
            self.active_players@,
            self.player_count as int,
            self.current_player_index as int,
        )
    }

    /// A table with no seats taken, waiting for players.
    pub fn new(
        game_id: u64,
        authority: Pubkey,
        small_blind: u64,
        big_blind: u64,
        min_buyin: u64,
        max_buyin: u64,
        max_players: u8,
        bump: u8,
        now: i64,
    ) -> (r: Game)
        requires
            max_players <= MAX_PLAYERS,
        ensures
            r.wf(),
            r.game_id == game_id,
            r.authority == authority,
            r.stage == GameStage::Waiting,
            r.small_blind == small_blind,
            r.big_blind == big_blind,
            r.min_buy_in == min_buyin,
            r.max_buy_in == max_buyin,
            r.max_players == max_players,
            r.player_count == 0,
            r.pot == 0,
            r.current_bet == 0,
            r.dealer_position == 0,
            !r.deck_initialized,
            r.last_action_at == now,
            forall|i: int| 0 <= i < MAX_PLAYERS ==> !#[trigger] r.active_players@[i],
    {
        let empty = Pubkey::default();
        Game {
            authority,
            game_id,
            stage: GameStage::Waiting,
            small_blind,
            big_blind,
            min_buy_in: min_buyin,
            max_buy_in: max_buyin,
            max_players,
            player_count: 0,
            players: [empty;MAX_PLAYERS],
            active_players: [false;MAX_PLAYERS],
            all_in_players: [false;MAX_PLAYERS],
            dealer_position: 0,
            current_player_index: 0,
            pot: 0,
            current_bet: 0,
            round_bets: [0;MAX_PLAYERS],
            players_acted: [false;MAX_PLAYERS],
            community_cards: [0;COMMUNITY_CARDS],
            community_cards_revealed: 0,
            encrypted_deck: [0;32],
            deck_initialized: false,
            deck: EncryptedDeck::default(),
            started_at: 0,
            last_action_at: now,
            shuffle_session_id: [0;32],
            bump,
        }
    }

    /// Whether every seat the table allows is taken.
    pub fn is_full(&self) -> (r: bool)
        ensures
            r == (self.player_count >= self.max_players),
    {
        self.player_count >= self.max_players
    }

    /// Whether `player` sits at the table.
    pub fn has_player(&self, player: &Pubkey) -> (r: bool)
        requires
            self.wf(),
        ensures
            r == seated(self.players@, self.player_count as int, *player),
    {
        match self.seat_of(player) {
            Some(_) => true,
            None => false,
        }
    }

    /// The seat where `player` sits.
    fn seat_of(&self, player: &Pubkey) -> (r: Option<usize>)
        requires
            self.wf(),
        ensures
            r is None ==> !seated(self.players@, self.player_count as int, *player),
            r matches Some(i) ==> i < self.player_count && self.players@[i as int].bytes@
                == player.bytes@ && forall|j: int|
                0 <= j < i ==> (#[trigger] self.players@[j]).bytes@ != player.bytes@,
    {
        let mut i: usize = 0;
        while i < self.player_count as usize
            invariant
                i <= self.player_count <= MAX_PLAYERS,
                forall|j: int| 0 <= j < i ==> (#[trigger] self.players@[j]).bytes@ != player.bytes@,
            decreases self.player_count - i,
        {
            if self.players[i].same_as(player) {
                return Some(i);
            }
            i = i + 1;
        }
        None
    }

    /// Seats `player` in the next free seat and returns that seat.
    pub fn add_player(&mut self, player: Pubkey) -> (r: Result<u8, PokerError>)
        requires
            old(self).wf(),
        ensures
            final(self).wf(),
            old(self).player_count >= old(self).max_players ==> r == Err::<u8, PokerError>(
                PokerError::GameFull,
            ) && *final(self) == *old(self),
            old(self).player_count < old(self).max_players && seated(
                old(self).players@,
                old(self).player_count as int,
                player,
            ) ==> r == Err::<u8, PokerError>(PokerError::PlayerAlreadyInGame) && *final(self)
                == *old(self),
            old(self).player_count < old(self).max_players && !seated(
                old(self).players@,
                old(self).player_count as int,
                player,
            ) ==> {
                &&& r == Ok::<u8, PokerError>(old(self).player_count)
                &&& final(self).player_count == old(self).player_count + 1
                &&& final(self).players@ == old(self).players@.update(
                    old(self).player_count as int,
                    player,
                )
                &&& final(self).active_players@ == old(self).active_players@.update(
                    old(self).player_count as int,
                    true,
                )
                &&& final(self).stage == old(self).stage
            },
    {
        if self.is_full() {
            return Err(PokerError::GameFull);
        }
        if self.has_player(&player) {
            return Err(PokerError::PlayerAlreadyInGame);
        }
        let seat_index = self.player_count;
        self.players[seat_index as usize] = player;
        self.active_players[seat_index as usize] = true;
        self.player_count = self.player_count + 1;
        Ok(seat_index)
    }

    /// Takes `player` off the table between hands: while the table is waiting
    /// the seat is freed and the seats above it move down one; once a hand
    /// has finished the seat is only marked inactive. No one leaves during a
    /// hand.
    pub fn remove_player(&mut self, player: &Pubkey) -> (r: Result<(), PokerError>)
        requires
            old(self).wf(),
        ensures
            final(self).wf(),
            old(self).stage != GameStage::Waiting && old(self).stage != GameStage::Finished ==> r
                == Err::<(), PokerError>(PokerError::CannotLeaveDuringHand) && *final(self) == *old(
                self),
            (old(self).stage == GameStage::Waiting || old(self).stage == GameStage::Finished)
                && !seated(old(self).players@, old(self).player_count as int, *player) ==> r == Err::<
                (),
                PokerError,
            >(PokerError::PlayerNotInGame) && *final(self) == *old(self),
            (old(self).stage == GameStage::Waiting || old(self).stage == GameStage::Finished)
                && seated(old(self).players@, old(self).player_count as int, *player) ==> {
                &&& r is Ok
                &&& final(self).stage == old(self).stage
                &&& exists|k: int| #[trigger] removed_seat(*old(self), *final(self), *player, k)
            },
    {
        if self.stage != GameStage::Waiting && self.stage != GameStage::Finished {
            return Err(PokerError::CannotLeaveDuringHand);
        }
        let player_index = match self.seat_of(player) {
            Some(i) => i,
            None => return Err(PokerError::PlayerNotInGame),
        };
        self.active_players[player_index] = false;
        if self.stage == GameStage::Waiting {
            let last = self.player_count as usize - 1;
            let mut i: usize = player_index;
            while i < last
                invariant
                    player_index <= i <= last,
                    last == old(self).player_count - 1,
                    self.player_count == old(self).player_count,
                    self.player_count <= MAX_PLAYERS,
                    self.stage == old(self).stage,
                    forall|j: int| 0 <= j < player_index ==> #[trigger] self.players@[j] == old(
                        self,
                    ).players@[j],
                    forall|j: int| player_index <= j < i ==> #[trigger] self.players@[j] == old(
                        self,
                    ).players@[j + 1],
                    forall|j: int| i <= j < MAX_PLAYERS ==> #[trigger] self.players@[j] == old(
                        self,
                    ).players@[j],
                    self.max_players == old(self).max_players,
                    self.community_cards_revealed == old(self).community_cards_revealed,
                    self.deck == old(self).deck,
                    self.current_player_index == old(self).current_player_index,
                    self.dealer_position == old(self).dealer_position,
                    self.pot == old(self).pot,
                    self.round_bets == old(self).round_bets,
                decreases last - i,
            {
                self.players[i] = self.players[i + 1];
                self.active_players[i] = self.active_players[i + 1];
                i = i + 1;
            }
            self.players[last] = Pubkey::default();
            self.active_players[last] = false;
            self.player_count = self.player_count - 1;
        }
        assert(removed_seat(*old(self), *self, *player, player_index as int));
        Ok(())
    }

    /// The shuffled deck of the current hand; fails before a shuffle.
    pub fn get_encrypted_deck(&self) -> (r: Result<EncryptedDeck, PokerError>)
        ensures
            self.deck_initialized ==> r == Ok::<EncryptedDeck, PokerError>(self.deck),
            !self.deck_initialized ==> r == Err::<EncryptedDeck, PokerError>(
                PokerError::DeckNotInitialized,
            ),
    {
        if !self.deck_initialized {
            return Err(PokerError::DeckNotInitialized);
        }
        Ok(self.deck)
    }
}

} // verus!
