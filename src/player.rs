use vstd::prelude::*;
use crate::constants::HOLE_CARDS;
use crate::error::PokerError;
use crate::types::{PlayerStatus, Pubkey};

verus! {

/// One player's seat at one table.
#[derive(Clone, Copy, Debug)]
pub struct PlayerState {
    pub player: Pubkey,
    /// Table the seat belongs to.
    pub game: Pubkey,
    pub seat_index: u8,
    pub status: PlayerStatus,
    pub chip_stack: u64,
    /// Put in during the current betting round, as of this seat's last
    /// action; the table's own record of the round is the one that counts.
    pub current_bet: u64,
    /// Put in during the current hand.
    pub total_bet_this_hand: u64,
    /// Encrypted references to the two hole cards.
    pub encrypted_hole_cards: [u8; HOLE_CARDS],
    /// Key material that opens each hole card, held for the owner and for
    /// the showdown.
    pub hole_card_keys: [u8; HOLE_CARDS],
    pub has_cards: bool,
    pub has_folded: bool,
    pub is_all_in: bool,
    pub joined_at: i64,
    pub last_action_at: i64,
    pub bump: u8,
}

impl PlayerState {
    /// The chips a seat owns, in its stack or already bet this hand, fit in
    /// a `u64`.
    pub open spec fn wf(&self) -> bool {
        self.chip_stack + self.total_bet_this_hand <= u64::MAX
    }

    /// Card position of hole card `h`: its sealed index opened with its key.
    pub open spec fn hole_card(&self, h: int) -> u8 {
        self.encrypted_hole_cards@[h] ^ self.hole_card_keys@[h]
    }

    /// Chips the seat holds or has put in this hand.
    pub open spec fn chips_owned(&self) -> int {
        self.chip_stack + self.total_bet_this_hand
    }

    /// Fills the seat of a player who just joined with `buy_in` chips.
    pub fn initialize(
        &mut self,
        player: Pubkey,
        game: Pubkey,
        seat_index: u8,
        buy_in: u64,
        bump: u8,
        now: i64,
    )
        ensures
            final(self).wf(),
            final(self).player == player,
            final(self).game == game,
            final(self).seat_index == seat_index,
            final(self).status == PlayerStatus::Waiting,
            final(self).chip_stack == buy_in,
            final(self).current_bet == 0,
            final(self).total_bet_this_hand == 0,
            !final(self).has_cards,
            !final(self).has_folded,
            !final(self).is_all_in,
            final(self).joined_at == now,
            final(self).last_action_at == now,
            final(self).bump == bump,
    {
        self.player = player;
        self.game = game;
        self.seat_index = seat_index;
        self.status = PlayerStatus::Waiting;
        self.chip_stack = buy_in;
        self.current_bet = 0;
        self.total_bet_this_hand = 0;
        self.encrypted_hole_cards = [0;HOLE_CARDS];
        self.hole_card_keys = [0;HOLE_CARDS];
        self.has_cards = false;
        self.has_folded = false;
        self.is_all_in = false;
        self.joined_at = now;
        self.last_action_at = now;
        self.bump = bump;
    }

    /// Moves `amount` from the stack into this round's and this hand's bets;
    /// a stack that reaches zero is all in.
    pub fn place_bet(&mut self, amount: u64, now: i64) -> (r: Result<(), PokerError>)
        requires
            old(self).wf(),
            old(self).current_bet + old(self).chip_stack <= u64::MAX,
        ensures
            final(self).wf(),
            amount > old(self).chip_stack ==> r == Err::<(), PokerError>(
                PokerError::InsufficientChips,
            ) && *final(self) == *old(self),
            amount <= old(self).chip_stack ==> {
                &&& r is Ok
                &&& final(self).chip_stack == old(self).chip_stack - amount
                &&& final(self).current_bet == old(self).current_bet + amount
                &&& final(self).total_bet_this_hand == old(self).total_bet_this_hand + amount
                &&& final(self).is_all_in == (old(self).is_all_in || final(self).chip_stack == 0)
                &&& final(self).last_action_at == now
                &&& *final(self) == (PlayerState {
                    chip_stack: final(self).chip_stack,
                    current_bet: final(self).current_bet,
                    total_bet_this_hand: final(self).total_bet_this_hand,
                    is_all_in: final(self).is_all_in,
                    last_action_at: final(self).last_action_at,
                    ..*old(self)
                })
            },
            final(self).chips_owned() == old(self).chips_owned(),
    {
        if self.chip_stack < amount {
            return Err(PokerError::InsufficientChips);
        }
        self.chip_stack = self.chip_stack - amount;
        self.current_bet = self.current_bet + amount;
        self.total_bet_this_hand = self.total_bet_this_hand + amount;
        if self.chip_stack == 0 {
            self.is_all_in = true;
        }
        self.last_action_at = now;
        Ok(())
    }

    /// Gives up the hand.
    pub fn fold(&mut self, now: i64)
        ensures
            *final(self) == (PlayerState {
                has_folded: true,
                status: PlayerStatus::Folded,
                last_action_at: now,
                ..*old(self)
            }),
    {
        self.has_folded = true;
        self.status = PlayerStatus::Folded;
        self.last_action_at = now;
    }

    /// Clears this round's bet.
    pub fn reset_for_new_round(&mut self)
        ensures
            *final(self) == (PlayerState { current_bet: 0, ..*old(self) }),
    {
        self.current_bet = 0;
    }

    /// Clears everything about the last hand; a seat with chips is active
    /// again.
    pub fn reset_for_new_hand(&mut self)
        ensures
            final(self).wf(),
            final(self).current_bet == 0,
            final(self).total_bet_this_hand == 0,
            final(self).encrypted_hole_cards@ == seq![0u8, 0u8],
            !final(self).has_cards,
            !final(self).has_folded,
            !final(self).is_all_in,
            final(self).chip_stack == old(self).chip_stack,
            old(self).chip_stack > 0 ==> final(self).status == PlayerStatus::Active,
            old(self).chip_stack == 0 ==> final(self).status == old(self).status,
            final(self).player == old(self).player,
            final(self).seat_index == old(self).seat_index,
    {
        self.current_bet = 0;
        self.total_bet_this_hand = 0;
        self.encrypted_hole_cards = [0;HOLE_CARDS];
        self.hole_card_keys = [0;HOLE_CARDS];
        self.has_cards = false;
        self.has_folded = false;
        self.is_all_in = false;
        if self.chip_stack > 0 {
            self.status = PlayerStatus::Active;
        }
        assert(self.encrypted_hole_cards@ =~= seq![0u8, 0u8]);
    }

    /// Adds chips won from a pot to the stack.
    pub fn add_winnings(&mut self, amount: u64)
        requires
            old(self).chip_stack + amount <= u64::MAX,
        ensures
            *final(self) == (PlayerState { chip_stack: (old(self).chip_stack + amount) as u64, ..*old(self) }),
    {
        self.chip_stack = self.chip_stack + amount;
    }
}

impl Default for PlayerState {
    fn default() -> (r: PlayerState)
        ensures
            r.wf(),
            r.chip_stack == 0,
            r.current_bet == 0,
            r.total_bet_this_hand == 0,
            r.seat_index == 0,
            r.status == PlayerStatus::Waiting,
            !r.has_cards,
            !r.has_folded,
            !r.is_all_in,
    {
        PlayerState {
            player: Pubkey::default(),
            game: Pubkey::default(),
            seat_index: 0,
            status: PlayerStatus::Waiting,
            chip_stack: 0,
            current_bet: 0,
            total_bet_this_hand: 0,
            encrypted_hole_cards: [0;HOLE_CARDS],
            hole_card_keys: [0;HOLE_CARDS],
            has_cards: false,
            has_folded: false,
            is_all_in: false,
            joined_at: 0,
            last_action_at: 0,
            bump: 0,
        }
    }
}

} // verus!
