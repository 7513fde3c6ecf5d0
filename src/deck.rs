use vstd::prelude::*;
use crate::constants::DECK_SIZE;
use crate::error::PokerError;
use crate::types::{Rank, Suit};

verus! {

/// A playing card.
#[derive(Clone, Copy, Debug, PartialEq, Eq, Structural)]
pub struct Card {
    pub suit: Suit,
    pub rank: Rank,
}

/// Position of a card in a fresh deck: thirteen hearts deuce to ace, then
/// diamonds, clubs and spades.
pub open spec fn card_index(c: Card) -> int {
    c.suit.spec_index() * 13 + c.rank.spec_value() - 2
}

impl Card {
    pub fn new(suit: Suit, rank: Rank) -> (r: Card)
        ensures
            r.suit == suit,
            r.rank == rank,
    {
        Card { suit, rank }
    }

    /// Position of the card in a fresh deck (0 to 51).
    pub fn to_index(&self) -> (r: u8)
        ensures
            r as int == card_index(*self),
            r < 52,
    {
        let suit_offset: u8 = match self.suit {
            Suit::Hearts => 0,
            Suit::Diamonds => 13,
            Suit::Clubs => 26,
            Suit::Spades => 39,
        };
        let rank_offset: u8 = self.rank.value() - 2;
        suit_offset + rank_offset
    }

    /// The card at a position of a fresh deck; fails on a position past 51.
    pub fn from_index(index: u8) -> (r: Result<Card, PokerError>)
        ensures
            index < 52 ==> (r matches Ok(c) && card_index(c) == index as int),
            index >= 52 ==> r == Err::<Card, PokerError>(PokerError::InvalidCardIndex),
    {
        if index >= 52 {
            return Err(PokerError::InvalidCardIndex);
        }
        let suit = match index / 13 {
            0 => Suit::Hearts,
            1 => Suit::Diamonds,
            2 => Suit::Clubs,
            _ => Suit::Spades,
        };
        let rank = match Rank::from_value(index % 13 + 2) {
            Some(r) => r,
            None => return Err(PokerError::InvalidCardIndex),
        };
        Ok(Card { suit, rank })
    }
}

/// The shuffled deck of one hand and how far it has been dealt.
#[derive(Clone, Copy, Debug)]
pub struct EncryptedDeck {
    /// Card positions in shuffled order.
    pub encrypted_indices: [u8; DECK_SIZE],
    /// Commitment that binds the shuffle.
    pub shuffle_commitment: [u8; 32],
    /// Next position of `encrypted_indices` to deal.
    pub next_card_index: u8,
    /// Cards dealt or burned so far.
    pub cards_dealt: u8,
    /// Session that produced the shuffle.
    pub shuffle_session_id: [u8; 32],
}

impl EncryptedDeck {
    /// The cursor never passes the end of the deck, and every card taken
    /// moves it by one.
    pub open spec fn wf(&self) -> bool {
        &&& self.next_card_index <= 52
        &&& self.cards_dealt == self.next_card_index
    }

    /// Cards taken from the deck so far, in the order they were taken.
    pub open spec fn dealt(&self) -> Seq<u8> {
        self.encrypted_indices@.subrange(0, self.next_card_index as int)
    }

    /// A deck ready to deal from a finished shuffle.
    pub fn initialize_from_shuffle(
        encrypted_indices: [u8; DECK_SIZE],
        shuffle_commitment: [u8; 32],
        shuffle_session_id: [u8; 32],
    ) -> (r: EncryptedDeck)
        ensures
            r.wf(),
            r.encrypted_indices == encrypted_indices,
            r.shuffle_commitment == shuffle_commitment,
            r.shuffle_session_id == shuffle_session_id,
            r.next_card_index == 0,
    {
        EncryptedDeck {
            encrypted_indices,
            shuffle_commitment,
            next_card_index: 0,
            cards_dealt: 0,
            shuffle_session_id,
        }
    }

    /// Takes the next card of the shuffled order; fails once all 52 are out.
    pub fn get_next_encrypted_card(&mut self) -> (r: Result<u8, PokerError>)
        requires
            old(self).wf(),
        ensures
            final(self).wf(),
            final(self).encrypted_indices == old(self).encrypted_indices,
            final(self).shuffle_commitment == old(self).shuffle_commitment,
            final(self).shuffle_session_id == old(self).shuffle_session_id,
            old(self).next_card_index < 52 ==> {
                &&& r == Ok::<u8, PokerError>(
                    old(self).encrypted_indices@[old(self).next_card_index as int],
                )
                &&& final(self).next_card_index == old(self).next_card_index + 1
                &&& final(self).dealt() == old(self).dealt().push(
                    old(self).encrypted_indices@[old(self).next_card_index as int],
                )
            },
            old(self).next_card_index >= 52 ==> {
                &&& r == Err::<u8, PokerError>(PokerError::InvalidCardIndex)
                &&& *final(self) == *old(self)
            },
    {
        if self.next_card_index >= 52 {
            return Err(PokerError::InvalidCardIndex);
        }
        let card_index = self.encrypted_indices[self.next_card_index as usize];
        self.next_card_index = self.next_card_index + 1;
        self.cards_dealt = self.cards_dealt + 1;
        proof {
            assert(self.dealt() =~= old(self).dealt().push(card_index));
        }
        Ok(card_index)
    }

    /// Takes the next card and discards it unseen.
    pub fn burn_card(&mut self) -> (r: Result<(), PokerError>)
        requires
            old(self).wf(),
        ensures
            final(self).wf(),
            final(self).encrypted_indices == old(self).encrypted_indices,
            old(self).next_card_index < 52 ==> r is Ok && final(self).next_card_index
                == old(self).next_card_index + 1,
            old(self).next_card_index >= 52 ==> r == Err::<(), PokerError>(
                PokerError::InvalidCardIndex,
            ) && *final(self) == *old(self),
    {
        match self.get_next_encrypted_card() {
            Ok(_) => Ok(()),
            Err(e) => Err(e),
        }
    }

    /// Whether `count` more cards can be taken.
    pub fn has_cards(&self, count: u8) -> (r: bool)
        requires
            self.wf(),
        ensures
            r == (self.next_card_index + count <= 52),
    {
        (self.next_card_index as u16 + count as u16) <= 52
    }
}

impl Default for EncryptedDeck {
    fn default() -> (r: EncryptedDeck)
        ensures
            r.wf(),
            r.next_card_index == 0,
    {
        EncryptedDeck {
            encrypted_indices: [0; DECK_SIZE],
            shuffle_commitment: [0; 32],
            next_card_index: 0,
            cards_dealt: 0,
            shuffle_session_id: [0; 32],
        }
    }
}

/// The 52 cards in fresh-deck order.
pub fn generate_standard_deck() -> (deck: [Card; DECK_SIZE])
    ensures
        forall|i: int| 0 <= i < 52 ==> card_index(#[trigger] deck@[i]) == i,
{
    let mut deck = [Card { suit: Suit::Hearts, rank: Rank::Two };DECK_SIZE];
    let mut index: u8 = 0;
    while index < 52
        invariant
            index <= 52,
            forall|i: int| 0 <= i < index ==> card_index(#[trigger] deck@[i]) == i,
        decreases 52 - index,
    {
        match Card::from_index(index) {
            Ok(c) => {
                deck[index as usize] = c;
            },
            Err(_) => {},
        }
        index = index + 1;
    }
    deck
}

/// The card at a position of a fresh deck; fails on a position past 51.
pub fn index_to_card(index: u8) -> (r: Result<Card, PokerError>)
    ensures
        index < 52 ==> (r matches Ok(c) && card_index(c) == index as int),
        index >= 52 ==> r == Err::<Card, PokerError>(PokerError::InvalidCardIndex),
{
    Card::from_index(index)
}

} // verus!
