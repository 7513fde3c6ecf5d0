use vstd::prelude::*;

verus! {

/// Every way a table operation can be refused.
#[derive(Clone, Copy, Debug, PartialEq, Eq, Structural)]
pub enum PokerError {
    GameFull,
    NotEnoughPlayers,
    GameAlreadyStarted,
    InvalidGameStage,
    PlayerNotInGame,
    PlayerAlreadyInGame,
    InsufficientBalance,
    BuyInTooLow,
    BuyInTooHigh,
    InvalidBetAmount,
    NotPlayerTurn,
    InvalidAction,
    InsufficientChips,
    InvalidSeatPosition,
    SeatOccupied,
    CannotLeaveDuringHand,
    DeckNotInitialized,
    CardsNotDealt,
    InvalidCardIndex,
    /// The card-secrecy protocol could not complete (shuffle, deal or reveal).
    ArciumMpcFailed,
    EncryptionFailed,
    InvalidGameConfig,
    GameNotFinished,
}

} // verus!
