use vstd::prelude::*;

verus! {

/// Seats at a table.
pub const MAX_PLAYERS: usize = 6;

/// Players needed before a hand can start.
pub const MIN_PLAYERS: usize = 2;

/// Hole cards dealt to each seat.
pub const HOLE_CARDS: usize = 2;

/// Community cards on the board once the river is out.
pub const COMMUNITY_CARDS: usize = 5;

/// Cards in a deck.
pub const DECK_SIZE: usize = 52;

/// Seconds a seat may stall before anyone may fold it.
pub const TURN_TIMEOUT: i64 = 60;

/// A raise must be at least this many times the bet it raises.
pub const MIN_RAISE_MULTIPLIER: u64 = 2;

/// Small blind used when a table is created without one.
pub const DEFAULT_SMALL_BLIND: u64 = 1_000_000;

/// Big blind used when a table is created without one.
pub const DEFAULT_BIG_BLIND: u64 = 2_000_000;

/// Smallest buy-in used when a table is created without one.
pub const MIN_BUY_IN: u64 = 200_000_000;

/// Largest buy-in used when a table is created without one.
pub const MAX_BUY_IN: u64 = 2_000_000_000;

} // verus!
