use vstd::prelude::*;
use crate::constants::MAX_PLAYERS;
use crate::error::PokerError;

verus! {

/// A buy-in is accepted when it lies between the table's bounds.
pub fn validate_buy_in(amount: u64, min_buy_in: u64, max_buy_in: u64) -> (r: Result<(), PokerError>)
    ensures
        amount < min_buy_in ==> r == Err::<(), PokerError>(PokerError::BuyInTooLow),
        min_buy_in <= amount && amount > max_buy_in ==> r == Err::<(), PokerError>(
            PokerError::BuyInTooHigh,
        ),
        min_buy_in <= amount <= max_buy_in ==> r is Ok,
{
    if amount < min_buy_in {
        return Err(PokerError::BuyInTooLow);
    }
    if amount > max_buy_in {
        return Err(PokerError::BuyInTooHigh);
    }
    Ok(())
}

/// Scanning clockwise over `n` seats, the first seat `from + k`, `from + k + 1`,
/// ... up to `from + n` (wrapping) that is marked in `active`; -1 if none is.
pub open spec fn scan_active(active: Seq<bool>, n: int, from: int, k: int) -> int
    decreases n + 1 - k,
{
    if n <= 0 || k > n || k < 1 {
        -1
    } else if active[(from + k) % n] {
        (from + k) % n
    } else {
        scan_active(active, n, from, k + 1)
    }
}

/// The next active seat after `from`, going round the table once; -1 if no
/// seat is active.
pub open spec fn next_active_seat(active: Seq<bool>, n: int, from: int) -> int {
    scan_active(active, n, from, 1)
}

pub proof fn lemma_scan_active_result(active: Seq<bool>, n: int, from: int, k: int)
    requires
        from >= 0,
        n <= active.len(),
    ensures
        scan_active(active, n, from, k) == -1 || (0 <= scan_active(active, n, from, k) < n
            && active[scan_active(active, n, from, k)]),
    decreases n + 1 - k,
{
    if !(n <= 0 || k > n || k < 1) && !active[(from + k) % n] {
        lemma_scan_active_result(active, n, from, k + 1);
    }
}

/// The next active seat after `current_index`, clockwise over the first
/// `player_count` seats; `None` when no seat is active.
pub fn find_next_active_player(
    current_index: usize,
    active_players: &[bool; MAX_PLAYERS],
    player_count: usize,
) -> (r: Option<usize>)
    requires
        player_count <= active_players@.len(),
        current_index + player_count < usize::MAX,
    ensures
        next_active_seat(active_players@, player_count as int, current_index as int) < 0
            ==> r is None,
        next_active_seat(active_players@, player_count as int, current_index as int) >= 0
            ==> next_active_seat(active_players@, player_count as int, current_index as int)
            < player_count && r == Some(
            next_active_seat(active_players@, player_count as int, current_index as int) as usize,
        ),
        r matches Some(s) ==> s < player_count && active_players@[s as int],
{
    proof {
        lemma_scan_active_result(active_players@, player_count as int, current_index as int, 1);
    }
    let mut i: usize = 1;
    while i <= player_count
        invariant
            1 <= i <= player_count + 1,
            player_count <= active_players@.len(),
            current_index + player_count < usize::MAX,
            next_active_seat(active_players@, player_count as int, current_index as int)
                == scan_active(active_players@, player_count as int, current_index as int, i as int),
        decreases player_count + 1 - i,
    {
        let next_index = (current_index + i) % player_count;
        if active_players[next_index] {
            return Some(next_index);
        }
        i = i + 1;
    }
    None
}

/// Sum of a list of contributions.
pub open spec fn seq_sum(s: Seq<u64>) -> int
    decreases s.len(),
{
    if s.len() == 0 {
        0
    } else {
        seq_sum(s.drop_last()) + s.last()
    }
}

/// Total of all contributions.
pub fn calculate_pot_total(contributions: &[u64]) -> (r: u64)
    requires
        seq_sum(contributions@) <= u64::MAX,
    ensures
        r as int == seq_sum(contributions@),
{
    let mut total: u64 = 0;
    let mut i: usize = 0;
    while i < contributions.len()
        invariant
            i <= contributions@.len(),
            seq_sum(contributions@) <= u64::MAX,
            total as int == seq_sum(contributions@.subrange(0, i as int)),
        decreases contributions@.len() - i,
    {
        proof {
            let next = contributions@.subrange(0, i as int + 1);
            assert(next.drop_last() =~= contributions@.subrange(0, i as int));
            lemma_seq_sum_prefix(contributions@, i as int + 1);
        }
        total = total + contributions[i];
        i = i + 1;
    }
    assert(contributions@.subrange(0, contributions@.len() as int) =~= contributions@);
    total
}

proof fn lemma_seq_sum_prefix(s: Seq<u64>, k: int)
    requires
        0 <= k <= s.len(),
    ensures
        0 <= seq_sum(s.subrange(0, k)) <= seq_sum(s),
    decreases s.len(),
{
    if s.len() > 0 {
        if k == s.len() {
            assert(s.subrange(0, k) =~= s);
            lemma_seq_sum_prefix(s.drop_last(), k - 1);
        } else {
            assert(s.drop_last().subrange(0, k) =~= s.subrange(0, k));
            lemma_seq_sum_prefix(s.drop_last(), k);
        }
    }
}

} // verus!
