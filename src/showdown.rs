use vstd::prelude::*;
use crate::betting::{owned_total, stacks_total};
use crate::utils::seq_sum;
use crate::constants::MAX_PLAYERS;
use crate::deck::Card;
use crate::error::PokerError;
use crate::evaluator::{evaluate_best_hand, is_best_of_seven, lex_gt, EvaluatedHand};
use crate::deck::card_index;
use crate::game::{count_marked, Game};
use crate::player::PlayerState;
use crate::pot::{PotManager, SidePot, MAX_SIDE_POTS};
use crate::protocol::{mpc_reveal_card, EncryptedCard, RevealParams};
use crate::types::{GameStage, Pubkey};

verus! {

/// One seat's share of one pot.
#[derive(Clone, Copy, Debug)]
pub struct PotWinner {
    pub seat_index: u8,
    pub hand: EvaluatedHand,
    pub share: u64,
}

/// No hand among `hands` is worth more than `best`, and one is worth it.
pub open spec fn is_best_value(hands: Seq<(u8, EvaluatedHand)>, best: Seq<int>) -> bool {
    &&& exists|i: int| 0 <= i < hands.len() && (#[trigger] hands[i]).1.key() == best
    &&& forall|i: int| 0 <= i < hands.len() ==> !lex_gt((#[trigger] hands[i]).1.key(), best)
}

/// The entries among the first `n` of `hands` whose hand is worth `best`,
/// in order.
pub open spec fn tied_at(hands: Seq<(u8, EvaluatedHand)>, best: Seq<int>, n: int) -> Seq<(u8, EvaluatedHand)>
    decreases n,
{
    if n <= 0 {
        Seq::empty()
    } else {
        let rest = tied_at(hands, best, n - 1);
        if hands[n - 1].1.key() == best {
            rest.push(hands[n - 1])
        } else {
            rest
        }
    }
}

/// Share in a pot of `amount` split `k` ways: an even split, the winner at
/// `i == 0` also taking the odd chips.
pub open spec fn share_of(amount: int, k: int, i: int) -> int {
    if i == 0 {
        amount / k + amount % k
    } else {
        amount / k
    }
}

/// Sum of the shares of `w`.
pub open spec fn shares_total(w: Seq<PotWinner>) -> int
    decreases w.len(),
{
    if w.len() == 0 {
        0
    } else {
        shares_total(w.drop_last()) + w.last().share
    }
}

/// A split pot is paid out whole: the shares of `k` winners add up to the
/// pot, and no two shares differ by more than the odd chips, which go to
/// the first winner.
pub proof fn lemma_split_pot(amount: int, k: int)
    requires
        amount >= 0,
        k > 0,
    ensures
        share_of(amount, k, 0) + (k - 1) * share_of(amount, k, 1) == amount,
        forall|i: int| 1 <= i < k ==> #[trigger] share_of(amount, k, i) == amount / k,
        share_of(amount, k, 0) - share_of(amount, k, 1) == amount % k,
        amount % k < k,
{
    assert(amount == k * (amount / k) + amount % k) by (nonlinear_arith)
        requires
            k > 0,
    ;
    assert(amount / k + amount % k + (k - 1) * (amount / k) == k * (amount / k) + amount % k)
        by (nonlinear_arith);
}

/// Winners of a pot contested by `player_hands`: every entry holding the
/// best hand, in the order given, splitting `pot_amount` evenly with the
/// odd chips to the lowest seat among them. No hands, no winners.
pub fn determine_main_pot_winners(player_hands: &Vec<(u8, EvaluatedHand)>, pot_amount: u64) -> (r: Vec<PotWinner>)
    ensures
        player_hands@.len() == 0 ==> r@.len() == 0,
        player_hands@.len() > 0 ==> exists|best: Seq<int>|
            #[trigger] is_best_value(player_hands@, best) && winners_are(
                r@,
                tied_at(player_hands@, best, player_hands@.len() as int),
                pot_amount as int,
            ),
        player_hands@.len() > 0 ==> shares_total(r@) == pot_amount,
        player_hands@.len() > 0 ==> winners_are(r@, pot_winners(player_hands@), pot_amount as int),
        forall|j: int| 0 <= j < r@.len() ==> seat_in(player_hands@, #[trigger] r@[j].seat_index),
{
    let n = player_hands.len();
    if n == 0 {
        return Vec::new();
    }
    let mut best = player_hands[0].1;
    let mut i: usize = 1;
    while i < n
        invariant
            1 <= i <= n == player_hands@.len(),
            exists|j: int| 0 <= j < i && (#[trigger] player_hands@[j]).1.key() == best.key(),
            forall|j: int| 0 <= j < i ==> !lex_gt((#[trigger] player_hands@[j]).1.key(), best.key()),
        decreases n - i,
    {
        let h = player_hands[i].1;
        if matches!(h.compare(&best), core::cmp::Ordering::Greater) {
            proof {
                assert forall|j: int| 0 <= j < i + 1 implies !lex_gt(
                    (#[trigger] player_hands@[j]).1.key(),
                    h.key(),
                ) by {
                    if j < i && lex_gt(player_hands@[j].1.key(), h.key()) {
                        crate::evaluator::lemma_lex_gt_transitive(
                            player_hands@[j].1.key(),
                            h.key(),
                            best.key(),
                        );
                    }
                    if j == i && lex_gt(h.key(), h.key()) {
                        crate::evaluator::lemma_lex_gt_asymmetric(h.key(), h.key());
                    }
                }
                assert(player_hands@[i as int].1.key() == h.key());
            }
            best = h;
        } else {
            assert(!lex_gt(player_hands@[i as int].1.key(), best.key()));
        }
        i = i + 1;
    }
    let ghost bk = best.key();
    let mut ties: Vec<(u8, EvaluatedHand)> = Vec::new();
    let mut i: usize = 0;
    while i < n
        invariant
            i <= n == player_hands@.len(),
            bk == best.key(),
            ties@ == tied_at(player_hands@, bk, i as int),
            ties@.len() <= i,
        decreases n - i,
    {
        let entry = player_hands[i];
        if matches!(entry.1.compare(&best), core::cmp::Ordering::Equal) {
            ties.push(entry);
        }
        i = i + 1;
    }
    proof {
        lemma_tied_nonempty(player_hands@, bk, n as int);
    }
    proof {
        lemma_tied_from(player_hands@, bk, n as int);
    }
    let k = ties.len();
    let share = pot_amount / k as u64;
    let remainder = pot_amount % k as u64;
    proof {
        lemma_split_pot(pot_amount as int, k as int);
        assert(share_of(pot_amount as int, k as int, 0) + (k - 1) * share == k * share
            + remainder) by (nonlinear_arith)
            requires
                share_of(pot_amount as int, k as int, 0) == share + remainder,
        ;
    }
    let mut pos: usize = 0;
    let mut i: usize = 1;
    while i < k
        invariant
            1 <= i <= k == ties@.len(),
            pos < i,
            pos as int == lowest_seat_pos(ties@, i as int),
        decreases k - i,
    {
        if ties[i].0 < ties[pos].0 {
            pos = i;
        }
        i = i + 1;
    }
    let mut winners: Vec<PotWinner> = Vec::new();
    let mut i: usize = 0;
    while i < k
        invariant
            i <= k == ties@.len(),
            k > 0,
            pos < k,
            pos as int == lowest_seat_pos(ties@, k as int),
            share as int == pot_amount as int / (k as int),
            remainder as int == pot_amount as int % (k as int),
            k * share + remainder == pot_amount,
            winners@.len() == i,
            forall|j: int|
                0 <= j < i ==> (#[trigger] winners@[j]).seat_index == ties@[j].0
                    && winners@[j].hand == ties@[j].1 && winners@[j].share == share_at(
                    pot_amount as int,
                    ties@,
                    j,
                ),
            shares_total(winners@) == i * share + if pos < i {
                remainder as int
            } else {
                0
            },
            forall|j: int| 0 <= j < k ==> seat_in(player_hands@, (#[trigger] ties@[j]).0),
        decreases k - i,
    {
        assert(share + remainder <= pot_amount) by (nonlinear_arith)
            requires
                k * share + remainder == pot_amount,
                k >= 1,
        ;
        let amount = if i == pos {
            share + remainder
        } else {
            share
        };
        proof {
            let ii = i as int;
            let sh = share as int;
            assert(ii * sh + sh == (ii + 1) * sh) by (nonlinear_arith);
        }
        let ghost before = winners@;
        winners.push(PotWinner { seat_index: ties[i].0, hand: ties[i].1, share: amount });
        assert(winners@.drop_last() =~= before);
        assert(shares_total(winners@) == shares_total(before) + amount);
        i = i + 1;
    }
    assert(is_best_value(player_hands@, bk));
    proof {
        let b = choose|b: Seq<int>| is_best_value(player_hands@, b);
        lemma_best_value_unique(player_hands@, bk, b);
    }
    winners
}

/// `w` pays `ties`, in order, their shares of a pot of `amount`.
pub open spec fn winners_are(w: Seq<PotWinner>, ties: Seq<(u8, EvaluatedHand)>, amount: int) -> bool {
    &&& w.len() == ties.len()
    &&& forall|j: int|
        0 <= j < w.len() ==> (#[trigger] w[j]).seat_index == ties[j].0 && w[j].hand == ties[j].1
            && w[j].share == share_at(amount, ties, j)
}

/// Position among the first `n` of `ties` of the lowest seat; the earliest
/// such entry when a seat repeats.
pub open spec fn lowest_seat_pos(ties: Seq<(u8, EvaluatedHand)>, n: int) -> int
    decreases n,
{
    if n <= 1 {
        0
    } else {
        let p = lowest_seat_pos(ties, n - 1);
        if ties[n - 1].0 < ties[p].0 {
            n - 1
        } else {
            p
        }
    }
}

/// Share of entry `j` of `ties` in a pot of `amount`: an even split, the
/// lowest seat also taking the odd chips.
pub open spec fn share_at(amount: int, ties: Seq<(u8, EvaluatedHand)>, j: int) -> int {
    share_of(
        amount,
        ties.len() as int,
        if j == lowest_seat_pos(ties, ties.len() as int) {
            0
        } else {
            1
        },
    )
}

proof fn lemma_tied_nonempty(hands: Seq<(u8, EvaluatedHand)>, best: Seq<int>, n: int)
    requires
        0 <= n <= hands.len(),
        exists|j: int| 0 <= j < n && (#[trigger] hands[j]).1.key() == best,
    ensures
        tied_at(hands, best, n).len() > 0,
    decreases n,
{
    if hands[n - 1].1.key() != best {
        lemma_tied_nonempty(hands, best, n - 1);
    }
}

/// Some entry of `hands` is for seat `s`.
pub open spec fn seat_in(hands: Seq<(u8, EvaluatedHand)>, s: u8) -> bool {
    exists|i: int| 0 <= i < hands.len() && (#[trigger] hands[i]).0 == s
}

proof fn lemma_tied_from(hands: Seq<(u8, EvaluatedHand)>, best: Seq<int>, n: int)
    requires
        0 <= n <= hands.len(),
    ensures
        forall|j: int|
            0 <= j < tied_at(hands, best, n).len() ==> seat_in(
                hands,
                (#[trigger] tied_at(hands, best, n)[j]).0,
            ),
        tied_at(hands, best, n).len() <= n,
    decreases n,
{
    if n > 0 {
        lemma_tied_from(hands, best, n - 1);
        let t = tied_at(hands, best, n);
        assert forall|j: int| 0 <= j < t.len() implies seat_in(hands, (#[trigger] t[j]).0) by {
            if j == t.len() - 1 && hands[n - 1].1.key() == best {
                assert(hands[n - 1].0 == t[j].0);
            } else {
                assert(t[j] == tied_at(hands, best, n - 1)[j]);
            }
        }
    }
}

/// The entries among the first `n` of `hands` whose seat may win a pot
/// with eligibility `eligible`, in order.
pub open spec fn eligible_entries(hands: Seq<(u8, EvaluatedHand)>, eligible: Seq<bool>, n: int) -> Seq<(u8, EvaluatedHand)>
    decreases n,
{
    if n <= 0 {
        Seq::empty()
    } else {
        let rest = eligible_entries(hands, eligible, n - 1);
        if hands[n - 1].0 < MAX_PLAYERS && eligible[hands[n - 1].0 as int] {
            rest.push(hands[n - 1])
        } else {
            rest
        }
    }
}

proof fn lemma_eligible_from(hands: Seq<(u8, EvaluatedHand)>, eligible: Seq<bool>, n: int)
    requires
        0 <= n <= hands.len(),
    ensures
        forall|j: int|
            0 <= j < eligible_entries(hands, eligible, n).len() ==> seat_in(
                hands,
                (#[trigger] eligible_entries(hands, eligible, n)[j]).0,
            ),
    decreases n,
{
    if n > 0 {
        lemma_eligible_from(hands, eligible, n - 1);
        let t = eligible_entries(hands, eligible, n);
        assert forall|j: int| 0 <= j < t.len() implies seat_in(hands, (#[trigger] t[j]).0) by {
            if j == t.len() - 1 && hands[n - 1].0 < MAX_PLAYERS && eligible[hands[n - 1].0 as int] {
                assert(hands[n - 1].0 == t[j].0);
            } else {
                assert(t[j] == eligible_entries(hands, eligible, n - 1)[j]);
            }
        }
    }
}

/// Winners of a side pot: the best hands among the seats eligible for it.
pub fn determine_side_pot_winners(player_hands: &Vec<(u8, EvaluatedHand)>, side_pot: &SidePot) -> (r: Vec<PotWinner>)
    ensures
        ({
            let e = eligible_entries(
                player_hands@,
                side_pot.eligible_players@,
                player_hands@.len() as int,
            );
            &&& e.len() == 0 ==> r@.len() == 0
            &&& e.len() > 0 ==> exists|best: Seq<int>|
                #[trigger] is_best_value(e, best) && winners_are(
                    r@,
                    tied_at(e, best, e.len() as int),
                    side_pot.amount as int,
                )
            &&& e.len() > 0 ==> shares_total(r@) == side_pot.amount
            &&& e.len() > 0 ==> winners_are(r@, pot_winners(e), side_pot.amount as int)
        }),
        forall|j: int| 0 <= j < r@.len() ==> seat_in(player_hands@, #[trigger] r@[j].seat_index),
{
    let mut eligible_hands: Vec<(u8, EvaluatedHand)> = Vec::new();
    let mut i: usize = 0;
    while i < player_hands.len()
        invariant
            i <= player_hands@.len(),
            eligible_hands@ == eligible_entries(player_hands@, side_pot.eligible_players@, i as int),
        decreases player_hands@.len() - i,
    {
        let entry = player_hands[i];
        if (entry.0 as usize) < MAX_PLAYERS && side_pot.is_eligible(entry.0 as usize) {
            eligible_hands.push(entry);
        }
        i = i + 1;
    }
    proof {
        lemma_eligible_from(player_hands@, side_pot.eligible_players@, player_hands@.len() as int);
    }
    let r = determine_main_pot_winners(&eligible_hands, side_pot.amount);
    assert forall|j: int| 0 <= j < r@.len() implies seat_in(player_hands@, #[trigger] r@[j].seat_index) by {
        let k = choose|k: int| 0 <= k < eligible_hands@.len() && (#[trigger] eligible_hands@[k]).0 == r@[j].seat_index;
        assert(seat_in(player_hands@, eligible_hands@[k].0));
    }
    r
}

/// Chips the pots pay out in all: every pot with at least one contender,
/// in full.
pub open spec fn paid_out(
    hands: Seq<(u8, EvaluatedHand)>,
    main_pot: int,
    side_pots: Seq<SidePot>,
    count: int,
) -> int
    decreases count,
{
    if count <= 0 {
        if hands.len() > 0 {
            main_pot
        } else {
            0
        }
    } else {
        paid_out(hands, main_pot, side_pots, count - 1) + if eligible_entries(
            hands,
            side_pots[count - 1].eligible_players@,
            hands.len() as int,
        ).len() > 0 {
            side_pots[count - 1].amount as int
        } else {
            0
        }
    }
}

/// Sum of the amounts of a payout list.
pub open spec fn pairs_total(p: Seq<(u8, u64)>) -> int
    decreases p.len(),
{
    if p.len() == 0 {
        0
    } else {
        pairs_total(p.drop_last()) + p.last().1
    }
}

proof fn lemma_seq_sum_update(s: Seq<u64>, k: int, v: u64)
    requires
        0 <= k < s.len(),
    ensures
        seq_sum(s.update(k, v)) == seq_sum(s) - s[k] + v,
        s[k] <= seq_sum(s),
        seq_sum(s) >= 0,
    decreases s.len(),
{
    lemma_seq_sum_nonneg(s.drop_last());
    if k == s.len() - 1 {
        assert(s.update(k, v).drop_last() =~= s.drop_last());
    } else {
        assert(s.update(k, v).drop_last() =~= s.drop_last().update(k, v));
        lemma_seq_sum_update(s.drop_last(), k, v);
    }
}

proof fn lemma_seq_sum_nonneg(s: Seq<u64>)
    ensures
        seq_sum(s) >= 0,
    decreases s.len(),
{
    if s.len() > 0 {
        lemma_seq_sum_nonneg(s.drop_last());
    }
}

proof fn lemma_shares_prefix(w: Seq<PotWinner>, j: int)
    requires
        0 <= j <= w.len(),
    ensures
        0 <= shares_total(w.subrange(0, j)) <= shares_total(w),
    decreases w.len(),
{
    if w.len() > 0 {
        if j == w.len() {
            assert(w.subrange(0, j) =~= w);
            lemma_shares_prefix(w.drop_last(), j - 1);
        } else {
            assert(w.drop_last().subrange(0, j) =~= w.subrange(0, j));
            lemma_shares_prefix(w.drop_last(), j);
        }
    }
}

/// What the first `n` of `w` pay to seat `t`.
pub open spec fn winner_share(w: Seq<PotWinner>, t: int, n: int) -> int
    decreases n,
{
    if n <= 0 {
        0
    } else {
        winner_share(w, t, n - 1) + if w[n - 1].seat_index == t {
            w[n - 1].share as int
        } else {
            0
        }
    }
}

/// What the first `n` of the tied entries `ties`, splitting a pot of
/// `amount`, pay to seat `t`.
pub open spec fn seat_share(ties: Seq<(u8, EvaluatedHand)>, amount: int, t: int, n: int) -> int
    decreases n,
{
    if n <= 0 {
        0
    } else {
        seat_share(ties, amount, t, n - 1) + if ties[n - 1].0 == t {
            share_at(amount, ties, n - 1)
        } else {
            0
        }
    }
}

/// The entries of `hands` that win a pot they contest: all those holding
/// the best hand, in order.
pub open spec fn pot_winners(hands: Seq<(u8, EvaluatedHand)>) -> Seq<(u8, EvaluatedHand)> {
    tied_at(hands, choose|b: Seq<int>| is_best_value(hands, b), hands.len() as int)
}

/// What seat `t` wins from a pot of `amount` contested by `hands`.
pub open spec fn pot_share(hands: Seq<(u8, EvaluatedHand)>, amount: int, t: int) -> int {
    if hands.len() > 0 {
        seat_share(pot_winners(hands), amount, t, pot_winners(hands).len() as int)
    } else {
        0
    }
}

/// What seat `t` wins from the first `count` side pots.
pub open spec fn side_winnings(hands: Seq<(u8, EvaluatedHand)>, side_pots: Seq<SidePot>, count: int, t: int) -> int
    decreases count,
{
    if count <= 0 {
        0
    } else {
        side_winnings(hands, side_pots, count - 1, t) + pot_share(
            eligible_entries(hands, side_pots[count - 1].eligible_players@, hands.len() as int),
            side_pots[count - 1].amount as int,
            t,
        )
    }
}

/// What seat `t` wins in all: its shares of every side pot and of the main
/// pot.
pub open spec fn winnings_of(
    hands: Seq<(u8, EvaluatedHand)>,
    main_pot: int,
    side_pots: Seq<SidePot>,
    count: int,
    t: int,
) -> int {
    side_winnings(hands, side_pots, count, t) + pot_share(hands, main_pot, t)
}

proof fn lemma_best_value_unique(hands: Seq<(u8, EvaluatedHand)>, a: Seq<int>, b: Seq<int>)
    requires
        is_best_value(hands, a),
        is_best_value(hands, b),
    ensures
        a == b,
{
    let i = choose|i: int| 0 <= i < hands.len() && (#[trigger] hands[i]).1.key() == a;
    let j = choose|j: int| 0 <= j < hands.len() && (#[trigger] hands[j]).1.key() == b;
    assert(!lex_gt(hands[j].1.key(), a));
    assert(!lex_gt(hands[i].1.key(), b));
    if a != b {
        crate::evaluator::lemma_lex_total(a, b, 0);
    }
}

proof fn lemma_winner_share(w: Seq<PotWinner>, ties: Seq<(u8, EvaluatedHand)>, amount: int, t: int, n: int)
    requires
        winners_are(w, ties, amount),
        0 <= n <= w.len(),
    ensures
        winner_share(w, t, n) == seat_share(ties, amount, t, n),
    decreases n,
{
    if n > 0 {
        lemma_winner_share(w, ties, amount, t, n - 1);
    }
}

/// Adds each winner's share to its seat's total.
fn add_shares(totals: &mut [u64; MAX_PLAYERS], winners: &Vec<PotWinner>)
    requires
        seq_sum(old(totals)@) + shares_total(winners@) <= u64::MAX,
        forall|j: int| 0 <= j < winners@.len() ==> (#[trigger] winners@[j]).seat_index < MAX_PLAYERS,
    ensures
        seq_sum(final(totals)@) == seq_sum(old(totals)@) + shares_total(winners@),
        forall|t: int|
            0 <= t < MAX_PLAYERS ==> #[trigger] final(totals)@[t] == old(totals)@[t] || exists|j: int|
                0 <= j < winners@.len() && winners@[j].seat_index == t,
        forall|t: int|
            0 <= t < MAX_PLAYERS ==> #[trigger] final(totals)@[t] == old(totals)@[t] + winner_share(
                winners@,
                t,
                winners@.len() as int,
            ),
{
    let mut j: usize = 0;
    while j < winners.len()
        invariant
            j <= winners@.len(),
            seq_sum(totals@) == seq_sum(old(totals)@) + shares_total(winners@.subrange(0, j as int)),
            seq_sum(old(totals)@) + shares_total(winners@) <= u64::MAX,
            forall|k: int| 0 <= k < winners@.len() ==> (#[trigger] winners@[k]).seat_index < MAX_PLAYERS,
            forall|t: int|
                0 <= t < MAX_PLAYERS ==> #[trigger] totals@[t] == old(totals)@[t] || exists|k: int|
                    0 <= k < j && winners@[k].seat_index == t,
            forall|t: int|
                0 <= t < MAX_PLAYERS ==> #[trigger] totals@[t] == old(totals)@[t] + winner_share(
                    winners@,
                    t,
                    j as int,
                ),
        decreases winners@.len() - j,
    {
        let w = winners[j];
        let seat = w.seat_index as usize;
        proof {
            lemma_shares_prefix(winners@, j as int + 1);
            assert(winners@.subrange(0, j as int + 1).drop_last() =~= winners@.subrange(0, j as int));
            lemma_seq_sum_update(totals@, seat as int, 0);
        }
        let ghost before = totals@;
        totals[seat] = totals[seat] + w.share;
        proof {
            lemma_seq_sum_update(before, seat as int, totals@[seat as int]);
            assert(totals@ == before.update(seat as int, totals@[seat as int]));
        }
        j = j + 1;
    }
    assert(winners@.subrange(0, winners@.len() as int) =~= winners@);
}

/// What each seat wins over the main pot and every side pot, as (seat,
/// amount) for seats that win something, in seat order. Every pot with at
/// least one contender is paid out in full, and nothing more.
pub fn determine_all_winners(
    player_hands: &Vec<(u8, EvaluatedHand)>,
    main_pot: u64,
    side_pots: &[SidePot; MAX_SIDE_POTS],
    side_pot_count: u8,
) -> (r: Vec<(u8, u64)>)
    requires
        side_pot_count <= MAX_SIDE_POTS,
        main_pot + crate::pot::side_pot_total(side_pots@, side_pot_count as int) <= u64::MAX,
        forall|i: int| 0 <= i < player_hands@.len() ==> (#[trigger] player_hands@[i]).0 < MAX_PLAYERS,
    ensures
        pairs_total(r@) == paid_out(player_hands@, main_pot as int, side_pots@, side_pot_count as int),
        forall|j: int| 0 <= j < r@.len() ==> (#[trigger] r@[j]).0 < MAX_PLAYERS && r@[j].1 > 0,
        forall|j: int, k: int| 0 <= j < k < r@.len() ==> r@[j].0 < r@[k].0,
        forall|j: int| 0 <= j < r@.len() ==> seat_in(player_hands@, (#[trigger] r@[j]).0),
        forall|j: int|
            0 <= j < r@.len() ==> (#[trigger] r@[j]).1 == winnings_of(
                player_hands@,
                main_pot as int,
                side_pots@,
                side_pot_count as int,
                r@[j].0 as int,
            ),
        forall|t: int|
            0 <= t < MAX_PLAYERS && #[trigger] winnings_of(
                player_hands@,
                main_pot as int,
                side_pots@,
                side_pot_count as int,
                t,
            ) > 0 ==> exists|j: int| 0 <= j < r@.len() && r@[j].0 == t,
{
    let mut totals = [0u64;MAX_PLAYERS];
    assert(seq_sum(totals@) == 0) by {
        reveal_with_fuel(seq_sum, 7);
    }
    let mut i: usize = 0;
    while i < side_pot_count as usize
        invariant
            i <= side_pot_count <= MAX_SIDE_POTS,
            main_pot + crate::pot::side_pot_total(side_pots@, side_pot_count as int) <= u64::MAX,
            forall|k: int| 0 <= k < player_hands@.len() ==> (#[trigger] player_hands@[k]).0 < MAX_PLAYERS,
            seq_sum(totals@) + (if player_hands@.len() > 0 { main_pot as int } else { 0 }) == paid_out(
                player_hands@,
                main_pot as int,
                side_pots@,
                i as int,
            ),
            paid_out(player_hands@, main_pot as int, side_pots@, i as int) <= main_pot
                + crate::pot::side_pot_total(side_pots@, i as int),
            forall|t: int| 0 <= t < MAX_PLAYERS && #[trigger] totals@[t] > 0 ==> seat_in(player_hands@, t as u8),
            forall|t: int| 0 <= t < MAX_PLAYERS ==> #[trigger] totals@[t] == side_winnings(player_hands@, side_pots@, i as int, t),
        decreases side_pot_count - i,
    {
        let winners = determine_side_pot_winners(player_hands, &side_pots[i]);
        proof {
            crate::pot::lemma_side_pot_total_monotone(side_pots@, i as int + 1, side_pot_count as int);
            assert forall|j: int| 0 <= j < winners@.len() implies (#[trigger] winners@[j]).seat_index < MAX_PLAYERS by {
                let k = choose|k: int| 0 <= k < player_hands@.len() && (#[trigger] player_hands@[k]).0 == winners@[j].seat_index;
            }
            if winners@.len() > 0 {
                let e = eligible_entries(player_hands@, side_pots@[i as int].eligible_players@, player_hands@.len() as int);
                assert(e.len() > 0);
            }
        }
        let ghost before = totals@;
        add_shares(&mut totals, &winners);
        proof {
            let e = eligible_entries(player_hands@, side_pots@[i as int].eligible_players@, player_hands@.len() as int);
            assert forall|t: int| 0 <= t < MAX_PLAYERS implies #[trigger] totals@[t] == side_winnings(player_hands@, side_pots@, i as int + 1, t) by {
                if e.len() > 0 {
                    lemma_winner_share(winners@, pot_winners(e), side_pots@[i as int].amount as int, t, winners@.len() as int);
                }
            }
            assert forall|t: int| 0 <= t < MAX_PLAYERS && #[trigger] totals@[t] > 0 implies seat_in(player_hands@, t as u8) by {
                if totals@[t] != before[t] {
                    let j = choose|j: int| 0 <= j < winners@.len() && winners@[j].seat_index == t;
                    assert(seat_in(player_hands@, winners@[j].seat_index));
                }
            }
        }
        i = i + 1;
    }
    let main_winners = determine_main_pot_winners(player_hands, main_pot);
    proof {
        assert forall|j: int| 0 <= j < main_winners@.len() implies (#[trigger] main_winners@[j]).seat_index < MAX_PLAYERS by {
            let k = choose|k: int| 0 <= k < player_hands@.len() && (#[trigger] player_hands@[k]).0 == main_winners@[j].seat_index;
        }
    }
    let ghost before = totals@;
    add_shares(&mut totals, &main_winners);
    proof {
        assert forall|t: int| 0 <= t < MAX_PLAYERS implies #[trigger] totals@[t] == winnings_of(player_hands@, main_pot as int, side_pots@, side_pot_count as int, t) by {
            if player_hands@.len() > 0 {
                lemma_winner_share(main_winners@, pot_winners(player_hands@), main_pot as int, t, main_winners@.len() as int);
            }
        }
        assert forall|t: int| 0 <= t < MAX_PLAYERS && #[trigger] totals@[t] > 0 implies seat_in(player_hands@, t as u8) by {
            if totals@[t] != before[t] {
                let j = choose|j: int| 0 <= j < main_winners@.len() && main_winners@[j].seat_index == t;
                assert(seat_in(player_hands@, main_winners@[j].seat_index));
            }
        }
    }
    let mut result: Vec<(u8, u64)> = Vec::new();
    let mut s: usize = 0;
    while s < MAX_PLAYERS
        invariant
            s <= MAX_PLAYERS,
            pairs_total(result@) == seq_sum(totals@.subrange(0, s as int)),
            forall|j: int| 0 <= j < result@.len() ==> (#[trigger] result@[j]).0 < s && result@[j].1 > 0,
            forall|j: int, k: int| 0 <= j < k < result@.len() ==> result@[j].0 < result@[k].0,
            forall|t: int| 0 <= t < MAX_PLAYERS && #[trigger] totals@[t] > 0 ==> seat_in(player_hands@, t as u8),
            forall|j: int| 0 <= j < result@.len() ==> seat_in(player_hands@, (#[trigger] result@[j]).0),
            forall|t: int| 0 <= t < MAX_PLAYERS ==> #[trigger] totals@[t] == winnings_of(player_hands@, main_pot as int, side_pots@, side_pot_count as int, t),
            forall|j: int| 0 <= j < result@.len() ==> (#[trigger] result@[j]).1 == totals@[result@[j].0 as int],
            forall|t: int| 0 <= t < s && #[trigger] totals@[t] > 0 ==> exists|j: int| 0 <= j < result@.len() && result@[j].0 == t,
        decreases MAX_PLAYERS - s,
    {
        assert(totals@.subrange(0, s as int + 1).drop_last() =~= totals@.subrange(0, s as int));
        if totals[s] > 0 {
            let ghost before = result@;
            result.push((s as u8, totals[s]));
            assert(result@.drop_last() =~= before);
            assert(result@[before.len() as int].0 == s);
            assert forall|t: int| 0 <= t < s + 1 && #[trigger] totals@[t] > 0 implies exists|j: int| 0 <= j < result@.len() && result@[j].0 == t by {
                if t < s {
                    let j = choose|j: int| 0 <= j < before.len() && before[j].0 == t;
                    assert(result@[j] == before[j]);
                } else {
                    assert(result@[before.len() as int].0 == t);
                }
            }
        }
        s = s + 1;
    }
    assert(totals@.subrange(0, MAX_PLAYERS as int) =~= totals@);
    assert forall|t: int|
        0 <= t < MAX_PLAYERS && #[trigger] winnings_of(
            player_hands@,
            main_pot as int,
            side_pots@,
            side_pot_count as int,
            t,
        ) > 0 implies exists|j: int| 0 <= j < result@.len() && result@[j].0 == t by {
        assert(totals@[t] > 0);
    }
    result
}

/// `p` is the payout of the pots to `hands`: (seat, amount) in seat order,
/// one entry for each seat that wins something, with what that seat wins.
pub open spec fn pays_out(
    hands: Seq<(u8, EvaluatedHand)>,
    main_pot: int,
    side_pots: Seq<SidePot>,
    count: int,
    p: Seq<(u8, u64)>,
) -> bool {
    &&& pairs_total(p) == paid_out(hands, main_pot, side_pots, count)
    &&& forall|j: int| 0 <= j < p.len() ==> (#[trigger] p[j]).0 < MAX_PLAYERS && p[j].1 > 0
    &&& forall|j: int, k: int| 0 <= j < k < p.len() ==> p[j].0 < p[k].0
    &&& forall|j: int| 0 <= j < p.len() ==> seat_in(hands, (#[trigger] p[j]).0)
    &&& forall|j: int|
        0 <= j < p.len() ==> (#[trigger] p[j]).1 == winnings_of(hands, main_pot, side_pots, count, p[j].0 as int)
    &&& forall|t: int|
        0 <= t < MAX_PLAYERS && #[trigger] winnings_of(hands, main_pot, side_pots, count, t) > 0
            ==> exists|j: int| 0 <= j < p.len() && p[j].0 == t
}

/// What the first `n` entries of a payout give seat `t`.
pub open spec fn pair_share(p: Seq<(u8, u64)>, t: int, n: int) -> int
    decreases n,
{
    if n <= 0 {
        0
    } else {
        pair_share(p, t, n - 1) + if p[n - 1].0 == t {
            p[n - 1].1 as int
        } else {
            0
        }
    }
}

proof fn lemma_seat_share_nonneg(ties: Seq<(u8, EvaluatedHand)>, amount: int, t: int, n: int)
    requires
        amount >= 0,
        n <= ties.len(),
    ensures
        seat_share(ties, amount, t, n) >= 0,
    decreases n,
{
    if n > 0 {
        lemma_seat_share_nonneg(ties, amount, t, n - 1);
        assert(amount / (ties.len() as int) >= 0 && amount % (ties.len() as int) >= 0) by (nonlinear_arith)
            requires
                amount >= 0,
                ties.len() > 0,
        ;
    }
}

proof fn lemma_winnings_nonneg(hands: Seq<(u8, EvaluatedHand)>, main_pot: int, side_pots: Seq<SidePot>, count: int, t: int)
    requires
        main_pot >= 0,
    ensures
        winnings_of(hands, main_pot, side_pots, count, t) >= 0,
        side_winnings(hands, side_pots, count, t) >= 0,
    decreases count,
{
    if count > 0 {
        lemma_winnings_nonneg(hands, main_pot, side_pots, count - 1, t);
        let e = eligible_entries(hands, side_pots[count - 1].eligible_players@, hands.len() as int);
        if e.len() > 0 {
            lemma_tied_len(e);
            lemma_seat_share_nonneg(pot_winners(e), side_pots[count - 1].amount as int, t, pot_winners(e).len() as int);
        }
    }
    if hands.len() > 0 {
        lemma_tied_len(hands);
        lemma_seat_share_nonneg(pot_winners(hands), main_pot, t, pot_winners(hands).len() as int);
    }
}

proof fn lemma_tied_len(hands: Seq<(u8, EvaluatedHand)>)
    ensures
        pot_winners(hands).len() <= hands.len(),
{
    lemma_tied_from(hands, choose|b: Seq<int>| is_best_value(hands, b), hands.len() as int);
}

proof fn lemma_pair_share_prefix(p: Seq<(u8, u64)>, t: int, n: int, w: int)
    requires
        0 <= n <= p.len(),
        forall|j: int, k: int| 0 <= j < k < p.len() ==> p[j].0 < p[k].0,
        forall|j: int| 0 <= j < p.len() && p[j].0 == t ==> p[j].1 == w,
    ensures
        (exists|j: int| 0 <= j < n && p[j].0 == t) ==> pair_share(p, t, n) == w,
        !(exists|j: int| 0 <= j < n && p[j].0 == t) ==> pair_share(p, t, n) == 0,
    decreases n,
{
    if n > 0 {
        lemma_pair_share_prefix(p, t, n - 1, w);
        if p[n - 1].0 == t {
            assert(!(exists|j: int| 0 <= j < n - 1 && p[j].0 == t));
        } else {
            if exists|j: int| 0 <= j < n && p[j].0 == t {
                let j = choose|j: int| 0 <= j < n && p[j].0 == t;
                assert(j < n - 1);
            }
        }
    }
}

/// Each seat gets exactly its winnings from a payout.
proof fn lemma_payout_per_seat(
    hands: Seq<(u8, EvaluatedHand)>,
    main_pot: int,
    side_pots: Seq<SidePot>,
    count: int,
    p: Seq<(u8, u64)>,
    t: int,
)
    requires
        pays_out(hands, main_pot, side_pots, count, p),
        main_pot >= 0,
        0 <= t < MAX_PLAYERS,
    ensures
        pair_share(p, t, p.len() as int) == winnings_of(hands, main_pot, side_pots, count, t),
{
    let w = winnings_of(hands, main_pot, side_pots, count, t);
    lemma_pair_share_prefix(p, t, p.len() as int, w);
    lemma_winnings_nonneg(hands, main_pot, side_pots, count, t);
}

/// Evaluates each contender's best hand from its hole cards and the board,
/// then pays out the pots.
pub fn evaluate_and_determine_winners(
    player_hole_cards: &Vec<(u8, [Card; 2])>,
    community_cards: &[Card; 5],
    main_pot: u64,
    side_pots: &[SidePot; MAX_SIDE_POTS],
    side_pot_count: u8,
) -> (r: Result<Vec<(u8, u64)>, PokerError>)
    requires
        side_pot_count <= MAX_SIDE_POTS,
        main_pot + crate::pot::side_pot_total(side_pots@, side_pot_count as int) <= u64::MAX,
        forall|i: int|
            0 <= i < player_hole_cards@.len() ==> (#[trigger] player_hole_cards@[i]).0 < MAX_PLAYERS,
    ensures
        r matches Ok(p) && exists|hands: Seq<(u8, EvaluatedHand)>|
            #[trigger] hands.len() == player_hole_cards@.len() && (forall|i: int|
                0 <= i < hands.len() ==> (#[trigger] hands[i]).0 == player_hole_cards@[i].0
                    && is_best_of_seven(
                    player_hole_cards@[i].1@ + community_cards@,
                    hands[i].1.key(),
                )) && pays_out(hands, main_pot as int, side_pots@, side_pot_count as int, p@)
            && (forall|j: int| 0 <= j < p@.len() ==> exists|k: int| 0 <= k < player_hole_cards@.len() && (#[trigger] p@[j]).0 == player_hole_cards@[k].0),
{
    let mut evaluated_hands: Vec<(u8, EvaluatedHand)> = Vec::new();
    let mut i: usize = 0;
    while i < player_hole_cards.len()
        invariant
            i <= player_hole_cards@.len(),
            evaluated_hands@.len() == i,
            forall|k: int|
                0 <= k < i ==> (#[trigger] evaluated_hands@[k]).0 == player_hole_cards@[k].0
                    && is_best_of_seven(
                    player_hole_cards@[k].1@ + community_cards@,
                    evaluated_hands@[k].1.key(),
                ),
        decreases player_hole_cards@.len() - i,
    {
        let (seat, hole) = player_hole_cards[i];
        let hand = match evaluate_best_hand(&hole, community_cards) {
            Ok(h) => h,
            Err(e) => return Err(e),
        };
        evaluated_hands.push((seat, hand));
        i = i + 1;
    }
    let winners = determine_all_winners(&evaluated_hands, main_pot, side_pots, side_pot_count);
    assert forall|j: int| 0 <= j < winners@.len() implies exists|k: int| 0 <= k < player_hole_cards@.len() && (#[trigger] winners@[j]).0 == player_hole_cards@[k].0 by {
        assert(seat_in(evaluated_hands@, winners@[j].0));
        let k = choose|k: int| 0 <= k < evaluated_hands@.len() && (#[trigger] evaluated_hands@[k]).0 == winners@[j].0;
        assert(player_hole_cards@[k].0 == winners@[j].0);
    }
    Ok(winners)
}

/// Adds each winner's amount to its seat's stack and empties the pot.
/// Refuses, changing nothing, to pay out more than the pot holds.
pub fn distribute_winnings(
    game: &mut Game,
    player_states: &mut Vec<PlayerState>,
    winners: &Vec<(u8, u64)>,
) -> (r: Result<(), PokerError>)
    requires
        old(game).wf(),
        stacks_total(old(player_states)@) + old(game).pot <= u64::MAX,
        forall|j: int| 0 <= j < winners@.len() ==> (#[trigger] winners@[j]).0 < old(player_states)@.len(),
    ensures
        pairs_total(winners@) > old(game).pot ==> r == Err::<(), PokerError>(
            PokerError::InvalidGameConfig,
        ) && *final(game) == *old(game) && final(player_states)@ == old(player_states)@,
        pairs_total(winners@) <= old(game).pot ==> {
            &&& r is Ok
            &&& *final(game) == (Game { pot: 0, round_bets: final(game).round_bets, ..*old(game) })
            &&& forall|i: int| 0 <= i < MAX_PLAYERS ==> #[trigger] final(game).round_bets@[i] == 0
            &&& stacks_total(final(player_states)@) == stacks_total(old(player_states)@)
                + pairs_total(winners@)
            &&& final(player_states)@.len() == old(player_states)@.len()
            &&& forall|t: int|
                0 <= t < old(player_states)@.len() ==> #[trigger] final(player_states)@[t] == (PlayerState {
                    chip_stack: (old(player_states)@[t].chip_stack + pair_share(
                        winners@,
                        t,
                        winners@.len() as int,
                    )) as u64,
                    ..old(player_states)@[t]
                })
        },
{
    let mut total: u128 = 0;
    let mut j: usize = 0;
    while j < winners.len()
        invariant
            j <= winners@.len(),
            total as int == pairs_total(winners@.subrange(0, j as int)),
        decreases winners@.len() - j,
    {
        assert(winners@.subrange(0, j as int + 1).drop_last() =~= winners@.subrange(0, j as int));
        if total > game.pot as u128 {
            proof {
                lemma_pairs_prefix(winners@, j as int);
            }
            return Err(PokerError::InvalidGameConfig);
        }
        total = total + winners[j].1 as u128;
        j = j + 1;
    }
    assert(winners@.subrange(0, winners@.len() as int) =~= winners@);
    if total > game.pot as u128 {
        return Err(PokerError::InvalidGameConfig);
    }
    let ghost start = player_states@;
    let mut j: usize = 0;
    while j < winners.len()
        invariant
            j <= winners@.len(),
            player_states@.len() == start.len(),
            stacks_total(start) + game.pot <= u64::MAX,
            pairs_total(winners@) <= game.pot,
            *game == *old(game),
            start == old(player_states)@,
            forall|k: int| 0 <= k < winners@.len() ==> (#[trigger] winners@[k]).0 < start.len(),
            stacks_total(player_states@) == stacks_total(start) + pairs_total(winners@.subrange(0, j as int)),
            forall|t: int|
                0 <= t < start.len() ==> #[trigger] player_states@[t] == (PlayerState {
                    chip_stack: (start[t].chip_stack + pair_share(winners@, t, j as int)) as u64,
                    ..start[t]
                }),
        decreases winners@.len() - j,
    {
        let (seat, amount) = winners[j];
        let seat = seat as usize;
        proof {
            lemma_pairs_prefix(winners@, j as int + 1);
            assert(winners@.subrange(0, j as int + 1).drop_last() =~= winners@.subrange(0, j as int));
            crate::betting::lemma_two_stacks_one(player_states@, seat as int);
        }
        let mut ps = player_states[seat];
        ps.add_winnings(amount);
        let ghost before = player_states@;
        player_states.set(seat, ps);
        proof {
            crate::betting::lemma_stacks_update(before, seat as int, ps);
            lemma_pair_share_bound(winners@, seat as int, j as int);
            assert forall|t: int|
                0 <= t < start.len() implies #[trigger] player_states@[t] == (PlayerState {
                    chip_stack: (start[t].chip_stack + pair_share(winners@, t, j as int + 1)) as u64,
                    ..start[t]
                }) by {
                if t == seat as int {
                    crate::betting::lemma_two_stacks_one(start, t);
                    lemma_pair_share_bound(winners@, t, j as int + 1);
                    lemma_pair_share_bound(winners@, t, j as int);
                    lemma_pairs_prefix(winners@, j as int + 1);
                    assert(player_states@[t] == ps);
                } else {
                    assert(player_states@[t] == before[t]);
                }
            }
        }
        j = j + 1;
    }
    assert(winners@.subrange(0, winners@.len() as int) =~= winners@);
    game.pot = 0;
    game.round_bets = [0;MAX_PLAYERS];
    Ok(())
}

proof fn lemma_pair_share_bound(p: Seq<(u8, u64)>, t: int, n: int)
    requires
        0 <= n <= p.len(),
    ensures
        0 <= pair_share(p, t, n) <= pairs_total(p.subrange(0, n)),
    decreases n,
{
    if n > 0 {
        lemma_pair_share_bound(p, t, n - 1);
        assert(p.subrange(0, n).drop_last() =~= p.subrange(0, n - 1));
    }
}

proof fn lemma_pairs_prefix(p: Seq<(u8, u64)>, j: int)
    requires
        0 <= j <= p.len(),
    ensures
        0 <= pairs_total(p.subrange(0, j)) <= pairs_total(p),
    decreases p.len(),
{
    if p.len() > 0 {
        if j == p.len() {
            assert(p.subrange(0, j) =~= p);
            lemma_pairs_prefix(p.drop_last(), j - 1);
        } else {
            assert(p.drop_last().subrange(0, j) =~= p.subrange(0, j));
            lemma_pairs_prefix(p.drop_last(), j);
        }
    }
}

/// Key material whose first byte is `key`.
fn key_material(key: u8) -> (r: [u8; 32])
    ensures
        r@[0] == key,
{
    let mut k = [0u8;32];
    k[0] = key;
    k
}

/// Reveals a seat's two hole cards in showdown mode.
pub fn reveal_player_cards(player_state: &PlayerState, session_id: [u8; 32], requester: Pubkey) -> (r: Result<[Card; 2], PokerError>)
    ensures
        (player_state.hole_card(0) >= 52 || player_state.hole_card(1) >= 52)
            ==> r is Err,
        (player_state.hole_card(0) < 52 && player_state.hole_card(1) < 52)
            ==> (r matches Ok(c) && card_index(c@[0]) == (*player_state).hole_card(0) as int
            && card_index(c@[1]) == (*player_state).hole_card(1) as int),
{
    let first = EncryptedCard {
        encrypted_index: player_state.encrypted_hole_cards[0],
        key_shard: key_material(player_state.hole_card_keys[0]),
        owner: player_state.player,
    };
    let c0 = mpc_reveal_card(RevealParams { encrypted_card: first, requester, session_id, is_showdown: true })?;
    let second = EncryptedCard {
        encrypted_index: player_state.encrypted_hole_cards[1],
        key_shard: key_material(player_state.hole_card_keys[1]),
        owner: player_state.player,
    };
    let c1 = mpc_reveal_card(RevealParams { encrypted_card: second, requester, session_id, is_showdown: true })?;
    Ok([c0, c1])
}

/// Folds at showdown without showing the cards.
pub fn handle_muck(player_state: &mut PlayerState, now: i64) -> (r: Result<(), PokerError>)
    ensures
        r is Ok,
        *final(player_state) == (PlayerState {
            has_folded: true,
            status: crate::types::PlayerStatus::Folded,
            last_action_at: now,
            ..*old(player_state)
        }),
{
    player_state.fold(now);
    Ok(())
}

/// Seats still contesting the pot at showdown: in the hand and not folded.
pub open spec fn contends(g: Game, seats: Seq<PlayerState>, i: int) -> bool {
    g.active_players@[i] && !seats[i].has_folded
}

/// A showdown can go through: the table is at showdown, every contender's
/// hole cards and every board card open to a card, and the pots hold no
/// more than the table's pot.
pub open spec fn showdown_ready(g: Game, seats: Seq<PlayerState>, pots: PotManager) -> bool {
    &&& g.stage == GameStage::Showdown
    &&& forall|i: int|
        0 <= i < g.player_count && #[trigger] contends(g, seats, i) ==> seats[i].hole_card(0) < 52
            && seats[i].hole_card(1) < 52
    &&& forall|j: int| 0 <= j < 5 ==> #[trigger] g.community_cards@[j] < 52
    &&& pots.total() <= g.pot
}

/// The pots pay out no more than they hold.
proof fn lemma_paid_out_bound(hands: Seq<(u8, EvaluatedHand)>, main_pot: int, side_pots: Seq<SidePot>, count: int)
    requires
        main_pot >= 0,
    ensures
        paid_out(hands, main_pot, side_pots, count) <= main_pot + crate::pot::side_pot_total(side_pots, count),
    decreases count,
{
    if count > 0 {
        lemma_paid_out_bound(hands, main_pot, side_pots, count - 1);
    }
}

/// Seats among the first `n` still contesting the pot, in seat order.
pub open spec fn contender_seats(g: Game, seats: Seq<PlayerState>, n: int) -> Seq<u8>
    decreases n,
{
    if n <= 0 {
        Seq::empty()
    } else {
        let rest = contender_seats(g, seats, n - 1);
        if g.active_players@[n - 1] && !seats[n - 1].has_folded {
            rest.push((n - 1) as u8)
        } else {
            rest
        }
    }
}

/// What a showdown did: `hands` are the contenders' best hands, in seat
/// order, made from their revealed hole cards `holes` and the board
/// `board`, and the stacks grew by what the pots pay out to them.
pub open spec fn showdown_outcome(
    g: Game,
    before: Seq<PlayerState>,
    after: Seq<PlayerState>,
    pots: PotManager,
    hands: Seq<(u8, EvaluatedHand)>,
    holes: Seq<[Card; 2]>,
    board: Seq<Card>,
) -> bool {
    let seats = contender_seats(g, before, g.player_count as int);
    &&& hands.len() == seats.len()
    &&& holes.len() == seats.len()
    &&& board.len() == 5
    &&& forall|j: int| 0 <= j < 5 ==> card_index(#[trigger] board[j]) == g.community_cards@[j]
    &&& forall|k: int|
        0 <= k < seats.len() ==> {
            &&& (#[trigger] hands[k]).0 == seats[k]
            &&& card_index(holes[k]@[0]) == (before[seats[k] as int]).hole_card(0) as int
            &&& card_index(holes[k]@[1]) == (before[seats[k] as int]).hole_card(1) as int
            &&& is_best_of_seven(holes[k]@ + board, hands[k].1.key())
        }
    &&& stacks_total(after) == stacks_total(before) + paid_out(
        hands,
        pots.main_pot as int,
        pots.side_pots@,
        pots.side_pot_count as int,
    )
    &&& after.len() == before.len()
    &&& forall|t: int|
        0 <= t < before.len() ==> #[trigger] after[t] == (PlayerState {
            chip_stack: (before[t].chip_stack + winnings_of(
                hands,
                pots.main_pot as int,
                pots.side_pots@,
                pots.side_pot_count as int,
                t,
            )) as u64,
            ..before[t]
        })
}

/// Showdown: every seat still in reveals its hole cards, the best hands win
/// the pots of `pot_manager`, the winnings go to the stacks and the hand is
/// over. Fails, changing nothing, outside the showdown stage, on a card that
/// cannot be opened, or when the pots hold more than the table's pot.
pub fn handle_showdown(
    game: &mut Game,
    player_states: &mut Vec<PlayerState>,
    pot_manager: &PotManager,
) -> (r: Result<(), PokerError>)
    requires
        old(game).wf(),
        old(player_states)@.len() == old(game).player_count,
        stacks_total(old(player_states)@) + old(game).pot <= u64::MAX,
        pot_manager.side_pot_count <= MAX_SIDE_POTS,
        pot_manager.total() <= u64::MAX,
    ensures
        final(game).wf(),
        r is Err ==> *final(game) == *old(game) && final(player_states)@ == old(player_states)@,
        old(game).stage != GameStage::Showdown ==> r == Err::<(), PokerError>(
            PokerError::InvalidGameStage,
        ),
        showdown_ready(*old(game), old(player_states)@, *pot_manager) ==> r is Ok,
        r is Ok ==> {
            &&& old(game).stage == GameStage::Showdown
            &&& final(game).stage == GameStage::Finished
            &&& final(game).pot == 0
            &&& stacks_total(old(player_states)@) <= stacks_total(final(player_states)@)
            &&& stacks_total(final(player_states)@) <= stacks_total(old(player_states)@) + old(
                game,
            ).pot
            &&& exists|hands: Seq<(u8, EvaluatedHand)>, holes: Seq<[Card; 2]>, board: Seq<Card>|
                #[trigger] showdown_outcome(
                    *old(game),
                    old(player_states)@,
                    final(player_states)@,
                    *pot_manager,
                    hands,
                    holes,
                    board,
                )
        },
{
    if game.stage != GameStage::Showdown {
        return Err(PokerError::InvalidGameStage);
    }
    let mut player_hole_cards: Vec<(u8, [Card; 2])> = Vec::new();
    let mut i: usize = 0;
    while i < game.player_count as usize
        invariant
            i <= game.player_count <= MAX_PLAYERS,
            player_states@.len() == game.player_count,
            *game == *old(game),
            game.wf(),
            player_states@ == old(player_states)@,
            game.stage == GameStage::Showdown,
            forall|k: int| 0 <= k < player_hole_cards@.len() ==> (#[trigger] player_hole_cards@[k]).0 < i,
            player_hole_cards@.len() == contender_seats(*game, player_states@, i as int).len(),
            forall|k: int|
                0 <= k < player_hole_cards@.len() ==> {
                    let seat = contender_seats(*game, player_states@, i as int)[k];
                    &&& (#[trigger] player_hole_cards@[k]).0 == seat
                    &&& card_index(player_hole_cards@[k].1@[0]) == (player_states@[seat as int]).hole_card(0) as int
                    &&& card_index(player_hole_cards@[k].1@[1]) == (player_states@[seat as int]).hole_card(1) as int
                },
        decreases game.player_count - i,
    {
        if game.active_players[i] && !player_states[i].has_folded {
            let ps = player_states[i];
            assert(contends(*old(game), old(player_states)@, i as int));
            let hole_cards = reveal_player_cards(&ps, game.shuffle_session_id, ps.player)?;
            let ghost before = player_hole_cards@;
            player_hole_cards.push((i as u8, hole_cards));
            proof {
                let cs = contender_seats(*game, player_states@, i as int + 1);
                assert(cs == contender_seats(*game, player_states@, i as int).push(i as u8));
                assert forall|k: int| 0 <= k < player_hole_cards@.len() implies {
                    let seat = cs[k];
                    &&& (#[trigger] player_hole_cards@[k]).0 == seat
                    &&& card_index(player_hole_cards@[k].1@[0]) == (player_states@[seat as int]).hole_card(0) as int
                    &&& card_index(player_hole_cards@[k].1@[1]) == (player_states@[seat as int]).hole_card(1) as int
                } by {
                    if k < before.len() {
                        assert(player_hole_cards@[k] == before[k]);
                    }
                }
            }
        }
        i = i + 1;
    }
    let mut community_cards = [Card { suit: crate::types::Suit::Hearts, rank: crate::types::Rank::Two };5];
    let mut k: usize = 0;
    while k < 5
        invariant
            k <= 5,
            *game == *old(game),
            game.wf(),
            player_states@ == old(player_states)@,
            game.stage == GameStage::Showdown,
            player_states@.len() == game.player_count,
            forall|j: int| 0 <= j < player_hole_cards@.len() ==> (#[trigger] player_hole_cards@[j]).0 < game.player_count,
            forall|j: int| 0 <= j < k ==> card_index(#[trigger] community_cards@[j]) == game.community_cards@[j],
        decreases 5 - k,
    {
        community_cards[k] = Card::from_index(game.community_cards[k])?;
        k = k + 1;
    }
    let winners = evaluate_and_determine_winners(
        &player_hole_cards,
        &community_cards,
        pot_manager.main_pot,
        &pot_manager.side_pots,
        pot_manager.side_pot_count,
    )?;
    assert forall|j: int| 0 <= j < winners@.len() implies (#[trigger] winners@[j]).0 < player_states@.len() by {
        let k = choose|k: int| 0 <= k < player_hole_cards@.len() && (#[trigger] winners@[j]).0 == player_hole_cards@[k].0;
        assert(player_hole_cards@[k].0 < game.player_count);
    }
    proof {
        lemma_pairs_prefix(winners@, 0);
    }
    let ghost hands = choose|hands: Seq<(u8, EvaluatedHand)>|
        #[trigger] hands.len() == player_hole_cards@.len() && (forall|i: int|
            0 <= i < hands.len() ==> (#[trigger] hands[i]).0 == player_hole_cards@[i].0
                && is_best_of_seven(player_hole_cards@[i].1@ + community_cards@, hands[i].1.key()))
            && pays_out(
            hands,
            pot_manager.main_pot as int,
            pot_manager.side_pots@,
            pot_manager.side_pot_count as int,
            winners@,
        );
    let ghost holes = player_hole_cards@.map_values(|e: (u8, [Card; 2])| e.1);
    let ghost board = community_cards@;
    let ghost before_states = player_states@;
    proof {
        lemma_paid_out_bound(
            hands,
            pot_manager.main_pot as int,
            pot_manager.side_pots@,
            pot_manager.side_pot_count as int,
        );
    }
    distribute_winnings(game, player_states, &winners)?;
    game.stage = GameStage::Finished;
    proof {
        assert forall|t: int| 0 <= t < before_states.len() implies pair_share(winners@, t, winners@.len() as int)
            == winnings_of(hands, pot_manager.main_pot as int, pot_manager.side_pots@, pot_manager.side_pot_count as int, t) by {
            lemma_payout_per_seat(hands, pot_manager.main_pot as int, pot_manager.side_pots@, pot_manager.side_pot_count as int, winners@, t);
        }
    }
    assert(showdown_outcome(*old(game), before_states, player_states@, *pot_manager, hands, holes, board));
    Ok(())
}

/// Pays the whole pot to the last seat in the hand once everyone else has
/// folded; no cards are revealed. Returns that seat.
pub fn settle_uncontested_pot(game: &mut Game, player_states: &mut Vec<PlayerState>) -> (r: Result<u8, PokerError>)
    requires
        old(game).wf(),
        old(player_states)@.len() == old(game).player_count,
        stacks_total(old(player_states)@) + old(game).pot <= u64::MAX,
    ensures
        final(game).wf(),
        r is Err ==> *final(game) == *old(game) && final(player_states)@ == old(player_states)@,
        old(game).stage != GameStage::Finished ==> r == Err::<u8, PokerError>(
            PokerError::InvalidGameStage,
        ),
        old(game).stage == GameStage::Finished && count_marked(
            old(game).active_players@,
            old(game).player_count as int,
        ) != 1 ==> r == Err::<u8, PokerError>(PokerError::InvalidAction),
        old(game).stage == GameStage::Finished && count_marked(
            old(game).active_players@,
            old(game).player_count as int,
        ) == 1 ==> (r matches Ok(w) && w < old(game).player_count && old(game).active_players@[w as int]
            && final(game).pot == 0 && final(game).stage == GameStage::Finished
            && *final(game) == (Game { pot: 0, round_bets: final(game).round_bets, ..*old(game) })
            && final(player_states)@ == old(player_states)@.update(
            w as int,
            PlayerState {
                chip_stack: (old(player_states)@[w as int].chip_stack + old(game).pot) as u64,
                ..old(player_states)@[w as int]
            },
        )),
{
    if game.stage != GameStage::Finished {
        return Err(PokerError::InvalidGameStage);
    }
    let mut count: usize = 0;
    let mut winner: usize = 0;
    let mut i: usize = 0;
    while i < game.player_count as usize
        invariant
            i <= game.player_count <= MAX_PLAYERS,
            count as int == count_marked(game.active_players@, i as int),
            count <= i,
            count >= 1 ==> winner < i && game.active_players@[winner as int],
            count == 1 ==> forall|j: int| 0 <= j < i && j != winner ==> !#[trigger] game.active_players@[j],
            count == 0 ==> forall|j: int| 0 <= j < i ==> !#[trigger] game.active_players@[j],
        decreases game.player_count - i,
    {
        if game.active_players[i] {
            count = count + 1;
            winner = i;
        }
        i = i + 1;
    }
    if count != 1 {
        return Err(PokerError::InvalidAction);
    }
    proof {
        crate::betting::lemma_two_stacks_one(player_states@, winner as int);
    }
    let mut ps = player_states[winner];
    ps.add_winnings(game.pot);
    player_states.set(winner, ps);
    game.pot = 0;
    game.round_bets = [0;MAX_PLAYERS];
    Ok(winner as u8)
}

/// House fee on a pot: `rake_percentage` percent, at most 3,000,000.
pub fn calculate_rake(pot_amount: u64, rake_percentage: u8) -> (r: u64)
    ensures
        r as int == if (pot_amount as int * rake_percentage as int) / 100 <= 3_000_000 {
            (pot_amount as int * rake_percentage as int) / 100
        } else {
            3_000_000
        },
{
    assert(pot_amount as u128 * rake_percentage as u128 <= u128::MAX) by (nonlinear_arith)
        requires
            pot_amount <= u64::MAX,
            rake_percentage <= 255,
    ;
    let rake: u128 = (pot_amount as u128 * rake_percentage as u128) / 100;
    if rake <= 3_000_000 {
        rake as u64
    } else {
        3_000_000
    }
}

/// Calls off the hand after a protocol failure: every seat gets back what
/// it bet this hand, the pot is emptied and the hand is over.
pub fn abort_hand(game: &mut Game, player_states: &mut Vec<PlayerState>) -> (r: Result<(), PokerError>)
    requires
        old(game).wf(),
        forall|i: int| 0 <= i < old(player_states)@.len() ==> (#[trigger] old(player_states)@[i]).wf(),
    ensures
        r is Ok,
        final(game).wf(),
        *final(game) == (Game {
            stage: GameStage::Finished,
            pot: 0,
            round_bets: final(game).round_bets,
            ..*old(game)
        }),
        final(player_states)@.len() == old(player_states)@.len(),
        forall|i: int|
            0 <= i < final(player_states)@.len() ==> (#[trigger] final(player_states)@[i]) == (PlayerState {
                chip_stack: (old(player_states)@[i].chip_stack + old(player_states)@[i].total_bet_this_hand) as u64,
                total_bet_this_hand: 0,
                current_bet: 0,
                ..old(player_states)@[i]
            }),
        owned_total(final(player_states)@) == owned_total(old(player_states)@),
{
    let ghost start = player_states@;
    let mut i: usize = 0;
    while i < player_states.len()
        invariant
            i <= player_states@.len() == start.len(),
            start == old(player_states)@,
            forall|k: int| 0 <= k < start.len() ==> (#[trigger] start[k]).wf(),
            forall|k: int|
                0 <= k < i ==> (#[trigger] player_states@[k]) == (PlayerState {
                    chip_stack: (start[k].chip_stack + start[k].total_bet_this_hand) as u64,
                    total_bet_this_hand: 0,
                    current_bet: 0,
                    ..start[k]
                }),
            forall|k: int| i <= k < start.len() ==> #[trigger] player_states@[k] == start[k],
            owned_total(player_states@) == owned_total(start),
        decreases start.len() - i,
    {
        let mut ps = player_states[i];
        ps.chip_stack = ps.chip_stack + ps.total_bet_this_hand;
        ps.total_bet_this_hand = 0;
        ps.current_bet = 0;
        let ghost before = player_states@;
        player_states.set(i, ps);
        proof {
            crate::betting::lemma_owned_update(before, i as int, ps);
        }
        i = i + 1;
    }
    game.pot = 0;
    game.round_bets = [0;MAX_PLAYERS];
    game.stage = GameStage::Finished;
    Ok(())
}

/// Two seats holding hands of exactly equal value split a pot evenly, the
/// odd chip going to the lower seat, whichever order they are listed in.
pub proof fn lemma_equal_hands_split(hands: Seq<(u8, EvaluatedHand)>, amount: int)
    requires
        hands.len() == 2,
        hands[0].0 < hands[1].0,
        hands[0].1.key() == hands[1].1.key(),
        amount >= 0,
    ensures
        pot_winners(hands) == hands,
        pot_share(hands, amount, hands[0].0 as int) == amount / 2 + amount % 2,
        pot_share(hands, amount, hands[1].0 as int) == amount / 2,
{
    let b = hands[0].1.key();
    if lex_gt(b, b) {
        crate::evaluator::lemma_lex_gt_asymmetric(b, b);
    }
    assert(is_best_value(hands, b));
    let c = choose|c: Seq<int>| is_best_value(hands, c);
    lemma_best_value_unique(hands, b, c);
    assert(tied_at(hands, c, 0) =~= Seq::<(u8, EvaluatedHand)>::empty());
    assert(tied_at(hands, c, 1) =~= seq![hands[0]]);
    assert(tied_at(hands, c, 2) =~= hands);
    let s0 = hands[0].0 as int;
    let s1 = hands[1].0 as int;
    assert(seat_share(hands, amount, s0, 0) == 0);
    assert(seat_share(hands, amount, s1, 0) == 0);
    assert(lowest_seat_pos(hands, 1) == 0);
    assert(lowest_seat_pos(hands, 2) == 0);
    assert(seat_share(hands, amount, s0, 1) == share_of(amount, 2, 0));
    assert(seat_share(hands, amount, s0, 2) == share_of(amount, 2, 0));
    assert(seat_share(hands, amount, s1, 1) == 0);
    assert(seat_share(hands, amount, s1, 2) == share_of(amount, 2, 1));
}

} // verus!
