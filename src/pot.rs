use vstd::prelude::*;
use crate::constants::MAX_PLAYERS;
use crate::error::PokerError;

verus! {

/// Most side pots a hand can need: one per seat.
pub const MAX_SIDE_POTS: usize = 6;

// ---------------------------------------------------------------------------
// What the pots of a round are
// ---------------------------------------------------------------------------

/// Sum of the first `n` contributions.
pub open spec fn contribution_total(c: Seq<u64>, n: int) -> int
    decreases n,
{
    if n <= 0 {
        0
    } else {
        contribution_total(c, n - 1) + c[n - 1]
    }
}

/// Smallest all-in contribution above `prev` among the first `n` seats; 0
/// where there is none.
pub open spec fn next_level(c: Seq<u64>, all_in: Seq<bool>, prev: int, n: int) -> int
    decreases n,
{
    if n <= 0 {
        0
    } else {
        let m = next_level(c, all_in, prev, n - 1);
        if all_in[n - 1] && c[n - 1] > prev && (m == 0 || c[n - 1] < m) {
            c[n - 1] as int
        } else {
            m
        }
    }
}

/// Whether seat `i`, among the first `n`, may win a pot at `level`: it is
/// still in the hand and put in at least that much.
pub open spec fn eligible_at(c: Seq<u64>, active: Seq<bool>, level: int, n: int) -> Seq<bool> {
    Seq::new(MAX_PLAYERS as nat, |i: int| i < n && active[i] && c[i] >= level)
}

/// How many of the first `n` seats may win a pot at `level`.
pub open spec fn eligible_count(c: Seq<u64>, active: Seq<bool>, level: int, n: int) -> int
    decreases n,
{
    if n <= 0 {
        0
    } else {
        eligible_count(c, active, level, n - 1) + if active[n - 1] && c[n - 1] >= level {
            1int
        } else {
            0int
        }
    }
}

/// The side pots above contribution level `prev`, lowest level first, as
/// (amount, number of eligible seats, eligible seats). Each distinct all-in
/// level makes one pot: the step from the level below it times the seats
/// still in that put in at least that level. A level no such seat reached
/// makes no pot.
pub open spec fn side_pots_above(
    c: Seq<u64>,
    all_in: Seq<bool>,
    active: Seq<bool>,
    prev: int,
    n: int,
) -> Seq<(int, int, Seq<bool>)>
    decreases u64::MAX - prev,
{
    let next = next_level(c, all_in, prev, n);
    if next <= prev || next > u64::MAX {
        Seq::empty()
    } else {
        let count = eligible_count(c, active, next, n);
        let rest = side_pots_above(c, all_in, active, next, n);
        if count > 0 {
            seq![((next - prev) * count, count, eligible_at(c, active, next, n))] + rest
        } else {
            rest
        }
    }
}

/// The highest all-in contribution level reached from `prev` upward.
pub open spec fn highest_level(c: Seq<u64>, all_in: Seq<bool>, prev: int, n: int) -> int
    decreases u64::MAX - prev,
{
    let next = next_level(c, all_in, prev, n);
    if next <= prev || next > u64::MAX {
        prev
    } else {
        highest_level(c, all_in, next, n)
    }
}

/// What the seats still in put in above `top`.
pub open spec fn excess_above(c: Seq<u64>, active: Seq<bool>, top: int, n: int) -> int
    decreases n,
{
    if n <= 0 {
        0
    } else {
        excess_above(c, active, top, n - 1) + if active[n - 1] && c[n - 1] > top {
            c[n - 1] - top
        } else {
            0
        }
    }
}

/// How many of the first `n` seats are all in for more than `prev`.
pub open spec fn all_in_above(c: Seq<u64>, all_in: Seq<bool>, prev: int, n: int) -> int
    decreases n,
{
    if n <= 0 {
        0
    } else {
        all_in_above(c, all_in, prev, n - 1) + if all_in[n - 1] && c[n - 1] > prev {
            1int
        } else {
            0int
        }
    }
}

// ---------------------------------------------------------------------------
// Lemmas on pots
// ---------------------------------------------------------------------------

proof fn lemma_next_level_shape(c: Seq<u64>, all_in: Seq<bool>, prev: int, n: int)
    requires
        0 <= n <= c.len(),
        n <= all_in.len(),
    ensures
        next_level(c, all_in, prev, n) == 0 || (next_level(c, all_in, prev, n) > prev
            && next_level(c, all_in, prev, n) <= u64::MAX),
    decreases n,
{
    if n > 0 {
        lemma_next_level_shape(c, all_in, prev, n - 1);
    }
}

proof fn lemma_all_in_above_monotone(c: Seq<u64>, all_in: Seq<bool>, x: int, y: int, n: int)
    requires
        x >= y,
    ensures
        all_in_above(c, all_in, x, n) <= all_in_above(c, all_in, y, n),
        0 <= all_in_above(c, all_in, x, n) <= if n < 0 { 0 } else { n },
    decreases n,
{
    if n > 0 {
        lemma_all_in_above_monotone(c, all_in, x, y, n - 1);
    }
}

proof fn lemma_next_level_shrinks(c: Seq<u64>, all_in: Seq<bool>, prev: int, n: int)
    requires
        prev >= 0,
        next_level(c, all_in, prev, n) > prev,
    ensures
        all_in_above(c, all_in, next_level(c, all_in, prev, n), n) + 1 <= all_in_above(
            c,
            all_in,
            prev,
            n,
        ),
    decreases n,
{
    if n > 0 {
        let m = next_level(c, all_in, prev, n - 1);
        let next = next_level(c, all_in, prev, n);
        if all_in[n - 1] && c[n - 1] > prev && (m == 0 || c[n - 1] < m) {
            lemma_all_in_above_monotone(c, all_in, next, prev, n - 1);
        } else {
            lemma_next_level_shrinks(c, all_in, prev, n - 1);
        }
    }
}

proof fn lemma_side_pots_len(c: Seq<u64>, all_in: Seq<bool>, active: Seq<bool>, prev: int, n: int)
    requires
        prev >= 0,
    ensures
        side_pots_above(c, all_in, active, prev, n).len() <= all_in_above(c, all_in, prev, n),
    decreases u64::MAX - prev,
{
    let next = next_level(c, all_in, prev, n);
    if !(next <= prev || next > u64::MAX) {
        lemma_side_pots_len(c, all_in, active, next, n);
        lemma_next_level_shrinks(c, all_in, prev, n);
    } else {
        lemma_all_in_above_monotone(c, all_in, prev, prev, n);
    }
}

proof fn lemma_eligible_count_bound(c: Seq<u64>, active: Seq<bool>, level: int, n: int)
    requires
        level >= 0,
        n <= c.len(),
    ensures
        0 <= eligible_count(c, active, level, n) <= if n < 0 { 0 } else { n },
        eligible_count(c, active, level, n) * level <= contribution_total(c, n),
        contribution_total(c, n) >= 0,
    decreases n,
{
    if n > 0 {
        lemma_eligible_count_bound(c, active, level, n - 1);
        let k = eligible_count(c, active, level, n - 1);
        assert((k + 1) * level == k * level + level) by (nonlinear_arith);
    }
}

proof fn lemma_excess_bound(c: Seq<u64>, active: Seq<bool>, top: int, n: int)
    requires
        top >= 0,
        n <= c.len(),
    ensures
        0 <= excess_above(c, active, top, n) <= contribution_total(c, n),
    decreases n,
{
    if n > 0 {
        lemma_excess_bound(c, active, top, n - 1);
    }
}

// ---------------------------------------------------------------------------
// Side pots and the pot manager
// ---------------------------------------------------------------------------

/// A pot that only some seats can win.
#[derive(Clone, Copy, Debug)]
pub struct SidePot {
    pub amount: u64,
    /// Seats that may win it.
    pub eligible_players: [bool; MAX_PLAYERS],
    /// How many seats may win it.
    pub player_count: u8,
}

/// Number of seats marked in `e` below `n`.
pub open spec fn marked_count(e: Seq<bool>, n: int) -> int
    decreases n,
{
    if n <= 0 {
        0
    } else {
        marked_count(e, n - 1) + if e[n - 1] {
            1int
        } else {
            0int
        }
    }
}

impl SidePot {
    /// `player_count` counts the eligible seats.
    pub open spec fn wf(&self) -> bool {
        self.player_count as int == marked_count(self.eligible_players@, MAX_PLAYERS as int)
    }

    pub fn new(amount: u64) -> (r: SidePot)
        ensures
            r.wf(),
            r.amount == amount,
            r.player_count == 0,
            forall|i: int| 0 <= i < MAX_PLAYERS ==> !#[trigger] r.eligible_players@[i],
    {
        let r = SidePot { amount, eligible_players: [false;MAX_PLAYERS], player_count: 0 };
        proof {
            lemma_marked_count_none(r.eligible_players@, MAX_PLAYERS as int);
        }
        r
    }

    /// Marks a seat as eligible; a seat marked already counts once.
    pub fn add_eligible_player(&mut self, seat_index: usize)
        requires
            old(self).wf(),
            seat_index < MAX_PLAYERS,
        ensures
            final(self).wf(),
            final(self).amount == old(self).amount,
            final(self).eligible_players@ == old(self).eligible_players@.update(
                seat_index as int,
                true,
            ),
    {
        if !self.eligible_players[seat_index] {
            proof {
                lemma_marked_count_set(
                    self.eligible_players@,
                    seat_index as int,
                    MAX_PLAYERS as int,
                );
                lemma_marked_count_bound(self.eligible_players@, MAX_PLAYERS as int);
            }
            self.eligible_players[seat_index] = true;
            self.player_count = self.player_count + 1;
        } else {
            assert(self.eligible_players@.update(seat_index as int, true) =~= self.eligible_players@);
        }
    }

    pub fn is_eligible(&self, seat_index: usize) -> (r: bool)
        requires
            seat_index < MAX_PLAYERS,
        ensures
            r == self.eligible_players@[seat_index as int],
    {
        self.eligible_players[seat_index]
    }
}

impl Default for SidePot {
    fn default() -> (r: SidePot)
        ensures
            r.wf(),
            r.amount == 0,
            r.player_count == 0,
            forall|i: int| 0 <= i < MAX_PLAYERS ==> !#[trigger] r.eligible_players@[i],
    {
        SidePot::new(0)
    }
}

proof fn lemma_marked_count_none(e: Seq<bool>, n: int)
    requires
        forall|i: int| 0 <= i < n ==> !#[trigger] e[i],
    ensures
        marked_count(e, n) == 0,
    decreases n,
{
    if n > 0 {
        lemma_marked_count_none(e, n - 1);
    }
}

proof fn lemma_marked_count_bound(e: Seq<bool>, n: int)
    ensures
        0 <= marked_count(e, n) <= if n < 0 { 0 } else { n },
    decreases n,
{
    if n > 0 {
        lemma_marked_count_bound(e, n - 1);
    }
}

proof fn lemma_marked_count_set(e: Seq<bool>, k: int, n: int)
    requires
        0 <= k < e.len(),
        !e[k],
        n <= e.len(),
    ensures
        marked_count(e.update(k, true), n) == marked_count(e, n) + if k < n {
            1int
        } else {
            0int
        },
    decreases n,
{
    if n > 0 {
        lemma_marked_count_set(e, k, n - 1);
    }
}

proof fn lemma_marked_eligible(c: Seq<u64>, active: Seq<bool>, level: int, n: int, m: int)
    requires
        0 <= m <= n <= MAX_PLAYERS,
    ensures
        marked_count(eligible_at(c, active, level, n), m) == eligible_count(c, active, level, m),
    decreases m,
{
    if m > 0 {
        lemma_marked_eligible(c, active, level, n, m - 1);
    }
}

proof fn lemma_marked_count_tail(e: Seq<bool>, n: int, m: int)
    requires
        0 <= n <= m <= e.len(),
        forall|k: int| n <= k < e.len() ==> !#[trigger] e[k],
    ensures
        marked_count(e, m) == marked_count(e, n),
    decreases m,
{
    if m > n {
        lemma_marked_count_tail(e, n, m - 1);
    }
}

proof fn lemma_total_monotone(c: Seq<u64>, a: int, b: int)
    requires
        0 <= a <= b <= c.len(),
    ensures
        contribution_total(c, a) <= contribution_total(c, b),
    decreases b,
{
    if b > a {
        lemma_total_monotone(c, a, b - 1);
    }
}

/// A side pot as (amount, number of eligible seats, eligible seats).
pub open spec fn pot_view(p: SidePot) -> (int, int, Seq<bool>) {
    (p.amount as int, p.player_count as int, p.eligible_players@)
}

/// Whether any of the six seats is marked.
pub open spec fn any_marked(e: Seq<bool>) -> bool {
    exists|i: int| 0 <= i < MAX_PLAYERS && #[trigger] e[i]
}

/// Main pot and side pots of a hand, with what each seat put in this round.
#[derive(Clone, Copy, Debug)]
pub struct PotManager {
    pub main_pot: u64,
    /// Side pots for all-in seats, lowest level first.
    pub side_pots: [SidePot; MAX_SIDE_POTS],
    /// How many of `side_pots` are in use.
    pub side_pot_count: u8,
    /// What each seat put in this round.
    pub player_contributions: [u64; MAX_PLAYERS],
}

/// Sum of the amounts of the first `k` side pots.
pub open spec fn side_pot_total(pots: Seq<SidePot>, k: int) -> int
    decreases k,
{
    if k <= 0 {
        0
    } else {
        side_pot_total(pots, k - 1) + pots[k - 1].amount
    }
}

impl PotManager {
    /// Everything in the pots: the main pot and every side pot in use.
    pub open spec fn total(&self) -> int {
        self.main_pot + side_pot_total(self.side_pots@, self.side_pot_count as int)
    }

    /// Side pots in use, as (amount, eligible count, eligible seats).
    pub open spec fn pots(&self) -> Seq<(int, int, Seq<bool>)> {
        Seq::new(self.side_pot_count as nat, |j: int| pot_view(self.side_pots@[j]))
    }

    pub fn new() -> (r: PotManager)
        ensures
            r.main_pot == 0,
            r.side_pot_count == 0,
            forall|i: int| 0 <= i < MAX_PLAYERS ==> #[trigger] r.player_contributions@[i] == 0,
    {
        let empty = SidePot::new(0);
        PotManager {
            main_pot: 0,
            side_pots: [empty;MAX_SIDE_POTS],
            side_pot_count: 0,
            player_contributions: [0;MAX_PLAYERS],
        }
    }

    /// Records a bet: the seat's contribution and the main pot both grow by
    /// `amount`.
    pub fn add_bet(&mut self, seat_index: usize, amount: u64)
        requires
            seat_index < MAX_PLAYERS,
            old(self).player_contributions@[seat_index as int] + amount <= u64::MAX,
            old(self).main_pot + amount <= u64::MAX,
        ensures
            final(self).player_contributions@ == old(self).player_contributions@.update(
                seat_index as int,
                (old(self).player_contributions@[seat_index as int] + amount) as u64,
            ),
            final(self).main_pot == old(self).main_pot + amount,
            final(self).side_pots == old(self).side_pots,
            final(self).side_pot_count == old(self).side_pot_count,
    {
        self.player_contributions[seat_index] = self.player_contributions[seat_index] + amount;
        self.main_pot = self.main_pot + amount;
    }

    fn next_all_in_level(&self, player_count: usize, all_in_players: &[bool; MAX_PLAYERS], prev: u64) -> (r: u64)
        requires
            player_count <= MAX_PLAYERS,
        ensures
            r as int == next_level(
                self.player_contributions@,
                all_in_players@,
                prev as int,
                player_count as int,
            ),
    {
        let mut best: u64 = 0;
        let mut i: usize = 0;
        while i < player_count
            invariant
                i <= player_count <= MAX_PLAYERS,
                best as int == next_level(
                    self.player_contributions@,
                    all_in_players@,
                    prev as int,
                    i as int,
                ),
            decreases player_count - i,
        {
            let c = self.player_contributions[i];
            if all_in_players[i] && c > prev && (best == 0 || c < best) {
                best = c;
            }
            i = i + 1;
        }
        best
    }

    /// Splits this round's contributions into side pots, one per distinct
    /// all-in level from the lowest up, and a main pot of what the seats
    /// still in put in above the highest all-in level. With no all-in seat
    /// the main pot stays as it is.
    pub fn calculate_side_pots(
        &mut self,
        player_count: usize,
        all_in_players: &[bool; MAX_PLAYERS],
        active_players: &[bool; MAX_PLAYERS],
    ) -> (r: Result<(), PokerError>)
        requires
            player_count <= MAX_PLAYERS,
            contribution_total(old(self).player_contributions@, player_count as int) <= u64::MAX,
        ensures
            r is Ok,
            final(self).player_contributions == old(self).player_contributions,
            !any_marked(all_in_players@) ==> {
                &&& final(self).main_pot == old(self).main_pot
                &&& final(self).side_pot_count == 0
            },
            any_marked(all_in_players@) ==> {
                &&& final(self).pots() == side_pots_above(
                    old(self).player_contributions@,
                    all_in_players@,
                    active_players@,
                    0,
                    player_count as int,
                )
                &&& final(self).main_pot == excess_above(
                    old(self).player_contributions@,
                    active_players@,
                    highest_level(
                        old(self).player_contributions@,
                        all_in_players@,
                        0,
                        player_count as int,
                    ),
                    player_count as int,
                )
            },
            forall|j: int|
                final(self).side_pot_count <= j < MAX_SIDE_POTS ==> (
                #[trigger] final(self).side_pots@[j]).amount == 0,
    {
        let ghost c = self.player_contributions@;
        let ghost ai = all_in_players@;
        let ghost ac = active_players@;
        let ghost n = player_count as int;
        let empty = SidePot::new(0);
        self.side_pots = [empty;MAX_SIDE_POTS];
        self.side_pot_count = 0;
        let mut any = false;
        let mut k: usize = 0;
        while k < MAX_PLAYERS
            invariant
                k <= MAX_PLAYERS,
                any <==> exists|i: int| 0 <= i < k && #[trigger] ai[i],
                ai == all_in_players@,
            decreases MAX_PLAYERS - k,
        {
            if all_in_players[k] {
                any = true;
            }
            k = k + 1;
        }
        if !any {
            return Ok(());
        }
        let ghost all_pots = side_pots_above(c, ai, ac, 0, n);
        proof {
            lemma_side_pots_len(c, ai, ac, 0, n);
            lemma_all_in_above_monotone(c, ai, 0, 0, n);
        }
        let mut prev: u64 = 0;
        loop
            invariant
                player_count <= MAX_PLAYERS,
                n == player_count as int,
                c == self.player_contributions@,
                ai == all_in_players@,
                ac == active_players@,
                contribution_total(c, n) <= u64::MAX,
                all_pots == side_pots_above(c, ai, ac, 0, n),
                all_pots.len() <= MAX_SIDE_POTS,
                self.side_pot_count <= MAX_SIDE_POTS,
                all_pots =~= Seq::new(self.side_pot_count as nat, |j: int| pot_view(self.side_pots@[j]))
                    + side_pots_above(c, ai, ac, prev as int, n),
                highest_level(c, ai, 0, n) == highest_level(c, ai, prev as int, n),
                forall|j: int|
                    self.side_pot_count <= j < MAX_SIDE_POTS ==> (#[trigger] self.side_pots@[j]).amount
                        == 0,
            ensures
                self.pots() == all_pots,
                highest_level(c, ai, 0, n) == prev as int,
            decreases u64::MAX - prev,
        {
            let next = self.next_all_in_level(player_count, all_in_players, prev);
            proof {
                lemma_next_level_shape(c, ai, prev as int, n);
            }
            if next == 0 {
                assert(side_pots_above(c, ai, ac, prev as int, n) =~= Seq::empty());
                assert(highest_level(c, ai, prev as int, n) == prev as int);
                assert(self.pots() =~= all_pots);
                break;
            }
            let level_contribution = next - prev;
            let mut pot_amount: u64 = 0;
            let mut side_pot = SidePot::new(0);
            let mut i: usize = 0;
            while i < player_count
                invariant
                    i <= player_count <= MAX_PLAYERS,
                    n == player_count as int,
                    c == self.player_contributions@,
                    ac == active_players@,
                    contribution_total(c, n) <= u64::MAX,
                    0 < level_contribution <= next,
                    side_pot.wf(),
                    side_pot.amount == 0,
                    pot_amount as int == level_contribution * eligible_count(c, ac, next as int, i as int),
                    side_pot.eligible_players@ =~= Seq::new(
                        MAX_PLAYERS as nat,
                        |k: int| k < i && ac[k] && c[k] >= next,
                    ),
                decreases player_count - i,
            {
                if active_players[i] && self.player_contributions[i] >= next {
                    proof {
                        let e = eligible_count(c, ac, next as int, i as int);
                        lemma_eligible_count_bound(c, ac, next as int, i as int);
                        lemma_eligible_count_bound(c, ac, next as int, i as int + 1);
                        lemma_total_monotone(c, i as int + 1, n);
                        assert(eligible_count(c, ac, next as int, i as int + 1) == e + 1);
                        assert(level_contribution * (e + 1) <= (e + 1) * next) by (nonlinear_arith)
                            requires
                                level_contribution <= next,
                                e >= 0,
                        ;
                        assert(level_contribution * (e + 1) == level_contribution * e
                            + level_contribution) by (nonlinear_arith);
                    }
                    pot_amount = pot_amount + level_contribution;
                    side_pot.add_eligible_player(i);
                }
                i = i + 1;
            }
            let ghost count = eligible_count(c, ac, next as int, n);
            proof {
                lemma_marked_eligible(c, ac, next as int, n, n);
                lemma_marked_count_tail(side_pot.eligible_players@, n, MAX_PLAYERS as int);
                assert(side_pot.eligible_players@ =~= eligible_at(c, ac, next as int, n));
                lemma_eligible_count_bound(c, ac, next as int, n);
                lemma_side_pots_len(c, ai, ac, prev as int, n);
            }
            if pot_amount > 0 {
                assert(count > 0) by (nonlinear_arith)
                    requires
                        pot_amount as int == level_contribution * count,
                        pot_amount > 0,
                        level_contribution > 0,
                ;
                side_pot.amount = pot_amount;
                self.side_pots[self.side_pot_count as usize] = side_pot;
                self.side_pot_count = self.side_pot_count + 1;
            } else {
                assert(count == 0) by (nonlinear_arith)
                    requires
                        pot_amount as int == level_contribution * count,
                        pot_amount == 0,
                        level_contribution > 0,
                        count >= 0,
                ;
            }
            prev = next;
        }
        let mut main_pot_amount: u64 = 0;
        let mut i: usize = 0;
        while i < player_count
            invariant
                i <= player_count <= MAX_PLAYERS,
                n == player_count as int,
                c == self.player_contributions@,
                ac == active_players@,
                contribution_total(c, n) <= u64::MAX,
                main_pot_amount as int == excess_above(c, ac, prev as int, i as int),
                self.pots() == all_pots,
                ai == all_in_players@,
                all_pots == side_pots_above(c, ai, ac, 0, n),
                highest_level(c, ai, 0, n) == prev as int,
                forall|j: int|
                    self.side_pot_count <= j < MAX_SIDE_POTS ==> (#[trigger] self.side_pots@[j]).amount
                        == 0,
            decreases player_count - i,
        {
            proof {
                lemma_excess_bound(c, ac, prev as int, i as int + 1);
                lemma_total_monotone(c, i as int + 1, n);
            }
            if active_players[i] && self.player_contributions[i] > prev {
                main_pot_amount = main_pot_amount + (self.player_contributions[i] - prev);
            }
            i = i + 1;
        }
        self.main_pot = main_pot_amount;
        Ok(())
    }

    /// The main pot plus every side pot in use.
    pub fn get_total_pot(&self) -> (r: u64)
        requires
            self.side_pot_count <= MAX_SIDE_POTS,
            self.total() <= u64::MAX,
        ensures
            r as int == self.total(),
    {
        let mut total = self.main_pot;
        let mut i: usize = 0;
        while i < self.side_pot_count as usize
            invariant
                i <= self.side_pot_count <= MAX_SIDE_POTS,
                self.total() <= u64::MAX,
                total as int == self.main_pot + side_pot_total(self.side_pots@, i as int),
            decreases self.side_pot_count - i,
        {
            proof {
                lemma_side_pot_total_monotone(self.side_pots@, i as int + 1, self.side_pot_count as int);
            }
            total = total + self.side_pots[i].amount;
            i = i + 1;
        }
        total
    }

    /// Clears the round's contributions; the pots stay.
    pub fn reset_for_new_round(&mut self)
        ensures
            final(self).main_pot == old(self).main_pot,
            final(self).side_pots == old(self).side_pots,
            final(self).side_pot_count == old(self).side_pot_count,
            forall|i: int| 0 <= i < MAX_PLAYERS ==> #[trigger] final(self).player_contributions@[i] == 0,
    {
        self.player_contributions = [0;MAX_PLAYERS];
    }

    /// Empties every pot and contribution.
    pub fn reset_for_new_hand(&mut self)
        ensures
            final(self).main_pot == 0,
            final(self).side_pot_count == 0,
            forall|i: int| 0 <= i < MAX_PLAYERS ==> #[trigger] final(self).player_contributions@[i] == 0,
    {
        let empty = SidePot::new(0);
        self.main_pot = 0;
        self.side_pots = [empty;MAX_SIDE_POTS];
        self.side_pot_count = 0;
        self.player_contributions = [0;MAX_PLAYERS];
    }
}

pub(crate) proof fn lemma_side_pot_total_monotone(pots: Seq<SidePot>, a: int, b: int)
    requires
        0 <= a <= b <= pots.len(),
    ensures
        side_pot_total(pots, a) <= side_pot_total(pots, b),
    decreases b,
{
    if b > a {
        lemma_side_pot_total_monotone(pots, a, b - 1);
    }
}

/// The four betting rounds of a hand.
#[derive(Clone, Copy, Debug, PartialEq, Eq, Structural)]
pub enum BettingRound {
    PreFlop,
    Flop,
    Turn,
    River,
}

/// One seat's betting record for a hand.
#[derive(Clone, Copy, Debug, PartialEq, Eq, Structural)]
pub struct PlayerBetAction {
    pub current_round_bet: u64,
    pub total_hand_bet: u64,
    pub has_acted: bool,
    pub has_folded: bool,
    pub is_all_in: bool,
}

impl PlayerBetAction {
    /// A new round: nothing bet in it and not yet acted.
    pub fn reset_for_new_round(&mut self)
        ensures
            *final(self) == (PlayerBetAction {
                current_round_bet: 0,
                has_acted: false,
                ..*old(self)
            }),
    {
        self.current_round_bet = 0;
        self.has_acted = false;
    }

    /// A new hand: every field back to its start.
    pub fn reset_for_new_hand(&mut self)
        ensures
            *final(self) == (PlayerBetAction {
                current_round_bet: 0,
                total_hand_bet: 0,
                has_acted: false,
                has_folded: false,
                is_all_in: false,
            }),
    {
        self.current_round_bet = 0;
        self.total_hand_bet = 0;
        self.has_acted = false;
        self.has_folded = false;
        self.is_all_in = false;
    }
}

impl Default for PlayerBetAction {
    fn default() -> (r: PlayerBetAction)
        ensures
            r == (PlayerBetAction {
                current_round_bet: 0,
                total_hand_bet: 0,
                has_acted: false,
                has_folded: false,
                is_all_in: false,
            }),
    {
        PlayerBetAction {
            current_round_bet: 0,
            total_hand_bet: 0,
            has_acted: false,
            has_folded: false,
            is_all_in: false,
        }
    }
}

} // verus!
