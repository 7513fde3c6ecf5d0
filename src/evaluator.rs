use vstd::prelude::*;
use crate::deck::Card;
use crate::error::PokerError;
use crate::types::HandRank;

verus! {

// ---------------------------------------------------------------------------
// What a hand is worth
// ---------------------------------------------------------------------------

/// How many of `cards` have pip value `v`.
pub open spec fn rank_count(cards: Seq<Card>, v: int) -> nat
    decreases cards.len(),
{
    if cards.len() == 0 {
        0
    } else {
        rank_count(cards.drop_last(), v) + if cards.last().rank.spec_value() == v {
            1nat
        } else {
            0nat
        }
    }
}

/// Histogram of pip values, indexed 0 to 14.
pub open spec fn rank_counts(cards: Seq<Card>) -> Seq<int> {
    Seq::new(15, |v: int| rank_count(cards, v) as int)
}

pub open spec fn as_ints(s: Seq<u8>) -> Seq<int> {
    s.map_values(|x: u8| x as int)
}

/// All cards share the suit of the first.
pub open spec fn all_same_suit(cards: Seq<Card>) -> bool {
    forall|i: int| 0 <= i < cards.len() ==> #[trigger] cards[i].suit == cards[0].suit
}

/// Ranks `top - 4` to `top` are all present.
pub open spec fn has_run(counts: Seq<int>, top: int) -> bool {
    &&& counts[top] >= 1
    &&& counts[top - 1] >= 1
    &&& counts[top - 2] >= 1
    &&& counts[top - 3] >= 1
    &&& counts[top - 4] >= 1
}

/// Ace, deuce, three, four and five are all present.
pub open spec fn has_wheel(counts: Seq<int>) -> bool {
    &&& counts[14] >= 1
    &&& counts[2] >= 1
    &&& counts[3] >= 1
    &&& counts[4] >= 1
    &&& counts[5] >= 1
}

/// Highest straight whose top card is at most `top`, the wheel counting as
/// five-high; 0 where there is none.
pub open spec fn straight_from(counts: Seq<int>, top: int) -> int
    decreases top,
{
    if top < 6 {
        if has_wheel(counts) {
            5
        } else {
            0
        }
    } else if has_run(counts, top) {
        top
    } else {
        straight_from(counts, top - 1)
    }
}

/// Top card of the best straight; 0 where there is none.
pub open spec fn straight_high(counts: Seq<int>) -> int {
    straight_from(counts, 14)
}

/// Highest pip value, at most `from`, that occurs exactly `n` times; 0 where
/// there is none.
pub open spec fn top_with_count(counts: Seq<int>, n: int, from: int) -> int
    decreases from,
{
    if from < 2 {
        0
    } else if counts[from] == n {
        from
    } else {
        top_with_count(counts, n, from - 1)
    }
}

/// The pip values above `r`, highest first, each as often as it occurs.
pub open spec fn ranks_above(counts: Seq<int>, r: int) -> Seq<int>
    decreases 14 - r,
{
    if r >= 14 {
        Seq::empty()
    } else {
        ranks_above(counts, r + 1) + Seq::new(counts[r + 1] as nat, |_i: int| r + 1)
    }
}

/// The five highest pip values, highest first, padded with zeros.
pub open spec fn kickers_of(counts: Seq<int>) -> Seq<int> {
    let s = ranks_above(counts, 1);
    Seq::new(5, |i: int| if i < s.len() { s[i] } else { 0 })
}

pub open spec fn key_of(rank: int, primary: int, secondary: int, k: Seq<int>) -> Seq<int> {
    seq![rank, primary, secondary, k[0], k[1], k[2], k[3], k[4]]
}

pub open spec fn zeros() -> Seq<int> {
    seq![0, 0, 0, 0, 0]
}

pub open spec fn single(x: int) -> Seq<int> {
    seq![x, 0, 0, 0, 0]
}

/// Value of a five-card hand as the tuple (category, primary value,
/// secondary value, five kickers); a larger tuple is a stronger hand.
pub open spec fn hand_value(cards: Seq<Card>) -> Seq<int> {
    let c = rank_counts(cards);
    let flush = all_same_suit(cards);
    let sh = straight_high(c);
    let quad = top_with_count(c, 4, 14);
    let trips = top_with_count(c, 3, 14);
    let pair = top_with_count(c, 2, 14);
    let low_pair = top_with_count(c, 2, pair - 1);
    let odd = top_with_count(c, 1, 14);
    let all = kickers_of(c);
    if flush && sh > 0 {
        if sh == 14 {
            key_of(9, 14, 0, seq![14, 13, 12, 11, 10])
        } else {
            key_of(8, sh, 0, all)
        }
    } else if quad > 0 {
        key_of(7, quad, 0, single(odd))
    } else if trips > 0 && pair > 0 {
        key_of(6, trips, pair, zeros())
    } else if flush {
        key_of(5, all[0], 0, all)
    } else if sh > 0 {
        key_of(4, sh, 0, zeros())
    } else if trips > 0 {
        key_of(3, trips, 0, kickers_of(c.update(trips, 0)))
    } else if pair > 0 && low_pair > 0 {
        key_of(2, pair, low_pair, single(odd))
    } else if pair > 0 {
        key_of(1, pair, 0, kickers_of(c.update(pair, 0)))
    } else {
        key_of(0, all[0], 0, all)
    }
}

/// `a` is larger than `b` in the first place where they differ.
pub open spec fn lex_gt(a: Seq<int>, b: Seq<int>) -> bool {
    exists|i: int|
        #![trigger a[i], b[i]]
        0 <= i < a.len() && i < b.len() && a[i] > b[i] && forall|j: int|
            0 <= j < i ==> a[j] == b[j]
}

// ---------------------------------------------------------------------------
// Evaluated hands and their order
// ---------------------------------------------------------------------------

/// A hand's category with the values that break ties inside it.
#[derive(Clone, Copy, Debug, Eq)]
pub struct EvaluatedHand {
    pub rank: HandRank,
    /// Quad, trips or pair rank, or the top card of a straight or flush.
    pub primary_value: u8,
    /// Pair of a full house, or lower pair of two pair.
    pub secondary_value: u8,
    /// Remaining cards, highest first, padded with zeros.
    pub kickers: [u8; 5],
}

/// Order of two hands: the stronger is `Greater`; equal values split a pot.
pub open spec fn hand_order(a: Seq<int>, b: Seq<int>) -> core::cmp::Ordering {
    if lex_gt(a, b) {
        core::cmp::Ordering::Greater
    } else if lex_gt(b, a) {
        core::cmp::Ordering::Less
    } else {
        core::cmp::Ordering::Equal
    }
}

impl EvaluatedHand {
    /// The hand as a tuple: category, primary, secondary, kickers.
    pub open spec fn key(self) -> Seq<int> {
        key_of(
            self.rank.spec_value(),
            self.primary_value as int,
            self.secondary_value as int,
            as_ints(self.kickers@),
        )
    }

    pub fn new(rank: HandRank, primary: u8, secondary: u8, kickers: [u8; 5]) -> (r: Self)
        ensures
            r.rank == rank,
            r.primary_value == primary,
            r.secondary_value == secondary,
            r.kickers == kickers,
    {
        EvaluatedHand { rank, primary_value: primary, secondary_value: secondary, kickers }
    }

    fn key_array(&self) -> (r: [u8; 8])
        ensures
            as_ints(r@) == self.key(),
    {
        let r = [
            self.rank.value(),
            self.primary_value,
            self.secondary_value,
            self.kickers[0],
            self.kickers[1],
            self.kickers[2],
            self.kickers[3],
            self.kickers[4],
        ];
        assert(as_ints(r@) =~= self.key());
        r
    }

    /// Compares two hands: category first, then primary and secondary values,
    /// then kickers in turn.
    pub fn compare(&self, other: &Self) -> (r: core::cmp::Ordering)
        ensures
            r == hand_order(self.key(), other.key()),
            r == core::cmp::Ordering::Equal <==> self.key() == other.key(),
    {
        proof {
            lemma_hand_order_total(*self, *other, *other);
        }
        let a = self.key_array();
        let b = other.key_array();
        let ghost ka = self.key();
        let ghost kb = other.key();
        let mut i: usize = 0;
        while i < 8
            invariant
                i <= 8,
                ka == as_ints(a@),
                kb == as_ints(b@),
                ka == self.key(),
                kb == other.key(),
                ka.len() == 8,
                kb.len() == 8,
                forall|j: int| 0 <= j < i ==> ka[j] == kb[j],
            decreases 8 - i,
        {
            if a[i] > b[i] {
                assert(ka[i as int] > kb[i as int]);
                assert(lex_gt(ka, kb));
                proof {
                    lemma_lex_gt_asymmetric(ka, kb);
                }
                return core::cmp::Ordering::Greater;
            }
            if a[i] < b[i] {
                assert(kb[i as int] > ka[i as int]);
                assert(lex_gt(kb, ka));
                proof {
                    lemma_lex_gt_asymmetric(kb, ka);
                }
                return core::cmp::Ordering::Less;
            }
            i = i + 1;
        }
        assert(!lex_gt(ka, kb));
        assert(!lex_gt(kb, ka));
        core::cmp::Ordering::Equal
    }
}

impl PartialEq for EvaluatedHand {
    fn eq(&self, other: &Self) -> (r: bool) {
        match self.compare(other) {
            core::cmp::Ordering::Equal => true,
            _ => false,
        }
    }
}

impl vstd::std_specs::cmp::PartialEqSpecImpl for EvaluatedHand {
    open spec fn obeys_eq_spec() -> bool {
        true
    }

    open spec fn eq_spec(&self, other: &EvaluatedHand) -> bool {
        self.key() == other.key()
    }
}

impl PartialOrd for EvaluatedHand {
    fn partial_cmp(&self, other: &Self) -> (r: Option<core::cmp::Ordering>) {
        Some(self.compare(other))
    }
}

impl vstd::std_specs::cmp::PartialOrdSpecImpl for EvaluatedHand {
    open spec fn obeys_partial_cmp_spec() -> bool {
        true
    }

    open spec fn partial_cmp_spec(&self, other: &EvaluatedHand) -> Option<core::cmp::Ordering> {
        Some(hand_order(self.key(), other.key()))
    }
}

/// A larger tuple is never also smaller.
pub proof fn lemma_lex_gt_asymmetric(a: Seq<int>, b: Seq<int>)
    requires
        lex_gt(a, b),
    ensures
        !lex_gt(b, a),
{
    let i = choose|i: int|
        #![trigger a[i], b[i]]
        0 <= i < a.len() && i < b.len() && a[i] > b[i] && forall|j: int| 0 <= j < i ==> a[j] == b[j];
    if lex_gt(b, a) {
        let k = choose|k: int|
            #![trigger b[k], a[k]]
            0 <= k < b.len() && k < a.len() && b[k] > a[k] && forall|j: int| 0 <= j < k ==> b[j] == a[j];
        if k < i {
            assert(a[k] == b[k]);
        } else if i < k {
            assert(b[i] == a[i]);
        }
    }
}

/// The order of tuples is transitive.
pub proof fn lemma_lex_gt_transitive(a: Seq<int>, b: Seq<int>, c: Seq<int>)
    requires
        lex_gt(a, b),
        lex_gt(b, c),
    ensures
        lex_gt(a, c),
{
    let i = choose|i: int|
        #![trigger a[i], b[i]]
        0 <= i < a.len() && i < b.len() && a[i] > b[i] && forall|j: int| 0 <= j < i ==> a[j] == b[j];
    let k = choose|k: int|
        #![trigger b[k], c[k]]
        0 <= k < b.len() && k < c.len() && b[k] > c[k] && forall|j: int| 0 <= j < k ==> b[j] == c[j];
    let m = if i < k {
        i
    } else {
        k
    };
    assert(a[m] > c[m]);
    assert(forall|j: int| 0 <= j < m ==> a[j] == c[j]);
}

/// Two tuples of one length that differ are ordered one way or the other.
pub proof fn lemma_lex_total(a: Seq<int>, b: Seq<int>, from: int)
    requires
        a.len() == b.len(),
        0 <= from <= a.len(),
        forall|j: int| 0 <= j < from ==> a[j] == b[j],
        a != b,
    ensures
        lex_gt(a, b) || lex_gt(b, a),
    decreases a.len() - from,
{
    if from == a.len() {
        assert(a =~= b);
    } else if a[from] > b[from] {
        assert(lex_gt(a, b));
    } else if b[from] > a[from] {
        assert(lex_gt(b, a));
    } else {
        lemma_lex_total(a, b, from + 1);
    }
}

/// Hands are totally ordered: of two hands exactly one is stronger, unless
/// their values are equal, and a stronger hand beats every hand that the
/// weaker one beats.
pub proof fn lemma_hand_order_total(a: EvaluatedHand, b: EvaluatedHand, c: EvaluatedHand)
    ensures
        hand_order(a.key(), b.key()) == core::cmp::Ordering::Equal <==> a.key() == b.key(),
        hand_order(a.key(), b.key()) == core::cmp::Ordering::Greater <==> hand_order(
            b.key(),
            a.key(),
        ) == core::cmp::Ordering::Less,
        hand_order(a.key(), b.key()) == core::cmp::Ordering::Greater && hand_order(
            b.key(),
            c.key(),
        ) == core::cmp::Ordering::Greater ==> hand_order(a.key(), c.key())
            == core::cmp::Ordering::Greater,
{
    if a.key() != b.key() {
        lemma_lex_total(a.key(), b.key(), 0);
    }
    if a.key() == b.key() {
        if lex_gt(a.key(), b.key()) {
            lemma_lex_gt_asymmetric(a.key(), b.key());
        }
    }
    if lex_gt(a.key(), b.key()) {
        lemma_lex_gt_asymmetric(a.key(), b.key());
    }
    if lex_gt(b.key(), a.key()) {
        lemma_lex_gt_asymmetric(b.key(), a.key());
    }
    if lex_gt(a.key(), b.key()) && lex_gt(b.key(), c.key()) {
        lemma_lex_gt_transitive(a.key(), b.key(), c.key());
    }
}

// ---------------------------------------------------------------------------
// Evaluation
// ---------------------------------------------------------------------------

proof fn lemma_rank_count_bound(cards: Seq<Card>, v: int)
    ensures
        rank_count(cards, v) <= cards.len(),
        (v < 2 || v > 14) ==> rank_count(cards, v) == 0,
    decreases cards.len(),
{
    if cards.len() > 0 {
        lemma_rank_count_bound(cards.drop_last(), v);
    }
}

/// Histogram of the pip values of five cards.
fn count_ranks(cards: &[Card; 5]) -> (counts: [u8; 15])
    ensures
        as_ints(counts@) == rank_counts(cards@),
{
    let mut counts = [0u8;15];
    let mut k: usize = 0;
    while k < 5
        invariant
            k <= 5,
            forall|v: int|
                0 <= v < 15 ==> #[trigger] counts@[v] as int == rank_count(
                    cards@.subrange(0, k as int),
                    v,
                ),
        decreases 5 - k,
    {
        let v = cards[k].rank.value() as usize;
        let ghost pre = cards@.subrange(0, k as int);
        let ghost next = cards@.subrange(0, k as int + 1);
        assert(next.drop_last() =~= pre);
        proof {
            lemma_rank_count_bound(pre, v as int);
        }
        counts[v] = counts[v] + 1;
        assert forall|w: int| 0 <= w < 15 implies #[trigger] counts@[w] as int == rank_count(
            next,
            w,
        ) by {
            assert(next.drop_last() =~= pre);
        }
        k = k + 1;
    }
    assert(cards@.subrange(0, 5) =~= cards@);
    assert(as_ints(counts@) =~= rank_counts(cards@));
    counts
}

/// Whether all five cards share a suit.
fn is_flush(cards: &[Card; 5]) -> (r: bool)
    ensures
        r == all_same_suit(cards@),
{
    let first_suit = cards[0].suit;
    let mut k: usize = 1;
    while k < 5
        invariant
            1 <= k <= 5,
            first_suit == cards@[0].suit,
            forall|i: int| 0 <= i < k ==> #[trigger] cards@[i].suit == cards@[0].suit,
        decreases 5 - k,
    {
        if cards[k].suit != first_suit {
            return false;
        }
        k = k + 1;
    }
    true
}

/// Top card of the best straight in a histogram, the wheel counting as
/// five-high.
fn check_straight(counts: &[u8; 15]) -> (r: Option<u8>)
    ensures
        straight_high(as_ints(counts@)) == 0 ==> r is None,
        straight_high(as_ints(counts@)) > 0 ==> r == Some(
            straight_high(as_ints(counts@)) as u8,
        ),
        straight_high(as_ints(counts@)) <= 14,
{
    let ghost c = as_ints(counts@);
    proof {
        lemma_straight_from_bound(c, 14);
    }
    let mut top: usize = 14;
    while top >= 6
        invariant
            5 <= top <= 14,
            c == as_ints(counts@),
            straight_high(c) == straight_from(c, top as int),
        decreases top,
    {
        if counts[top] >= 1 && counts[top - 1] >= 1 && counts[top - 2] >= 1 && counts[top - 3]
            >= 1 && counts[top - 4] >= 1 {
            return Some(top as u8);
        }
        top = top - 1;
    }
    if counts[14] >= 1 && counts[2] >= 1 && counts[3] >= 1 && counts[4] >= 1 && counts[5] >= 1 {
        Some(5)
    } else {
        None
    }
}

proof fn lemma_straight_from_bound(c: Seq<int>, top: int)
    ensures
        straight_from(c, top) <= if top < 6 { 5 } else { top },
        straight_from(c, top) >= 0,
    decreases top,
{
    if top >= 6 {
        lemma_straight_from_bound(c, top - 1);
    }
}

proof fn lemma_top_with_count_bound(c: Seq<int>, n: int, from: int)
    ensures
        0 <= top_with_count(c, n, from),
        top_with_count(c, n, from) <= if from < 0 { 0 } else { from },
        top_with_count(c, n, from) > 0 ==> top_with_count(c, n, from) >= 2 && c[top_with_count(c, n, from)] == n,
    decreases from,
{
    if from >= 2 {
        lemma_top_with_count_bound(c, n, from - 1);
    }
}

/// Highest pip value, at most `from`, that occurs exactly `n` times; 0 where
/// there is none.
fn highest_with_count(counts: &[u8; 15], n: u8, from: u8) -> (r: u8)
    requires
        from <= 14,
    ensures
        r as int == top_with_count(as_ints(counts@), n as int, from as int),
{
    let ghost c = as_ints(counts@);
    let mut r: u8 = from;
    while r >= 2
        invariant
            r <= from,
            from <= 14,
            c == as_ints(counts@),
            top_with_count(c, n as int, from as int) == top_with_count(c, n as int, r as int),
        decreases r,
    {
        if counts[r as usize] == n {
            return r;
        }
        r = r - 1;
    }
    0
}

/// The five highest pip values in a histogram, with rank `exclude` left out,
/// highest first and padded with zeros.
fn get_kickers(counts: &[u8; 15], exclude: u8) -> (k: [u8; 5])
    requires
        exclude < 15,
        forall|v: int| 0 <= v < 15 ==> counts@[v] <= 5,
    ensures
        as_ints(k@) == kickers_of(as_ints(counts@).update(exclude as int, 0)),
{
    let mut c = *counts;
    c[exclude as usize] = 0;
    let ghost cs = as_ints(counts@).update(exclude as int, 0);
    assert(as_ints(c@) =~= cs);
    let mut kick = [0u8;5];
    let mut idx: usize = 0;
    let mut r: usize = 14;
    while r >= 2
        invariant
            1 <= r <= 14,
            idx <= 5,
            cs == as_ints(c@),
            cs.len() == 15,
            idx as int == if ranks_above(cs, r as int).len() < 5 {
                ranks_above(cs, r as int).len() as int
            } else {
                5
            },
            forall|i: int| 0 <= i < idx ==> #[trigger] kick@[i] as int == ranks_above(cs, r as int)[i],
            forall|i: int| idx <= i < 5 ==> #[trigger] kick@[i] == 0,
        decreases r,
    {
        let n = c[r];
        let ghost t = ranks_above(cs, r as int);
        let ghost rep = Seq::new(cs[r as int] as nat, |_i: int| r as int);
        assert(ranks_above(cs, r as int - 1) == t + rep);
        let mut j: u8 = 0;
        while j < n && idx < 5
            invariant
                j <= n,
                2 <= r <= 14,
                cs.len() == 15,
                n as int == cs[r as int],
                idx <= 5,
                t == ranks_above(cs, r as int),
                rep == Seq::new(cs[r as int] as nat, |_i: int| r as int),
                idx as int == if t.len() + j < 5 {
                    t.len() + j
                } else {
                    5
                },
                forall|i: int| 0 <= i < idx ==> #[trigger] kick@[i] as int == (t + rep)[i],
                forall|i: int| idx <= i < 5 ==> #[trigger] kick@[i] == 0,
            decreases n - j,
        {
            assert((t + rep)[idx as int] == r as int);
            kick[idx] = r as u8;
            idx = idx + 1;
            j = j + 1;
        }
        r = r - 1;
    }
    assert(as_ints(kick@) =~= kickers_of(cs));
    kick
}

/// Four of a kind: the quad rank and the odd card.
fn check_four_of_kind(counts: &[u8; 15]) -> (r: Option<(u8, u8)>)
    ensures
        top_with_count(as_ints(counts@), 4, 14) == 0 ==> r is None,
        top_with_count(as_ints(counts@), 4, 14) > 0 ==> r == Some(
            (
                top_with_count(as_ints(counts@), 4, 14) as u8,
                top_with_count(as_ints(counts@), 1, 14) as u8,
            ),
        ),
{
    proof {
        lemma_top_with_count_bound(as_ints(counts@), 4, 14);
    }
    let quad = highest_with_count(counts, 4, 14);
    if quad > 0 {
        Some((quad, highest_with_count(counts, 1, 14)))
    } else {
        None
    }
}

/// Full house: the trips rank and the pair rank.
fn check_full_house(counts: &[u8; 15]) -> (r: Option<(u8, u8)>)
    ensures
        ({
            let c = as_ints(counts@);
            let t = top_with_count(c, 3, 14);
            let p = top_with_count(c, 2, 14);
            &&& (t > 0 && p > 0) ==> r == Some((t as u8, p as u8))
            &&& !(t > 0 && p > 0) ==> r is None
        }),
{
    let trips = highest_with_count(counts, 3, 14);
    let pair = highest_with_count(counts, 2, 14);
    if trips > 0 && pair > 0 {
        Some((trips, pair))
    } else {
        None
    }
}

/// Three of a kind: the trips rank and the other cards as kickers.
fn check_three_of_kind(counts: &[u8; 15]) -> (r: Option<(u8, [u8; 5])>)
    requires
        forall|v: int| 0 <= v < 15 ==> counts@[v] <= 5,
    ensures
        ({
            let c = as_ints(counts@);
            let t = top_with_count(c, 3, 14);
            &&& t == 0 ==> r is None
            &&& t > 0 ==> (r matches Some((x, k)) && x as int == t && as_ints(k@) == kickers_of(
                c.update(t, 0),
            ))
        }),
{
    proof {
        lemma_top_with_count_bound(as_ints(counts@), 3, 14);
    }
    let trips = highest_with_count(counts, 3, 14);
    if trips > 0 {
        Some((trips, get_kickers(counts, trips)))
    } else {
        None
    }
}

/// Two pair: the higher pair, the lower pair and the odd card.
fn check_two_pair(counts: &[u8; 15]) -> (r: Option<(u8, u8, u8)>)
    ensures
        ({
            let c = as_ints(counts@);
            let p = top_with_count(c, 2, 14);
            let q = top_with_count(c, 2, p - 1);
            &&& (p > 0 && q > 0) ==> r == Some(
                (p as u8, q as u8, top_with_count(c, 1, 14) as u8),
            )
            &&& !(p > 0 && q > 0) ==> r is None
        }),
{
    proof {
        lemma_top_with_count_bound(as_ints(counts@), 2, 14);
    }
    let high = highest_with_count(counts, 2, 14);
    if high < 3 {
        return None;
    }
    let low = highest_with_count(counts, 2, high - 1);
    if low > 0 {
        Some((high, low, highest_with_count(counts, 1, 14)))
    } else {
        None
    }
}

/// One pair: the pair rank and the other cards as kickers.
fn check_one_pair(counts: &[u8; 15]) -> (r: Option<(u8, [u8; 5])>)
    requires
        forall|v: int| 0 <= v < 15 ==> counts@[v] <= 5,
    ensures
        ({
            let c = as_ints(counts@);
            let p = top_with_count(c, 2, 14);
            &&& p == 0 ==> r is None
            &&& p > 0 ==> (r matches Some((x, k)) && x as int == p && as_ints(k@) == kickers_of(
                c.update(p, 0),
            ))
        }),
{
    proof {
        lemma_top_with_count_bound(as_ints(counts@), 2, 14);
    }
    let pair = highest_with_count(counts, 2, 14);
    if pair > 0 {
        Some((pair, get_kickers(counts, pair)))
    } else {
        None
    }
}

/// Evaluates a five-card hand.
pub fn evaluate_hand(cards: &[Card; 5]) -> (r: Result<EvaluatedHand, PokerError>)
    ensures
        r matches Ok(h) && h.key() == hand_value(cards@),
{
    let flush = is_flush(cards);
    let counts = count_ranks(cards);
    let ghost c = rank_counts(cards@);
    proof {
        assert forall|v: int| 0 <= v < 15 implies counts@[v] <= 5 by {
            assert(as_ints(counts@)[v] == c[v]);
            lemma_rank_count_bound(cards@, v);
        }
        lemma_rank_count_bound(cards@, 0);
        assert(c.update(0, 0) =~= c);
        lemma_straight_from_bound(c, 14);
        lemma_top_with_count_bound(c, 4, 14);
        lemma_top_with_count_bound(c, 3, 14);
        lemma_top_with_count_bound(c, 2, 14);
        lemma_top_with_count_bound(c, 1, 14);
        lemma_top_with_count_bound(c, 2, top_with_count(c, 2, 14) - 1);
    }
    let all = get_kickers(&counts, 0);
    let straight = check_straight(&counts);
    let h = if flush && straight.is_some() {
        let high = match straight {
            Some(x) => x,
            None => 0,
        };
        if high == 14 {
            let r = EvaluatedHand::new(HandRank::RoyalFlush, 14, 0, [14, 13, 12, 11, 10]);
            assert(r.key() =~= hand_value(cards@));
            r
        } else {
            let r = EvaluatedHand::new(HandRank::StraightFlush, high, 0, all);
            assert(r.key() =~= hand_value(cards@));
            r
        }
    } else if let Some((quad, odd)) = check_four_of_kind(&counts) {
        let r = EvaluatedHand::new(HandRank::FourOfAKind, quad, 0, [odd, 0, 0, 0, 0]);
        assert(r.key() =~= hand_value(cards@));
        r
    } else if let Some((trips, pair)) = check_full_house(&counts) {
        let r = EvaluatedHand::new(HandRank::FullHouse, trips, pair, [0;5]);
        assert(r.key() =~= hand_value(cards@));
        r
    } else if flush {
        let r = EvaluatedHand::new(HandRank::Flush, all[0], 0, all);
        assert(r.key() =~= hand_value(cards@));
        r
    } else if let Some(high) = straight {
        let r = EvaluatedHand::new(HandRank::Straight, high, 0, [0;5]);
        assert(r.key() =~= hand_value(cards@));
        r
    } else if let Some((trips, kickers)) = check_three_of_kind(&counts) {
        let r = EvaluatedHand::new(HandRank::ThreeOfAKind, trips, 0, kickers);
        assert(r.key() =~= hand_value(cards@));
        r
    } else if let Some((high, low, odd)) = check_two_pair(&counts) {
        let r = EvaluatedHand::new(HandRank::TwoPair, high, low, [odd, 0, 0, 0, 0]);
        assert(r.key() =~= hand_value(cards@));
        r
    } else if let Some((pair, kickers)) = check_one_pair(&counts) {
        let r = EvaluatedHand::new(HandRank::OnePair, pair, 0, kickers);
        assert(r.key() =~= hand_value(cards@));
        r
    } else {
        let r = EvaluatedHand::new(HandRank::HighCard, all[0], 0, all);
        assert(r.key() =~= hand_value(cards@));
        r
    };
    Ok(h)
}

/// Position in the seven cards of the `k`-th card of the five that remain
/// when positions `i` and `j` (with `i < j`) are left out.
pub open spec fn kept_position(i: int, j: int, k: int) -> int {
    if k < i {
        k
    } else if k + 1 < j {
        k + 1
    } else {
        k + 2
    }
}

/// The five of `seven` that remain when positions `i` and `j` are left out.
pub open spec fn five_of(seven: Seq<Card>, i: int, j: int) -> Seq<Card> {
    Seq::new(5, |k: int| seven[kept_position(i, j, k)])
}

/// `best` is worth as much as one of the 21 five-card hands in `seven`, and
/// none of them is worth more.
pub open spec fn is_best_of_seven(seven: Seq<Card>, best: Seq<int>) -> bool {
    &&& exists|i: int, j: int|
        0 <= i < j < 7 && #[trigger] hand_value(five_of(seven, i, j)) == best
    &&& forall|i: int, j: int|
        0 <= i < j < 7 ==> !lex_gt(#[trigger] hand_value(five_of(seven, i, j)), best)
}

/// Evaluates the best five-card hand out of two hole cards and five
/// community cards.
pub fn evaluate_best_hand(hole_cards: &[Card; 2], community_cards: &[Card; 5]) -> (r: Result<
    EvaluatedHand,
    PokerError,
>)
    ensures
        r matches Ok(h) && is_best_of_seven(hole_cards@ + community_cards@, h.key()),
{
    let all_cards: [Card; 7] = [
        hole_cards[0],
        hole_cards[1],
        community_cards[0],
        community_cards[1],
        community_cards[2],
        community_cards[3],
        community_cards[4],
    ];
    let ghost seven = hole_cards@ + community_cards@;
    assert(all_cards@ =~= seven);
    let mut best = EvaluatedHand::new(HandRank::HighCard, 0, 0, [0;5]);
    let mut found = false;
    let mut i: usize = 0;
    while i < 7
        invariant
            i <= 7,
            all_cards@ == seven,
            i > 0 ==> found,
            found ==> exists|a: int, b: int|
                0 <= a < b < 7 && #[trigger] hand_value(five_of(seven, a, b)) == best.key(),
            found ==> forall|a: int, b: int|
                0 <= a < b < 7 && a < i ==> !lex_gt(
                    #[trigger] hand_value(five_of(seven, a, b)),
                    best.key(),
                ),
        decreases 7 - i,
    {
        let mut j: usize = i + 1;
        while j < 7
            invariant
                i < 7,
                i + 1 <= j <= 7,
                all_cards@ == seven,
                j > i + 1 ==> found,
                i > 0 ==> found,
                found ==> exists|a: int, b: int|
                    0 <= a < b < 7 && #[trigger] hand_value(five_of(seven, a, b)) == best.key(),
                found ==> forall|a: int, b: int|
                    0 <= a < b < 7 && (a < i || (a == i && b < j)) ==> !lex_gt(
                        #[trigger] hand_value(five_of(seven, a, b)),
                        best.key(),
                    ),
            decreases 7 - j,
        {
            let mut hand = [all_cards[0];5];
            let mut k: usize = 0;
            while k < 5
                invariant
                    k <= 5,
                    i < j < 7,
                    all_cards@ == seven,
                    forall|m: int|
                        0 <= m < k ==> #[trigger] hand@[m] == seven[kept_position(
                            i as int,
                            j as int,
                            m,
                        )],
                decreases 5 - k,
            {
                let pos = if k < i {
                    k
                } else if k + 1 < j {
                    k + 1
                } else {
                    k + 2
                };
                hand[k] = all_cards[pos];
                k = k + 1;
            }
            assert(hand@ =~= five_of(seven, i as int, j as int));
            let evaluated = match evaluate_hand(&hand) {
                Ok(h) => h,
                Err(e) => return Err(e),
            };
            let ghost ev = hand_value(five_of(seven, i as int, j as int));
            if !found || matches!(evaluated.compare(&best), core::cmp::Ordering::Greater) {
                proof {
                    if found {
                        assert forall|a: int, b: int|
                            0 <= a < b < 7 && (a < i || (a == i && b < j)) implies !lex_gt(
                            #[trigger] hand_value(five_of(seven, a, b)),
                            ev,
                        ) by {
                            if lex_gt(hand_value(five_of(seven, a, b)), ev) {
                                lemma_lex_gt_transitive(
                                    hand_value(five_of(seven, a, b)),
                                    ev,
                                    best.key(),
                                );
                            }
                        }
                    } else {
                        assert(i == 0 && j == 1);
                    }
                    if lex_gt(ev, ev) {
                        lemma_lex_gt_asymmetric(ev, ev);
                    }
                }
                best = evaluated;
                found = true;
            }
            j = j + 1;
        }
        i = i + 1;
    }
    Ok(best)
}

/// A hand of a higher category beats any hand of a lower one, whatever
/// their cards; within a category the primary value decides first.
pub proof fn lemma_category_decides(a: Seq<Card>, b: Seq<Card>)
    ensures
        hand_value(a)[0] > hand_value(b)[0] ==> lex_gt(hand_value(a), hand_value(b)),
        hand_value(a)[0] == hand_value(b)[0] && hand_value(a)[1] > hand_value(b)[1] ==> lex_gt(
            hand_value(a),
            hand_value(b),
        ),
{
    let x = hand_value(a);
    let y = hand_value(b);
    if x[0] > y[0] {
        assert(lex_gt(x, y)) by {
            assert(0 < x.len() && 0 < y.len() && x[0] > y[0]);
        }
    }
    if x[0] == y[0] && x[1] > y[1] {
        assert(lex_gt(x, y)) by {
            assert(x[1] > y[1] && forall|j: int| 0 <= j < 1 ==> x[j] == y[j]);
        }
    }
}

} // verus!
