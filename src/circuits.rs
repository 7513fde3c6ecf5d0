use vstd::prelude::*;
use crate::protocol::{is_deck_permutation, lemma_swap_keeps_permutation};

verus! {

// The computations that the multi-party network runs on secret-shared
// inputs. Here they are plain functions on the values the shares stand for;
// sharing the inputs and the outputs is the network's business.

/// Entropy from up to six players; an absent player contributes zeros.
#[derive(Clone, Copy, Debug)]
pub struct ShuffleInput {
    pub entropy_p1: [u8; 32],
    pub entropy_p2: [u8; 32],
    pub entropy_p3: [u8; 32],
    pub entropy_p4: [u8; 32],
    pub entropy_p5: [u8; 32],
    pub entropy_p6: [u8; 32],
}

/// A shuffled deck and the position to deal from it.
#[derive(Clone, Copy, Debug)]
pub struct DealCardInput {
    pub shuffled_deck: [u8; 52],
    pub card_index: u8,
}

/// Two hole cards to reveal.
#[derive(Clone, Copy, Debug)]
pub struct RevealCardsInput {
    pub card1: u8,
    pub card2: u8,
}

/// A seed and the bound for a random draw.
#[derive(Clone, Copy, Debug)]
pub struct RandomInput {
    pub seed: [u8; 32],
    pub max_value: u8,
}

/// One byte of the mixing step from its neighbours.
pub open spec fn mix_byte(prev: u8, curr: u8, next: u8) -> u8 {
    ((prev as int * 7 + curr as int * 13 + next as int * 17) % 256) as u8
}

/// The mixing step: every byte from itself and its two neighbours, the
/// ends wrapping round.
pub open spec fn mixed(s: Seq<u8>) -> Seq<u8> {
    Seq::new(
        32,
        |i: int| mix_byte(s[if i == 0 { 31 } else { i - 1 }], s[i], s[if i == 31 { 0 } else { i + 1 }]),
    )
}

/// Byte `i` of the sum of all contributions, modulo 256.
pub open spec fn summed(input: ShuffleInput, i: int) -> u8 {
    ((input.entropy_p1@[i] as int + input.entropy_p2@[i] as int + input.entropy_p3@[i] as int
        + input.entropy_p4@[i] as int + input.entropy_p5@[i] as int + input.entropy_p6@[i] as int)
        % 256) as u8
}

/// Deck and entropy after the first `k` steps of the in-network shuffle:
/// step `s` swaps position `51 - s` with the position that the entropy byte
/// at `(51 - s) % 32` selects, then mixes the entropy.
pub open spec fn circuit_steps(entropy: Seq<u8>, k: nat) -> (Seq<u8>, Seq<u8>)
    decreases k,
{
    if k == 0 {
        (Seq::new(52, |i: int| i as u8), entropy)
    } else {
        let prev = circuit_steps(entropy, (k - 1) as nat);
        let i = 52 - k;
        let j = prev.1[i % 32] as int % (i + 1);
        (prev.0.update(i, prev.0[j]).update(j, prev.0[i]), mixed(prev.1))
    }
}

/// Mixes 32 bytes of entropy.
pub fn hash_entropy(input: [u8; 32]) -> (r: [u8; 32])
    ensures
        r@ == mixed(input@),
{
    let mut output = input;
    let mut i: usize = 0;
    while i < 32
        invariant
            i <= 32,
            forall|j: int| 0 <= j < i ==> #[trigger] output@[j] == mixed(input@)[j],
        decreases 32 - i,
    {
        let prev_idx: usize = if i == 0 {
            31
        } else {
            i - 1
        };
        let next_idx: usize = if i == 31 {
            0
        } else {
            i + 1
        };
        let prev = input[prev_idx] as u32;
        let curr = input[i] as u32;
        let next = input[next_idx] as u32;
        output[i] = ((prev * 7 + curr * 13 + next * 17) % 256) as u8;
        i = i + 1;
    }
    assert(output@ =~= mixed(input@));
    output
}

/// Shuffles the 52 positions inside the network: the players' entropy is
/// summed byte by byte, then a Fisher-Yates pass draws each swap from the
/// entropy and mixes it after every step. The result is a permutation.
pub fn shuffle_deck(input: &ShuffleInput) -> (r: [u8; 52])
    ensures
        is_deck_permutation(r@),
        r@ == circuit_steps(Seq::new(32, |i: int| summed(*input, i)), 51).0,
{
    let mut combined_entropy = [0u8;32];
    let mut i: usize = 0;
    while i < 32
        invariant
            i <= 32,
            forall|j: int| 0 <= j < i ==> #[trigger] combined_entropy@[j] == summed(*input, j),
        decreases 32 - i,
    {
        let sum: u16 = input.entropy_p1[i] as u16 + input.entropy_p2[i] as u16
            + input.entropy_p3[i] as u16 + input.entropy_p4[i] as u16 + input.entropy_p5[i] as u16
            + input.entropy_p6[i] as u16;
        combined_entropy[i] = (sum % 256) as u8;
        i = i + 1;
    }
    let ghost start = combined_entropy@;
    assert(start =~= Seq::new(32, |i: int| summed(*input, i)));
    let mut deck = crate::protocol::create_initial_deck();
    assert(deck@ =~= circuit_steps(start, 0).0);
    let mut i: usize = 51;
    while i >= 1
        invariant
            i < 52,
            is_deck_permutation(deck@),
            deck@ == circuit_steps(start, (51 - i) as nat).0,
            combined_entropy@ == circuit_steps(start, (51 - i) as nat).1,
        decreases i,
    {
        let random_byte = combined_entropy[i % 32];
        let j = (random_byte as usize) % (i + 1);
        let ghost before = deck@;
        let temp = deck[i];
        deck[i] = deck[j];
        deck[j] = temp;
        proof {
            lemma_swap_keeps_permutation(before, deck@, i as int, j as int);
        }
        combined_entropy = hash_entropy(combined_entropy);
        assert(deck@ =~= circuit_steps(start, (52 - i) as nat).0);
        i = i - 1;
    }
    deck
}

/// The card at `card_index` of the shuffled deck.
pub fn deal_card(input: &DealCardInput) -> (r: u8)
    requires
        input.card_index < 52,
    ensures
        r == input.shuffled_deck@[input.card_index as int],
{
    input.shuffled_deck[input.card_index as usize]
}

/// Both hole cards, in order.
pub fn reveal_hole_cards(input: &RevealCardsInput) -> (r: [u8; 2])
    ensures
        r@ == seq![input.card1, input.card2],
{
    let r = [input.card1, input.card2];
    assert(r@ =~= seq![input.card1, input.card2]);
    r
}

/// A number below `max_value` drawn from the mixed seed.
pub fn generate_random(input: &RandomInput) -> (r: u8)
    requires
        input.max_value > 0,
    ensures
        r == mixed(input.seed@)[0] % input.max_value,
        r < input.max_value,
{
    let hash = hash_entropy(input.seed);
    hash[0] % input.max_value
}

} // verus!
