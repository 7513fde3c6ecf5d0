use arcium_poker::circuits::{
    deal_card, generate_random, hash_entropy, reveal_hole_cards, shuffle_deck, DealCardInput,
    RandomInput, RevealCardsInput, ShuffleInput,
};

fn input(a: u8, b: u8) -> ShuffleInput {
    let mut p1 = [0u8; 32];
    let mut p2 = [0u8; 32];
    for i in 0..32 {
        p1[i] = (i as u8).wrapping_mul(a).wrapping_add(1);
        p2[i] = (i as u8).wrapping_mul(b) ^ 0x5a;
    }
    ShuffleInput {
        entropy_p1: p1,
        entropy_p2: p2,
        entropy_p3: [0; 32],
        entropy_p4: [0; 32],
        entropy_p5: [0; 32],
        entropy_p6: [0; 32],
    }
}

fn is_permutation(d: &[u8; 52]) -> bool {
    let mut seen = [false; 52];
    for &x in d.iter() {
        if x >= 52 || seen[x as usize] {
            return false;
        }
        seen[x as usize] = true;
    }
    true
}

#[test]
fn circuit_shuffle_is_a_permutation() {
    let a = shuffle_deck(&input(3, 5));
    let b = shuffle_deck(&input(3, 7));
    assert!(is_permutation(&a));
    assert!(is_permutation(&b));
    assert_ne!(a, b);
}

#[test]
fn mixing_step_values() {
    let mut seed = [0u8; 32];
    seed[0] = 1;
    let h = hash_entropy(seed);
    assert_eq!(h[0], 13);
    assert_eq!(h[1], 7);
    assert_eq!(h[31], 17);
    assert_eq!(h[2], 0);
    let mut all = [0u8; 32];
    all[5] = 20;
    assert_eq!(hash_entropy(all)[5], ((20u32 * 13) % 256) as u8);
}

#[test]
fn deal_reveal_and_draw() {
    let mut deck = [0u8; 52];
    for i in 0..52 {
        deck[i] = (51 - i) as u8;
    }
    assert_eq!(deal_card(&DealCardInput { shuffled_deck: deck, card_index: 3 }), 48);
    assert_eq!(reveal_hole_cards(&RevealCardsInput { card1: 4, card2: 9 }), [4, 9]);
    let mut seed = [0u8; 32];
    seed[0] = 1;
    assert_eq!(generate_random(&RandomInput { seed, max_value: 5 }), 13 % 5);
}
