use arcium_poker::deck::{generate_standard_deck, index_to_card, Card, EncryptedDeck};
use arcium_poker::error::PokerError;
use arcium_poker::protocol::{
    check_shuffle_callback, combine_player_entropy, game_id_bytes, generate_player_key_shard,
    mpc_deal_card, mpc_deal_cards, mpc_reveal_card, mpc_reveal_cards, mpc_shuffle_deck,
    secure_shuffle_with_entropy, verify_reveal, verify_shuffle, DealParams, EncryptedCard,
    ErrorCode, RevealParams, ShuffleParams,
};
use arcium_poker::types::{Pubkey, Rank, Suit};
use arcium_poker::validation::validate_deck_integrity;

fn key(n: u8) -> Pubkey {
    Pubkey::new_from_array([n; 32])
}

fn is_permutation(d: &[u8; 52]) -> bool {
    let mut seen = [false; 52];
    for &x in d.iter() {
        if x >= 52 || seen[x as usize] {
            return false;
        }
        seen[x as usize] = true;
    }
    true
}

#[test]
fn shuffle_is_a_permutation_with_verifiable_proof() {
    let params = ShuffleParams {
        player_pubkeys: vec![key(1), key(2), key(3)],
        player_entropy: vec![[11; 32], [22; 32], [33; 32]],
        game_id: 42,
    };
    let res = mpc_shuffle_deck(params).unwrap();
    assert!(is_permutation(&res.shuffled_indices));
    assert!(validate_deck_integrity(&res.shuffled_indices).is_ok());
    let proof = res.shuffle_proof.clone().unwrap();
    assert_eq!(proof.len(), 96);
    assert_eq!(verify_shuffle(&res.commitment, &proof, &res.session_id), Ok(true));
    let mut tampered = proof.clone();
    tampered[0] ^= 1;
    assert_eq!(verify_shuffle(&res.commitment, &tampered, &res.session_id), Ok(false));
    assert_eq!(
        verify_shuffle(&res.commitment, &vec![0u8; 10], &res.session_id),
        Err(PokerError::ArciumMpcFailed)
    );
}

fn entropy(seed: u8) -> [u8; 32] {
    let mut e = [0u8; 32];
    for i in 0..32 {
        e[i] = (i as u8).wrapping_mul(seed).wrapping_add(seed.wrapping_mul(31)) ^ (i as u8) << 3;
    }
    e
}

#[test]
fn shuffle_depends_on_every_contribution() {
    let a = secure_shuffle_with_entropy(&vec![entropy(1), entropy(2)]).unwrap();
    let b = secure_shuffle_with_entropy(&vec![entropy(1), entropy(5)]).unwrap();
    let alone = secure_shuffle_with_entropy(&vec![entropy(1), [0; 32]]).unwrap();
    assert!(is_permutation(&a) && is_permutation(&b) && is_permutation(&alone));
    assert_ne!(a, b);
    assert_ne!(a, alone);
    let combined = combine_player_entropy(&vec![[1; 32], [2; 32]]);
    assert_eq!(combined, [3; 32]);
}

#[test]
fn shuffle_needs_players_and_one_contribution_each() {
    let one = ShuffleParams { player_pubkeys: vec![key(1)], player_entropy: vec![[1; 32]], game_id: 1 };
    assert_eq!(mpc_shuffle_deck(one).err(), Some(PokerError::NotEnoughPlayers));
    let mismatch = ShuffleParams {
        player_pubkeys: vec![key(1), key(2)],
        player_entropy: vec![[1; 32]],
        game_id: 1,
    };
    assert_eq!(mpc_shuffle_deck(mismatch).err(), Some(PokerError::ArciumMpcFailed));
}

#[test]
fn deal_and_reveal() {
    let session = [9u8; 32];
    let card = mpc_deal_card(DealParams { card_index: 5, player: key(3), session_id: session, game_id: 1 }).unwrap();
    assert_eq!(card.encrypted_index, 5 ^ card.key_shard[0]);
    assert_ne!(card.encrypted_index, 5);
    assert_eq!(card.owner, key(3));
    assert_eq!(card.key_shard, generate_player_key_shard(&key(3), &session, 5));
    assert_eq!(card.key_shard[0], (9u8 ^ 3u8).wrapping_add(5));
    assert_eq!(
        mpc_deal_card(DealParams { card_index: 52, player: key(3), session_id: session, game_id: 1 }).err(),
        Some(PokerError::InvalidCardIndex)
    );
    let cards = mpc_deal_cards(DealParams { card_index: 10, player: key(4), session_id: session, game_id: 1 }, 2).unwrap();
    assert_eq!(cards.len(), 2);
    assert_eq!(cards[1].encrypted_index ^ cards[1].key_shard[0], 11);

    // A dealt card reveals as itself, privately to its owner and at showdown to anyone.
    let own = RevealParams { encrypted_card: card, requester: key(3), session_id: session, is_showdown: false };
    assert_eq!(mpc_reveal_card(own).unwrap(), Card::from_index(5).unwrap());
    let open = RevealParams { encrypted_card: card, requester: key(8), session_id: session, is_showdown: true };
    assert_eq!(mpc_reveal_card(open).unwrap(), Card::from_index(5).unwrap());
    for c in 0..52u8 {
        let dealt = mpc_deal_card(DealParams { card_index: c, player: key(0), session_id: [0; 32], game_id: 1 }).unwrap();
        let back = RevealParams { encrypted_card: dealt, requester: key(0), session_id: [0; 32], is_showdown: false };
        assert_eq!(mpc_reveal_card(back).unwrap().to_index(), c);
    }

    let plain = EncryptedCard { encrypted_index: 12, key_shard: [0; 32], owner: key(3) };
    let stranger = RevealParams { encrypted_card: plain, requester: key(4), session_id: [0; 32], is_showdown: false };
    assert_eq!(mpc_reveal_card(stranger).err(), Some(PokerError::InvalidAction));
    let showdown = RevealParams { encrypted_card: plain, requester: key(4), session_id: [0; 32], is_showdown: true };
    let revealed = mpc_reveal_card(showdown).unwrap();
    assert_eq!(revealed.to_index(), 12);
    assert_eq!(revealed, Card::new(Suit::Hearts, Rank::Ace));
    let owner = RevealParams { encrypted_card: plain, requester: key(3), session_id: [0; 32], is_showdown: false };
    assert_eq!(mpc_reveal_card(owner).unwrap().to_index(), 12);
    let many = mpc_reveal_cards(&vec![plain, plain], key(7), [1; 32]).unwrap();
    assert_eq!(many[0].to_index(), 12);
    let bad = EncryptedCard { encrypted_index: 60, key_shard: [0; 32], owner: key(3) };
    let refused = RevealParams { encrypted_card: bad, requester: key(3), session_id: [0; 32], is_showdown: true };
    assert_eq!(mpc_reveal_card(refused).err(), Some(PokerError::InvalidCardIndex));
}

#[test]
fn reveal_verification() {
    let card = Card::new(Suit::Clubs, Rank::Queen);
    let proof = vec![7u8, 8, 9];
    let mut commitment = [0u8; 32];
    commitment[0] = 2;
    commitment[1] = 12;
    commitment[2] = 7;
    commitment[3] = 8;
    commitment[4] = 9;
    assert_eq!(verify_reveal(&card, &commitment, &proof), Ok(true));
    commitment[4] = 10;
    assert_eq!(verify_reveal(&card, &commitment, &proof), Ok(false));
    assert_eq!(verify_reveal(&card, &commitment, &vec![]), Err(PokerError::EncryptionFailed));
}

#[test]
fn cards_and_deck_cursor() {
    let deck = generate_standard_deck();
    for (i, c) in deck.iter().enumerate() {
        assert_eq!(c.to_index() as usize, i);
        assert_eq!(Card::from_index(i as u8).unwrap(), *c);
    }
    assert_eq!(index_to_card(52).err(), Some(PokerError::InvalidCardIndex));
    assert_eq!(Card::new(Suit::Spades, Rank::Ace).to_index(), 51);

    let mut indices = [0u8; 52];
    for i in 0..52 {
        indices[i] = (51 - i) as u8;
    }
    let mut d = EncryptedDeck::initialize_from_shuffle(indices, [0; 32], [0; 32]);
    assert_eq!(d.get_next_encrypted_card(), Ok(51));
    d.burn_card().unwrap();
    assert_eq!(d.get_next_encrypted_card(), Ok(49));
    assert_eq!(d.cards_dealt, 3);
    assert!(d.has_cards(49));
    assert!(!d.has_cards(50));
    for _ in 0..49 {
        d.get_next_encrypted_card().unwrap();
    }
    assert_eq!(d.get_next_encrypted_card(), Err(PokerError::InvalidCardIndex));
}

#[test]
fn shuffle_callback_checks_game_id() {
    let mut id = [0u8; 32];
    id[..8].copy_from_slice(&game_id_bytes(0x0102_0304_0506_0708));
    assert_eq!(id[0], 0x08);
    assert_eq!(id[7], 0x01);
    assert_eq!(check_shuffle_callback(0x0102_0304_0506_0708, &id, &vec![0u8; 52]), Ok(()));
    assert_eq!(
        check_shuffle_callback(0x0102_0304_0506_0709, &id, &vec![0u8; 52]),
        Err(ErrorCode::InvalidMxeCallback)
    );
    assert_eq!(
        check_shuffle_callback(0x0102_0304_0506_0708, &id, &vec![0u8; 51]),
        Err(ErrorCode::InvalidMxeCallback)
    );
}

#[test]
fn deck_integrity_reports_bad_decks() {
    let mut d = [0u8; 52];
    for i in 0..52 {
        d[i] = i as u8;
    }
    assert!(validate_deck_integrity(&d).is_ok());
    d[3] = 60;
    assert_eq!(validate_deck_integrity(&d), Err(PokerError::InvalidCardIndex));
    d[3] = 4;
    assert_eq!(validate_deck_integrity(&d), Err(PokerError::DeckNotInitialized));
}
