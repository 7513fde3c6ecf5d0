//! The card-secrecy protocol as the deterministic stand-in of this library
//! runs it: the shuffle of the players' combined entropy, dealing a card to
//! one player, revealing cards privately or at showdown, checking proofs, and
//! the framing of the requests sent to the multi-party network.

use vstd::prelude::*;
use crate::constants::DECK_SIZE;
use crate::deck::{card_index, index_to_card, Card};
use crate::error::PokerError;
use crate::types::Pubkey;

verus! {

// ---------------------------------------------------------------------------
// Shuffle
// ---------------------------------------------------------------------------

/// Every card position 0 to 51 occurs exactly once.
pub open spec fn is_deck_permutation(d: Seq<u8>) -> bool {
    &&& d.len() == 52
    &&& forall|i: int| 0 <= i < 52 ==> #[trigger] d[i] < 52
    &&& forall|i: int, j: int| 0 <= i < 52 && 0 <= j < 52 && i != j ==> d[i] != d[j]
    &&& forall|v: int| 0 <= v < 52 ==> #[trigger] occurs(d, v)
}

/// Value `v` stands somewhere in `d`.
pub open spec fn occurs(d: Seq<u8>, v: int) -> bool {
    exists|i: int| 0 <= i < d.len() && d[i] == v
}

/// Byte `i` of the XOR of the first `n` contributions.
pub open spec fn xor_of(entropy: Seq<[u8; 32]>, n: int, i: int) -> u8
    decreases n,
{
    if n <= 0 {
        0
    } else {
        xor_of(entropy, n - 1, i) ^ entropy[n - 1]@[i]
    }
}

/// What a shuffle asks for: every seated player and one entropy
/// contribution from each.
pub struct ShuffleParams {
    pub player_pubkeys: Vec<Pubkey>,
    pub player_entropy: Vec<[u8; 32]>,
    pub game_id: u64,
}

/// What a shuffle returns.
pub struct ShuffleResult {
    /// Card positions in shuffled order.
    pub shuffled_indices: [u8; DECK_SIZE],
    /// Commitment that binds the shuffle and its session.
    pub commitment: [u8; 32],
    pub session_id: [u8; 32],
    /// Proof that starts with the commitment.
    pub shuffle_proof: Option<Vec<u8>>,
}

/// A shuffle request of the protocol: the contributions, the computation
/// offset that identifies it, and the players.
pub struct MxeShuffleParams {
    pub encrypted_entropy: Vec<[u8; 32]>,
    pub computation_offset: [u8; 8],
    pub player_pubkeys: Vec<Pubkey>,
    pub game_id: u64,
}

/// XOR of all contributions, so that no single player controls the seed.
pub fn combine_player_entropy(entropy: &Vec<[u8; 32]>) -> (r: [u8; 32])
    ensures
        forall|i: int| 0 <= i < 32 ==> #[trigger] r@[i] == xor_of(entropy@, entropy@.len() as int, i),
{
    let mut combined = [0u8;32];
    let mut k: usize = 0;
    while k < entropy.len()
        invariant
            k <= entropy@.len(),
            forall|i: int| 0 <= i < 32 ==> #[trigger] combined@[i] == xor_of(entropy@, k as int, i),
        decreases entropy@.len() - k,
    {
        let e = entropy[k];
        let mut i: usize = 0;
        while i < 32
            invariant
                i <= 32,
                k < entropy@.len(),
                e == entropy@[k as int],
                forall|j: int| 0 <= j < i ==> #[trigger] combined@[j] == xor_of(entropy@, k as int + 1, j),
                forall|j: int| i <= j < 32 ==> #[trigger] combined@[j] == xor_of(entropy@, k as int, j),
            decreases 32 - i,
        {
            combined[i] = combined[i] ^ e[i];
            i = i + 1;
        }
        k = k + 1;
    }
    combined
}

/// Step of the shuffle's generator: a 64-bit linear congruential step.
pub open spec fn lcg_next(s: u64) -> u64 {
    vstd::wrapping::u64_specs::wrapping_add(
        vstd::wrapping::u64_specs::wrapping_mul(s, 6364136223846793005),
        1442695040888963407,
    )
}

/// Generator seed from the first `n` bytes of the combined entropy: each
/// byte XORed in at its position within a 64-bit word.
pub open spec fn rng_seed(seed: Seq<u8>, n: int) -> u64
    decreases n,
{
    if n <= 0 {
        0
    } else {
        rng_seed(seed, n - 1) ^ ((seed[n - 1] as u64) << ((((n - 1) % 8) * 8) as u64))
    }
}

/// Seed of the shuffle's generator from the combined entropy.
fn initialize_rng(seed: &[u8; 32]) -> (r: u64)
    ensures
        r == rng_seed(seed@, 32),
{
    let mut state: u64 = 0;
    let mut i: usize = 0;
    while i < 32
        invariant
            i <= 32,
            state == rng_seed(seed@, i as int),
        decreases 32 - i,
    {
        let shift: u64 = ((i % 8) * 8) as u64;
        state = state ^ ((seed[i] as u64) << shift);
        i = i + 1;
    }
    state
}

/// Steps the generator and draws an index below `max`.
fn secure_random_index(state: &mut u64, max: usize) -> (r: usize)
    requires
        max > 0,
    ensures
        *final(state) == lcg_next(*old(state)),
        r as int == *final(state) as int % max as int,
        r < max,
{
    *state = state.wrapping_mul(6364136223846793005).wrapping_add(1442695040888963407);
    (*state % max as u64) as usize
}

/// The deck and the generator state after the first `k` steps of the
/// Fisher-Yates pass, which swaps position `51 - s` (for step `s` from 0)
/// with a position drawn below it or at it.
pub open spec fn shuffle_steps(seed: u64, k: nat) -> (Seq<u8>, u64)
    decreases k,
{
    if k == 0 {
        (Seq::new(52, |i: int| i as u8), seed)
    } else {
        let prev = shuffle_steps(seed, (k - 1) as nat);
        let i = 52 - k;
        let s = lcg_next(prev.1);
        let j = s as int % (i + 1);
        (prev.0.update(i, prev.0[j]).update(j, prev.0[i]), s)
    }
}

/// The XOR of all contributions.
pub open spec fn combined_entropy(entropy: Seq<[u8; 32]>) -> Seq<u8> {
    Seq::new(32, |i: int| xor_of(entropy, entropy.len() as int, i))
}

/// The deck that a set of contributions shuffles to.
pub open spec fn shuffled_deck(entropy: Seq<[u8; 32]>) -> Seq<u8> {
    shuffle_steps(rng_seed(combined_entropy(entropy), 32), 51).0
}

/// The shuffle sees the contributions only through their XOR: two sets of
/// contributions with the same XOR give the same deck, whoever gave them.
pub proof fn lemma_shuffle_depends_on_xor(a: Seq<[u8; 32]>, b: Seq<[u8; 32]>)
    requires
        forall|i: int| 0 <= i < 32 ==> #[trigger] xor_of(a, a.len() as int, i) == xor_of(b, b.len() as int, i),
    ensures
        shuffled_deck(a) == shuffled_deck(b),
{
    assert(combined_entropy(a) =~= combined_entropy(b));
}

/// The positions 0 to 51 in order.
pub fn create_initial_deck() -> (r: [u8; DECK_SIZE])
    ensures
        forall|i: int| 0 <= i < 52 ==> #[trigger] r@[i] == i,
        is_deck_permutation(r@),
{
    let mut deck = [0u8;DECK_SIZE];
    let mut i: usize = 0;
    while i < DECK_SIZE
        invariant
            i <= DECK_SIZE,
            forall|j: int| 0 <= j < i ==> #[trigger] deck@[j] == j,
        decreases DECK_SIZE - i,
    {
        deck[i] = i as u8;
        i = i + 1;
    }
    assert forall|v: int| 0 <= v < 52 implies #[trigger] occurs(deck@, v) by {
        assert(deck@[v] == v);
    }
    deck
}

/// Fisher-Yates shuffle of the 52 positions, driven by a generator seeded
/// with the XOR of every player's contribution.
pub fn secure_shuffle_with_entropy(player_entropy: &Vec<[u8; 32]>) -> (r: Result<[u8; DECK_SIZE], PokerError>)
    ensures
        r matches Ok(d) && is_deck_permutation(d@) && d@ == shuffled_deck(player_entropy@),
{
    let mut indices = create_initial_deck();
    let combined = combine_player_entropy(player_entropy);
    assert(combined@ =~= combined_entropy(player_entropy@));
    let mut rng_state = initialize_rng(&combined);
    let ghost seed = rng_state;
    assert(indices@ =~= shuffle_steps(seed, 0).0);
    let mut i: usize = DECK_SIZE - 1;
    while i >= 1
        invariant
            i < DECK_SIZE,
            is_deck_permutation(indices@),
            indices@ == shuffle_steps(seed, (51 - i) as nat).0,
            rng_state == shuffle_steps(seed, (51 - i) as nat).1,
        decreases i,
    {
        let j = secure_random_index(&mut rng_state, i + 1);
        let ghost before = indices@;
        let a = indices[i];
        let b = indices[j];
        indices[i] = b;
        indices[j] = a;
        proof {
            lemma_swap_keeps_permutation(before, indices@, i as int, j as int);
            assert(indices@ =~= shuffle_steps(seed, (52 - i) as nat).0);
        }
        i = i - 1;
    }
    Ok(indices)
}

pub(crate) proof fn lemma_swap_keeps_permutation(before: Seq<u8>, after: Seq<u8>, a: int, b: int)
    requires
        is_deck_permutation(before),
        0 <= a < 52,
        0 <= b < 52,
        after == before.update(a, before[b]).update(b, before[a]),
    ensures
        is_deck_permutation(after),
{
    assert forall|i: int| 0 <= i < 52 implies #[trigger] after[i] < 52 by {
        if i == b {
        } else if i == a {
        } else {
        }
    }
    assert forall|i: int, j: int| 0 <= i < 52 && 0 <= j < 52 && i != j implies after[i] != after[j] by {
        let si = if i == b {
            a
        } else if i == a {
            b
        } else {
            i
        };
        let sj = if j == b {
            a
        } else if j == a {
            b
        } else {
            j
        };
        assert(after[i] == before[si]);
        assert(after[j] == before[sj]);
    }
    assert forall|v: int| 0 <= v < 52 implies #[trigger] occurs(after, v) by {
        assert(occurs(before, v));
        let k = choose|k: int| 0 <= k < before.len() && before[k] == v;
        let w = if k == a {
            b
        } else if k == b {
            a
        } else {
            k
        };
        assert(after[w] == v);
    }
}

/// One contribution mixed into a commitment: each byte XORed with the
/// contribution's byte, plus the contribution's next byte (wrapping).
pub open spec fn commit_step(c: Seq<u8>, e: Seq<u8>) -> Seq<u8> {
    Seq::new(32, |i: int| vstd::wrapping::u8_specs::wrapping_add(c[i] ^ e[i], e[(i + 1) % 32]))
}

/// Commitment of a shuffle: the session id with the first `n`
/// contributions mixed in, in order.
pub open spec fn commitment_of(entropy: Seq<[u8; 32]>, session: Seq<u8>, n: int) -> Seq<u8>
    decreases n,
{
    if n <= 0 {
        session
    } else {
        commit_step(commitment_of(entropy, session, n - 1), entropy[n - 1]@)
    }
}

/// Commitment that binds the contributions to the session.
fn generate_commitment(player_entropy: &Vec<[u8; 32]>, session_id: &[u8; 32]) -> (r: [u8; 32])
    ensures
        r@ == commitment_of(player_entropy@, session_id@, player_entropy@.len() as int),
{
    let mut commitment = *session_id;
    let mut k: usize = 0;
    while k < player_entropy.len()
        invariant
            k <= player_entropy@.len(),
            commitment@ == commitment_of(player_entropy@, session_id@, k as int),
        decreases player_entropy@.len() - k,
    {
        let entropy = player_entropy[k];
        let ghost prev = commitment@;
        let mut i: usize = 0;
        while i < 32
            invariant
                i <= 32,
                k < player_entropy@.len(),
                entropy == player_entropy@[k as int],
                prev.len() == 32,
                forall|j: int| 0 <= j < i ==> #[trigger] commitment@[j] == commit_step(prev, entropy@)[j],
                forall|j: int| i <= j < 32 ==> #[trigger] commitment@[j] == prev[j],
            decreases 32 - i,
        {
            commitment[i] = commitment[i] ^ entropy[i];
            commitment[i] = commitment[i].wrapping_add(entropy[(i + 1) % 32]);
            i = i + 1;
        }
        assert(commitment@ =~= commit_step(prev, entropy@));
        k = k + 1;
    }
    commitment
}

/// Byte `i` (little-endian) of `x`.
pub open spec fn le_byte(x: u64, i: int) -> u8 {
    ((x as int / pow256(i)) % 256) as u8
}

pub open spec fn pow256(i: int) -> int
    decreases i,
{
    if i <= 0 {
        1
    } else {
        256 * pow256(i - 1)
    }
}

proof fn lemma_pow256_pos(i: int)
    ensures
        pow256(i) > 0,
    decreases i,
{
    if i > 0 {
        lemma_pow256_pos(i - 1);
    }
}

/// The eight little-endian bytes of a game id.
pub fn game_id_bytes(game_id: u64) -> (r: [u8; 8])
    ensures
        forall|i: int| 0 <= i < 8 ==> #[trigger] r@[i] == le_byte(game_id, i),
{
    let mut bytes = [0u8;8];
    let mut x = game_id;
    let mut i: usize = 0;
    while i < 8
        invariant
            i <= 8,
            x as int == game_id as int / pow256(i as int),
            forall|j: int| 0 <= j < i ==> #[trigger] bytes@[j] == le_byte(game_id, j),
        decreases 8 - i,
    {
        proof {
            lemma_pow256_pos(i as int);
            vstd::arithmetic::div_mod::lemma_div_denominator(game_id as int, pow256(i as int), 256);
            assert(pow256(i as int + 1) == 256 * pow256(i as int));
            assert(pow256(i as int) * 256 == 256 * pow256(i as int)) by (nonlinear_arith);
        }
        bytes[i] = (x % 256) as u8;
        x = x / 256;
        i = i + 1;
    }
    bytes
}

/// Errors of the protocol's callbacks.
#[derive(Clone, Copy, Debug, PartialEq, Eq, Structural)]
pub enum ErrorCode {
    MxeComputationFailed,
    InvalidMxeCallback,
    EncryptionFailed,
    DecryptionFailed,
}

/// Accepts the result of a shuffle computation for `game_id`: the first
/// eight bytes of the computation id must be the game id, little-endian,
/// and the output must hold at least a whole deck.
pub fn check_shuffle_callback(game_id: u64, computation_id: &[u8; 32], encrypted_output: &Vec<u8>) -> (r: Result<(), ErrorCode>)
    ensures
        r is Ok <==> (forall|i: int| 0 <= i < 8 ==> #[trigger] computation_id@[i] == le_byte(game_id, i))
            && encrypted_output@.len() >= 52,
        r is Err ==> r == Err::<(), ErrorCode>(ErrorCode::InvalidMxeCallback),
{
    let expected = game_id_bytes(game_id);
    let mut i: usize = 0;
    while i < 8
        invariant
            i <= 8,
            forall|j: int| 0 <= j < 8 ==> #[trigger] expected@[j] == le_byte(game_id, j),
            forall|j: int| 0 <= j < i ==> #[trigger] computation_id@[j] == le_byte(game_id, j),
        decreases 8 - i,
    {
        if computation_id[i] != expected[i] {
            return Err(ErrorCode::InvalidMxeCallback);
        }
        i = i + 1;
    }
    if encrypted_output.len() < 52 {
        return Err(ErrorCode::InvalidMxeCallback);
    }
    Ok(())
}

/// The game id, little-endian, padded with zeros to 32 bytes.
pub open spec fn session_base(game_id: u64) -> Seq<u8> {
    Seq::new(32, |i: int| if i < 8 { le_byte(game_id, i) } else { 0u8 })
}

/// One player's key mixed into a session id: each byte XORed with the
/// key's byte plus the player's position (wrapping).
pub open spec fn session_step(s: Seq<u8>, key: Seq<u8>, idx: int) -> Seq<u8> {
    Seq::new(32, |i: int| s[i] ^ vstd::wrapping::u8_specs::wrapping_add(key[i], (idx % 256) as u8))
}

/// Session id of a shuffle: the game id with the first `n` players' keys
/// mixed in, in seat order.
pub open spec fn session_of(game_id: u64, players: Seq<Pubkey>, n: int) -> Seq<u8>
    decreases n,
{
    if n <= 0 {
        session_base(game_id)
    } else {
        session_step(session_of(game_id, players, n - 1), players[n - 1].bytes@, n - 1)
    }
}

/// Session id of a shuffle: the game id, mixed with every player's key.
fn generate_session_id(game_id: u64, players: &Vec<Pubkey>) -> (r: [u8; 32])
    ensures
        r@ == session_of(game_id, players@, players@.len() as int),
{
    let mut session_id = [0u8;32];
    let game_bytes = game_id_bytes(game_id);
    let mut i: usize = 0;
    while i < 8
        invariant
            i <= 8,
            forall|j: int| 0 <= j < 8 ==> #[trigger] game_bytes@[j] == le_byte(game_id, j),
            forall|j: int| 0 <= j < i ==> #[trigger] session_id@[j] == le_byte(game_id, j),
            forall|j: int| i <= j < 32 ==> #[trigger] session_id@[j] == 0,
        decreases 8 - i,
    {
        session_id[i] = game_bytes[i];
        i = i + 1;
    }
    assert(session_id@ =~= session_base(game_id));
    let mut idx: usize = 0;
    while idx < players.len()
        invariant
            idx <= players@.len(),
            session_id@ == session_of(game_id, players@, idx as int),
        decreases players@.len() - idx,
    {
        let player_bytes = players[idx].to_bytes();
        let ghost prev = session_id@;
        let mut i: usize = 0;
        while i < 32
            invariant
                i <= 32,
                idx < players@.len(),
                player_bytes == players@[idx as int].bytes,
                prev.len() == 32,
                forall|j: int|
                    0 <= j < i ==> #[trigger] session_id@[j] == session_step(prev, player_bytes@, idx as int)[j],
                forall|j: int| i <= j < 32 ==> #[trigger] session_id@[j] == prev[j],
            decreases 32 - i,
        {
            session_id[i] = session_id[i] ^ player_bytes[i].wrapping_add((idx % 256) as u8);
            i = i + 1;
        }
        assert(session_id@ =~= session_step(prev, player_bytes@, idx as int));
        idx = idx + 1;
    }
    session_id
}

/// Digest of the first `n` bytes of a deck: 32 bytes, byte `i` of the deck
/// plus `i` (wrapping) XORed into position `i % 32`.
pub open spec fn deck_digest(data: Seq<u8>, n: int) -> Seq<u8>
    decreases n,
{
    if n <= 0 {
        Seq::new(32, |i: int| 0u8)
    } else {
        let d = deck_digest(data, n - 1);
        let at = (n - 1) % 32;
        d.update(at, d[at] ^ vstd::wrapping::u8_specs::wrapping_add(data[n - 1], (n - 1) as u8))
    }
}

proof fn lemma_deck_digest_len(data: Seq<u8>, n: int)
    ensures
        deck_digest(data, n).len() == 32,
    decreases n,
{
    if n > 0 {
        lemma_deck_digest_len(data, n - 1);
    }
}

/// Folds the deck into 32 bytes by XOR, each byte offset by its position.
fn hash_to_ciphertext(data: &[u8; DECK_SIZE]) -> (r: [u8; 32])
    ensures
        r@ == deck_digest(data@, 52),
{
    let mut hash = [0u8;32];
    assert(hash@ =~= deck_digest(data@, 0));
    let mut i: usize = 0;
    while i < DECK_SIZE
        invariant
            i <= DECK_SIZE,
            hash@ == deck_digest(data@, i as int),
        decreases DECK_SIZE - i,
    {
        proof {
            lemma_deck_digest_len(data@, i as int);
        }
        let ghost prev = hash@;
        hash[i % 32] = hash[i % 32] ^ data[i].wrapping_add(i as u8);
        assert(hash@ =~= deck_digest(data@, i as int + 1));
        i = i + 1;
    }
    hash
}

/// Proof of a shuffle: the commitment, the session id and a digest of the
/// shuffled deck, 32 bytes each.
fn generate_shuffle_proof(
    shuffled_indices: &[u8; DECK_SIZE],
    commitment: &[u8; 32],
    session_id: &[u8; 32],
) -> (r: Vec<u8>)
    ensures
        r@.len() == 96,
        r@.subrange(0, 32) == commitment@,
        r@.subrange(32, 64) == session_id@,
        r@.subrange(64, 96) == deck_digest(shuffled_indices@, 52),
{
    let mut proof: Vec<u8> = Vec::new();
    let mut i: usize = 0;
    while i < 32
        invariant
            i <= 32,
            proof@ == commitment@.subrange(0, i as int),
        decreases 32 - i,
    {
        proof.push(commitment[i]);
        i = i + 1;
    }
    let mut i: usize = 0;
    while i < 32
        invariant
            i <= 32,
            proof@ == commitment@ + session_id@.subrange(0, i as int),
        decreases 32 - i,
    {
        proof.push(session_id[i]);
        i = i + 1;
    }
    let deck_hash = hash_to_ciphertext(shuffled_indices);
    let mut i: usize = 0;
    while i < 32
        invariant
            i <= 32,
            proof@ == commitment@ + session_id@ + deck_hash@.subrange(0, i as int),
        decreases 32 - i,
    {
        proof.push(deck_hash[i]);
        i = i + 1;
    }
    assert(proof@.subrange(0, 32) =~= commitment@);
    assert(proof@.subrange(32, 64) =~= session_id@);
    assert(proof@.subrange(64, 96) =~= deck_hash@);
    proof
}

/// Shuffles the deck for one hand. Needs at least two players and one
/// contribution from each; the result is a permutation of the 52 positions
/// with a proof that carries its commitment.
pub fn mpc_shuffle_deck_with_mxe(params: MxeShuffleParams) -> (r: Result<ShuffleResult, PokerError>)
    ensures
        params.player_pubkeys@.len() < 2 ==> r == Err::<ShuffleResult, PokerError>(
            PokerError::NotEnoughPlayers,
        ),
        params.player_pubkeys@.len() >= 2 && params.player_pubkeys@.len()
            != params.encrypted_entropy@.len() ==> r == Err::<ShuffleResult, PokerError>(
            PokerError::ArciumMpcFailed,
        ),
        params.player_pubkeys@.len() >= 2 && params.player_pubkeys@.len()
            == params.encrypted_entropy@.len() ==> (r matches Ok(res) && shuffle_well_formed(res)
            && res.shuffled_indices@ == shuffled_deck(params.encrypted_entropy@) && res.session_id@
            == session_of(params.game_id, params.player_pubkeys@, params.player_pubkeys@.len() as int)
            && res.commitment@ == commitment_of(
            params.encrypted_entropy@,
            res.session_id@,
            params.encrypted_entropy@.len() as int,
        )),
{
    if params.player_pubkeys.len() < 2 {
        return Err(PokerError::NotEnoughPlayers);
    }
    if params.player_pubkeys.len() != params.encrypted_entropy.len() {
        return Err(PokerError::ArciumMpcFailed);
    }
    let shuffled_indices = secure_shuffle_with_entropy(&params.encrypted_entropy)?;
    let session_id = generate_session_id(params.game_id, &params.player_pubkeys);
    let commitment = generate_commitment(&params.encrypted_entropy, &session_id);
    let shuffle_proof = generate_shuffle_proof(&shuffled_indices, &commitment, &session_id);
    Ok(ShuffleResult { shuffled_indices, commitment, session_id, shuffle_proof: Some(shuffle_proof) })
}

/// A shuffle result is usable: its deck is a permutation, and its proof is
/// its commitment, its session id and the digest of its deck.
pub open spec fn shuffle_well_formed(res: ShuffleResult) -> bool {
    &&& is_deck_permutation(res.shuffled_indices@)
    &&& res.shuffle_proof matches Some(p) && p@.len() == 96 && p@.subrange(0, 32)
        == res.commitment@ && p@.subrange(32, 64) == res.session_id@ && p@.subrange(64, 96)
        == deck_digest(res.shuffled_indices@, 52)
}

/// Shuffles with the deterministic generator of this library.
pub fn mpc_shuffle_deck(params: ShuffleParams) -> (r: Result<ShuffleResult, PokerError>)
    ensures
        params.player_pubkeys@.len() < 2 ==> r == Err::<ShuffleResult, PokerError>(
            PokerError::NotEnoughPlayers,
        ),
        params.player_pubkeys@.len() >= 2 && params.player_pubkeys@.len()
            != params.player_entropy@.len() ==> r == Err::<ShuffleResult, PokerError>(
            PokerError::ArciumMpcFailed,
        ),
        params.player_pubkeys@.len() >= 2 && params.player_pubkeys@.len()
            == params.player_entropy@.len() ==> (r matches Ok(res) && shuffle_well_formed(res)
            && res.shuffled_indices@ == shuffled_deck(params.player_entropy@) && res.session_id@
            == session_of(params.game_id, params.player_pubkeys@, params.player_pubkeys@.len() as int)
            && res.commitment@ == commitment_of(
            params.player_entropy@,
            res.session_id@,
            params.player_entropy@.len() as int,
        )),
{
    let offset = game_id_bytes(params.game_id);
    let mxe_params = MxeShuffleParams {
        encrypted_entropy: params.player_entropy,
        computation_offset: offset,
        player_pubkeys: params.player_pubkeys,
        game_id: params.game_id,
    };
    mpc_shuffle_deck_with_mxe(mxe_params)
}

/// Checks a shuffle proof against the stored commitment: the proof must be
/// at least 64 bytes, and it verifies when its first 32 bytes are the
/// commitment.
pub fn verify_shuffle(
    stored_commitment: &[u8; 32],
    shuffle_proof: &Vec<u8>,
    session_id: &[u8; 32],
) -> (r: Result<bool, PokerError>)
    ensures
        shuffle_proof@.len() < 64 ==> r == Err::<bool, PokerError>(PokerError::ArciumMpcFailed),
        shuffle_proof@.len() >= 64 ==> r == Ok::<bool, PokerError>(
            shuffle_proof@.subrange(0, 32) == stored_commitment@,
        ),
{
    if shuffle_proof.len() < 64 {
        return Err(PokerError::ArciumMpcFailed);
    }
    let mut i: usize = 0;
    while i < 32
        invariant
            i <= 32,
            shuffle_proof@.len() >= 64,
            forall|j: int| 0 <= j < i ==> shuffle_proof@[j] == stored_commitment@[j],
        decreases 32 - i,
    {
        if shuffle_proof[i] != stored_commitment[i] {
            assert(shuffle_proof@.subrange(0, 32)[i as int] != stored_commitment@[i as int]);
            return Ok(false);
        }
        i = i + 1;
    }
    assert(shuffle_proof@.subrange(0, 32) =~= stored_commitment@);
    Ok(true)
}

/// A shuffle's own proof verifies against its own commitment.
pub proof fn lemma_shuffle_proof_verifies(res: ShuffleResult)
    requires
        shuffle_well_formed(res),
    ensures
        res.shuffle_proof matches Some(p) && p@.len() >= 64 && p@.subrange(0, 32) == res.commitment@,
{
}

// ---------------------------------------------------------------------------
// Deal
// ---------------------------------------------------------------------------

/// A dealt card that only its owner, or a showdown, can open.
#[derive(Clone, Copy, Debug)]
pub struct EncryptedCard {
    pub encrypted_index: u8,
    /// Key material for the owner.
    pub key_shard: [u8; 32],
    pub owner: Pubkey,
}

/// What dealing one card asks for.
#[derive(Clone, Copy, Debug)]
pub struct DealParams {
    pub card_index: u8,
    pub player: Pubkey,
    pub session_id: [u8; 32],
    pub game_id: u64,
}

/// A deal request of the protocol.
#[derive(Clone, Copy, Debug)]
pub struct MxeDealParams {
    pub shuffled_deck: [u8; 32],
    pub card_index: u8,
    pub player: Pubkey,
    pub computation_offset: [u8; 8],
    pub game_id: u64,
}

/// Byte `i` of the key shard for `player`'s card `card_index` in session
/// `session`.
pub open spec fn key_shard_byte(session: Seq<u8>, player: Seq<u8>, card_index: u8, i: int) -> u8 {
    (((session[i] ^ player[i]) as int + card_index as int) % 256) as u8
}

/// Key material for one player's card: the session id mixed with the
/// player's key and offset by the card.
pub fn generate_player_key_shard(player: &Pubkey, session_id: &[u8; 32], card_index: u8) -> (r: [u8; 32])
    ensures
        forall|i: int|
            0 <= i < 32 ==> #[trigger] r@[i] == key_shard_byte(
                session_id@,
                player.bytes@,
                card_index,
                i,
            ),
{
    let mut key_shard = *session_id;
    let player_bytes = player.to_bytes();
    let mut i: usize = 0;
    while i < 32
        invariant
            i <= 32,
            player_bytes == player.bytes,
            forall|j: int|
                0 <= j < i ==> #[trigger] key_shard@[j] == key_shard_byte(
                    session_id@,
                    player.bytes@,
                    card_index,
                    j,
                ),
            forall|j: int| i <= j < 32 ==> #[trigger] key_shard@[j] == session_id@[j],
        decreases 32 - i,
    {
        key_shard[i] = key_shard[i] ^ player_bytes[i];
        key_shard[i] = key_shard[i].wrapping_add(card_index);
        i = i + 1;
    }
    key_shard
}

/// The card position a dealt card stands for: its sealed index opened with
/// the first byte of its key material.
pub open spec fn opened(c: EncryptedCard) -> u8 {
    c.encrypted_index ^ c.key_shard@[0]
}

/// Opening a card sealed with a key byte gives back what was sealed.
pub proof fn lemma_open_undoes_seal(index: u8, key: u8)
    ensures
        (index ^ key) ^ key == index,
{
    assert((index ^ key) ^ key == index) by (bit_vector);
}

/// Deals the card at `card_index` to `player`: the index is sealed with the
/// key material, so only the holder of that material opens it. Fails on an
/// index past 51.
pub fn mpc_deal_card_with_mxe(params: MxeDealParams) -> (r: Result<EncryptedCard, PokerError>)
    ensures
        params.card_index >= 52 ==> r == Err::<EncryptedCard, PokerError>(
            PokerError::InvalidCardIndex,
        ),
        params.card_index < 52 ==> (r matches Ok(c) && c.encrypted_index == params.card_index
            ^ c.key_shard@[0] && opened(c) == params.card_index && c.owner == params.player
            && forall|i: int|
            0 <= i < 32 ==> #[trigger] c.key_shard@[i] == key_shard_byte(
                params.shuffled_deck@,
                params.player.bytes@,
                params.card_index,
                i,
            )),
{
    if params.card_index >= 52 {
        return Err(PokerError::InvalidCardIndex);
    }
    let key_shard = generate_player_key_shard(&params.player, &params.shuffled_deck, params.card_index);
    let sealed = params.card_index ^ key_shard[0];
    proof {
        lemma_open_undoes_seal(params.card_index, key_shard@[0]);
    }
    Ok(EncryptedCard { encrypted_index: sealed, key_shard, owner: params.player })
}

/// Deals one card; see `mpc_deal_card_with_mxe`.
pub fn mpc_deal_card(params: DealParams) -> (r: Result<EncryptedCard, PokerError>)
    ensures
        params.card_index >= 52 ==> r == Err::<EncryptedCard, PokerError>(
            PokerError::InvalidCardIndex,
        ),
        params.card_index < 52 ==> (r matches Ok(c) && c.encrypted_index == params.card_index
            ^ c.key_shard@[0] && opened(c) == params.card_index && c.owner == params.player
            && forall|i: int|
            0 <= i < 32 ==> #[trigger] c.key_shard@[i] == key_shard_byte(
                params.session_id@,
                params.player.bytes@,
                params.card_index,
                i,
            )),
{
    let offset = game_id_bytes(params.game_id);
    mpc_deal_card_with_mxe(
        MxeDealParams {
            shuffled_deck: params.session_id,
            card_index: params.card_index,
            player: params.player,
            computation_offset: offset,
            game_id: params.game_id,
        },
    )
}

/// Deals `count` consecutive cards from `params.card_index` on to one
/// player; fails when one of them is past 51.
pub fn mpc_deal_cards(params: DealParams, count: usize) -> (r: Result<Vec<EncryptedCard>, PokerError>)
    ensures
        params.card_index + count <= 52 ==> (r matches Ok(v) && v@.len() == count && forall|k: int|
            0 <= k < count ==> opened(#[trigger] v@[k]) == params.card_index + k
                && v@[k].owner == params.player),
        count > 0 && params.card_index + count > 52 ==> r == Err::<Vec<EncryptedCard>, PokerError>(
            PokerError::InvalidCardIndex,
        ),
{
    let mut cards: Vec<EncryptedCard> = Vec::new();
    let mut i: usize = 0;
    while i < count
        invariant
            i <= count,
            i > 0 ==> params.card_index + i <= 52,
            cards@.len() == i,
            forall|k: int|
                0 <= k < i ==> opened(#[trigger] cards@[k]) == params.card_index + k
                    && cards@[k].owner == params.player,
        decreases count - i,
    {
        if params.card_index as usize + i >= 52 {
            return Err(PokerError::InvalidCardIndex);
        }
        let card_params = DealParams { card_index: params.card_index + i as u8, ..params };
        let card = mpc_deal_card(card_params)?;
        cards.push(card);
        i = i + 1;
    }
    Ok(cards)
}

// ---------------------------------------------------------------------------
// Reveal
// ---------------------------------------------------------------------------

/// What revealing one card asks for.
#[derive(Clone, Copy, Debug)]
pub struct RevealParams {
    pub encrypted_card: EncryptedCard,
    pub requester: Pubkey,
    pub session_id: [u8; 32],
    /// A showdown reveal may be asked by anyone; a private one only by the
    /// owner.
    pub is_showdown: bool,
}

/// A reveal request of the protocol for several cards.
pub struct MxeRevealParams {
    pub encrypted_cards: Vec<EncryptedCard>,
    pub requester: Pubkey,
    pub session_id: [u8; 32],
    pub computation_offset: [u8; 8],
    pub is_showdown: bool,
}

/// `card` is what revealing `c` gives: the card at the opened position.
pub open spec fn reveals_as(c: EncryptedCard, card: Card) -> bool {
    card_index(card) == opened(c) as int
}

/// Opens a card with its key material; a position past 51 is refused.
fn decrypt_card(card: &EncryptedCard) -> (r: Result<Card, PokerError>)
    ensures
        opened(*card) >= 52 ==> r == Err::<Card, PokerError>(PokerError::InvalidCardIndex),
        opened(*card) < 52 ==> (r matches Ok(c) && reveals_as(*card, c)),
{
    index_to_card(card.encrypted_index ^ card.key_shard[0])
}

/// Reveals cards. A private reveal is refused unless the requester owns
/// every card; a card that opens past 51 is refused. Each card revealed is
/// the card its key material opens it to, whoever asks at showdown.
pub fn mpc_reveal_card_with_mxe(params: MxeRevealParams) -> (r: Result<Vec<Card>, PokerError>)
    ensures
        !params.is_showdown && (exists|k: int|
            0 <= k < params.encrypted_cards@.len() && (#[trigger] params.encrypted_cards@[k]).owner.bytes@
                != params.requester.bytes@) ==> r == Err::<Vec<Card>, PokerError>(
            PokerError::InvalidAction,
        ),
        r is Ok ==> params.is_showdown || forall|k: int|
            0 <= k < params.encrypted_cards@.len() ==> (#[trigger] params.encrypted_cards@[k]).owner.bytes@
                == params.requester.bytes@,
        (params.is_showdown || forall|k: int|
            0 <= k < params.encrypted_cards@.len() ==> (#[trigger] params.encrypted_cards@[k]).owner.bytes@
                == params.requester.bytes@) ==> {
            &&& (exists|k: int|
                0 <= k < params.encrypted_cards@.len()
                    && opened(#[trigger] params.encrypted_cards@[k]) >= 52) ==> r is Err
            &&& (forall|k: int|
                0 <= k < params.encrypted_cards@.len()
                    ==> opened(#[trigger] params.encrypted_cards@[k]) < 52) ==> (r matches Ok(
                cards,
            ) && cards@.len() == params.encrypted_cards@.len() && forall|k: int|
                0 <= k < cards@.len() ==> reveals_as(params.encrypted_cards@[k], #[trigger] cards@[k]))
        },
{
    let n = params.encrypted_cards.len();
    if !params.is_showdown {
        let mut k: usize = 0;
        while k < n
            invariant
                k <= n == params.encrypted_cards@.len(),
                !params.is_showdown,
                forall|j: int|
                    0 <= j < k ==> (#[trigger] params.encrypted_cards@[j]).owner.bytes@
                        == params.requester.bytes@,
            decreases n - k,
        {
            if !params.requester.same_as(&params.encrypted_cards[k].owner) {
                assert(params.encrypted_cards@[k as int].owner.bytes@ != params.requester.bytes@);
                return Err(PokerError::InvalidAction);
            }
            k = k + 1;
        }
    }
    let mut revealed: Vec<Card> = Vec::new();
    let mut k: usize = 0;
    while k < n
        invariant
            k <= n == params.encrypted_cards@.len(),
            revealed@.len() == k,
            params.is_showdown || forall|j: int|
                0 <= j < n ==> (#[trigger] params.encrypted_cards@[j]).owner.bytes@
                    == params.requester.bytes@,
            forall|j: int|
                0 <= j < k ==> opened(#[trigger] params.encrypted_cards@[j]) < 52,
            forall|j: int|
                0 <= j < k ==> reveals_as(params.encrypted_cards@[j], #[trigger] revealed@[j]),
        decreases n - k,
    {
        let card = params.encrypted_cards[k];
        match decrypt_card(&card) {
            Ok(c) => {
                revealed.push(c);
            },
            Err(e) => {
                return Err(e);
            },
        }
        k = k + 1;
    }
    Ok(revealed)
}

/// Reveals one card; see `mpc_reveal_card_with_mxe`.
pub fn mpc_reveal_card(params: RevealParams) -> (r: Result<Card, PokerError>)
    ensures
        !params.is_showdown && params.encrypted_card.owner.bytes@ != params.requester.bytes@ ==> r
            == Err::<Card, PokerError>(PokerError::InvalidAction),
        (params.is_showdown || params.encrypted_card.owner.bytes@ == params.requester.bytes@)
            && opened(params.encrypted_card) >= 52 ==> r is Err,
        (params.is_showdown || params.encrypted_card.owner.bytes@ == params.requester.bytes@)
            && opened(params.encrypted_card) < 52 ==> (r matches Ok(c) && reveals_as(params.encrypted_card, c)),
{
    let mut cards: Vec<EncryptedCard> = Vec::new();
    cards.push(params.encrypted_card);
    let batch = MxeRevealParams {
        encrypted_cards: cards,
        requester: params.requester,
        session_id: params.session_id,
        computation_offset: [0;8],
        is_showdown: params.is_showdown,
    };
    assert(batch.encrypted_cards@[0] == params.encrypted_card);
    let mut revealed = mpc_reveal_card_with_mxe(batch)?;
    Ok(revealed.remove(0))
}

/// Reveals several cards at showdown.
pub fn mpc_reveal_cards(cards: &Vec<EncryptedCard>, requester: Pubkey, session_id: [u8; 32]) -> (r: Result<Vec<Card>, PokerError>)
    ensures
        (exists|k: int| 0 <= k < cards@.len() && opened(#[trigger] cards@[k]) >= 52)
            ==> r is Err,
        (forall|k: int| 0 <= k < cards@.len() ==> opened(#[trigger] cards@[k]) < 52)
            ==> (r matches Ok(v) && v@.len() == cards@.len() && forall|k: int|
            0 <= k < v@.len() ==> reveals_as(cards@[k], #[trigger] v@[k])),
{
    let mut revealed: Vec<Card> = Vec::new();
    let mut k: usize = 0;
    while k < cards.len()
        invariant
            k <= cards@.len(),
            revealed@.len() == k,
            forall|j: int| 0 <= j < k ==> opened(#[trigger] cards@[j]) < 52,
            forall|j: int| 0 <= j < k ==> reveals_as(cards@[j], #[trigger] revealed@[j]),
        decreases cards@.len() - k,
    {
        let params = RevealParams { encrypted_card: cards[k], requester, session_id, is_showdown: true };
        let c = mpc_reveal_card(params)?;
        revealed.push(c);
        k = k + 1;
    }
    Ok(revealed)
}

/// Checks a revealed card against its commitment: the suit and pip value,
/// with up to 30 bytes of the proof mixed in after them, must equal the
/// commitment. An empty proof is refused.
pub fn verify_reveal(revealed_card: &Card, stored_commitment: &[u8; 32], reveal_proof: &Vec<u8>) -> (r: Result<bool, PokerError>)
    ensures
        reveal_proof@.len() == 0 ==> r == Err::<bool, PokerError>(PokerError::EncryptionFailed),
        reveal_proof@.len() > 0 ==> r == Ok::<bool, PokerError>(
            reveal_commitment(*revealed_card, reveal_proof@) == stored_commitment@,
        ),
{
    if reveal_proof.len() == 0 {
        return Err(PokerError::EncryptionFailed);
    }
    let mut revealed_commitment = [0u8;32];
    revealed_commitment[0] = suit_byte(revealed_card);
    revealed_commitment[1] = revealed_card.rank.value();
    let mut i: usize = 0;
    while i < 30 && i < reveal_proof.len()
        invariant
            i <= 30,
            i <= reveal_proof@.len(),
            revealed_commitment@[0] == revealed_card.suit.spec_index(),
            revealed_commitment@[1] == revealed_card.rank.spec_value(),
            forall|j: int|
                2 <= j < 32 ==> #[trigger] revealed_commitment@[j] == if j - 2 < i {
                    reveal_proof@[j - 2]
                } else {
                    0u8
                },
        decreases 30 - i,
    {
        let b = reveal_proof[i];
        assert(0u8 ^ b == b) by (bit_vector);
        revealed_commitment[i + 2] = revealed_commitment[i + 2] ^ b;
        i = i + 1;
    }
    assert(revealed_commitment@ =~= reveal_commitment(*revealed_card, reveal_proof@));
    let mut k: usize = 0;
    while k < 32
        invariant
            k <= 32,
            reveal_proof@.len() > 0,
            revealed_commitment@ == reveal_commitment(*revealed_card, reveal_proof@),
            forall|j: int| 0 <= j < k ==> revealed_commitment@[j] == stored_commitment@[j],
        decreases 32 - k,
    {
        if revealed_commitment[k] != stored_commitment[k] {
            assert(revealed_commitment@[k as int] != stored_commitment@[k as int]);
            return Ok(false);
        }
        k = k + 1;
    }
    assert(revealed_commitment@ =~= stored_commitment@);
    Ok(true)
}

/// The commitment a revealed card must match: suit, pip value, then the
/// first 30 bytes of the proof, zeros after a shorter proof.
pub open spec fn reveal_commitment(card: Card, proof: Seq<u8>) -> Seq<u8> {
    Seq::new(
        32,
        |j: int|
            if j == 0 {
                card.suit.spec_index() as u8
            } else if j == 1 {
                card.rank.spec_value() as u8
            } else if j - 2 < proof.len() {
                proof[j - 2]
            } else {
                0u8
            },
    )
}

fn suit_byte(card: &Card) -> (r: u8)
    ensures
        r as int == card.suit.spec_index(),
{
    match card.suit {
        crate::types::Suit::Hearts => 0,
        crate::types::Suit::Diamonds => 1,
        crate::types::Suit::Clubs => 2,
        crate::types::Suit::Spades => 3,
    }
}

// ---------------------------------------------------------------------------
// Request framing
// ---------------------------------------------------------------------------

/// Appends every byte of `src` to `dst`.
fn append_bytes(dst: &mut Vec<u8>, src: &[u8])
    ensures
        final(dst)@ == old(dst)@ + src@,
{
    let mut i: usize = 0;
    while i < src.len()
        invariant
            i <= src@.len(),
            dst@ == old(dst)@ + src@.subrange(0, i as int),
        decreases src@.len() - i,
    {
        dst.push(src[i]);
        i = i + 1;
    }
    assert(src@.subrange(0, src@.len() as int) =~= src@);
}

/// The 32-byte inputs of a request, one after another.
pub open spec fn flatten(inputs: Seq<[u8; 32]>) -> Seq<u8>
    decreases inputs.len(),
{
    if inputs.len() == 0 {
        Seq::empty()
    } else {
        flatten(inputs.drop_last()) + inputs.last()@
    }
}

/// Request for a shuffle computation: the instruction index, the
/// computation offset, then every encrypted input.
pub fn create_mxe_instruction(ix_index: u8, encrypted_inputs: &Vec<[u8; 32]>, computation_offset: [u8; 8]) -> (r: Vec<u8>)
    ensures
        r@ == seq![ix_index] + computation_offset@ + flatten(encrypted_inputs@),
{
    let mut data: Vec<u8> = Vec::new();
    data.push(ix_index);
    append_bytes(&mut data, computation_offset.as_slice());
    let mut k: usize = 0;
    while k < encrypted_inputs.len()
        invariant
            k <= encrypted_inputs@.len(),
            data@ == seq![ix_index] + computation_offset@ + flatten(encrypted_inputs@.subrange(0, k as int)),
        decreases encrypted_inputs@.len() - k,
    {
        let input = encrypted_inputs[k];
        append_bytes(&mut data, input.as_slice());
        assert(encrypted_inputs@.subrange(0, k as int + 1).drop_last() =~= encrypted_inputs@.subrange(0, k as int));
        k = k + 1;
    }
    assert(encrypted_inputs@.subrange(0, encrypted_inputs@.len() as int) =~= encrypted_inputs@);
    data
}

/// Request for a deal computation: the instruction index, the computation
/// offset, the shuffled deck's session, then the card index.
pub fn create_deal_instruction(ix_index: u8, shuffled_deck: [u8; 32], card_index: u8, computation_offset: [u8; 8]) -> (r: Vec<u8>)
    ensures
        r@ == seq![ix_index] + computation_offset@ + shuffled_deck@ + seq![card_index],
{
    let mut data: Vec<u8> = Vec::new();
    data.push(ix_index);
    append_bytes(&mut data, computation_offset.as_slice());
    append_bytes(&mut data, shuffled_deck.as_slice());
    data.push(card_index);
    data
}

/// Request for a reveal computation: the instruction index, the
/// computation offset, then each card's encrypted index.
pub fn create_reveal_instruction(ix_index: u8, encrypted_cards: &Vec<EncryptedCard>, computation_offset: [u8; 8]) -> (r: Vec<u8>)
    ensures
        r@.len() == 9 + encrypted_cards@.len(),
        r@.subrange(0, 9) == seq![ix_index] + computation_offset@,
        forall|k: int| 0 <= k < encrypted_cards@.len() ==> #[trigger] r@[9 + k] == encrypted_cards@[k].encrypted_index,
{
    let mut data: Vec<u8> = Vec::new();
    data.push(ix_index);
    append_bytes(&mut data, computation_offset.as_slice());
    let ghost head = data@;
    assert(head =~= seq![ix_index] + computation_offset@);
    let mut k: usize = 0;
    while k < encrypted_cards.len()
        invariant
            k <= encrypted_cards@.len(),
            data@.len() == 9 + k,
            head.len() == 9,
            data@.subrange(0, 9) == head,
            forall|j: int| 0 <= j < k ==> #[trigger] data@[9 + j] == encrypted_cards@[j].encrypted_index,
        decreases encrypted_cards@.len() - k,
    {
        data.push(encrypted_cards[k].encrypted_index);
        assert(data@.subrange(0, 9) =~= head);
        k = k + 1;
    }
    data
}

/// Nonce of a game's requests: the game id, little-endian, then zeros.
pub fn generate_nonce(game_id: u64) -> (r: [u8; 16])
    ensures
        forall|i: int| 0 <= i < 8 ==> #[trigger] r@[i] == le_byte(game_id, i),
        forall|i: int| 8 <= i < 16 ==> #[trigger] r@[i] == 0,
{
    let mut nonce = [0u8;16];
    let game_bytes = game_id_bytes(game_id);
    let mut i: usize = 0;
    while i < 8
        invariant
            i <= 8,
            forall|j: int| 0 <= j < 8 ==> #[trigger] game_bytes@[j] == le_byte(game_id, j),
            forall|j: int| 0 <= j < i ==> #[trigger] nonce@[j] == le_byte(game_id, j),
            forall|j: int| 8 <= j < 16 ==> #[trigger] nonce@[j] == 0,
        decreases 8 - i,
    {
        nonce[i] = game_bytes[i];
        i = i + 1;
    }
    nonce
}

/// Nonce of one player's contribution: the game's nonce with the player's
/// position in byte 8.
pub fn generate_player_nonce(game_id: u64, player_index: u8) -> (r: [u8; 16])
    ensures
        forall|i: int| 0 <= i < 8 ==> #[trigger] r@[i] == le_byte(game_id, i),
        r@[8] == player_index,
        forall|i: int| 9 <= i < 16 ==> #[trigger] r@[i] == 0,
{
    let mut nonce = generate_nonce(game_id);
    nonce[8] = player_index;
    nonce
}

/// Nonce of a deal: the game id, the card index, then a deal marker (1).
pub fn generate_deal_nonce(game_id: u64, card_index: u8) -> (r: [u8; 16])
    ensures
        forall|i: int| 0 <= i < 8 ==> #[trigger] r@[i] == le_byte(game_id, i),
        r@[8] == card_index,
        r@[9] == 1,
        forall|i: int| 10 <= i < 16 ==> #[trigger] r@[i] == 0,
{
    let mut nonce = generate_nonce(game_id);
    nonce[8] = card_index;
    nonce[9] = 0x01;
    nonce
}

/// Nonce of a reveal: the first eight bytes of the session, the card index,
/// then a reveal marker (2).
pub fn generate_reveal_nonce(session_id: &[u8; 32], card_index: u8) -> (r: [u8; 16])
    ensures
        forall|i: int| 0 <= i < 8 ==> #[trigger] r@[i] == session_id@[i],
        r@[8] == card_index,
        r@[9] == 2,
        forall|i: int| 10 <= i < 16 ==> #[trigger] r@[i] == 0,
{
    let mut nonce = [0u8;16];
    let mut i: usize = 0;
    while i < 8
        invariant
            i <= 8,
            forall|j: int| 0 <= j < i ==> #[trigger] nonce@[j] == session_id@[j],
            forall|j: int| 8 <= j < 16 ==> #[trigger] nonce@[j] == 0,
        decreases 8 - i,
    {
        nonce[i] = session_id[i];
        i = i + 1;
    }
    nonce[8] = card_index;
    nonce[9] = 0x02;
    nonce
}

} // verus!
