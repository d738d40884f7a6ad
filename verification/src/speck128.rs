//! Speck 128/128: a 32-round ARX block cipher over a pair of 64-bit words.

use vstd::prelude::*;
use vstd::wrapping::u64_specs;
use crate::{Block, Key};

verus! {

/// Number of cipher rounds.
pub const ROUNDS: usize = 32;

/// Rotate a 64-bit word right by 8 bits.
pub open spec fn ror8(x: u64) -> u64 {
    (x >> 8) | (x << 56)
}

/// Rotate a 64-bit word left by 8 bits.
pub open spec fn rol8(x: u64) -> u64 {
    (x << 8) | (x >> 56)
}

/// Rotate a 64-bit word right by 3 bits.
pub open spec fn ror3(x: u64) -> u64 {
    (x >> 3) | (x << 61)
}

/// Rotate a 64-bit word left by 3 bits.
pub open spec fn rol3(x: u64) -> u64 {
    (x << 3) | (x >> 61)
}

/// One forward round on the pair `m` with subkey `k`:
/// `m.0 <- ROTR(m.0, 8) + m.1 XOR k; m.1 <- ROTL(m.1, 3) XOR m.0`.
pub open spec fn enc_round(m: (u64, u64), k: u64) -> (u64, u64) {
    let a = u64_specs::wrapping_add(ror8(m.0), m.1) ^ k;
    let b = rol3(m.1) ^ a;
    (a, b)
}

/// One inverse round on the pair `m` with subkey `k`.
pub open spec fn dec_round(m: (u64, u64), k: u64) -> (u64, u64) {
    let b = ror3(m.1 ^ m.0);
    let a = rol8(u64_specs::wrapping_sub(m.0 ^ k, b));
    (a, b)
}

/// Key-schedule state after `i` rounds, as the pair `(a, b)`; `b` is the
/// subkey of the next round. Starts from `(key[1], key[0])` and advances by a
/// forward round with the round index as subkey.
pub open spec fn key_state(key: Key, i: nat) -> (u64, u64)
    decreases i,
{
    if i == 0 {
        (key[1], key[0])
    } else {
        enc_round(key_state(key, (i - 1) as nat), (i - 1) as u64)
    }
}

/// Subkey used in round `i`.
pub open spec fn round_key(key: Key, i: nat) -> u64 {
    key_state(key, i).1
}

/// Message state after the first `i` forward rounds.
pub open spec fn enc_state(m: (u64, u64), key: Key, i: nat) -> (u64, u64)
    decreases i,
{
    if i == 0 {
        m
    } else {
        enc_round(enc_state(m, key, (i - 1) as nat), round_key(key, (i - 1) as nat))
    }
}

/// Cipher state after undoing the last `j` rounds of a 32-round encryption.
pub open spec fn dec_state(c: (u64, u64), key: Key, j: nat) -> (u64, u64)
    decreases j,
{
    if j == 0 {
        c
    } else {
        dec_round(dec_state(c, key, (j - 1) as nat), round_key(key, (32 - j) as nat))
    }
}

/// The full 32-round encryption of a block.
pub open spec fn speck_encrypt(block: Block, key: Key) -> Block {
    let m = enc_state((block[0], block[1]), key, 32);
    [m.0, m.1]
}

/// The full 32-round decryption of a block.
pub open spec fn speck_decrypt(block: Block, key: Key) -> Block {
    let m = dec_state((block[0], block[1]), key, 32);
    [m.0, m.1]
}

/// The inverse round undoes the forward round.
proof fn lemma_dec_round_enc_round(m: (u64, u64), k: u64)
    ensures
        dec_round(enc_round(m, k), k) == m,
{
    let x = m.0;
    let y = m.1;
    // XOR by the same word twice is the identity.
    assert(forall|p: u64, q: u64| ((p ^ q) ^ q) == p) by (bit_vector);
    // Rotating left then right by the same amount is the identity.
    assert(((y << 3 | y >> 61) >> 3) | ((y << 3 | y >> 61) << 61) == y) by (bit_vector);
    assert((((x >> 8 | x << 56) << 8) | ((x >> 8 | x << 56) >> 56)) == x) by (bit_vector);
}

/// Wrapping subtraction undoes wrapping addition.
proof fn lemma_wrapping_add_sub(u: u64, v: u64)
    ensures
        u64_specs::wrapping_sub(u64_specs::wrapping_add(u, v), v) == u,
{
}

/// Undoing `j` rounds of a full encryption lands on the state after `32 - j`
/// forward rounds.
proof fn lemma_dec_state_enc_state(m: (u64, u64), key: Key, j: nat)
    requires
        j <= 32,
    ensures
        dec_state(enc_state(m, key, 32), key, j) == enc_state(m, key, (32 - j) as nat),
    decreases j,
{
    if j > 0 {
        lemma_dec_state_enc_state(m, key, (j - 1) as nat);
        let i = (32 - j) as nat;
        lemma_dec_round_enc_round(enc_state(m, key, i), round_key(key, i));
    }
}

/// Decryption inverts encryption: for every block and key,
/// `speck_decrypt(speck_encrypt(block, key), key) == block`.
pub proof fn lemma_cipher_round_trip(block: Block, key: Key)
    ensures
        speck_decrypt(speck_encrypt(block, key), key) == block,
{
    lemma_dec_state_enc_state((block[0], block[1]), key, 32);
}

/// Encrypts a block with the given key.
pub fn encrypt(block: Block, key: &Key) -> (r: Block)
    ensures
        r == speck_encrypt(block, *key),
{
    let mut y = block[0];
    let mut x = block[1];
    let mut b = key[0];
    let mut a = key[1];
    let mut i: usize = 0;
    while i < ROUNDS
        invariant
            i <= 32,
            (y, x) == enc_state((block[0], block[1]), *key, i as nat),
            (a, b) == key_state(*key, i as nat),
        decreases 32 - i,
    {
        let ny = ((y >> 8) | (y << 56)).wrapping_add(x) ^ b;
        let nx = ((x << 3) | (x >> 61)) ^ ny;
        y = ny;
        x = nx;
        let na = ((a >> 8) | (a << 56)).wrapping_add(b) ^ (i as u64);
        let nb = ((b << 3) | (b >> 61)) ^ na;
        a = na;
        b = nb;
        i = i + 1;
    }
    [y, x]
}

/// Decrypts a block with the given key.
pub fn decrypt(block: Block, key: &Key) -> (r: Block)
    ensures
        r == speck_decrypt(block, *key),
{
    let mut round_keys = [0u64; 32];
    let mut b = key[0];
    let mut a = key[1];
    let mut i: usize = 0;
    while i < ROUNDS
        invariant
            i <= 32,
            (a, b) == key_state(*key, i as nat),
            forall|j: int| 0 <= j < i ==> round_keys@[j] == round_key(*key, j as nat),
        decreases 32 - i,
    {
        round_keys[i] = b;
        let na = ((a >> 8) | (a << 56)).wrapping_add(b) ^ (i as u64);
        let nb = ((b << 3) | (b >> 61)) ^ na;
        a = na;
        b = nb;
        i = i + 1;
    }
    let mut y = block[0];
    let mut x = block[1];
    let mut i: usize = ROUNDS;
    while i > 0
        invariant
            i <= 32,
            forall|j: int| 0 <= j < 32 ==> round_keys@[j] == round_key(*key, j as nat),
            (y, x) == dec_state((block[0], block[1]), *key, (32 - i) as nat),
        decreases i,
    {
        i = i - 1;
        let k = round_keys[i];
        let nx = ((x ^ y) >> 3) | ((x ^ y) << 61);
        let ny = ((y ^ k).wrapping_sub(nx) << 8) | ((y ^ k).wrapping_sub(nx) >> 56);
        y = ny;
        x = nx;
    }
    [y, x]
}

} // verus!
