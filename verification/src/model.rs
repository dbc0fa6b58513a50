//! The Data Encryption Standard (FIPS 46-3) and its ECB and CBC modes, as
//! mathematical functions on bit strings and byte strings. The executable
//! functions of the library are proved against these definitions.
use crate::bits::{bit_value, byte_bit, from_bits, to_bits, xor_bits, xor_bytes};
use crate::easydes::Des;
use crate::tables::{
    E_TABLE, FP_TABLE, IP_TABLE, KEY_SHIFTS, PC1_TABLE, PC2_TABLE, P_TABLE, S_BOXES,
};
use vstd::prelude::*;

verus! {

/// The bits of `src` chosen by a permutation table whose entries count from 1.
pub open spec fn permute(src: Seq<bool>, table: Seq<u8>) -> Seq<bool> {
    Seq::new(table.len(), |k: int| src[table[k] - 1])
}

/// `s` rotated left by `n` places.
pub open spec fn rotate_left(s: Seq<bool>, n: int) -> Seq<bool> {
    s.subrange(n, s.len() as int) + s.subrange(0, n)
}

/// The halves C_n and D_n of the key schedule (only the first 8 key bytes count).
pub open spec fn key_halves(key: Seq<u8>, n: nat) -> (Seq<bool>, Seq<bool>)
    decreases n,
{
    if n == 0 {
        let cd = permute(to_bits(key), PC1_TABLE@);
        (cd.subrange(0, 28), cd.subrange(28, 56))
    } else {
        let (c, d) = key_halves(key, (n - 1) as nat);
        let s = KEY_SHIFTS@[n - 1] as int;
        (rotate_left(c, s), rotate_left(d, s))
    }
}

/// The 48-bit round key K_n (1 <= n <= 16).
pub open spec fn round_key(key: Seq<u8>, n: nat) -> Seq<bool> {
    let (c, d) = key_halves(key, n);
    permute(c + d, PC2_TABLE@)
}

/// The round keys K_1 .. K_16, in the order that encryption uses them.
pub open spec fn key_schedule(key: Seq<u8>) -> Seq<Seq<bool>> {
    Seq::new(16, |i: int| round_key(key, (i + 1) as nat))
}

/// The row of an S-box that a group of six bits selects: its outer bits.
pub open spec fn sbox_row(g: Seq<bool>) -> int {
    2 * bit_value(g[0]) + bit_value(g[5])
}

/// The column of an S-box that a group of six bits selects: its inner bits.
pub open spec fn sbox_col(g: Seq<bool>) -> int {
    8 * bit_value(g[1]) + 4 * bit_value(g[2]) + 2 * bit_value(g[3]) + bit_value(g[4])
}

/// The four bits that S-box `i` gives for the six bits `g`.
pub open spec fn sbox_bits(i: int, g: Seq<bool>) -> Seq<bool> {
    let v = S_BOXES@[i]@[sbox_row(g)]@[sbox_col(g)];
    Seq::new(4, |t: int| byte_bit(v, 4 + t))
}

/// The eight S-boxes side by side: 48 bits in, 32 bits out.
pub open spec fn sbox_layer(x: Seq<bool>) -> Seq<bool> {
    Seq::new(32, |p: int| sbox_bits(p / 4, x.subrange(6 * (p / 4), 6 * (p / 4) + 6))[p % 4])
}

/// The cipher function f(R, K) of one round.
pub open spec fn cipher_f(r: Seq<bool>, k: Seq<bool>) -> Seq<bool> {
    permute(sbox_layer(xor_bits(permute(r, E_TABLE@), k)), P_TABLE@)
}

/// The Feistel rounds: (L, R) becomes (R, L xor f(R, K)) for each key K in turn.
pub open spec fn rounds(l: Seq<bool>, r: Seq<bool>, keys: Seq<Seq<bool>>) -> (Seq<bool>, Seq<bool>)
    decreases keys.len(),
{
    if keys.len() == 0 {
        (l, r)
    } else {
        rounds(r, xor_bits(l, cipher_f(r, keys[0])), keys.drop_first())
    }
}

/// One 64-bit block through IP, the rounds with `keys`, the swap, and IP^-1.
pub open spec fn des_bits(block: Seq<bool>, keys: Seq<Seq<bool>>) -> Seq<bool> {
    let x = permute(block, IP_TABLE@);
    let (l, r) = rounds(x.subrange(0, 32), x.subrange(32, 64), keys);
    permute(r + l, FP_TABLE@)
}

/// The round keys in the order that `direction` uses them: decryption uses them backwards.
pub open spec fn direction_keys(key: Seq<u8>, direction: Des) -> Seq<Seq<bool>> {
    match direction {
        Des::Encrypt => key_schedule(key),
        Des::Decrypt => key_schedule(key).reverse(),
    }
}

/// DES on one 8-byte block.
#[verifier::opaque]
pub open spec fn des_block(key: Seq<u8>, block: Seq<u8>, direction: Des) -> Seq<u8> {
    from_bits(des_bits(to_bits(block), direction_keys(key, direction)))
}

/// DES with a fixed key and direction, as a function on blocks.
pub open spec fn des_cipher(key: Seq<u8>, direction: Des) -> spec_fn(Seq<u8>) -> Seq<u8> {
    |b: Seq<u8>| des_block(key, b, direction)
}

/// Applying `des_cipher` is `des_block`.
pub proof fn lemma_des_cipher_apply(key: Seq<u8>, direction: Des, b: Seq<u8>)
    ensures
        des_cipher(key, direction)(b) == des_block(key, b, direction),
{
}

/// Applying `ede_encrypt` and `ede_decrypt` is three applications of `des_block`.
pub proof fn lemma_ede_apply(k1: Seq<u8>, k2: Seq<u8>, k3: Seq<u8>, b: Seq<u8>)
    ensures
        ede_encrypt(k1, k2, k3)(b) == des_block(
            k3,
            des_block(k2, des_block(k1, b, Des::Encrypt), Des::Decrypt),
            Des::Encrypt,
        ),
        ede_decrypt(k1, k2, k3)(b) == des_block(
            k1,
            des_block(k2, des_block(k3, b, Des::Decrypt), Des::Encrypt),
            Des::Decrypt,
        ),
{
}

/// Encryption with `k1`, decryption with `k2`, encryption with `k3` (triple DES, EDE).
pub open spec fn ede_encrypt(k1: Seq<u8>, k2: Seq<u8>, k3: Seq<u8>) -> spec_fn(Seq<u8>) -> Seq<u8> {
    |b: Seq<u8>|
        des_block(k3, des_block(k2, des_block(k1, b, Des::Encrypt), Des::Decrypt), Des::Encrypt)
}

/// The inverse order: decryption with `k3`, encryption with `k2`, decryption with `k1`.
pub open spec fn ede_decrypt(k1: Seq<u8>, k2: Seq<u8>, k3: Seq<u8>) -> spec_fn(Seq<u8>) -> Seq<u8> {
    |b: Seq<u8>|
        des_block(k1, des_block(k2, des_block(k3, b, Des::Decrypt), Des::Encrypt), Des::Decrypt)
}

/// `data` followed by zero bytes up to the next multiple of 8 (nothing when it is one already).
pub open spec fn pad(data: Seq<u8>) -> Seq<u8> {
    if data.len() % 8 == 0 {
        data
    } else {
        data + Seq::new((8 - data.len() % 8) as nat, |i: int| 0u8)
    }
}

/// Padding gives a whole number of blocks, and nothing only from nothing.
pub proof fn lemma_pad_len(data: Seq<u8>)
    ensures
        pad(data).len() % 8 == 0,
        pad(data).len() == 0 <==> data.len() == 0,
        data.len() <= pad(data).len() < data.len() + 8,
{
    let n = data.len();
    assert((n + (8 - n % 8)) % 8 == 0) by (nonlinear_arith)
        requires
            n >= 0,
    ;
}

/// Block `i` (bytes `8 * i .. 8 * i + 8`) of `data`.
pub open spec fn block_at(data: Seq<u8>, i: int) -> Seq<u8> {
    data.subrange(8 * i, 8 * i + 8)
}

/// Electronic codebook: each block of `data` through `cipher` on its own.
pub open spec fn ecb(cipher: spec_fn(Seq<u8>) -> Seq<u8>, data: Seq<u8>) -> Seq<u8> {
    Seq::new(data.len(), |p: int| cipher(block_at(data, p / 8))[p % 8])
}

/// The value that block `i` is combined with in CBC: the IV, then the previous ciphertext block.
pub open spec fn cbc_chain(cipher: spec_fn(Seq<u8>) -> Seq<u8>, iv: Seq<u8>, data: Seq<u8>, i: nat) -> Seq<u8>
    decreases i,
{
    if i == 0 {
        iv.subrange(0, 8)
    } else {
        cipher(xor_bytes(block_at(data, i - 1), cbc_chain(cipher, iv, data, (i - 1) as nat)))
    }
}

/// Block `i` of the plaintext combined with its chaining value.
pub open spec fn cbc_whitened_block(
    cipher: spec_fn(Seq<u8>) -> Seq<u8>,
    iv: Seq<u8>,
    data: Seq<u8>,
    i: int,
) -> Seq<u8> {
    xor_bytes(block_at(data, i), cbc_chain(cipher, iv, data, i as nat))
}

/// All plaintext blocks combined with their chaining values.
pub open spec fn cbc_whitened(cipher: spec_fn(Seq<u8>) -> Seq<u8>, iv: Seq<u8>, data: Seq<u8>) -> Seq<u8> {
    Seq::new(data.len(), |p: int| cbc_whitened_block(cipher, iv, data, p / 8)[p % 8])
}

/// CBC encryption: C_i = cipher(P_i xor C_(i-1)), with C_(-1) the IV.
pub open spec fn cbc_encrypt(cipher: spec_fn(Seq<u8>) -> Seq<u8>, iv: Seq<u8>, data: Seq<u8>) -> Seq<u8> {
    Seq::new(data.len(), |p: int| cipher(cbc_whitened_block(cipher, iv, data, p / 8))[p % 8])
}

/// The block that CBC decryption combines with block `i`: the IV, then the previous ciphertext block.
pub open spec fn cbc_previous(iv: Seq<u8>, data: Seq<u8>, i: int) -> Seq<u8> {
    if i == 0 {
        iv.subrange(0, 8)
    } else {
        block_at(data, i - 1)
    }
}

/// CBC decryption: P_i = decipher(C_i) xor C_(i-1), with C_(-1) the IV.
pub open spec fn cbc_decrypt(decipher: spec_fn(Seq<u8>) -> Seq<u8>, iv: Seq<u8>, data: Seq<u8>) -> Seq<u8> {
    Seq::new(
        data.len(),
        |p: int| xor_bytes(decipher(block_at(data, p / 8)), cbc_previous(iv, data, p / 8))[p % 8],
    )
}

/// The round keys held by a key table, one row of six bytes per round.
pub open spec fn table_keys(table: Seq<[u8; 6]>) -> Seq<Seq<bool>> {
    Seq::new(table.len(), |i: int| to_bits(table[i]@))
}

/// The round keys of a key table in the order that `direction` uses them.
pub open spec fn table_keys_for(table: Seq<[u8; 6]>, direction: Des) -> Seq<Seq<bool>> {
    match direction {
        Des::Encrypt => table_keys(table),
        Des::Decrypt => table_keys(table).reverse(),
    }
}

/// One more round after the others: the last key of `keys.push(k)` acts last.
pub proof fn lemma_rounds_push(l: Seq<bool>, r: Seq<bool>, keys: Seq<Seq<bool>>, k: Seq<bool>)
    ensures
        ({
            let (l1, r1) = rounds(l, r, keys);
            rounds(l, r, keys.push(k)) == (r1, xor_bits(l1, cipher_f(r1, k)))
        }),
    decreases keys.len(),
{
    if keys.len() == 0 {
        let rest = keys.push(k).drop_first();
        assert(rest =~= keys);
        assert(keys.push(k)[0] == k);
        let x = xor_bits(l, cipher_f(r, k));
        assert(rounds(r, x, rest) == (r, x));
        assert(rounds(l, r, keys) == (l, r));
    } else {
        assert(keys.push(k)[0] == keys[0]);
        assert(keys.push(k).drop_first() =~= keys.drop_first().push(k));
        lemma_rounds_push(r, xor_bits(l, cipher_f(r, keys[0])), keys.drop_first(), k);
        assert(rounds(l, r, keys.push(k)) == rounds(
            r,
            xor_bits(l, cipher_f(r, keys[0])),
            keys.push(k).drop_first(),
        ));
    }
}

/// The rounds keep both halves at 32 bits.
pub proof fn lemma_rounds_len(l: Seq<bool>, r: Seq<bool>, keys: Seq<Seq<bool>>)
    requires
        l.len() == 32,
        r.len() == 32,
    ensures
        rounds(l, r, keys).0.len() == 32,
        rounds(l, r, keys).1.len() == 32,
    decreases keys.len(),
{
    if keys.len() > 0 {
        lemma_rounds_len(r, xor_bits(l, cipher_f(r, keys[0])), keys.drop_first());
    }
}

} // verus!
