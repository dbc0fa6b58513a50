//! Properties of the cipher and its modes that hold for every input.
use crate::bits::{from_bits, lemma_to_bits_from_bits, to_bits, xor_bits, xor_bytes};
use crate::easydes::Des;
use crate::model::{
    block_at, cbc_chain, cbc_whitened, key_halves, cbc_decrypt, cbc_encrypt, cbc_previous, cbc_whitened_block, des_bits,
    des_block, des_cipher, direction_keys, ecb, ede_decrypt, ede_encrypt, key_schedule,
    lemma_des_cipher_apply, lemma_ede_apply, lemma_rounds_push, pad, permute, rotate_left, rounds,
};
use crate::tables::{
    lemma_block_tables_in_range, lemma_fp_inverts_ip, FP_TABLE, IP_TABLE, KEY_SHIFTS, PC1_TABLE,
};
use vstd::prelude::*;

verus! {

/// FP undoes IP and IP undoes FP, on 64-bit blocks.
proof fn lemma_ip_fp_inverse(x: Seq<bool>)
    requires
        x.len() == 64,
    ensures
        permute(permute(x, IP_TABLE@), FP_TABLE@) == x,
        permute(permute(x, FP_TABLE@), IP_TABLE@) == x,
{
    lemma_block_tables_in_range();
    lemma_fp_inverts_ip();
    assert(permute(permute(x, IP_TABLE@), FP_TABLE@) =~= x);
    assert(permute(permute(x, FP_TABLE@), IP_TABLE@) =~= x);
}

/// Exclusive or with the same bits twice changes nothing.
proof fn lemma_xor_bits_twice(a: Seq<bool>, f: Seq<bool>)
    ensures
        xor_bits(xor_bits(a, f), f) == a,
{
    assert(xor_bits(xor_bits(a, f), f) =~= a);
}

/// The Feistel rounds run with the keys reversed, on the swapped halves, undo themselves.
proof fn lemma_rounds_inverse(l: Seq<bool>, r: Seq<bool>, keys: Seq<Seq<bool>>)
    ensures
        ({
            let (l2, r2) = rounds(l, r, keys);
            rounds(r2, l2, keys.reverse()) == (r, l)
        }),
    decreases keys.len(),
{
    let (l2, r2) = rounds(l, r, keys);
    if keys.len() == 0 {
        assert(keys.reverse() =~= keys);
    } else {
        let k = keys[0];
        let rest = keys.drop_first();
        let x = xor_bits(l, crate::model::cipher_f(r, k));
        lemma_rounds_inverse(r, x, rest);
        assert(rounds(l, r, keys) == rounds(r, x, rest));
        assert(keys.reverse() =~= rest.reverse().push(k));
        lemma_rounds_push(r2, l2, rest.reverse(), k);
        lemma_xor_bits_twice(l, crate::model::cipher_f(r, k));
    }
}

/// A 64-bit block through `des_bits`, then through it again with the keys reversed, is unchanged.
proof fn lemma_des_bits_inverse(x: Seq<bool>, keys: Seq<Seq<bool>>)
    requires
        x.len() == 64,
    ensures
        des_bits(des_bits(x, keys), keys.reverse()) == x,
        des_bits(x, keys).len() == 64,
{
    let y = permute(x, IP_TABLE@);
    let l0 = y.subrange(0, 32);
    let r0 = y.subrange(32, 64);
    let lr = rounds(l0, r0, keys);
    let l = lr.0;
    let r = lr.1;
    crate::model::lemma_rounds_len(l0, r0, keys);
    let z = permute(r + l, FP_TABLE@);
    assert(des_bits(x, keys) == z);
    assert(z.len() == 64);
    let y2 = permute(z, IP_TABLE@);
    assert(y2 == r + l) by {
        lemma_ip_fp_inverse(r + l);
    }
    assert(y2.subrange(0, 32) =~= r);
    assert(y2.subrange(32, 64) =~= l);
    let back = rounds(r, l, keys.reverse());
    assert(back == (r0, l0)) by {
        lemma_rounds_inverse(l0, r0, keys);
    }
    assert(des_bits(z, keys.reverse()) == permute(l0 + r0, FP_TABLE@));
    assert(l0 + r0 =~= y);
    assert(permute(y, FP_TABLE@) == x) by {
        lemma_ip_fp_inverse(x);
    }
}

/// DES output is one 8-byte block.
pub proof fn lemma_des_block_len(key: Seq<u8>, block: Seq<u8>, direction: Des)
    ensures
        des_block(key, block, direction).len() == 8,
{
    reveal(des_block);
}

/// Decryption undoes encryption, and encryption undoes decryption, of one
/// 8-byte block under the same key.
pub proof fn law_des_block_round_trip(key: Seq<u8>, block: Seq<u8>)
    requires
        block.len() == 8,
    ensures
        des_block(key, des_block(key, block, Des::Encrypt), Des::Decrypt) == block,
        des_block(key, des_block(key, block, Des::Decrypt), Des::Encrypt) == block,
{
    reveal(des_block);
    let ks = key_schedule(key);
    let x = to_bits(block);
    assert(direction_keys(key, Des::Encrypt) == ks);
    assert(direction_keys(key, Des::Decrypt) == ks.reverse());
    assert(ks.reverse().reverse() =~= ks);
    lemma_des_bits_inverse(x, ks);
    lemma_des_bits_inverse(x, ks.reverse());
    lemma_to_bits_from_bits(des_bits(x, ks));
    lemma_to_bits_from_bits(des_bits(x, ks.reverse()));
    crate::bits::lemma_from_bits_to_bits(block);
}

proof fn lemma_xor_byte_twice(a: u8, c: u8)
    ensures
        (a ^ c) ^ c == a,
        a ^ 0u8 == a,
{
    assert((a ^ c) ^ c == a && a ^ 0u8 == a) by (bit_vector);
}

/// Index arithmetic for whole blocks: byte `p` lies in block `p / 8`, which fits in the data.
proof fn lemma_block_index(p: int, len: int)
    requires
        0 <= p < len,
        len % 8 == 0,
    ensures
        0 <= p / 8,
        8 * (p / 8) + 8 <= len,
        0 <= p % 8 < 8,
        p == 8 * (p / 8) + p % 8,
{
    crate::bits::lemma_split_index(p);
    assert(8 * (p / 8) + 8 <= len) by (nonlinear_arith)
        requires
            p == 8 * (p / 8) + p % 8,
            0 <= p % 8 < 8,
            p < len,
            len % 8 == 0,
            0 <= len,
    ;
}

/// Block `i` of an ECB result is the cipher of block `i` of the data.
pub proof fn lemma_ecb_block(cipher: spec_fn(Seq<u8>) -> Seq<u8>, data: Seq<u8>, i: int)
    requires
        0 <= i,
        8 * i + 8 <= data.len(),
        cipher(block_at(data, i)).len() == 8,
    ensures
        block_at(ecb(cipher, data), i) == cipher(block_at(data, i)),
{
    let e = ecb(cipher, data);
    assert forall|j: int| 0 <= j < 8 implies
        #[trigger] block_at(e, i)[j] == cipher(block_at(data, i))[j] by {
        crate::bits::lemma_div_mod_8(i, j);
    }
    assert(block_at(e, i) =~= cipher(block_at(data, i)));
}

/// ECB with a decipher that undoes the cipher on 8-byte blocks gives the data back.
pub proof fn lemma_ecb_inverse(
    cipher: spec_fn(Seq<u8>) -> Seq<u8>,
    decipher: spec_fn(Seq<u8>) -> Seq<u8>,
    data: Seq<u8>,
)
    requires
        data.len() % 8 == 0,
        forall|b: Seq<u8>| b.len() == 8 ==> #[trigger] cipher(b).len() == 8,
        forall|b: Seq<u8>| b.len() == 8 ==> #[trigger] decipher(cipher(b)) == b,
    ensures
        ecb(decipher, ecb(cipher, data)) == data,
{
    let c = ecb(cipher, data);
    assert forall|p: int| 0 <= p < data.len() implies #[trigger] ecb(decipher, c)[p] == data[p] by {
        lemma_block_index(p, data.len() as int);
        let i = p / 8;
        lemma_ecb_block(cipher, data, i);
        assert(block_at(data, i).len() == 8);
        assert(decipher(cipher(block_at(data, i))) == block_at(data, i));
    }
    assert(ecb(decipher, c) =~= data);
}

/// DES encryption followed by DES decryption, both in ECB mode with one key,
/// gives back any whole number of blocks.
pub proof fn law_ecb_round_trip(key: Seq<u8>, data: Seq<u8>)
    requires
        data.len() % 8 == 0,
    ensures
        ecb(des_cipher(key, Des::Decrypt), ecb(des_cipher(key, Des::Encrypt), data)) == data,
        ecb(des_cipher(key, Des::Encrypt), ecb(des_cipher(key, Des::Decrypt), data)) == data,
{
    lemma_des_pair(key, Des::Encrypt, Des::Decrypt);
    lemma_des_pair(key, Des::Decrypt, Des::Encrypt);
    lemma_ecb_inverse(des_cipher(key, Des::Encrypt), des_cipher(key, Des::Decrypt), data);
    lemma_ecb_inverse(des_cipher(key, Des::Decrypt), des_cipher(key, Des::Encrypt), data);
}

/// DES in one direction is undone by DES in the other, as functions on 8-byte blocks.
proof fn lemma_des_pair(key: Seq<u8>, first: Des, second: Des)
    requires
        first != second,
    ensures
        forall|b: Seq<u8>| b.len() == 8 ==> #[trigger] des_cipher(key, first)(b).len() == 8,
        forall|b: Seq<u8>| b.len() == 8 ==>
            #[trigger] des_cipher(key, second)(des_cipher(key, first)(b)) == b,
{
    assert forall|b: Seq<u8>| b.len() == 8 implies
        #[trigger] des_cipher(key, first)(b).len() == 8 by {
        lemma_des_cipher_apply(key, first, b);
        lemma_des_block_len(key, b, first);
    }
    assert forall|b: Seq<u8>| b.len() == 8 implies
        #[trigger] des_cipher(key, second)(des_cipher(key, first)(b)) == b by {
        lemma_des_cipher_apply(key, first, b);
        lemma_des_cipher_apply(key, second, des_block(key, b, first));
        law_des_block_round_trip(key, b);
    }
}

/// Triple DES in ECB mode, as `triple_des_ecb` runs it, is triple DES (EDE) applied to each block.
pub proof fn law_triple_ecb_is_blockwise_ede(k1: Seq<u8>, k2: Seq<u8>, k3: Seq<u8>, data: Seq<u8>)
    requires
        data.len() % 8 == 0,
    ensures
        ecb(
            des_cipher(k3, Des::Encrypt),
            ecb(des_cipher(k2, Des::Decrypt), ecb(des_cipher(k1, Des::Encrypt), data)),
        )
            == ecb(ede_encrypt(k1, k2, k3), data),
        ecb(
            des_cipher(k1, Des::Decrypt),
            ecb(des_cipher(k2, Des::Encrypt), ecb(des_cipher(k3, Des::Decrypt), data)),
        )
            == ecb(ede_decrypt(k1, k2, k3), data),
{
    let e1 = ecb(des_cipher(k1, Des::Encrypt), data);
    let e2 = ecb(des_cipher(k2, Des::Decrypt), e1);
    let e3 = ecb(des_cipher(k3, Des::Encrypt), e2);
    let d1 = ecb(des_cipher(k3, Des::Decrypt), data);
    let d2 = ecb(des_cipher(k2, Des::Encrypt), d1);
    let d3 = ecb(des_cipher(k1, Des::Decrypt), d2);
    assert forall|p: int| 0 <= p < data.len() implies
        #[trigger] e3[p] == ecb(ede_encrypt(k1, k2, k3), data)[p] by {
        lemma_block_index(p, data.len() as int);
        let i = p / 8;
        let b = block_at(data, i);
        lemma_des_cipher_apply(k1, Des::Encrypt, b);
        lemma_des_block_len(k1, b, Des::Encrypt);
        lemma_ecb_block(des_cipher(k1, Des::Encrypt), data, i);
        let b1 = des_block(k1, b, Des::Encrypt);
        lemma_des_cipher_apply(k2, Des::Decrypt, b1);
        lemma_des_block_len(k2, b1, Des::Decrypt);
        lemma_ecb_block(des_cipher(k2, Des::Decrypt), e1, i);
        let b2 = des_block(k2, b1, Des::Decrypt);
        lemma_des_cipher_apply(k3, Des::Encrypt, b2);
        lemma_ede_apply(k1, k2, k3, b);
    }
    assert forall|p: int| 0 <= p < data.len() implies
        #[trigger] d3[p] == ecb(ede_decrypt(k1, k2, k3), data)[p] by {
        lemma_block_index(p, data.len() as int);
        let i = p / 8;
        let b = block_at(data, i);
        lemma_ede_apply(k1, k2, k3, b);
        lemma_des_cipher_apply(k3, Des::Decrypt, b);
        lemma_des_block_len(k3, b, Des::Decrypt);
        lemma_ecb_block(des_cipher(k3, Des::Decrypt), data, i);
        let c1 = des_block(k3, b, Des::Decrypt);
        lemma_des_cipher_apply(k2, Des::Encrypt, c1);
        lemma_des_block_len(k2, c1, Des::Encrypt);
        lemma_ecb_block(des_cipher(k2, Des::Encrypt), d1, i);
        let c2 = des_block(k2, c1, Des::Encrypt);
        lemma_des_cipher_apply(k1, Des::Decrypt, c2);
    }
    assert(e3 =~= ecb(ede_encrypt(k1, k2, k3), data));
    assert(d3 =~= ecb(ede_decrypt(k1, k2, k3), data));
}

/// Triple DES decryption in ECB mode undoes triple DES encryption in ECB mode,
/// with the three keys in the roles that `triple_des_ecb` gives them.
pub proof fn law_triple_ecb_round_trip(k1: Seq<u8>, k2: Seq<u8>, k3: Seq<u8>, data: Seq<u8>)
    requires
        data.len() % 8 == 0,
    ensures
        ecb(
            des_cipher(k1, Des::Decrypt),
            ecb(
                des_cipher(k2, Des::Encrypt),
                ecb(
                    des_cipher(k3, Des::Decrypt),
                    ecb(
                        des_cipher(k3, Des::Encrypt),
                        ecb(des_cipher(k2, Des::Decrypt), ecb(des_cipher(k1, Des::Encrypt), data)),
                    ),
                ),
            ),
        ) == data,
{
    let e1 = ecb(des_cipher(k1, Des::Encrypt), data);
    let e2 = ecb(des_cipher(k2, Des::Decrypt), e1);
    let e3 = ecb(des_cipher(k3, Des::Encrypt), e2);
    law_ecb_round_trip(k3, e2);
    law_ecb_round_trip(k2, e1);
    law_ecb_round_trip(k1, data);
}

/// EDE triple DES decryption undoes EDE triple DES encryption on 8-byte blocks.
proof fn lemma_ede_pair(k1: Seq<u8>, k2: Seq<u8>, k3: Seq<u8>)
    ensures
        forall|b: Seq<u8>| b.len() == 8 ==> #[trigger] ede_encrypt(k1, k2, k3)(b).len() == 8,
        forall|b: Seq<u8>| b.len() == 8 ==>
            #[trigger] ede_decrypt(k1, k2, k3)(ede_encrypt(k1, k2, k3)(b)) == b,
{
    assert forall|b: Seq<u8>| b.len() == 8 implies
        #[trigger] ede_encrypt(k1, k2, k3)(b).len() == 8 by {
        lemma_ede_apply(k1, k2, k3, b);
        let b1 = des_block(k1, b, Des::Encrypt);
        let b2 = des_block(k2, b1, Des::Decrypt);
        lemma_des_block_len(k3, b2, Des::Encrypt);
    }
    assert forall|b: Seq<u8>| b.len() == 8 implies
        #[trigger] ede_decrypt(k1, k2, k3)(ede_encrypt(k1, k2, k3)(b)) == b by {
        lemma_ede_apply(k1, k2, k3, b);
        let b1 = des_block(k1, b, Des::Encrypt);
        let b2 = des_block(k2, b1, Des::Decrypt);
        let b3 = des_block(k3, b2, Des::Encrypt);
        lemma_ede_apply(k1, k2, k3, b3);
        lemma_des_block_len(k1, b, Des::Encrypt);
        lemma_des_block_len(k2, b1, Des::Decrypt);
        law_des_block_round_trip(k3, b2);
        law_des_block_round_trip(k2, b1);
        law_des_block_round_trip(k1, b);
    }
}

/// Block `i` of a CBC ciphertext is the chaining value of block `i + 1`.
proof fn lemma_cbc_block_is_next_chain(
    cipher: spec_fn(Seq<u8>) -> Seq<u8>,
    iv: Seq<u8>,
    data: Seq<u8>,
    i: int,
)
    requires
        0 <= i,
        8 * i + 8 <= data.len(),
        cipher(cbc_whitened_block(cipher, iv, data, i)).len() == 8,
    ensures
        block_at(cbc_encrypt(cipher, iv, data), i) == cipher(cbc_whitened_block(cipher, iv, data, i)),
        cbc_chain(cipher, iv, data, (i + 1) as nat) == cipher(cbc_whitened_block(cipher, iv, data, i)),
{
    let c = cbc_encrypt(cipher, iv, data);
    assert forall|j: int| 0 <= j < 8 implies
        #[trigger] block_at(c, i)[j] == cipher(cbc_whitened_block(cipher, iv, data, i))[j] by {
        crate::bits::lemma_div_mod_8(i, j);
    }
    assert(block_at(c, i) =~= cipher(cbc_whitened_block(cipher, iv, data, i)));
}

/// CBC decryption with a decipher that undoes the cipher on 8-byte blocks gives the data back.
pub proof fn lemma_cbc_inverse(
    cipher: spec_fn(Seq<u8>) -> Seq<u8>,
    decipher: spec_fn(Seq<u8>) -> Seq<u8>,
    iv: Seq<u8>,
    data: Seq<u8>,
)
    requires
        data.len() % 8 == 0,
        data.len() == 0 || iv.len() >= 8,
        forall|b: Seq<u8>| b.len() == 8 ==> #[trigger] cipher(b).len() == 8,
        forall|b: Seq<u8>| b.len() == 8 ==> #[trigger] decipher(cipher(b)) == b,
    ensures
        cbc_decrypt(decipher, iv, cbc_encrypt(cipher, iv, data)) == data,
{
    let c = cbc_encrypt(cipher, iv, data);
    assert forall|p: int| 0 <= p < data.len() implies
        #[trigger] cbc_decrypt(decipher, iv, c)[p] == data[p] by {
        lemma_block_index(p, data.len() as int);
        let i = p / 8;
        let j = p % 8;
        let w = cbc_whitened_block(cipher, iv, data, i);
        let chain = cbc_chain(cipher, iv, data, i as nat);
        assert(w.len() == 8);
        lemma_cbc_block_is_next_chain(cipher, iv, data, i);
        assert(decipher(block_at(c, i)) == w);
        if i > 0 {
            let w0 = cbc_whitened_block(cipher, iv, data, i - 1);
            assert(w0.len() == 8);
            lemma_cbc_block_is_next_chain(cipher, iv, data, i - 1);
            assert(cbc_previous(iv, c, i) == chain);
        } else {
            assert(cbc_previous(iv, c, i) == chain);
        }
        assert(block_at(data, i)[j] == data[p]);
        lemma_xor_byte_twice(data[p], chain[j]);
    }
    assert(cbc_decrypt(decipher, iv, c) =~= data);
}

/// DES decryption in CBC mode undoes DES encryption in CBC mode with the same
/// key and IV, for any whole number of blocks.
pub proof fn law_cbc_round_trip(key: Seq<u8>, iv: Seq<u8>, data: Seq<u8>)
    requires
        data.len() % 8 == 0,
        data.len() == 0 || iv.len() >= 8,
    ensures
        cbc_decrypt(
            des_cipher(key, Des::Decrypt),
            iv,
            cbc_encrypt(des_cipher(key, Des::Encrypt), iv, data),
        )
            == data,
{
    lemma_des_pair(key, Des::Encrypt, Des::Decrypt);
    lemma_cbc_inverse(des_cipher(key, Des::Encrypt), des_cipher(key, Des::Decrypt), iv, data);
}

/// Triple DES (EDE) decryption in CBC mode undoes triple DES encryption in CBC
/// mode with the same keys and IV, for any whole number of blocks.
pub proof fn law_triple_cbc_round_trip(k1: Seq<u8>, k2: Seq<u8>, k3: Seq<u8>, iv: Seq<u8>, data: Seq<u8>)
    requires
        data.len() % 8 == 0,
        data.len() == 0 || iv.len() >= 8,
    ensures
        cbc_decrypt(ede_decrypt(k1, k2, k3), iv, cbc_encrypt(ede_encrypt(k1, k2, k3), iv, data)) == data,
{
    lemma_ede_pair(k1, k2, k3);
    lemma_cbc_inverse(ede_encrypt(k1, k2, k3), ede_decrypt(k1, k2, k3), iv, data);
}

/// With an all-zero IV, CBC encryption of one block is ECB encryption of it;
/// on longer data the first blocks agree.
pub proof fn law_cbc_zero_iv_first_block(key: Seq<u8>, iv: Seq<u8>, data: Seq<u8>)
    requires
        iv.len() >= 8,
        forall|i: int| 0 <= i < 8 ==> #[trigger] iv[i] == 0u8,
        data.len() % 8 == 0,
        data.len() >= 8,
    ensures
        block_at(cbc_encrypt(des_cipher(key, Des::Encrypt), iv, data), 0) == block_at(
            ecb(des_cipher(key, Des::Encrypt), data),
            0,
        ),
        data.len() == 8 ==> cbc_encrypt(des_cipher(key, Des::Encrypt), iv, data) == ecb(
            des_cipher(key, Des::Encrypt),
            data,
        ),
{
    let cipher = des_cipher(key, Des::Encrypt);
    let w = cbc_whitened_block(cipher, iv, data, 0);
    assert forall|j: int| 0 <= j < 8 implies #[trigger] w[j] == block_at(data, 0)[j] by {
        lemma_xor_byte_twice(block_at(data, 0)[j], 0u8);
    }
    assert(w =~= block_at(data, 0));
    lemma_des_cipher_apply(key, Des::Encrypt, w);
    lemma_des_block_len(key, w, Des::Encrypt);
    lemma_cbc_block_is_next_chain(cipher, iv, data, 0);
    lemma_ecb_block(cipher, data, 0);
    if data.len() == 8 {
        let c = cbc_encrypt(cipher, iv, data);
        let e = ecb(cipher, data);
        assert forall|p: int| 0 <= p < 8 implies #[trigger] c[p] == e[p] by {
            assert(block_at(c, 0)[p] == c[p]);
            assert(block_at(e, 0)[p] == e[p]);
        }
        assert(c =~= e);
    }
}

/// Padding keeps the data, appends only zero bytes, fewer than 8 of them,
/// reaches a multiple of 8, and changes nothing when the length is one already.
pub proof fn law_pad_shape(data: Seq<u8>)
    ensures
        pad(data).subrange(0, data.len() as int) == data,
        forall|i: int| data.len() <= i < pad(data).len() ==> #[trigger] pad(data)[i] == 0u8,
        pad(data).len() % 8 == 0,
        data.len() <= pad(data).len() < data.len() + 8,
        data.len() % 8 == 0 ==> pad(data) == data,
{
    crate::model::lemma_pad_len(data);
    assert(pad(data).subrange(0, data.len() as int) =~= data);
}

proof fn lemma_key_halves_prefix(key: Seq<u8>, n: nat)
    requires
        key.len() >= 8,
    ensures
        key_halves(key, n) == key_halves(key.subrange(0, 8), n),
    decreases n,
{
    if n == 0 {
        crate::tables::lemma_key_tables_in_range();
        let short = key.subrange(0, 8);
        assert forall|k: int| 0 <= k < 56 implies #[trigger] permute(to_bits(key), PC1_TABLE@)[k]
            == permute(to_bits(short), PC1_TABLE@)[k] by {
            let e = PC1_TABLE@[k] - 1;
            crate::bits::lemma_split_index(e);
        }
        assert(permute(to_bits(key), PC1_TABLE@) =~= permute(to_bits(short), PC1_TABLE@));
    } else {
        lemma_key_halves_prefix(key, (n - 1) as nat);
    }
}

/// Only the first 8 bytes of a key count: DES with a longer key is DES with those 8 bytes.
pub proof fn law_key_beyond_eight_bytes_ignored(key: Seq<u8>, block: Seq<u8>, direction: Des)
    requires
        key.len() >= 8,
    ensures
        des_block(key, block, direction) == des_block(key.subrange(0, 8), block, direction),
{
    reveal(des_block);
    assert forall|i: int| 0 <= i < 16 implies #[trigger] key_schedule(key)[i] == key_schedule(
        key.subrange(0, 8),
    )[i] by {
        lemma_key_halves_prefix(key, (i + 1) as nat);
    }
    assert(key_schedule(key) =~= key_schedule(key.subrange(0, 8)));
}

/// CBC encryption block by block, for any cipher that gives 8-byte blocks.
proof fn lemma_cbc_encrypt_blocks(
    cipher: spec_fn(Seq<u8>) -> Seq<u8>,
    iv: Seq<u8>,
    data: Seq<u8>,
    i: int,
)
    requires
        0 <= i,
        8 * i + 8 <= data.len(),
        iv.len() >= 8,
        forall|b: Seq<u8>| b.len() == 8 ==> #[trigger] cipher(b).len() == 8,
    ensures
        ({
            let c = cbc_encrypt(cipher, iv, data);
            let x = Seq::new(
                8,
                |j: int|
                    data[8 * i + j] ^ (if i == 0 {
                        iv[j]
                    } else {
                        c[8 * (i - 1) + j]
                    }),
            );
            &&& block_at(c, i) == cipher(x)
            &&& forall|j: int|
                0 <= j < 8 ==> #[trigger] cbc_whitened(cipher, iv, data)[8 * i + j] == x[j]
        }),
{
    let c = cbc_encrypt(cipher, iv, data);
    let x = Seq::new(
        8,
        |j: int|
            data[8 * i + j] ^ (if i == 0 {
                iv[j]
            } else {
                c[8 * (i - 1) + j]
            }),
    );
    let w = cbc_whitened_block(cipher, iv, data, i);
    if i > 0 {
        let w0 = cbc_whitened_block(cipher, iv, data, i - 1);
        assert(w0.len() == 8);
        lemma_cbc_block_is_next_chain(cipher, iv, data, i - 1);
        assert forall|j: int| 0 <= j < 8 implies #[trigger] block_at(c, i - 1)[j] == c[8 * (i - 1)
            + j] by {}
    }
    assert(w =~= x);
    assert(w.len() == 8);
    lemma_cbc_block_is_next_chain(cipher, iv, data, i);
    assert forall|j: int| 0 <= j < 8 implies #[trigger] cbc_whitened(cipher, iv, data)[8 * i + j]
        == x[j] by {
        crate::bits::lemma_div_mod_8(i, j);
    }
}

/// CBC decryption block by block.
proof fn lemma_cbc_decrypt_blocks(
    decipher: spec_fn(Seq<u8>) -> Seq<u8>,
    iv: Seq<u8>,
    data: Seq<u8>,
    i: int,
)
    requires
        0 <= i,
        8 * i + 8 <= data.len(),
        iv.len() >= 8,
        decipher(block_at(data, i)).len() == 8,
    ensures
        block_at(cbc_decrypt(decipher, iv, data), i) == Seq::new(
            8,
            |j: int|
                decipher(block_at(data, i))[j] ^ (if i == 0 {
                    iv[j]
                } else {
                    data[8 * (i - 1) + j]
                }),
        ),
{
    let d = cbc_decrypt(decipher, iv, data);
    let y = Seq::new(
        8,
        |j: int|
            decipher(block_at(data, i))[j] ^ (if i == 0 {
                iv[j]
            } else {
                data[8 * (i - 1) + j]
            }),
    );
    assert forall|j: int| 0 <= j < 8 implies #[trigger] block_at(d, i)[j] == y[j] by {
        crate::bits::lemma_div_mod_8(i, j);
    }
    assert(block_at(d, i) =~= y);
}

/// DES in CBC mode combines the bytes of each plaintext block, index by index,
/// with the bytes of the IV (first block) or of the ciphertext block before it,
/// and encrypts the result; the input is left holding those combined bytes.
pub proof fn law_des_cbc_encrypt_chaining(key: Seq<u8>, iv: Seq<u8>, data: Seq<u8>, i: int)
    requires
        0 <= i,
        8 * i + 8 <= data.len(),
        iv.len() >= 8,
    ensures
        ({
            let c = cbc_encrypt(des_cipher(key, Des::Encrypt), iv, data);
            let x = Seq::new(
                8,
                |j: int|
                    data[8 * i + j] ^ (if i == 0 {
                        iv[j]
                    } else {
                        c[8 * (i - 1) + j]
                    }),
            );
            &&& c.len() == data.len()
            &&& block_at(c, i) == des_block(key, x, Des::Encrypt)
            &&& forall|j: int|
                0 <= j < 8 ==> #[trigger] cbc_whitened(des_cipher(key, Des::Encrypt), iv, data)[8
                    * i + j] == x[j]
        }),
{
    lemma_des_pair(key, Des::Encrypt, Des::Decrypt);
    lemma_cbc_encrypt_blocks(des_cipher(key, Des::Encrypt), iv, data, i);
    let c = cbc_encrypt(des_cipher(key, Des::Encrypt), iv, data);
    let x = Seq::new(
        8,
        |j: int|
            data[8 * i + j] ^ (if i == 0 {
                iv[j]
            } else {
                c[8 * (i - 1) + j]
            }),
    );
    lemma_des_cipher_apply(key, Des::Encrypt, x);
}

/// DES decryption in CBC mode decrypts each block and combines its bytes,
/// index by index, with the bytes of the IV (first block) or of the previous
/// ciphertext block.
pub proof fn law_des_cbc_decrypt_chaining(key: Seq<u8>, iv: Seq<u8>, data: Seq<u8>, i: int)
    requires
        0 <= i,
        8 * i + 8 <= data.len(),
        iv.len() >= 8,
    ensures
        cbc_decrypt(des_cipher(key, Des::Decrypt), iv, data).len() == data.len(),
        block_at(cbc_decrypt(des_cipher(key, Des::Decrypt), iv, data), i) == Seq::new(
            8,
            |j: int|
                des_block(key, block_at(data, i), Des::Decrypt)[j] ^ (if i == 0 {
                    iv[j]
                } else {
                    data[8 * (i - 1) + j]
                }),
        ),
{
    let b = block_at(data, i);
    lemma_des_cipher_apply(key, Des::Decrypt, b);
    lemma_des_block_len(key, b, Des::Decrypt);
    lemma_cbc_decrypt_blocks(des_cipher(key, Des::Decrypt), iv, data, i);
}

/// Triple DES in CBC mode, as `triple_des_cbc` runs it with one key in all
/// three stages: each plaintext block is combined, index by index, with the IV
/// (first block) or the previous ciphertext block, then encrypted, decrypted
/// and encrypted again with that key.
pub proof fn law_triple_cbc_encrypt_chaining(key: Seq<u8>, iv: Seq<u8>, data: Seq<u8>, i: int)
    requires
        0 <= i,
        8 * i + 8 <= data.len(),
        iv.len() >= 8,
    ensures
        ({
            let c = cbc_encrypt(ede_encrypt(key, key, key), iv, data);
            let x = Seq::new(
                8,
                |j: int|
                    data[8 * i + j] ^ (if i == 0 {
                        iv[j]
                    } else {
                        c[8 * (i - 1) + j]
                    }),
            );
            &&& c.len() == data.len()
            &&& block_at(c, i) == des_block(
                key,
                des_block(key, des_block(key, x, Des::Encrypt), Des::Decrypt),
                Des::Encrypt,
            )
            &&& forall|j: int|
                0 <= j < 8 ==> #[trigger] cbc_whitened(ede_encrypt(key, key, key), iv, data)[8 * i
                    + j] == x[j]
        }),
{
    lemma_ede_pair(key, key, key);
    lemma_cbc_encrypt_blocks(ede_encrypt(key, key, key), iv, data, i);
    let c = cbc_encrypt(ede_encrypt(key, key, key), iv, data);
    let x = Seq::new(
        8,
        |j: int|
            data[8 * i + j] ^ (if i == 0 {
                iv[j]
            } else {
                c[8 * (i - 1) + j]
            }),
    );
    lemma_ede_apply(key, key, key, x);
}

/// Triple DES decryption in CBC mode, as `triple_des_cbc` runs it: each block
/// is decrypted, encrypted and decrypted with one key, then combined index by
/// index with the IV (first block) or the previous ciphertext block.
pub proof fn law_triple_cbc_decrypt_chaining(key: Seq<u8>, iv: Seq<u8>, data: Seq<u8>, i: int)
    requires
        0 <= i,
        8 * i + 8 <= data.len(),
        iv.len() >= 8,
    ensures
        cbc_decrypt(ede_decrypt(key, key, key), iv, data).len() == data.len(),
        block_at(cbc_decrypt(ede_decrypt(key, key, key), iv, data), i) == Seq::new(
            8,
            |j: int|
                des_block(
                    key,
                    des_block(key, des_block(key, block_at(data, i), Des::Decrypt), Des::Encrypt),
                    Des::Decrypt,
                )[j] ^ (if i == 0 {
                    iv[j]
                } else {
                    data[8 * (i - 1) + j]
                }),
        ),
{
    let b = block_at(data, i);
    lemma_ede_apply(key, key, key, b);
    let b1 = des_block(key, b, Des::Decrypt);
    let b2 = des_block(key, b1, Des::Encrypt);
    lemma_des_block_len(key, b2, Des::Decrypt);
    lemma_cbc_decrypt_blocks(ede_decrypt(key, key, key), iv, data, i);
}

/// Permuted choice 1 as FIPS 46-3 prints it.
pub open spec fn fips_pc1() -> Seq<u8> {
    seq![
        57u8, 49, 41, 33, 25, 17, 9, 1, 58, 50, 42, 34, 26, 18, 10, 2, 59, 51, 43, 35, 27, 19, 11,
        3, 60, 52, 44, 36, 63, 55, 47, 39, 31, 23, 15, 7, 62, 54, 46, 38, 30, 22, 14, 6, 61, 53, 45,
        37, 29, 21, 13, 5, 28, 20, 12, 4,
    ]
}

/// C0 followed by D0 is the key bits that FIPS 46-3's PC-1 lists, in its order:
/// bit `n` of C0D0 is key bit `PC-1[n]` (bits counted from 1, most significant first).
pub proof fn law_pc1_selects_key_bits(key: Seq<u8>)
    requires
        key.len() >= 8,
    ensures
        key_halves(key, 0).0 + key_halves(key, 0).1 == Seq::new(
            56,
            |n: int| to_bits(key)[fips_pc1()[n] - 1],
        ),
{
    assert(PC1_TABLE@ =~= fips_pc1());
    let cd = permute(to_bits(key), PC1_TABLE@);
    assert(cd.subrange(0, 28) + cd.subrange(28, 56) =~= cd);
    assert(cd =~= Seq::new(56, |n: int| to_bits(key)[fips_pc1()[n] - 1]));
}

proof fn lemma_same_but_parity_bit(a: u8, b: u8, j: int)
    requires
        a >> 1u8 == b >> 1u8,
        0 <= j < 7,
    ensures
        crate::bits::byte_bit(a, j) == crate::bits::byte_bit(b, j),
{
    let s = (7 - j) as u8;
    assert((a >> s) & 1u8 == (b >> s) & 1u8) by (bit_vector)
        requires
            a >> 1u8 == b >> 1u8,
            1u8 <= s < 8u8,
    ;
}

proof fn lemma_key_halves_equal_from_start(k1: Seq<u8>, k2: Seq<u8>, n: nat)
    requires
        key_halves(k1, 0) == key_halves(k2, 0),
    ensures
        key_halves(k1, n) == key_halves(k2, n),
    decreases n,
{
    if n > 0 {
        lemma_key_halves_equal_from_start(k1, k2, (n - 1) as nat);
    }
}

/// The key schedule, and so DES, ignores the parity bit (the least significant
/// bit) of every key byte: keys that differ only there give the same round keys
/// and the same cipher.
pub proof fn law_key_parity_bits_ignored(k1: Seq<u8>, k2: Seq<u8>, block: Seq<u8>, direction: Des)
    requires
        k1.len() >= 8,
        k2.len() >= 8,
        forall|i: int| 0 <= i < 8 ==> #[trigger] k1[i] >> 1u8 == k2[i] >> 1u8,
    ensures
        key_schedule(k1) == key_schedule(k2),
        des_block(k1, block, direction) == des_block(k2, block, direction),
{
    crate::tables::lemma_key_tables_in_range();
    assert forall|k: int| 0 <= k < 56 implies #[trigger] permute(to_bits(k1), PC1_TABLE@)[k]
        == permute(to_bits(k2), PC1_TABLE@)[k] by {
        let e = PC1_TABLE@[k] - 1;
        crate::bits::lemma_split_index(e);
        assert(e % 8 != 7);
        assert(k1[e / 8] >> 1u8 == k2[e / 8] >> 1u8);
        lemma_same_but_parity_bit(k1[e / 8], k2[e / 8], e % 8);
    }
    assert(permute(to_bits(k1), PC1_TABLE@) =~= permute(to_bits(k2), PC1_TABLE@));
    assert forall|i: int| 0 <= i < 16 implies #[trigger] key_schedule(k1)[i] == key_schedule(k2)[i] by {
        lemma_key_halves_equal_from_start(k1, k2, (i + 1) as nat);
    }
    assert(key_schedule(k1) =~= key_schedule(k2));
    reveal(des_block);
}

/// The rotations applied before the first `n` rounds, added up.
spec fn shift_total(n: nat) -> int
    decreases n,
{
    if n == 0 {
        0
    } else {
        shift_total((n - 1) as nat) + KEY_SHIFTS@[n - 1]
    }
}

proof fn lemma_shift_total_monotone(n: nat, m: nat)
    requires
        n <= m <= 16,
    ensures
        shift_total(n) <= shift_total(m),
    decreases m,
{
    crate::tables::lemma_key_tables_in_range();
    if n < m {
        lemma_shift_total_monotone(n, (m - 1) as nat);
    }
}

proof fn lemma_rotate_twice(s: Seq<bool>, a: int, b: int)
    requires
        0 <= a,
        0 <= b,
        a + b <= s.len(),
    ensures
        rotate_left(rotate_left(s, a), b) == rotate_left(s, a + b),
{
    let n = s.len() as int;
    let r1 = rotate_left(s, a);
    assert forall|k: int| 0 <= k < n implies #[trigger] r1[k] == s[if k + a < n {
        k + a
    } else {
        k + a - n
    }] by {}
    assert forall|k: int| 0 <= k < n implies #[trigger] rotate_left(r1, b)[k] == rotate_left(
        s,
        a + b,
    )[k] by {
        let k2 = if k + b < n {
            k + b
        } else {
            k + b - n
        };
        assert(rotate_left(r1, b)[k] == r1[k2]);
    }
    assert(rotate_left(rotate_left(s, a), b) =~= rotate_left(s, a + b));
}

proof fn lemma_halves_rotated(key: Seq<u8>, n: nat)
    requires
        n <= 16,
    ensures
        0 <= shift_total(n) <= 28,
        key_halves(key, n).0 == rotate_left(key_halves(key, 0).0, shift_total(n)),
        key_halves(key, n).1 == rotate_left(key_halves(key, 0).1, shift_total(n)),
    decreases n,
{
    crate::tables::lemma_key_tables_in_range();
    reveal_with_fuel(shift_total, 17);
    assert(shift_total(16) == 28);
    lemma_shift_total_monotone(n, 16);
    lemma_shift_total_monotone(0, n);
    let (c0, d0) = key_halves(key, 0);
    assert(permute(to_bits(key), PC1_TABLE@).len() == 56);
    if n == 0 {
        assert(rotate_left(c0, 0) =~= c0);
        assert(rotate_left(d0, 0) =~= d0);
    } else {
        lemma_halves_rotated(key, (n - 1) as nat);
        let t = shift_total((n - 1) as nat);
        let sft = KEY_SHIFTS@[n - 1] as int;
        lemma_rotate_twice(c0, t, sft);
        lemma_rotate_twice(d0, t, sft);
    }
}

/// The rotations of the key schedule add up to a whole turn: after the 16th
/// round, C and D are back to C0 and D0.
pub proof fn law_key_halves_return(key: Seq<u8>)
    ensures
        key_halves(key, 16) == key_halves(key, 0),
{
    lemma_halves_rotated(key, 16);
    reveal_with_fuel(shift_total, 17);
    let (c0, d0) = key_halves(key, 0);
    assert(rotate_left(c0, 28) =~= c0);
    assert(rotate_left(d0, 28) =~= d0);
}

} // verus!
