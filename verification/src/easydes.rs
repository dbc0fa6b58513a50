//! DES, triple DES, and their ECB and CBC modes on byte vectors.
use crate::bits::{
    bit_at, bit_value, byte_bit, lemma_bits_of_bytes, lemma_bits_of_seven, lemma_byte_bit_xor,
    lemma_div_mod_8, lemma_from_bits_to_bits, lemma_nibble_pair, lemma_pack7_bound,
    lemma_rotate_halves_bits, lemma_sbox_indices, lemma_set_bit, lemma_six_bit_groups,
    lemma_split_index, lemma_to_bits_subrange, lemma_zero_bits, pack7, rotate_halves,
    rotated_source, six_bit, to_bits, xor_bits, xor_bytes,
};
use crate::model::{
    block_at, cbc_chain, cbc_decrypt, cbc_encrypt, cbc_previous, cbc_whitened,
    cbc_whitened_block, cipher_f, des_bits, des_block, des_cipher, direction_keys, ecb,
    ede_decrypt, ede_encrypt, key_halves, key_schedule, lemma_des_cipher_apply, lemma_ede_apply,
    lemma_pad_len, lemma_rounds_len, lemma_rounds_push, pad, permute, rotate_left, round_key,
    rounds, sbox_bits, sbox_col, sbox_layer, sbox_row, table_keys, table_keys_for,
};
use crate::tables::{
    lemma_block_tables_in_range, lemma_key_tables_in_range, lemma_round_tables_in_range,
    lemma_sbox_entries_are_nibbles, E_TABLE, FP_TABLE, IP_TABLE, KEY_SHIFTS, PC1_TABLE, PC2_TABLE,
    P_TABLE, S_BOXES,
};
use vstd::prelude::*;

verus! {

/// Which way a block goes through the cipher.
pub enum Des {
    Encrypt,
    Decrypt,
}

/// The mode of operation.
#[derive(PartialEq)]
pub enum Mode {
    ECB,
    CBC,
}

/// The byte whose bit `j` is bit `table[pos + j] - 1` of `src[start..]`.
fn permuted_byte(src: &[u8], start: usize, table: &[u8], pos: usize) -> (b: u8)
    requires
        pos + 8 <= table.len(),
        start <= src.len(),
        forall|k: int|
            pos <= k < pos + 8 ==> 1 <= #[trigger] table@[k] && table@[k] <= 8 * (src@.len()
                - start),
    ensures
        forall|j: int|
            0 <= j < 8 ==> #[trigger] byte_bit(b, j) == bit_at(
                src@.subrange(start as int, src@.len() as int),
                table@[pos + j] - 1,
            ),
{
    let ghost sub = src@.subrange(start as int, src@.len() as int);
    let mut byte: u8 = 0;
    proof {
        lemma_zero_bits();
    }
    for j in 0..8usize
        invariant
            pos + 8 <= table.len(),
            start <= src.len(),
            sub == src@.subrange(start as int, src@.len() as int),
            forall|k: int|
                pos <= k < pos + 8 ==> 1 <= #[trigger] table@[k] && table@[k] <= 8 * (src@.len()
                    - start),
            forall|t: int|
                0 <= t < j ==> #[trigger] byte_bit(byte, t) == bit_at(sub, table@[pos + t] - 1),
            forall|t: int| j <= t < 8 ==> !#[trigger] byte_bit(byte, t),
    {
        let entry: u8 = table[pos + j] - 1;
        let div: u8 = entry / 8;
        let rem: u8 = entry % 8;
        proof {
            lemma_split_index(entry as int);
            assert(div < src@.len() - start) by (nonlinear_arith)
                requires
                    entry < 8 * (src@.len() - start),
                    entry == 8 * div + rem,
                    0 <= rem,
            ;
        }
        let shift: u8 = 7 - rem;
        let bit: u8 = (src[start + div as usize] >> shift) & 0x01;
        proof {
            let x = src@[start + div as int];
            assert(bit <= 1) by (bit_vector)
                requires
                    bit == (x >> shift) & 0x01u8,
            ;
            assert(sub[div as int] == x);
            assert(bit_at(sub, entry as int) == (bit == 1));
        }
        let place: u8 = 7 - j as u8;
        proof {
            lemma_set_bit(byte, bit, j as int, place);
        }
        byte = byte | (bit << place);
    }
    byte
}

proof fn lemma_shift_words(
    i0: u8,
    i1: u8,
    i2: u8,
    i3: u8,
    i4: u8,
    i5: u8,
    i6: u8,
    s: u8,
    t: u8,
    fb1: u8,
    fb2: u8,
    fp: u32,
    sp: u32,
    o0: u8,
    o1: u8,
    o2: u8,
    o3: u8,
    o4: u8,
    o5: u8,
    o6: u8,
) by (bit_vector)
    requires
        s == 1u8 || s == 2u8,
        t == 4u8 - s,
        fb1 == (if s == 1u8 {
            i0 & 0x80u8
        } else {
            i0 & 0xC0u8
        }) >> t,
        fp == ((((i0 as u32) << 24u32) | ((i1 as u32) << 16u32) | ((i2 as u32) << 8u32) | ((i3
            & 0xF0u8) as u32)) << s) ^ (fb1 as u32),
        fb2 == (if s == 1u8 {
            i3 & 0x08u8
        } else {
            i3 & 0x0Cu8
        }) >> t,
        sp == (((((i3 & 0x0Fu8) as u32) << 24u32) | ((i4 as u32) << 16u32) | ((i5 as u32) << 8u32)
            | (i6 as u32)) << s) & 0x0FFFFFFFu32 ^ (fb2 as u32),
        o0 == ((fp & 0xFF000000u32) >> 24u32) as u8,
        o1 == ((fp & 0x00FF0000u32) >> 16u32) as u8,
        o2 == ((fp & 0x0000FF00u32) >> 8u32) as u8,
        o3 == (fp & 0x000000FFu32 ^ ((sp & 0xFF000000u32) >> 24u32)) as u8,
        o4 == ((sp & 0x00FF0000u32) >> 16u32) as u8,
        o5 == ((sp & 0x0000FF00u32) >> 8u32) as u8,
        o6 == (sp & 0x0000FFu32) as u8,
    ensures
        pack7(o0, o1, o2, o3, o4, o5, o6) == rotate_halves(
            pack7(i0, i1, i2, i3, i4, i5, i6),
            s as u64,
        ),
{
}

/// Rotates both 28-bit halves C and D (the first and last 28 bits of the
/// seven bytes) left by `steps` places.
fn shift_e_array(input: &mut [u8; 7], steps: u8)
    requires
        steps == 1 || steps == 2,
    ensures
        to_bits(final(input)@) == rotate_left(to_bits(old(input)@).subrange(0, 28), steps as int)
            + rotate_left(to_bits(old(input)@).subrange(28, 56), steps as int),
{
    let ghost before = input@;
    let mut first_part: u32 = ((input[0] as u32) << 24) | ((input[1] as u32) << 16) | ((
    input[2] as u32) << 8) | ((input[3] & 0xF0) as u32);
    let mut first_bit: u8 = 0;

    match steps {
        1 => {
            first_bit = input[0] & 0x80;
        },
        2 => {
            first_bit = input[0] & 0xC0;
        },
        _ => {},
    }
    first_bit = first_bit >> (4 - steps);
    let ghost fb1 = first_bit;

    first_part = first_part << steps;
    first_part = first_part ^ first_bit as u32;

    let mut second_part: u32 = (((input[3] & 0x0F) as u32) << 24) | ((input[4] as u32) << 16) | ((
    input[5] as u32) << 8) | (input[6] as u32);

    match steps {
        1 => {
            first_bit = input[3] & 0x08;
        },
        2 => {
            first_bit = input[3] & 0x0C;
        },
        _ => {},
    }
    first_bit = first_bit >> (4 - steps);
    let ghost fb2 = first_bit;

    second_part = second_part << steps;
    second_part = second_part & 0x0FFFFFFF;
    second_part = second_part ^ first_bit as u32;

    input[0] = ((first_part & 0xFF000000) >> 24) as u8;
    input[1] = ((first_part & 0x00FF0000) >> 16) as u8;
    input[2] = ((first_part & 0x0000FF00) >> 8) as u8;

    input[3] = (first_part & 0x000000FF ^ ((second_part & 0xFF000000) >> 24)) as u8;

    input[4] = ((second_part & 0x00FF0000) >> 16) as u8;
    input[5] = ((second_part & 0x0000FF00) >> 8) as u8;
    input[6] = (second_part & 0x0000FF) as u8;

    proof {
        let after = input@;
        lemma_shift_words(
            before[0],
            before[1],
            before[2],
            before[3],
            before[4],
            before[5],
            before[6],
            steps,
            (4 - steps) as u8,
            fb1,
            fb2,
            first_part,
            second_part,
            after[0],
            after[1],
            after[2],
            after[3],
            after[4],
            after[5],
            after[6],
        );
        let v = pack7(before[0], before[1], before[2], before[3], before[4], before[5], before[6]);
        lemma_pack7_bound(
            before[0],
            before[1],
            before[2],
            before[3],
            before[4],
            before[5],
            before[6],
        );
        lemma_bits_of_seven(before);
        lemma_bits_of_seven(after);
        lemma_rotate_halves_bits(v, steps as u64);
        let old_bits = to_bits(before);
        let spec = rotate_left(old_bits.subrange(0, 28), steps as int) + rotate_left(
            old_bits.subrange(28, 56),
            steps as int,
        );
        assert forall|p: int| 0 <= p < 56 implies #[trigger] to_bits(after)[p] == spec[p] by {
            assert(to_bits(after)[p] == ((rotate_halves(v, steps as u64) >> ((55 - p) as u64)) & 1u64 == 1u64));
            let q = rotated_source(p, steps as int);
            assert(old_bits[q] == ((v >> ((55 - q) as u64)) & 1u64 == 1u64));
        }
        assert(to_bits(after) =~= spec);
    }
}

/// Bytes whose bits were each chosen by `table` from `sub` are `permute(to_bits(sub), table)`.
proof fn lemma_permuted_bytes(out: Seq<u8>, sub: Seq<u8>, table: Seq<u8>)
    requires
        table.len() == 8 * out.len(),
        forall|k: int| 0 <= k < table.len() ==> 1 <= #[trigger] table[k] <= 8 * sub.len(),
        forall|i: int, j: int|
            0 <= i < out.len() && 0 <= j < 8 ==> #[trigger] byte_bit(out[i], j) == bit_at(
                sub,
                table[8 * i + j] - 1,
            ),
    ensures
        to_bits(out) == permute(to_bits(sub), table),
{
    let bits = permute(to_bits(sub), table);
    assert forall|i: int, j: int| 0 <= i < out.len() && 0 <= j < 8 implies #[trigger] byte_bit(
        out[i],
        j,
    ) == bits[8 * i + j] by {
        assert(0 <= 8 * i + j < table.len());
    }
    lemma_bits_of_bytes(out, bits);
}

/// The halves C_n and D_n have 28 bits each.
proof fn lemma_key_halves_len(key: Seq<u8>, n: nat)
    requires
        n <= 16,
    ensures
        key_halves(key, n).0.len() == 28,
        key_halves(key, n).1.len() == 28,
    decreases n,
{
    lemma_key_tables_in_range();
    if n > 0 {
        lemma_key_halves_len(key, (n - 1) as nat);
    }
}

/// Fills `out_table[j]` with the 48 bits of round key K_(j+1) of `key` (whose
/// first 8 bytes are the DES key), whatever `out_table` held before.
pub fn calculate_key_table(key: &[u8], out_table: &mut [[u8; 6]; 16])
    requires
        key@.len() >= 8,
    ensures
        forall|j: int| 0 <= j < 16 ==>
            to_bits(#[trigger] final(out_table)@[j]@) == key_schedule(key@)[j],
{
    proof {
        lemma_key_tables_in_range();
    }
    let mut tmp_56: [u8; 7] = [0u8; 7];
    for i in 0..7usize
        invariant
            key@.len() >= 8,
            forall|k: int| 0 <= k < 56 ==> 1 <= #[trigger] PC1_TABLE@[k] <= 64,
            forall|i2: int, j: int|
                0 <= i2 < i && 0 <= j < 8 ==> #[trigger] byte_bit(tmp_56@[i2], j) == bit_at(
                    key@,
                    PC1_TABLE@[8 * i2 + j] - 1,
                ),
    {
        let byte = permuted_byte(key, 0, &PC1_TABLE, i * 8);
        assert(key@.subrange(0, key@.len() as int) =~= key@);
        tmp_56[i] = byte;
    }
    proof {
        lemma_permuted_bytes(tmp_56@, key@, PC1_TABLE@);
        let cd = permute(to_bits(key@), PC1_TABLE@);
        assert(cd.subrange(0, 28) + cd.subrange(28, 56) =~= cd);
    }

    for j in 0..16usize
        invariant
            key@.len() >= 8,
            forall|k: int| 0 <= k < 48 ==> 1 <= #[trigger] PC2_TABLE@[k] <= 56,
            forall|k: int| 0 <= k < 16 ==> 1 <= #[trigger] KEY_SHIFTS@[k] <= 2,
            to_bits(tmp_56@) == key_halves(key@, j as nat).0 + key_halves(key@, j as nat).1,
            forall|j2: int| 0 <= j2 < j ==>
                to_bits(#[trigger] out_table@[j2]@) == key_schedule(key@)[j2],
    {
        let ghost before = tmp_56@;
        shift_e_array(&mut tmp_56, KEY_SHIFTS[j]);
        proof {
            lemma_key_halves_len(key@, j as nat);
            lemma_key_halves_len(key@, (j + 1) as nat);
            let (c, d) = key_halves(key@, j as nat);
            assert(to_bits(before).subrange(0, 28) =~= c);
            assert(to_bits(before).subrange(28, 56) =~= d);
        }
        let mut row: [u8; 6] = [0u8; 6];
        for k in 0..6usize
            invariant
                forall|t: int| 0 <= t < 48 ==> 1 <= #[trigger] PC2_TABLE@[t] <= 56,
                forall|i2: int, b: int|
                    0 <= i2 < k && 0 <= b < 8 ==> #[trigger] byte_bit(row@[i2], b) == bit_at(
                        tmp_56@,
                        PC2_TABLE@[8 * i2 + b] - 1,
                    ),
        {
            let byte = permuted_byte(&tmp_56, 0, &PC2_TABLE, k * 8);
            assert(tmp_56@.subrange(0, 7) =~= tmp_56@);
            row[k] = byte;
        }
        proof {
            lemma_permuted_bytes(row@, tmp_56@, PC2_TABLE@);
            assert(key_schedule(key@)[j as int] == round_key(key@, (j + 1) as nat));
        }
        out_table[j] = row;
    }
}

/// Whether `index` is the last round for `direction`: the round whose halves are not swapped.
pub open spec fn is_last_round(direction: Des, index: int) -> bool {
    match direction {
        Des::Encrypt => index == 15,
        Des::Decrypt => index == 0,
    }
}

/// The 48 bits that enter the S-boxes, from the bytes computed for them.
proof fn lemma_mixed_bits(flat: Seq<u8>, r_bytes: Seq<u8>, krow: Seq<u8>)
    requires
        flat.len() == 6,
        krow.len() == 6,
        r_bytes.len() == 4,
        forall|k: int| 0 <= k < 48 ==> 1 <= #[trigger] E_TABLE@[k] <= 32,
        forall|i: int, j: int|
            0 <= i < 6 && 0 <= j < 8 ==> #[trigger] byte_bit(flat[i], j) == (bit_at(
                r_bytes,
                E_TABLE@[8 * i + j] - 1,
            ) != byte_bit(krow[i], j)),
    ensures
        to_bits(flat) == xor_bits(permute(to_bits(r_bytes), E_TABLE@), to_bits(krow)),
{
    let x = xor_bits(permute(to_bits(r_bytes), E_TABLE@), to_bits(krow));
    assert forall|i: int, j: int| 0 <= i < 6 && 0 <= j < 8 implies #[trigger] byte_bit(flat[i], j)
        == x[8 * i + j] by {
        lemma_div_mod_8(i, j);
    }
    lemma_bits_of_bytes(flat, x);
}

/// The bits of the S-box output bytes.
proof fn lemma_sbox_byte_bit(x: Seq<bool>, q: int, j: int, v: u8)
    requires
        x.len() == 48,
        0 <= q < 4,
        0 <= j < 8,
        v == ((S_BOXES@[2 * q]@[sbox_row(x.subrange(12 * q, 12 * q + 6))]@[sbox_col(
            x.subrange(12 * q, 12 * q + 6),
        )] << 4u8) | S_BOXES@[2 * q + 1]@[sbox_row(x.subrange(12 * q + 6, 12 * q + 12))]@[sbox_col(
            x.subrange(12 * q + 6, 12 * q + 12),
        )]),
        0 <= sbox_row(x.subrange(12 * q, 12 * q + 6)) < 4,
        0 <= sbox_col(x.subrange(12 * q, 12 * q + 6)) < 16,
        0 <= sbox_row(x.subrange(12 * q + 6, 12 * q + 12)) < 4,
        0 <= sbox_col(x.subrange(12 * q + 6, 12 * q + 12)) < 16,
    ensures
        byte_bit(v, j) == sbox_layer(x)[8 * q + j],
{
    lemma_sbox_entries_are_nibbles();
    let g0 = x.subrange(12 * q, 12 * q + 6);
    let g1 = x.subrange(12 * q + 6, 12 * q + 12);
    let a = S_BOXES@[2 * q]@[sbox_row(g0)]@[sbox_col(g0)];
    let b = S_BOXES@[2 * q + 1]@[sbox_row(g1)]@[sbox_col(g1)];
    lemma_nibble_pair(a, b, j);
    let p = 8 * q + j;
    assert(p / 4 == 2 * q + j / 4 && p % 4 == j % 4) by (nonlinear_arith)
        requires
            p == 8 * q + j,
            0 <= j < 8,
    ;
    if j < 4 {
        assert(p / 4 == 2 * q);
        assert(sbox_layer(x)[p] == sbox_bits(2 * q, g0)[j]);
    } else {
        assert(p / 4 == 2 * q + 1);
        assert(6 * (2 * q + 1) == 12 * q + 6);
        assert(sbox_layer(x)[p] == sbox_bits(2 * q + 1, g1)[j - 4]);
    }
}

/// The bits of the block after the last loop of a round.
proof fn lemma_round_result(before: Seq<u8>, after: Seq<u8>, f: Seq<bool>, last: bool)
    requires
        before.len() == 8,
        after.len() == 8,
        f.len() == 32,
        last ==> forall|i2: int| 4 <= i2 < 8 ==> #[trigger] after[i2] == before[i2],
        last ==> forall|i2: int, j: int|
            0 <= i2 < 4 && 0 <= j < 8 ==> #[trigger] byte_bit(after[i2], j) == (byte_bit(
                before[i2],
                j,
            ) != f[8 * i2 + j]),
        !last ==> forall|i2: int| 0 <= i2 < 4 ==> #[trigger] after[i2] == before[i2 + 4],
        !last ==> forall|i2: int, j: int|
            0 <= i2 < 4 && 0 <= j < 8 ==> #[trigger] byte_bit(after[i2 + 4], j) == (byte_bit(
                before[i2],
                j,
            ) != f[8 * i2 + j]),
    ensures
        ({
            let l = to_bits(before.subrange(0, 4));
            let r = to_bits(before.subrange(4, 8));
            to_bits(after) == if last {
                xor_bits(l, f) + r
            } else {
                r + xor_bits(l, f)
            }
        }),
{
    let l = to_bits(before.subrange(0, 4));
    let r = to_bits(before.subrange(4, 8));
    let expected = if last {
        xor_bits(l, f) + r
    } else {
        r + xor_bits(l, f)
    };
    assert forall|i: int, j: int| 0 <= i < 8 && 0 <= j < 8 implies #[trigger] byte_bit(after[i], j)
        == expected[8 * i + j] by {
        lemma_div_mod_8(i, j);
        if i < 4 {
            lemma_div_mod_8(i + 4, j);
            assert(l[8 * i + j] == byte_bit(before[i], j));
            if !last {
                assert(after[i] == before[i + 4]);
                assert(r[8 * i + j] == byte_bit(before[i + 4], j));
            }
        } else {
            lemma_div_mod_8(i - 4, j);
            assert(r[8 * (i - 4) + j] == byte_bit(before[i], j));
            if !last {
                assert(l[8 * (i - 4) + j] == byte_bit(before[i - 4], j));
                assert(byte_bit(after[(i - 4) + 4], j) == (byte_bit(before[i - 4], j) != f[8 * (i - 4) + j]));
            }
        }
    }
    lemma_bits_of_bytes(after, expected);
}

/// One DES round on the 8-byte `buffer` (L then R) with round key `key_table[index]`.
/// Every round but the last for `direction` swaps the halves: (L, R) becomes
/// (R, L xor f(R, K)); the last leaves them in place: (L xor f(R, K), R).
#[verifier::rlimit(40)]
fn shift_and_divide(buffer: &mut [u8; 8], index: u8, direction: &Des, key_table: &[[u8; 6]; 16])
    requires
        index < 16,
    ensures
        ({
            let l = to_bits(old(buffer)@.subrange(0, 4));
            let r = to_bits(old(buffer)@.subrange(4, 8));
            let f = cipher_f(r, to_bits(key_table@[index as int]@));
            to_bits(final(buffer)@) == if is_last_round(*direction, index as int) {
                xor_bits(l, f) + r
            } else {
                r + xor_bits(l, f)
            }
        }),
{
    proof {
        lemma_round_tables_in_range();
        lemma_sbox_entries_are_nibbles();
    }
    let ghost before = buffer@;
    let ghost r_bytes = buffer@.subrange(4, 8);
    let ghost krow = key_table@[index as int]@;

    let mut flat_table: [u8; 6] = [0; 6];
    let mut table_2: [u8; 8] = [0; 8];

    // Only the first 48 (of 64) bits are calculated.
    for i in 0..6usize
        invariant
            index < 16,
            buffer@ == before,
            r_bytes == before.subrange(4, 8),
            krow == key_table@[index as int]@,
            forall|k: int| 0 <= k < 48 ==> 1 <= #[trigger] E_TABLE@[k] <= 32,
            forall|i2: int, j: int|
                0 <= i2 < i && 0 <= j < 8 ==> #[trigger] byte_bit(flat_table@[i2], j) == (bit_at(
                    r_bytes,
                    E_TABLE@[8 * i2 + j] - 1,
                ) != byte_bit(krow[i2], j)),
    {
        let byte: u8 = permuted_byte(buffer, 4, &E_TABLE, i * 8);
        let k: u8 = key_table[index as usize][i];
        proof {
            assert forall|j: int| 0 <= j < 8 implies byte_bit(byte ^ k, j) == (byte_bit(byte, j)
                != byte_bit(k, j)) by {
                lemma_byte_bit_xor(byte, k, j);
            }
        }
        flat_table[i] = byte ^ k;
    }
    let ghost x = xor_bits(permute(to_bits(r_bytes), E_TABLE@), to_bits(krow));
    proof {
        lemma_mixed_bits(flat_table@, r_bytes, krow);
    }

    let mut pos: usize = 0;
    for h in 0..2usize
        invariant
            pos == 4 * h,
            to_bits(flat_table@) == x,
            forall|g: int, t: int|
                0 <= g < pos && 0 <= t < 6 ==> #[trigger] six_bit(table_2@[g], t) == x[6 * g + t],
            forall|g: int| 0 <= g < pos ==> #[trigger] table_2@[g] < 64,
    {
        let i = 3 * h;
        let mut flat: u16 = ((flat_table[i] as u16) << 8) | (flat_table[i + 1] as u16);
        table_2[pos] = ((flat & 0xFC00) >> 10) as u8;
        pos = pos + 1;
        table_2[pos] = ((flat & 0x03F0) >> 4) as u8;
        pos = pos + 1;

        flat = ((flat_table[i + 1] as u16) << 8) | (flat_table[i + 2] as u16);
        table_2[pos] = ((flat & 0x0FC0) >> 6) as u8;
        pos = pos + 1;

        table_2[pos] = (flat & 0x003F) as u8;
        pos = pos + 1;
        proof {
            let abc = flat_table@.subrange(i as int, i + 3);
            assert(abc =~= seq![flat_table@[i as int], flat_table@[i + 1], flat_table@[i + 2]]);
            lemma_to_bits_subrange(flat_table@, i as int, i + 3);
            let base = 4 * h;
            assert forall|g: int, t: int| 0 <= g < pos && 0 <= t < 6 implies #[trigger] six_bit(
                table_2@[g],
                t,
            ) == x[6 * g + t] by {
                if g >= base {
                    let m = g - base;
                    lemma_six_bit_groups(
                        flat_table@[i as int],
                        flat_table@[i + 1],
                        flat_table@[i + 2],
                        table_2@[base],
                        table_2@[base + 1],
                        table_2@[base + 2],
                        table_2@[base + 3],
                        m,
                        t,
                    );
                    assert(to_bits(abc)[6 * m + t] == to_bits(flat_table@)[8 * i + 6 * m + t]);
                }
            }
            lemma_six_bit_groups(
                flat_table@[i as int],
                flat_table@[i + 1],
                flat_table@[i + 2],
                table_2@[base],
                table_2@[base + 1],
                table_2@[base + 2],
                table_2@[base + 3],
                0,
                0,
            );
        }
    }

    // The S-box output is 32 bits (4 bytes).
    let mut key: [u8; 4] = [0; 4];
    let mut pre_key: u8;

    for q in 0..4usize
        invariant
            x.len() == 48,
            forall|g: int, t: int|
                0 <= g < 8 && 0 <= t < 6 ==> #[trigger] six_bit(table_2@[g], t) == x[6 * g + t],
            forall|g: int| 0 <= g < 8 ==> #[trigger] table_2@[g] < 64,
            forall|q2: int, j: int|
                0 <= q2 < q && 0 <= j < 8 ==> #[trigger] byte_bit(key@[q2], j) == sbox_layer(x)[8
                    * q2 + j],
    {
        let i = 2 * q;
        let mut val = table_2[i];
        let mut index_1 = ((val & 0x20) >> 4) | (val & 0x01);
        let mut index_2 = (val & 0x1e) >> 1;
        proof {
            lemma_sbox_indices(val);
            let g0 = x.subrange(12 * q, 12 * q + 6);
            assert(6 * i == 12 * q);
            assert(sbox_row(g0) == index_1 as int);
            assert(sbox_col(g0) == index_2 as int);
        }

        pre_key = S_BOXES[i][index_1 as usize][index_2 as usize];

        val = table_2[i + 1];
        index_1 = ((val & 0x20) >> 4) | (val & 0x01);
        index_2 = (val & 0x1e) >> 1;
        proof {
            lemma_sbox_indices(val);
            let g1 = x.subrange(12 * q + 6, 12 * q + 12);
            assert(6 * (i + 1) == 12 * q + 6);
            assert(sbox_row(g1) == index_1 as int);
            assert(sbox_col(g1) == index_2 as int);
        }

        pre_key = pre_key << 4;
        pre_key |= S_BOXES[i + 1][index_1 as usize][index_2 as usize];

        proof {
            assert forall|j: int| 0 <= j < 8 implies #[trigger] byte_bit(pre_key, j) == sbox_layer(
                x,
            )[8 * q + j] by {
                lemma_sbox_byte_bit(x, q as int, j, pre_key);
            }
        }
        key[i / 2] = pre_key;
    }
    proof {
        lemma_bits_of_bytes(key@, sbox_layer(x));
        assert(key@.subrange(0, 4) =~= key@);
    }
    let ghost f = cipher_f(to_bits(r_bytes), to_bits(krow));
    assert(f == permute(to_bits(key@), P_TABLE@));

    match (direction, index) {
        (Des::Decrypt, 0) | (Des::Encrypt, 15) => {
            for i in 0..4usize
                invariant
                    forall|k: int| 0 <= k < 32 ==> 1 <= #[trigger] P_TABLE@[k] <= 32,
                    f == permute(to_bits(key@), P_TABLE@),
                    forall|i2: int| 4 <= i2 < 8 ==> #[trigger] buffer@[i2] == before[i2],
                    forall|i2: int| i <= i2 < 4 ==> #[trigger] buffer@[i2] == before[i2],
                    forall|i2: int, j: int|
                        0 <= i2 < i && 0 <= j < 8 ==> #[trigger] byte_bit(buffer@[i2], j) == (
                        byte_bit(before[i2], j) != f[8 * i2 + j]),
            {
                let byte: u8 = permuted_byte(&key, 0, &P_TABLE, i * 8);
                proof {
                    assert forall|j: int| 0 <= j < 8 implies byte_bit(buffer@[i as int] ^ byte, j)
                        == (byte_bit(before[i as int], j) != f[8 * i + j]) by {
                        lemma_byte_bit_xor(buffer@[i as int], byte, j);
                    }
                }
                buffer[i] = buffer[i] ^ byte;
            }
            proof {
                lemma_round_result(before, buffer@, f, true);
            }
        },
        (_, _) => {
            for i in 0..4usize
                invariant
                    forall|k: int| 0 <= k < 32 ==> 1 <= #[trigger] P_TABLE@[k] <= 32,
                    f == permute(to_bits(key@), P_TABLE@),
                    forall|i2: int| i <= i2 < 4 ==> #[trigger] buffer@[i2] == before[i2],
                    forall|i2: int| i + 4 <= i2 < 8 ==> #[trigger] buffer@[i2] == before[i2],
                    forall|i2: int| 0 <= i2 < i ==> #[trigger] buffer@[i2] == before[i2 + 4],
                    forall|i2: int, j: int|
                        0 <= i2 < i && 0 <= j < 8 ==> #[trigger] byte_bit(buffer@[i2 + 4], j) == (
                        byte_bit(before[i2], j) != f[8 * i2 + j]),
            {
                let byte: u8 = permuted_byte(&key, 0, &P_TABLE, i * 8);
                proof {
                    assert forall|j: int| 0 <= j < 8 implies byte_bit(buffer@[i as int] ^ byte, j)
                        == (byte_bit(before[i as int], j) != f[8 * i + j]) by {
                        lemma_byte_bit_xor(buffer@[i as int], byte, j);
                    }
                }
                let tmp: u8 = buffer[i + 4];
                buffer[i + 4] = buffer[i] ^ byte;
                buffer[i] = tmp;
            }
            proof {
                lemma_round_result(before, buffer@, f, false);
            }
        },
    }
}

/// The block during the rounds: L then R after `i` rounds, R then L once all 16 are done.
spec fn frame_state(x: Seq<bool>, keys: Seq<Seq<bool>>, i: int) -> Seq<bool> {
    let (l, r) = rounds(x.subrange(0, 32), x.subrange(32, 64), keys.subrange(0, i));
    if i == 16 {
        r + l
    } else {
        l + r
    }
}

/// Encrypts or decrypts the 8-byte block `input` with the round keys of `key_table`.
fn encrypt_frame(input: &[u8], direction: &Des, key_table: &[[u8; 6]; 16]) -> (out: [u8; 8])
    requires
        input@.len() == 8,
    ensures
        to_bits(out@) == des_bits(to_bits(input@), table_keys_for(key_table@, *direction)),
{
    proof {
        lemma_block_tables_in_range();
    }
    let ghost keys = table_keys_for(key_table@, *direction);
    let mut tmp: [u8; 8] = [0; 8];

    // flip bits
    for i in 0..input.len()
        invariant
            input@.len() == 8,
            forall|k: int| 0 <= k < 64 ==> 1 <= #[trigger] IP_TABLE@[k] <= 64,
            forall|i2: int, j: int|
                0 <= i2 < i && 0 <= j < 8 ==> #[trigger] byte_bit(tmp@[i2], j) == bit_at(
                    input@,
                    IP_TABLE@[8 * i2 + j] - 1,
                ),
    {
        let byte: u8 = permuted_byte(input, 0, &IP_TABLE, i * 8);
        assert(input@.subrange(0, 8) =~= input@);
        tmp[i] = byte;
    }
    let ghost x = permute(to_bits(input@), IP_TABLE@);
    proof {
        lemma_permuted_bytes(tmp@, input@, IP_TABLE@);
        assert(x.subrange(0, 32) + x.subrange(32, 64) =~= x);
        assert(keys.subrange(0, 0) =~= Seq::<Seq<bool>>::empty());
        assert(keys.len() == 16);
    }

    match direction {
        // decrypt
        Des::Decrypt => {
            for t in 0..16usize
                invariant
                    keys == table_keys_for(key_table@, *direction),
                    *direction == Des::Decrypt,
                    keys.len() == 16,
                    x.len() == 64,
                    to_bits(tmp@) == frame_state(x, keys, t as int),
            {
                let i = 15 - t;
                let ghost before = tmp@;
                shift_and_divide(&mut tmp, i as u8, direction, key_table);
                proof {
                    let (l, r) = rounds(x.subrange(0, 32), x.subrange(32, 64), keys.subrange(0, t as int));
                    lemma_rounds_push(
                        x.subrange(0, 32),
                        x.subrange(32, 64),
                        keys.subrange(0, t as int),
                        keys[t as int],
                    );
                    assert(keys.subrange(0, t as int).push(keys[t as int]) =~= keys.subrange(0, t + 1));
                    assert(keys[t as int] == to_bits(key_table@[i as int]@));
                    lemma_rounds_len(
                        x.subrange(0, 32),
                        x.subrange(32, 64),
                        keys.subrange(0, t as int),
                    );
                    lemma_frame_halves(before, l, r);
                }
            }
        },
        // encrypt
        Des::Encrypt => {
            for i in 0..16usize
                invariant
                    keys == table_keys_for(key_table@, *direction),
                    *direction == Des::Encrypt,
                    keys.len() == 16,
                    x.len() == 64,
                    to_bits(tmp@) == frame_state(x, keys, i as int),
            {
                let ghost before = tmp@;
                shift_and_divide(&mut tmp, i as u8, direction, key_table);
                proof {
                    let (l, r) = rounds(x.subrange(0, 32), x.subrange(32, 64), keys.subrange(0, i as int));
                    lemma_rounds_push(
                        x.subrange(0, 32),
                        x.subrange(32, 64),
                        keys.subrange(0, i as int),
                        keys[i as int],
                    );
                    assert(keys.subrange(0, i as int).push(keys[i as int]) =~= keys.subrange(0, i + 1));
                    assert(keys[i as int] == to_bits(key_table@[i as int]@));
                    lemma_rounds_len(
                        x.subrange(0, 32),
                        x.subrange(32, 64),
                        keys.subrange(0, i as int),
                    );
                    lemma_frame_halves(before, l, r);
                }
            }
        },
    }
    proof {
        assert(keys.subrange(0, 16) =~= keys);
    }

    let mut out: [u8; 8] = [0; 8];
    for i in 0..8usize
        invariant
            forall|k: int| 0 <= k < 64 ==> 1 <= #[trigger] FP_TABLE@[k] <= 64,
            forall|i2: int, j: int|
                0 <= i2 < i && 0 <= j < 8 ==> #[trigger] byte_bit(out@[i2], j) == bit_at(
                    tmp@,
                    FP_TABLE@[8 * i2 + j] - 1,
                ),
    {
        let byte: u8 = permuted_byte(&tmp, 0, &FP_TABLE, i * 8);
        assert(tmp@.subrange(0, 8) =~= tmp@);
        out[i] = byte;
    }
    proof {
        lemma_permuted_bytes(out@, tmp@, FP_TABLE@);
    }
    out
}

/// When the bits of a block are `l + r` (32 bits each), its halves have bits `l` and `r`.
proof fn lemma_frame_halves(block: Seq<u8>, l: Seq<bool>, r: Seq<bool>)
    requires
        block.len() == 8,
        l.len() == 32,
        r.len() == 32,
        to_bits(block) == l + r,
    ensures
        to_bits(block.subrange(0, 4)) == l,
        to_bits(block.subrange(4, 8)) == r,
{
    lemma_to_bits_subrange(block, 0, 4);
    lemma_to_bits_subrange(block, 4, 8);
    assert((l + r).subrange(0, 32) =~= l);
    assert((l + r).subrange(32, 64) =~= r);
}

/// Appends `8 - len % 8` zero bytes (a whole block of them when the length is a multiple of 8).
fn add_padding(input: &mut Vec<u8>)
    ensures
        final(input)@ == old(input)@ + Seq::new((8 - old(input)@.len() % 8) as nat, |i: int| 0u8),
{
    let len: usize = input.len();
    let rest_length: usize = 8 - len % 8;
    let mut padding: Vec<u8> = vec![0x0 as u8; rest_length];
    proof {
        assert(padding@ =~= Seq::new((8 - old(input)@.len() % 8) as nat, |i: int| 0u8));
    }
    input.append(&mut padding);
}

/// Appends `16 - len % 16` zero bytes (a whole 16 of them when the length is a multiple of 16).
#[allow(dead_code)]
fn add_padding_16(input: &mut Vec<u8>)
    ensures
        final(input)@ == old(input)@ + Seq::new((16 - old(input)@.len() % 16) as nat, |i: int| 0u8),
{
    let len: usize = input.len();
    let rest_length: usize = 16 - len % 16;
    let mut padding: Vec<u8> = vec![0x0 as u8; rest_length];
    proof {
        assert(padding@ =~= Seq::new((16 - old(input)@.len() % 16) as nat, |i: int| 0u8));
    }
    input.append(&mut padding);
}

/// Pads `input` in place as `pad` says.
fn pad_in_place(input: &mut Vec<u8>)
    ensures
        final(input)@ == pad(old(input)@),
        final(input)@.len() % 8 == 0,
        final(input)@.len() == 0 <==> old(input)@.len() == 0,
{
    if input.len() % 8 != 0 {
        add_padding(input);
    }
    proof {
        lemma_pad_len(old(input)@);
    }
}

/// A key table made by `calculate_key_table` gives the round keys of its key.
proof fn lemma_table_keys_for_key(key: Seq<u8>, key_table: [[u8; 6]; 16], direction: Des)
    requires
        forall|j: int| 0 <= j < 16 ==> to_bits(#[trigger] key_table@[j]@) == key_schedule(key)[j],
    ensures
        table_keys_for(key_table@, direction) == direction_keys(key, direction),
{
    assert(table_keys(key_table@) =~= key_schedule(key));
}

/// The block that `encrypt_frame` returns is `des_block` of the frame.
proof fn lemma_frame_is_des_block(
    out: [u8; 8],
    frame: Seq<u8>,
    key: Seq<u8>,
    key_table: [[u8; 6]; 16],
    direction: Des,
)
    requires
        forall|j: int| 0 <= j < 16 ==> to_bits(#[trigger] key_table@[j]@) == key_schedule(key)[j],
        to_bits(out@) == des_bits(to_bits(frame), table_keys_for(key_table@, direction)),
    ensures
        out@ == des_block(key, frame, direction),
{
    lemma_table_keys_for_key(key, key_table, direction);
    lemma_from_bits_to_bits(out@);
    reveal(des_block);
}

/// DES in ECB mode. `input` is first padded in place with zero bytes to a
/// multiple of 8 bytes; each 8-byte block is then encrypted or decrypted on
/// its own with the first 8 bytes of `key`.
pub fn des_ecb(key: &[u8], input: &mut Vec<u8>, direction: Des) -> (output: Vec<u8>)
    requires
        key@.len() >= 8,
    ensures
        final(input)@ == pad(old(input)@),
        output@ == ecb(des_cipher(key@, direction), pad(old(input)@)),
{
    pad_in_place(input);
    let ghost data = input@;

    let num_frames: usize = input.len() / 8;

    let mut key_table: [[u8; 6]; 16] = [[0; 6]; 16];
    calculate_key_table(key, &mut key_table);

    let mut output: Vec<u8> = Vec::new();
    for frame_ctr in 0..num_frames
        invariant
            input@ == data,
            input.len() == 8 * num_frames,
            forall|j: int| 0 <= j < 16 ==>
                to_bits(#[trigger] key_table@[j]@) == key_schedule(key@)[j],
            output@.len() == 8 * frame_ctr,
            forall|p: int| 0 <= p < 8 * frame_ctr ==>
                #[trigger] output@[p] == ecb(des_cipher(key@, direction), data)[p],
    {
        let frame: &[u8] = vstd::slice::slice_subrange(input.as_slice(), frame_ctr * 8, (frame_ctr + 1) * 8);
        let block: [u8; 8] = encrypt_frame(frame, &direction, &key_table);
        proof {
            lemma_frame_is_des_block(block, frame@, key@, key_table, direction);
        }
        let ghost prev = output@;
        output.extend_from_slice(&block);
        proof {
            assert forall|p: int| 0 <= p < 8 * (frame_ctr + 1) implies
                #[trigger] output@[p] == ecb(des_cipher(key@, direction), data)[p] by {
                if p >= 8 * frame_ctr {
                    lemma_div_mod_8(frame_ctr as int, p - 8 * frame_ctr);
                    assert(output@[p] == block@[p - 8 * frame_ctr]);
                } else {
                    assert(output@[p] == prev[p]);
                }
            }
        }
    }
    proof {
        assert(output@ =~= ecb(des_cipher(key@, direction), data));
    }
    output
}

/// XORs the 8 bytes `other[other_base..other_base + 8]` into `buf[base..base + 8]`.
fn xor_block_into(buf: &mut Vec<u8>, base: usize, other: &[u8], other_base: usize)
    requires
        base + 8 <= old(buf)@.len(),
        other_base + 8 <= other@.len(),
    ensures
        final(buf)@.len() == old(buf)@.len(),
        forall|p: int| 0 <= p < base ==> #[trigger] final(buf)@[p] == old(buf)@[p],
        forall|p: int| base + 8 <= p < old(buf)@.len() ==>
            #[trigger] final(buf)@[p] == old(buf)@[p],
        forall|i: int| 0 <= i < 8 ==>
            #[trigger] final(buf)@[base + i] == old(buf)@[base + i] ^ other@[other_base + i],
{
    for i in 0..8usize
        invariant
            base + 8 <= buf.len(),
            other_base + 8 <= other.len(),
            buf@.len() == old(buf)@.len(),
            forall|p: int| 0 <= p < base ==> #[trigger] buf@[p] == old(buf)@[p],
            forall|p: int| base + i <= p < old(buf)@.len() ==> #[trigger] buf@[p] == old(buf)@[p],
            forall|i2: int| 0 <= i2 < i ==>
                #[trigger] buf@[base + i2] == old(buf)@[base + i2] ^ other@[other_base + i2],
    {
        buf[base + i] = buf[base + i] ^ other[other_base + i];
    }
}

/// XORs the 8 bytes `other[other_base..other_base + 8]` into `block`.
fn xor_into_block(block: &mut [u8; 8], other: &[u8], other_base: usize)
    requires
        other_base + 8 <= other@.len(),
    ensures
        final(block)@ == xor_bytes(old(block)@, other@.subrange(other_base as int, other_base + 8)),
{
    for i in 0..8usize
        invariant
            other_base + 8 <= other.len(),
            forall|p: int| i <= p < 8 ==> #[trigger] block@[p] == old(block)@[p],
            forall|p: int| 0 <= p < i ==>
                #[trigger] block@[p] == old(block)@[p] ^ other@[other_base + p],
    {
        block[i] = block[i] ^ other[other_base + i];
    }
    proof {
        assert(block@ =~= xor_bytes(old(block)@, other@.subrange(other_base as int, other_base + 8)));
    }
}

/// The last 8 bytes that CBC encryption produced are the chaining value of the next block.
proof fn lemma_cbc_chain_from_output(
    cipher: spec_fn(Seq<u8>) -> Seq<u8>,
    iv: Seq<u8>,
    data: Seq<u8>,
    output: Seq<u8>,
    n: int,
)
    requires
        0 < n,
        output.len() == 8 * n,
        forall|p: int| 0 <= p < 8 * n ==> #[trigger] output[p] == cbc_encrypt(cipher, iv, data)[p],
        8 * n <= data.len(),
    ensures
        forall|i: int| 0 <= i < 8 ==>
            #[trigger] output[8 * (n - 1) + i] == cbc_chain(cipher, iv, data, n as nat)[i],
{
    let c = n - 1;
    assert forall|i: int| 0 <= i < 8 implies
        #[trigger] output[8 * c + i] == cbc_chain(cipher, iv, data, n as nat)[i] by {
        lemma_div_mod_8(c, i);
        assert(output[8 * c + i] == cbc_encrypt(cipher, iv, data)[8 * c + i]);
    }
}

/// One block of CBC encryption: what the loop of `des_cbc` and `triple_des_cbc` keeps.
proof fn lemma_cbc_encrypt_step(
    cipher: spec_fn(Seq<u8>) -> Seq<u8>,
    iv: Seq<u8>,
    data: Seq<u8>,
    c: int,
    before: Seq<u8>,
    after: Seq<u8>,
    out_before: Seq<u8>,
    block: Seq<u8>,
)
    requires
        0 <= c,
        8 * c + 8 <= data.len(),
        before.len() == data.len(),
        forall|p: int| 8 * c <= p < data.len() ==> #[trigger] before[p] == data[p],
        forall|p: int| 0 <= p < 8 * c ==> #[trigger] before[p] == cbc_whitened(cipher, iv, data)[p],
        after.len() == before.len(),
        forall|p: int| 0 <= p < 8 * c ==> #[trigger] after[p] == before[p],
        forall|p: int| 8 * c + 8 <= p < before.len() ==> #[trigger] after[p] == before[p],
        forall|i: int| 0 <= i < 8 ==>
            #[trigger] after[8 * c + i] == before[8 * c + i] ^ cbc_chain(cipher, iv, data, c as nat)[i],
        out_before.len() == 8 * c,
        forall|p: int| 0 <= p < 8 * c ==>
            #[trigger] out_before[p] == cbc_encrypt(cipher, iv, data)[p],
        block.len() == 8,
        block == cipher(after.subrange(8 * c, 8 * c + 8)),
    ensures
        after.subrange(8 * c, 8 * c + 8) == cbc_whitened_block(cipher, iv, data, c),
        forall|p: int| 8 * c + 8 <= p < data.len() ==> #[trigger] after[p] == data[p],
        forall|p: int| 0 <= p < 8 * c + 8 ==>
            #[trigger] after[p] == cbc_whitened(cipher, iv, data)[p],
        (out_before + block).len() == 8 * c + 8,
        forall|p: int| 0 <= p < 8 * c + 8 ==>
            #[trigger] (out_before + block)[p] == cbc_encrypt(cipher, iv, data)[p],
{
    let w = cbc_whitened_block(cipher, iv, data, c);
    let chain = cbc_chain(cipher, iv, data, c as nat);
    assert forall|i: int| 0 <= i < 8 implies
        #[trigger] after.subrange(8 * c, 8 * c + 8)[i] == w[i] by {
        assert(after[8 * c + i] == before[8 * c + i] ^ chain[i]);
        assert(before[8 * c + i] == data[8 * c + i]);
        assert(block_at(data, c)[i] == data[8 * c + i]);
    }
    assert(after.subrange(8 * c, 8 * c + 8) =~= w);
    assert forall|p: int| 0 <= p < 8 * c + 8 implies
        #[trigger] after[p] == cbc_whitened(cipher, iv, data)[p] by {
        if p >= 8 * c {
            lemma_div_mod_8(c, p - 8 * c);
            assert(after[p] == w[p - 8 * c]);
        }
    }
    assert forall|p: int| 0 <= p < 8 * c + 8 implies
        #[trigger] (out_before + block)[p] == cbc_encrypt(cipher, iv, data)[p] by {
        if p >= 8 * c {
            lemma_div_mod_8(c, p - 8 * c);
        }
    }
}

/// One block of CBC decryption: what the loop of `des_cbc` and `triple_des_cbc` keeps.
proof fn lemma_cbc_decrypt_step(
    decipher: spec_fn(Seq<u8>) -> Seq<u8>,
    iv: Seq<u8>,
    data: Seq<u8>,
    c: int,
    out_before: Seq<u8>,
    block: Seq<u8>,
)
    requires
        0 <= c,
        8 * c + 8 <= data.len(),
        out_before.len() == 8 * c,
        forall|p: int| 0 <= p < 8 * c ==>
            #[trigger] out_before[p] == cbc_decrypt(decipher, iv, data)[p],
        block == xor_bytes(decipher(block_at(data, c)), cbc_previous(iv, data, c)),
        block.len() == 8,
    ensures
        (out_before + block).len() == 8 * c + 8,
        forall|p: int| 0 <= p < 8 * c + 8 ==>
            #[trigger] (out_before + block)[p] == cbc_decrypt(decipher, iv, data)[p],
{
    assert forall|p: int| 0 <= p < 8 * c + 8 implies
        #[trigger] (out_before + block)[p] == cbc_decrypt(decipher, iv, data)[p] by {
        if p >= 8 * c {
            lemma_div_mod_8(c, p - 8 * c);
        }
    }
}

/// DES in CBC mode. `input` is first padded in place with zero bytes to a
/// multiple of 8 bytes. Encryption combines each plaintext block (in place in
/// `input`) with the IV or the previous ciphertext block and encrypts it;
/// decryption decrypts each block and combines it with the IV or the previous
/// ciphertext block. Only the first 8 bytes of `key` and of `iv` are read.
pub fn des_cbc(key: &[u8], iv: &[u8], input: &mut Vec<u8>, direction: Des) -> (output: Vec<u8>)
    requires
        key@.len() >= 8,
        old(input)@.len() == 0 || iv@.len() >= 8,
    ensures
        match direction {
            Des::Encrypt => {
                &&& final(input)@ == cbc_whitened(des_cipher(key@, Des::Encrypt), iv@, pad(old(input)@))
                &&& output@ == cbc_encrypt(des_cipher(key@, Des::Encrypt), iv@, pad(old(input)@))
            },
            Des::Decrypt => {
                &&& final(input)@ == pad(old(input)@)
                &&& output@ == cbc_decrypt(des_cipher(key@, Des::Decrypt), iv@, pad(old(input)@))
            },
        },
{
    pad_in_place(input);
    let ghost data = input@;

    let num_frames: usize = input.len() / 8;

    let mut key_table: [[u8; 6]; 16] = [[0; 6]; 16];
    calculate_key_table(key, &mut key_table);

    let mut output: Vec<u8> = Vec::new();
    match direction {
        Des::Encrypt => {
            for frame_ctr in 0..num_frames
                invariant
                    data.len() == 8 * num_frames,
                    input.len() == 8 * num_frames,
                    num_frames == 0 || iv@.len() >= 8,
                    direction == Des::Encrypt,
                    forall|j: int| 0 <= j < 16 ==>
                        to_bits(#[trigger] key_table@[j]@) == key_schedule(key@)[j],
                    forall|p: int| 8 * frame_ctr <= p < data.len() ==>
                        #[trigger] input@[p] == data[p],
                    forall|p: int| 0 <= p < 8 * frame_ctr ==>
                        #[trigger] input@[p] == cbc_whitened(des_cipher(key@, Des::Encrypt), iv@, data)[p],
                    output@.len() == 8 * frame_ctr,
                    forall|p: int| 0 <= p < 8 * frame_ctr ==>
                        #[trigger] output@[p] == cbc_encrypt(des_cipher(key@, Des::Encrypt), iv@, data)[p],
            {
                let ghost before = input@;
                let base: usize = frame_ctr * 8;
                match frame_ctr {
                    0 => {
                        xor_block_into(input, base, iv, 0);
                    },
                    _ => {
                        proof {
                            lemma_cbc_chain_from_output(
                                des_cipher(key@, Des::Encrypt),
                                iv@,
                                data,
                                output@,
                                frame_ctr as int,
                            );
                        }
                        xor_block_into(input, base, output.as_slice(), (frame_ctr - 1) * 8);
                    },
                }
                let frame: &[u8] = vstd::slice::slice_subrange(input.as_slice(), base, base + 8);
                let block: [u8; 8] = encrypt_frame(frame, &direction, &key_table);
                proof {
                    lemma_frame_is_des_block(block, frame@, key@, key_table, direction);
                    lemma_des_cipher_apply(key@, Des::Encrypt, frame@);
                    assert(direction == Des::Encrypt);
                    assert(frame@ == input@.subrange(8 * frame_ctr, 8 * frame_ctr + 8));
                    assert(block@ == des_cipher(key@, Des::Encrypt)(input@.subrange(8 * frame_ctr, 8 * frame_ctr + 8)));
                    lemma_cbc_encrypt_step(
                        des_cipher(key@, Des::Encrypt),
                        iv@,
                        data,
                        frame_ctr as int,
                        before,
                        input@,
                        output@,
                        block@,
                    );
                }
                output.extend_from_slice(&block);
            }
            proof {
                assert(input@ =~= cbc_whitened(des_cipher(key@, Des::Encrypt), iv@, data));
                assert(output@ =~= cbc_encrypt(des_cipher(key@, Des::Encrypt), iv@, data));
            }
        },
        Des::Decrypt => {
            for frame_ctr in 0..num_frames
                invariant
                    input@ == data,
                    input.len() == 8 * num_frames,
                    num_frames == 0 || iv@.len() >= 8,
                    direction == Des::Decrypt,
                    forall|j: int| 0 <= j < 16 ==>
                        to_bits(#[trigger] key_table@[j]@) == key_schedule(key@)[j],
                    output@.len() == 8 * frame_ctr,
                    forall|p: int| 0 <= p < 8 * frame_ctr ==>
                        #[trigger] output@[p] == cbc_decrypt(des_cipher(key@, Des::Decrypt), iv@, data)[p],
            {
                let base: usize = frame_ctr * 8;
                let frame: &[u8] = vstd::slice::slice_subrange(input.as_slice(), base, base + 8);
                let mut block: [u8; 8] = encrypt_frame(frame, &direction, &key_table);
                let ghost plain = block@;
                proof {
                    lemma_frame_is_des_block(block, frame@, key@, key_table, direction);
                    assert(frame@ == block_at(data, frame_ctr as int));
                    lemma_des_cipher_apply(key@, Des::Decrypt, frame@);
                    assert(direction == Des::Decrypt);
                    assert(plain == des_cipher(key@, Des::Decrypt)(block_at(data, frame_ctr as int)));
                }

                match frame_ctr {
                    0 => {
                        xor_into_block(&mut block, iv, 0);
                        assert(iv@.subrange(0, 8) == cbc_previous(iv@, data, frame_ctr as int));
                    },
                    _ => {
                        xor_into_block(&mut block, input.as_slice(), (frame_ctr - 1) * 8);
                        let ghost prev_base: int = (frame_ctr - 1) * 8;
                        assert(input@.subrange(prev_base, prev_base + 8) == cbc_previous(
                            iv@,
                            data,
                            frame_ctr as int,
                        ));
                    },
                }
                assert(block@ == xor_bytes(plain, cbc_previous(iv@, data, frame_ctr as int)));
                proof {
                    lemma_cbc_decrypt_step(
                        des_cipher(key@, Des::Decrypt),
                        iv@,
                        data,
                        frame_ctr as int,
                        output@,
                        block@,
                    );
                }
                output.extend_from_slice(&block);
            }
            proof {
                assert(output@ =~= cbc_decrypt(des_cipher(key@, Des::Decrypt), iv@, data));
            }
        },
    }
    output
}

/// Triple DES (encrypt, decrypt, encrypt) in ECB mode, one whole pass of
/// `des_ecb` per stage, with the keys `key[0..8]`, `key[8..16]` and
/// `key[16..]`; decryption runs the stages backwards. `input` is padded in place.
pub fn triple_des_ecb(key: &[u8], input: &mut Vec<u8>, direction: Des) -> (output: Vec<u8>)
    requires
        key@.len() >= 24,
    ensures
        final(input)@ == pad(old(input)@),
        output@ == match direction {
            Des::Encrypt => ecb(
                des_cipher(key@.subrange(16, key@.len() as int), Des::Encrypt),
                ecb(
                    des_cipher(key@.subrange(8, 16), Des::Decrypt),
                    ecb(des_cipher(key@.subrange(0, 8), Des::Encrypt), pad(old(input)@)),
                ),
            ),
            Des::Decrypt => ecb(
                des_cipher(key@.subrange(0, 8), Des::Decrypt),
                ecb(
                    des_cipher(key@.subrange(8, 16), Des::Encrypt),
                    ecb(des_cipher(key@.subrange(16, key@.len() as int), Des::Decrypt), pad(old(input)@)),
                ),
            ),
        },
{
    let mut key1: Vec<u8> = vstd::slice::slice_to_vec(key);
    let key3: Vec<u8> = key1.split_off(16);
    let key2: Vec<u8> = key1.split_off(8);
    proof {
        lemma_pad_len(old(input)@);
        assert(key1@ =~= key@.subrange(0, 8));
        assert(key2@ =~= key@.subrange(8, 16));
        assert(key3@ =~= key@.subrange(16, key@.len() as int));
    }

    match direction {
        Des::Encrypt => {
            let mut tmp: Vec<u8> = des_ecb(key1.as_slice(), input, Des::Encrypt);
            assert(pad(tmp@) == tmp@);
            let mut tmp2: Vec<u8> = des_ecb(key2.as_slice(), &mut tmp, Des::Decrypt);
            assert(pad(tmp2@) == tmp2@);
            let output: Vec<u8> = des_ecb(key3.as_slice(), &mut tmp2, Des::Encrypt);
            output
        },
        Des::Decrypt => {
            let mut tmp: Vec<u8> = des_ecb(key3.as_slice(), input, Des::Decrypt);
            assert(pad(tmp@) == tmp@);
            let mut tmp2: Vec<u8> = des_ecb(key2.as_slice(), &mut tmp, Des::Encrypt);
            assert(pad(tmp2@) == tmp2@);
            let output: Vec<u8> = des_ecb(key1.as_slice(), &mut tmp2, Des::Decrypt);
            output
        },
    }
}

/// The direction of the first and last stage of triple DES.
spec fn outer_direction(encrypt: bool) -> Des {
    if encrypt {
        Des::Encrypt
    } else {
        Des::Decrypt
    }
}

/// The direction of the middle stage of triple DES.
spec fn inner_direction(encrypt: bool) -> Des {
    if encrypt {
        Des::Decrypt
    } else {
        Des::Encrypt
    }
}

/// Three passes of `encrypt_frame` with key tables of one key give `ede_encrypt` or `ede_decrypt`.
proof fn lemma_three_frames(
    key: Seq<u8>,
    frame: Seq<u8>,
    t1: [[u8; 6]; 16],
    t2: [[u8; 6]; 16],
    t3: [[u8; 6]; 16],
    b1: [u8; 8],
    b2: [u8; 8],
    b3: [u8; 8],
    encrypt: bool,
)
    requires
        forall|j: int| 0 <= j < 16 ==> to_bits(#[trigger] t1@[j]@) == key_schedule(key)[j],
        forall|j: int| 0 <= j < 16 ==> to_bits(#[trigger] t2@[j]@) == key_schedule(key)[j],
        forall|j: int| 0 <= j < 16 ==> to_bits(#[trigger] t3@[j]@) == key_schedule(key)[j],
        to_bits(b1@) == des_bits(to_bits(frame), table_keys_for(t1@, outer_direction(encrypt))),
        to_bits(b2@) == des_bits(to_bits(b1@), table_keys_for(t2@, inner_direction(encrypt))),
        to_bits(b3@) == des_bits(to_bits(b2@), table_keys_for(t3@, outer_direction(encrypt))),
    ensures
        encrypt ==> b3@ == ede_encrypt(key, key, key)(frame),
        !encrypt ==> b3@ == ede_decrypt(key, key, key)(frame),
{
    let d1 = outer_direction(encrypt);
    let d2 = inner_direction(encrypt);
    lemma_frame_is_des_block(b1, frame, key, t1, d1);
    lemma_frame_is_des_block(b2, b1@, key, t2, d2);
    lemma_frame_is_des_block(b3, b2@, key, t3, d1);
    lemma_ede_apply(key, key, key, frame);
}

/// Triple DES (encrypt, decrypt, encrypt) in CBC mode. All three key tables
/// are built from the first 8 bytes of `key`; `key` must still hold at least 16
/// bytes. `input` is padded in place and, when encrypting, each plaintext block
/// in it is combined with its chaining value, as in `des_cbc`.
pub fn triple_des_cbc(key: &[u8], iv: &[u8], input: &mut Vec<u8>, direction: Des) -> (output: Vec<u8>)
    requires
        key@.len() >= 16,
        old(input)@.len() == 0 || iv@.len() >= 8,
    ensures
        match direction {
            Des::Encrypt => {
                &&& final(input)@ == cbc_whitened(ede_encrypt(key@, key@, key@), iv@, pad(old(input)@))
                &&& output@ == cbc_encrypt(ede_encrypt(key@, key@, key@), iv@, pad(old(input)@))
            },
            Des::Decrypt => {
                &&& final(input)@ == pad(old(input)@)
                &&& output@ == cbc_decrypt(ede_decrypt(key@, key@, key@), iv@, pad(old(input)@))
            },
        },
{
    let mut key1: Vec<u8> = vstd::slice::slice_to_vec(key);
    let key3: Vec<u8> = key1.split_off(16);
    let key2: Vec<u8> = key1.split_off(8);

    pad_in_place(input);
    let ghost data = input@;

    let num_frames: usize = input.len() / 8;

    let mut key_table1: [[u8; 6]; 16] = [[0; 6]; 16];
    calculate_key_table(key, &mut key_table1);

    let mut key_table2: [[u8; 6]; 16] = [[0; 6]; 16];
    calculate_key_table(key, &mut key_table2);

    let mut key_table3: [[u8; 6]; 16] = [[0; 6]; 16];
    calculate_key_table(key, &mut key_table3);

    let mut output: Vec<u8> = Vec::new();
    match direction {
        Des::Encrypt => {
            for frame_ctr in 0..num_frames
                invariant
                    data.len() == 8 * num_frames,
                    input.len() == 8 * num_frames,
                    num_frames == 0 || iv@.len() >= 8,
                    forall|j: int| 0 <= j < 16 ==>
                        to_bits(#[trigger] key_table1@[j]@) == key_schedule(key@)[j],
                    forall|j: int| 0 <= j < 16 ==>
                        to_bits(#[trigger] key_table2@[j]@) == key_schedule(key@)[j],
                    forall|j: int| 0 <= j < 16 ==>
                        to_bits(#[trigger] key_table3@[j]@) == key_schedule(key@)[j],
                    forall|p: int| 8 * frame_ctr <= p < data.len() ==>
                        #[trigger] input@[p] == data[p],
                    forall|p: int| 0 <= p < 8 * frame_ctr ==>
                        #[trigger] input@[p] == cbc_whitened(ede_encrypt(key@, key@, key@), iv@, data)[p],
                    output@.len() == 8 * frame_ctr,
                    forall|p: int| 0 <= p < 8 * frame_ctr ==>
                        #[trigger] output@[p] == cbc_encrypt(ede_encrypt(key@, key@, key@), iv@, data)[p],
            {
                let ghost before = input@;
                let base: usize = frame_ctr * 8;
                match frame_ctr {
                    0 => {
                        xor_block_into(input, base, iv, 0);
                    },
                    _ => {
                        proof {
                            lemma_cbc_chain_from_output(
                                ede_encrypt(key@, key@, key@),
                                iv@,
                                data,
                                output@,
                                frame_ctr as int,
                            );
                        }
                        xor_block_into(input, base, output.as_slice(), (frame_ctr - 1) * 8);
                    },
                }
                let frame: &[u8] = vstd::slice::slice_subrange(input.as_slice(), base, base + 8);

                let block1: [u8; 8] = encrypt_frame(frame, &Des::Encrypt, &key_table1);
                let block2: [u8; 8] = encrypt_frame(&block1, &Des::Decrypt, &key_table2);
                let block3: [u8; 8] = encrypt_frame(&block2, &Des::Encrypt, &key_table3);
                proof {
                    lemma_three_frames(
                        key@,
                        frame@,
                        key_table1,
                        key_table2,
                        key_table3,
                        block1,
                        block2,
                        block3,
                        true,
                    );
                    assert(frame@ == input@.subrange(8 * frame_ctr, 8 * frame_ctr + 8));
                    lemma_cbc_encrypt_step(
                        ede_encrypt(key@, key@, key@),
                        iv@,
                        data,
                        frame_ctr as int,
                        before,
                        input@,
                        output@,
                        block3@,
                    );
                }
                output.extend_from_slice(&block3);
            }
            proof {
                assert(input@ =~= cbc_whitened(ede_encrypt(key@, key@, key@), iv@, data));
                assert(output@ =~= cbc_encrypt(ede_encrypt(key@, key@, key@), iv@, data));
            }
        },
        Des::Decrypt => {
            for frame_ctr in 0..num_frames
                invariant
                    input@ == data,
                    input.len() == 8 * num_frames,
                    num_frames == 0 || iv@.len() >= 8,
                    forall|j: int| 0 <= j < 16 ==>
                        to_bits(#[trigger] key_table1@[j]@) == key_schedule(key@)[j],
                    forall|j: int| 0 <= j < 16 ==>
                        to_bits(#[trigger] key_table2@[j]@) == key_schedule(key@)[j],
                    forall|j: int| 0 <= j < 16 ==>
                        to_bits(#[trigger] key_table3@[j]@) == key_schedule(key@)[j],
                    output@.len() == 8 * frame_ctr,
                    forall|p: int| 0 <= p < 8 * frame_ctr ==>
                        #[trigger] output@[p] == cbc_decrypt(ede_decrypt(key@, key@, key@), iv@, data)[p],
            {
                let base: usize = frame_ctr * 8;
                let frame: &[u8] = vstd::slice::slice_subrange(input.as_slice(), base, base + 8);
                let block1: [u8; 8] = encrypt_frame(frame, &Des::Decrypt, &key_table1);
                let block2: [u8; 8] = encrypt_frame(&block1, &Des::Encrypt, &key_table2);
                let mut block3: [u8; 8] = encrypt_frame(&block2, &Des::Decrypt, &key_table3);
                let ghost plain = block3@;
                proof {
                    lemma_three_frames(
                        key@,
                        frame@,
                        key_table1,
                        key_table2,
                        key_table3,
                        block1,
                        block2,
                        block3,
                        false,
                    );
                    assert(frame@ == block_at(data, frame_ctr as int));
                    assert(plain == ede_decrypt(key@, key@, key@)(block_at(data, frame_ctr as int)));
                }

                match frame_ctr {
                    0 => {
                        xor_into_block(&mut block3, iv, 0);
                        assert(iv@.subrange(0, 8) == cbc_previous(iv@, data, frame_ctr as int));
                    },
                    _ => {
                        xor_into_block(&mut block3, input.as_slice(), (frame_ctr - 1) * 8);
                        let ghost prev_base: int = (frame_ctr - 1) * 8;
                        assert(input@.subrange(prev_base, prev_base + 8) == cbc_previous(
                            iv@,
                            data,
                            frame_ctr as int,
                        ));
                    },
                }
                proof {
                    lemma_cbc_decrypt_step(
                        ede_decrypt(key@, key@, key@),
                        iv@,
                        data,
                        frame_ctr as int,
                        output@,
                        block3@,
                    );
                }
                output.extend_from_slice(&block3);
            }
            proof {
                assert(output@ =~= cbc_decrypt(ede_decrypt(key@, key@, key@), iv@, data));
            }
        },
    }
    output
}

} // verus!
