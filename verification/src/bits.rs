//! Byte strings seen as bit strings, most significant bit of the first byte
//! first, as the Data Encryption Standard numbers its bits.
use vstd::arithmetic::div_mod::lemma_fundamental_div_mod;
use vstd::prelude::*;

verus! {

/// Bit `j` of a byte, counting from 0 at the most significant bit.
pub open spec fn byte_bit(b: u8, j: int) -> bool {
    (b >> ((7 - j) as u8)) & 1u8 == 1u8
}

/// Bit `i` of a byte string.
pub open spec fn bit_at(bytes: Seq<u8>, i: int) -> bool {
    byte_bit(bytes[i / 8], i % 8)
}

/// All bits of a byte string, eight per byte.
pub open spec fn to_bits(bytes: Seq<u8>) -> Seq<bool> {
    Seq::new(8 * bytes.len(), |i: int| bit_at(bytes, i))
}

/// 1 for a set bit, 0 for a clear one.
pub open spec fn bit_value(b: bool) -> u8 {
    if b {
        1u8
    } else {
        0u8
    }
}

/// The byte made of bits `8 * k .. 8 * k + 8` of a bit string.
pub open spec fn byte_from_bits(bits: Seq<bool>, k: int) -> u8 {
    (bit_value(bits[8 * k]) << 7u8) | (bit_value(bits[8 * k + 1]) << 6u8) | (bit_value(
        bits[8 * k + 2],
    ) << 5u8) | (bit_value(bits[8 * k + 3]) << 4u8) | (bit_value(bits[8 * k + 4]) << 3u8) | (
    bit_value(bits[8 * k + 5]) << 2u8) | (bit_value(bits[8 * k + 6]) << 1u8) | bit_value(
        bits[8 * k + 7],
    )
}

/// The byte string whose bits are `bits` (a whole number of bytes).
pub open spec fn from_bits(bits: Seq<bool>) -> Seq<u8> {
    Seq::new(bits.len() / 8, |k: int| byte_from_bits(bits, k))
}

/// Bitwise exclusive or of two bit strings of one length.
pub open spec fn xor_bits(a: Seq<bool>, b: Seq<bool>) -> Seq<bool> {
    Seq::new(a.len(), |i: int| a[i] != b[i])
}

/// Bitwise exclusive or of two byte strings of one length.
pub open spec fn xor_bytes(a: Seq<u8>, b: Seq<u8>) -> Seq<u8> {
    Seq::new(a.len(), |i: int| a[i] ^ b[i])
}

pub proof fn lemma_div_mod_8(i: int, j: int)
    requires
        0 <= j < 8,
    ensures
        (8 * i + j) / 8 == i,
        (8 * i + j) % 8 == j,
{
    assert((8 * i + j) / 8 == i && (8 * i + j) % 8 == j) by (nonlinear_arith)
        requires
            0 <= j < 8,
    ;
}

pub proof fn lemma_split_index(p: int)
    requires
        0 <= p,
    ensures
        p == 8 * (p / 8) + p % 8,
        0 <= p % 8 < 8,
        0 <= p / 8,
{
    lemma_fundamental_div_mod(p, 8);
}

proof fn lemma_bit_of_built_byte(x0: u8, x1: u8, x2: u8, x3: u8, x4: u8, x5: u8, x6: u8, x7: u8)
    by (bit_vector)
    requires
        x0 <= 1 && x1 <= 1 && x2 <= 1 && x3 <= 1 && x4 <= 1 && x5 <= 1 && x6 <= 1 && x7 <= 1,
    ensures
        ((((x0 << 7u8) | (x1 << 6u8) | (x2 << 5u8) | (x3 << 4u8) | (x4 << 3u8) | (x5 << 2u8) | (x6
            << 1u8) | x7) >> 7u8) & 1u8) == x0,
        ((((x0 << 7u8) | (x1 << 6u8) | (x2 << 5u8) | (x3 << 4u8) | (x4 << 3u8) | (x5 << 2u8) | (x6
            << 1u8) | x7) >> 6u8) & 1u8) == x1,
        ((((x0 << 7u8) | (x1 << 6u8) | (x2 << 5u8) | (x3 << 4u8) | (x4 << 3u8) | (x5 << 2u8) | (x6
            << 1u8) | x7) >> 5u8) & 1u8) == x2,
        ((((x0 << 7u8) | (x1 << 6u8) | (x2 << 5u8) | (x3 << 4u8) | (x4 << 3u8) | (x5 << 2u8) | (x6
            << 1u8) | x7) >> 4u8) & 1u8) == x3,
        ((((x0 << 7u8) | (x1 << 6u8) | (x2 << 5u8) | (x3 << 4u8) | (x4 << 3u8) | (x5 << 2u8) | (x6
            << 1u8) | x7) >> 3u8) & 1u8) == x4,
        ((((x0 << 7u8) | (x1 << 6u8) | (x2 << 5u8) | (x3 << 4u8) | (x4 << 3u8) | (x5 << 2u8) | (x6
            << 1u8) | x7) >> 2u8) & 1u8) == x5,
        ((((x0 << 7u8) | (x1 << 6u8) | (x2 << 5u8) | (x3 << 4u8) | (x4 << 3u8) | (x5 << 2u8) | (x6
            << 1u8) | x7) >> 1u8) & 1u8) == x6,
        ((((x0 << 7u8) | (x1 << 6u8) | (x2 << 5u8) | (x3 << 4u8) | (x4 << 3u8) | (x5 << 2u8) | (x6
            << 1u8) | x7) >> 0u8) & 1u8) == x7,
{
}

/// Two bytes with the same eight bits are equal.
pub proof fn lemma_byte_ext(a: u8, b: u8)
    requires
        forall|j: int| 0 <= j < 8 ==> byte_bit(a, j) == byte_bit(b, j),
    ensures
        a == b,
{
    assert(byte_bit(a, 0) == byte_bit(b, 0));
    assert(byte_bit(a, 1) == byte_bit(b, 1));
    assert(byte_bit(a, 2) == byte_bit(b, 2));
    assert(byte_bit(a, 3) == byte_bit(b, 3));
    assert(byte_bit(a, 4) == byte_bit(b, 4));
    assert(byte_bit(a, 5) == byte_bit(b, 5));
    assert(byte_bit(a, 6) == byte_bit(b, 6));
    assert(byte_bit(a, 7) == byte_bit(b, 7));
    assert(a == b) by (bit_vector)
        requires
            ((a >> 7u8) & 1u8 == 1u8) == ((b >> 7u8) & 1u8 == 1u8),
            ((a >> 6u8) & 1u8 == 1u8) == ((b >> 6u8) & 1u8 == 1u8),
            ((a >> 5u8) & 1u8 == 1u8) == ((b >> 5u8) & 1u8 == 1u8),
            ((a >> 4u8) & 1u8 == 1u8) == ((b >> 4u8) & 1u8 == 1u8),
            ((a >> 3u8) & 1u8 == 1u8) == ((b >> 3u8) & 1u8 == 1u8),
            ((a >> 2u8) & 1u8 == 1u8) == ((b >> 2u8) & 1u8 == 1u8),
            ((a >> 1u8) & 1u8 == 1u8) == ((b >> 1u8) & 1u8 == 1u8),
            ((a >> 0u8) & 1u8 == 1u8) == ((b >> 0u8) & 1u8 == 1u8),
    ;
}

/// Bit `j` of the byte built from bits `8 * k ..` is bit `8 * k + j`.
pub proof fn lemma_byte_from_bits_bit(bits: Seq<bool>, k: int, j: int)
    requires
        0 <= j < 8,
    ensures
        byte_bit(byte_from_bits(bits, k), j) == bits[8 * k + j],
{
    let x0 = bit_value(bits[8 * k]);
    let x1 = bit_value(bits[8 * k + 1]);
    let x2 = bit_value(bits[8 * k + 2]);
    let x3 = bit_value(bits[8 * k + 3]);
    let x4 = bit_value(bits[8 * k + 4]);
    let x5 = bit_value(bits[8 * k + 5]);
    let x6 = bit_value(bits[8 * k + 6]);
    let x7 = bit_value(bits[8 * k + 7]);
    lemma_bit_of_built_byte(x0, x1, x2, x3, x4, x5, x6, x7);
}

/// Bits, packed into bytes and read back, are unchanged.
pub proof fn lemma_to_bits_from_bits(bits: Seq<bool>)
    requires
        bits.len() % 8 == 0,
    ensures
        to_bits(from_bits(bits)) == bits,
{
    let bytes = from_bits(bits);
    lemma_split_index(bits.len() as int);
    assert forall|p: int| 0 <= p < bits.len() implies #[trigger] to_bits(bytes)[p] == bits[p] by {
        lemma_split_index(p);
        lemma_byte_from_bits_bit(bits, p / 8, p % 8);
    }
    assert(to_bits(bytes) =~= bits);
}

/// Bytes, read as bits and packed again, are unchanged.
pub proof fn lemma_from_bits_to_bits(bytes: Seq<u8>)
    ensures
        from_bits(to_bits(bytes)) == bytes,
{
    let bits = to_bits(bytes);
    lemma_div_mod_8(bytes.len() as int, 0);
    assert forall|k: int| 0 <= k < bytes.len() implies
        #[trigger] from_bits(bits)[k] == bytes[k] by {
        assert forall|j: int| 0 <= j < 8 implies byte_bit(from_bits(bits)[k], j) == byte_bit(
            bytes[k],
            j,
        ) by {
            lemma_byte_from_bits_bit(bits, k, j);
            lemma_div_mod_8(k, j);
        }
        lemma_byte_ext(from_bits(bits)[k], bytes[k]);
    }
    assert(from_bits(bits) =~= bytes);
}

/// The bits of a byte string whose bytes have the given bits.
pub proof fn lemma_bits_of_bytes(bytes: Seq<u8>, bits: Seq<bool>)
    requires
        bits.len() == 8 * bytes.len(),
        forall|i: int, j: int|
            0 <= i < bytes.len() && 0 <= j < 8 ==> #[trigger] byte_bit(bytes[i], j) == bits[8
                * i + j],
    ensures
        to_bits(bytes) == bits,
{
    assert forall|p: int| 0 <= p < bits.len() implies #[trigger] to_bits(bytes)[p] == bits[p] by {
        lemma_split_index(p);
        assert(p / 8 < bytes.len()) by (nonlinear_arith)
            requires
                p < 8 * bytes.len(),
                p == 8 * (p / 8) + p % 8,
                0 <= p % 8,
        ;
    }
    assert(to_bits(bytes) =~= bits);
}

/// The bits of a slice of bytes are the matching slice of bits.
pub proof fn lemma_to_bits_subrange(bytes: Seq<u8>, s: int, e: int)
    requires
        0 <= s <= e <= bytes.len(),
    ensures
        to_bits(bytes.subrange(s, e)) == to_bits(bytes).subrange(8 * s, 8 * e),
{
    let sub = bytes.subrange(s, e);
    assert forall|p: int| 0 <= p < 8 * sub.len() implies #[trigger] to_bits(sub)[p] == to_bits(
        bytes,
    ).subrange(8 * s, 8 * e)[p] by {
        lemma_split_index(p);
        lemma_div_mod_8(s + p / 8, p % 8);
    }
    assert(to_bits(sub) =~= to_bits(bytes).subrange(8 * s, 8 * e));
}

/// Bit `j` of `a ^ b` is set when exactly one of `a` and `b` has it set.
pub proof fn lemma_byte_bit_xor(a: u8, b: u8, j: int)
    requires
        0 <= j < 8,
    ensures
        byte_bit(a ^ b, j) == (byte_bit(a, j) != byte_bit(b, j)),
{
    let s = (7 - j) as u8;
    assert(((a ^ b) >> s) & 1u8 == 1u8 <==> (((a >> s) & 1u8 == 1u8) != ((b >> s) & 1u8 == 1u8)))
        by (bit_vector);
}

/// Setting bit `j` (clear before) to `x` keeps the other bits and makes bit `j` equal `x`;
/// `s` is the shift that reaches bit `j`.
pub proof fn lemma_set_bit(b: u8, x: u8, j: int, s: u8)
    requires
        x <= 1,
        0 <= j < 8,
        s == 7 - j,
        !byte_bit(b, j),
    ensures
        byte_bit(b | (x << s), j) == (x == 1),
        forall|t: int| 0 <= t < 8 && t != j ==>
            #[trigger] byte_bit(b | (x << s), t) == byte_bit(b, t),
{
    assert(((b | (x << s)) >> s) & 1u8 == 1u8 <==> x == 1u8) by (bit_vector)
        requires
            x <= 1u8,
            s < 8u8,
            (b >> s) & 1u8 != 1u8,
    ;
    assert forall|t: int| 0 <= t < 8 && t != j implies
        #[trigger] byte_bit(b | (x << s), t) == byte_bit(b, t) by {
        let u = (7 - t) as u8;
        assert(((b | (x << s)) >> u) & 1u8 == (b >> u) & 1u8) by (bit_vector)
            requires
                x <= 1u8,
                s < 8u8,
                u < 8u8,
                u != s,
        ;
    }
}

/// Every bit of 0 is clear.
pub proof fn lemma_zero_bits()
    ensures
        forall|j: int| 0 <= j < 8 ==> !#[trigger] byte_bit(0u8, j),
{
    assert forall|j: int| 0 <= j < 8 implies !#[trigger] byte_bit(0u8, j) by {
        let s = (7 - j) as u8;
        assert((0u8 >> s) & 1u8 == 0u8) by (bit_vector);
    }
}

/// Seven bytes read as one 56-bit big-endian number.
pub open spec fn pack7(b0: u8, b1: u8, b2: u8, b3: u8, b4: u8, b5: u8, b6: u8) -> u64 {
    ((b0 as u64) << 48u64) | ((b1 as u64) << 40u64) | ((b2 as u64) << 32u64) | ((b3 as u64)
        << 24u64) | ((b4 as u64) << 16u64) | ((b5 as u64) << 8u64) | (b6 as u64)
}

pub proof fn lemma_pack7_bound(b0: u8, b1: u8, b2: u8, b3: u8, b4: u8, b5: u8, b6: u8)
    by (bit_vector)
    ensures
        pack7(b0, b1, b2, b3, b4, b5, b6) < 0x100000000000000u64,
{
}

/// Bit `p` of seven bytes is bit `55 - p` (from the least significant) of their packed value.
pub proof fn lemma_bits_of_seven(bytes: Seq<u8>)
    requires
        bytes.len() == 7,
    ensures
        forall|p: int|
            0 <= p < 56 ==> #[trigger] to_bits(bytes)[p] == ((pack7(
                bytes[0],
                bytes[1],
                bytes[2],
                bytes[3],
                bytes[4],
                bytes[5],
                bytes[6],
            ) >> ((55 - p) as u64)) & 1u64 == 1u64),
{
    let b0 = bytes[0];
    let b1 = bytes[1];
    let b2 = bytes[2];
    let b3 = bytes[3];
    let b4 = bytes[4];
    let b5 = bytes[5];
    let b6 = bytes[6];
    let v = pack7(b0, b1, b2, b3, b4, b5, b6);
    assert forall|p: int| 0 <= p < 56 implies
        #[trigger] to_bits(bytes)[p] == ((v >> ((55 - p) as u64)) & 1u64 == 1u64) by {
        lemma_split_index(p);
        let k = p / 8;
        let j = (p % 8) as u64;
        let s = (7 - p % 8) as u8;
        let sh = (55 - p) as u64;
        assert(p == 8 * k + j);
        assert(to_bits(bytes)[p] == ((bytes[k] >> s) & 1u8 == 1u8));
        if k == 0 {
            assert(((v >> sh) & 1u64 == 1u64) == ((b0 >> s) & 1u8 == 1u8)) by (bit_vector)
                requires v == pack7(b0, b1, b2, b3, b4, b5, b6), j < 8u64, s == 7u64 - j, sh == 55u64 - j;
        } else if k == 1 {
            assert(((v >> sh) & 1u64 == 1u64) == ((b1 >> s) & 1u8 == 1u8)) by (bit_vector)
                requires v == pack7(b0, b1, b2, b3, b4, b5, b6), j < 8u64, s == 7u64 - j, sh == 47u64 - j;
        } else if k == 2 {
            assert(((v >> sh) & 1u64 == 1u64) == ((b2 >> s) & 1u8 == 1u8)) by (bit_vector)
                requires v == pack7(b0, b1, b2, b3, b4, b5, b6), j < 8u64, s == 7u64 - j, sh == 39u64 - j;
        } else if k == 3 {
            assert(((v >> sh) & 1u64 == 1u64) == ((b3 >> s) & 1u8 == 1u8)) by (bit_vector)
                requires v == pack7(b0, b1, b2, b3, b4, b5, b6), j < 8u64, s == 7u64 - j, sh == 31u64 - j;
        } else if k == 4 {
            assert(((v >> sh) & 1u64 == 1u64) == ((b4 >> s) & 1u8 == 1u8)) by (bit_vector)
                requires v == pack7(b0, b1, b2, b3, b4, b5, b6), j < 8u64, s == 7u64 - j, sh == 23u64 - j;
        } else if k == 5 {
            assert(((v >> sh) & 1u64 == 1u64) == ((b5 >> s) & 1u8 == 1u8)) by (bit_vector)
                requires v == pack7(b0, b1, b2, b3, b4, b5, b6), j < 8u64, s == 7u64 - j, sh == 15u64 - j;
        } else {
            assert(((v >> sh) & 1u64 == 1u64) == ((b6 >> s) & 1u8 == 1u8)) by (bit_vector)
                requires v == pack7(b0, b1, b2, b3, b4, b5, b6), j < 8u64, s == 7u64 - j, sh == 7u64 - j;
        }
    }
}

/// The two 28-bit halves of a 56-bit number, each rotated left by `s` places.
pub open spec fn rotate_halves(v: u64, s: u64) -> u64 {
    let c = v >> 28u64;
    let d = v & 0xFFFFFFFu64;
    let rc = ((c << s) | (c >> ((28u64 - s) as u64))) & 0xFFFFFFFu64;
    let rd = ((d << s) | (d >> ((28u64 - s) as u64))) & 0xFFFFFFFu64;
    (rc << 28u64) | rd
}

/// Where bit `p` of `rotate_halves(v, s)` comes from, counting bits from the most significant of 56.
pub open spec fn rotated_source(p: int, s: int) -> int {
    if p < 28 {
        if p + s < 28 {
            p + s
        } else {
            p + s - 28
        }
    } else {
        if p + s < 56 {
            p + s
        } else {
            p + s - 28
        }
    }
}

pub proof fn lemma_rotate_halves_bits(v: u64, s: u64)
    requires
        v < 0x100000000000000u64,
        s == 1 || s == 2,
    ensures
        forall|p: int|
            0 <= p < 56 ==>
                ((#[trigger] rotate_halves(v, s) >> ((55 - p) as u64)) & 1u64) == ((v >> ((55
                - rotated_source(p, s as int)) as u64)) & 1u64),
{
    assert forall|p: int| 0 <= p < 56 implies
        ((#[trigger] rotate_halves(v, s) >> ((55 - p) as u64)) & 1u64) == ((v >> ((55
                - rotated_source(p, s as int)) as u64)) & 1u64) by {
        let q = p as u64;
        let r = rotated_source(p, s as int) as u64;
        let sa = (55 - p) as u64;
        let sb = (55 - r) as u64;
        assert(((rotate_halves(v, s) >> sa) & 1u64) == ((v >> sb) & 1u64)) by (bit_vector)
            requires
                sa == 55u64 - q,
                sb == 55u64 - r,
                v < 0x100000000000000u64,
                s == 1u64 || s == 2u64,
                q < 56u64,
                r == (if q < 28u64 {
                    if q + s < 28u64 { q + s } else { q + s - 28u64 }
                } else {
                    if q + s < 56u64 { q + s } else { q + s - 28u64 }
                }),
        ;
    }
}

/// Bit `t` of a six-bit value, counting from 0 at its most significant bit.
pub open spec fn six_bit(v: u8, t: int) -> bool {
    (v >> ((5 - t) as u8)) & 1u8 == 1u8
}

/// Three bytes read as one 24-bit big-endian number.
pub open spec fn pack3(a: u8, b: u8, c: u8) -> u32 {
    ((a as u32) << 16u32) | ((b as u32) << 8u32) | (c as u32)
}

/// Bit `p` of three bytes is bit `23 - p` (from the least significant) of their packed value.
pub proof fn lemma_bits_of_three(bytes: Seq<u8>, p: int)
    requires
        bytes.len() == 3,
        0 <= p < 24,
    ensures
        bit_at(bytes, p) == ((pack3(bytes[0], bytes[1], bytes[2]) >> ((23 - p) as u32)) & 1u32
            == 1u32),
{
    let a = bytes[0];
    let b = bytes[1];
    let c = bytes[2];
    let u = pack3(a, b, c);
    lemma_split_index(p);
    let k = p / 8;
    let j = (p % 8) as u32;
    let s = (7 - p % 8) as u8;
    let sh = (23 - p) as u32;
    assert(p == 8 * k + j);
    if k == 0 {
        assert(((u >> sh) & 1u32 == 1u32) == ((a >> s) & 1u8 == 1u8)) by (bit_vector)
            requires u == pack3(a, b, c), j < 8u32, s == 7u32 - j, sh == 23u32 - j;
    } else if k == 1 {
        assert(((u >> sh) & 1u32 == 1u32) == ((b >> s) & 1u8 == 1u8)) by (bit_vector)
            requires u == pack3(a, b, c), j < 8u32, s == 7u32 - j, sh == 15u32 - j;
    } else {
        assert(((u >> sh) & 1u32 == 1u32) == ((c >> s) & 1u8 == 1u8)) by (bit_vector)
            requires u == pack3(a, b, c), j < 8u32, s == 7u32 - j, sh == 7u32 - j;
    }
}

/// The four six-bit groups that two overlapping 16-bit windows cut from three bytes.
pub proof fn lemma_six_bit_groups(
    a: u8,
    b: u8,
    c: u8,
    v0: u8,
    v1: u8,
    v2: u8,
    v3: u8,
    m: int,
    t: int,
)
    requires
        v0 == ((((a as u16) << 8u16 | (b as u16)) & 0xFC00u16) >> 10u16) as u8,
        v1 == ((((a as u16) << 8u16 | (b as u16)) & 0x03F0u16) >> 4u16) as u8,
        v2 == ((((b as u16) << 8u16 | (c as u16)) & 0x0FC0u16) >> 6u16) as u8,
        v3 == (((b as u16) << 8u16 | (c as u16)) & 0x003Fu16) as u8,
        0 <= m < 4,
        0 <= t < 6,
    ensures
        six_bit(
            if m == 0 {
                v0
            } else if m == 1 {
                v1
            } else if m == 2 {
                v2
            } else {
                v3
            },
            t,
        ) == bit_at(seq![a, b, c], 6 * m + t),
        v0 < 64 && v1 < 64 && v2 < 64 && v3 < 64,
{
    let u = pack3(a, b, c);
    let abc = seq![a, b, c];
    lemma_bits_of_three(abc, 6 * m + t);
    let tt = t as u32;
    let s = (5 - t) as u8;
    let sh = (23 - (6 * m + t)) as u32;
    if m == 0 {
        assert(((v0 >> s) & 1u8 == 1u8) == ((u >> sh) & 1u32 == 1u32)) by (bit_vector)
            requires
                u == pack3(a, b, c),
                v0 == ((((a as u16) << 8u16 | (b as u16)) & 0xFC00u16) >> 10u16) as u8,
                tt < 6u32, s == 5u32 - tt, sh == 23u32 - tt;
    } else if m == 1 {
        assert(((v1 >> s) & 1u8 == 1u8) == ((u >> sh) & 1u32 == 1u32)) by (bit_vector)
            requires
                u == pack3(a, b, c),
                v1 == ((((a as u16) << 8u16 | (b as u16)) & 0x03F0u16) >> 4u16) as u8,
                tt < 6u32, s == 5u32 - tt, sh == 17u32 - tt;
    } else if m == 2 {
        assert(((v2 >> s) & 1u8 == 1u8) == ((u >> sh) & 1u32 == 1u32)) by (bit_vector)
            requires
                u == pack3(a, b, c),
                v2 == ((((b as u16) << 8u16 | (c as u16)) & 0x0FC0u16) >> 6u16) as u8,
                tt < 6u32, s == 5u32 - tt, sh == 11u32 - tt;
    } else {
        assert(((v3 >> s) & 1u8 == 1u8) == ((u >> sh) & 1u32 == 1u32)) by (bit_vector)
            requires
                u == pack3(a, b, c),
                v3 == (((b as u16) << 8u16 | (c as u16)) & 0x003Fu16) as u8,
                tt < 6u32, s == 5u32 - tt, sh == 5u32 - tt;
    }
    assert(v0 < 64 && v1 < 64 && v2 < 64 && v3 < 64) by (bit_vector)
        requires
            v0 == ((((a as u16) << 8u16 | (b as u16)) & 0xFC00u16) >> 10u16) as u8,
            v1 == ((((a as u16) << 8u16 | (b as u16)) & 0x03F0u16) >> 4u16) as u8,
            v2 == ((((b as u16) << 8u16 | (c as u16)) & 0x0FC0u16) >> 6u16) as u8,
            v3 == (((b as u16) << 8u16 | (c as u16)) & 0x003Fu16) as u8,
    ;
}

/// The S-box row and column that the original bit arithmetic picks from a six-bit value.
pub proof fn lemma_sbox_indices(v: u8)
    requires
        v < 64,
    ensures
        (((v & 0x20u8) >> 4u8) | (v & 0x01u8)) as int == 2 * bit_value(six_bit(v, 0)) + bit_value(
            six_bit(v, 5),
        ),
        ((v & 0x1eu8) >> 1u8) as int == 8 * bit_value(six_bit(v, 1)) + 4 * bit_value(six_bit(v, 2))
            + 2 * bit_value(six_bit(v, 3)) + bit_value(six_bit(v, 4)),
        (((v & 0x20u8) >> 4u8) | (v & 0x01u8)) < 4,
        ((v & 0x1eu8) >> 1u8) < 16,
{
    let b0 = (v >> 5u8) & 1u8;
    let b1 = (v >> 4u8) & 1u8;
    let b2 = (v >> 3u8) & 1u8;
    let b3 = (v >> 2u8) & 1u8;
    let b4 = (v >> 1u8) & 1u8;
    let b5 = (v >> 0u8) & 1u8;
    assert(b0 <= 1 && b1 <= 1 && b2 <= 1 && b3 <= 1 && b4 <= 1 && b5 <= 1) by (bit_vector)
        requires
            b0 == (v >> 5u8) & 1u8, b1 == (v >> 4u8) & 1u8, b2 == (v >> 3u8) & 1u8,
            b3 == (v >> 2u8) & 1u8, b4 == (v >> 1u8) & 1u8, b5 == (v >> 0u8) & 1u8;
    assert(bit_value(six_bit(v, 0)) == b0);
    assert(bit_value(six_bit(v, 1)) == b1);
    assert(bit_value(six_bit(v, 2)) == b2);
    assert(bit_value(six_bit(v, 3)) == b3);
    assert(bit_value(six_bit(v, 4)) == b4);
    assert(bit_value(six_bit(v, 5)) == b5);
    assert((((v & 0x20u8) >> 4u8) | (v & 0x01u8)) == 2 * b0 + b5 && ((v & 0x1eu8) >> 1u8) == 8 * b1
        + 4 * b2 + 2 * b3 + b4) by (bit_vector)
        requires
            v < 64u8,
            b0 == (v >> 5u8) & 1u8, b1 == (v >> 4u8) & 1u8, b2 == (v >> 3u8) & 1u8,
            b3 == (v >> 2u8) & 1u8, b4 == (v >> 1u8) & 1u8, b5 == (v >> 0u8) & 1u8;
}

/// The bits of a byte made of two four-bit values.
pub proof fn lemma_nibble_pair(x: u8, y: u8, j: int)
    requires
        x < 16,
        y < 16,
        0 <= j < 8,
    ensures
        byte_bit((x << 4u8) | y, j) == if j < 4 {
            byte_bit(x, j + 4)
        } else {
            byte_bit(y, j)
        },
{
    let s = (7 - j) as u8;
    if j < 4 {
        let s2 = (3 - j) as u8;
        assert((((x << 4u8) | y) >> s) & 1u8 == (x >> s2) & 1u8) by (bit_vector)
            requires x < 16u8, y < 16u8, s2 < 4u8, s == s2 + 4u8;
    } else {
        assert((((x << 4u8) | y) >> s) & 1u8 == (y >> s) & 1u8) by (bit_vector)
            requires x < 16u8, y < 16u8, s < 4u8;
    }
}

} // verus!
