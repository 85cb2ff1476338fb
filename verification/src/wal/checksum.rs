//! Checksums that guard write-ahead log records: CRC-32 with the IEEE
//! polynomial, as `crc32fast` computes it.
use vstd::prelude::*;

verus! {

/// One step of the bit-serial CRC-32 register: shift right by one bit,
/// folding in the reflected IEEE polynomial where the bit shifted out is set.
pub open spec fn crc_step(c: u32) -> u32 {
    if c & 1 == 1 {
        (c >> 1) ^ 0xEDB8_8320
    } else {
        c >> 1
    }
}

/// The eight steps of the register for one byte.
pub open spec fn crc_byte(c: u32) -> u32 {
    crc_step(crc_step(crc_step(crc_step(crc_step(crc_step(crc_step(crc_step(c))))))))
}

/// The register after feeding it `data`, a byte at a time, low bit first.
pub open spec fn crc_update(c: u32, data: Seq<u8>) -> u32
    decreases data.len(),
{
    if data.len() == 0 {
        c
    } else {
        crc_update(crc_byte(c ^ (data[0] as u32)), data.drop_first())
    }
}

/// The CRC-32 (IEEE) checksum of a byte string: the register starts with
/// all bits set, and the result is its final value with all bits flipped.
pub open spec fn crc32_ieee(data: Seq<u8>) -> u32 {
    crc_update(0xFFFF_FFFF, data) ^ 0xFFFF_FFFF
}

/// Calls `crc32fast::hash`, which feeds `data` to a fresh `crc32fast::Hasher`
/// and finalizes it. Claimed: the result is the CRC-32 (IEEE) checksum of
/// the bytes, the checksum that crate documents it computes.
#[verifier::external_body]
fn crc32fast_hash(data: &[u8]) -> (r: u32)
    ensures
        r == crc32_ieee(data@),
{
    crc32fast::hash(data)
}

/// Calculates the CRC32 checksum of the provided data.
pub fn calculate(data: &[u8]) -> (r: u32)
    ensures
        r == crc32_ieee(data@),
{
    crc32fast_hash(data)
}

/// A register step loses nothing: different registers stay different.
proof fn lemma_step_injective(a: u32, b: u32)
    ensures
        crc_step(a) == crc_step(b) ==> a == b,
{
    assert((if a & 1 == 1 { (a >> 1) ^ 0xEDB8_8320u32 } else { a >> 1 }) == (if b & 1 == 1 {
        (b >> 1) ^ 0xEDB8_8320u32
    } else {
        b >> 1
    }) ==> a == b) by (bit_vector);
}

/// The steps of a byte lose nothing.
proof fn lemma_byte_injective(a: u32, b: u32)
    ensures
        crc_byte(a) == crc_byte(b) ==> a == b,
{
    let a1 = crc_step(a);
    let b1 = crc_step(b);
    let a2 = crc_step(a1);
    let b2 = crc_step(b1);
    let a3 = crc_step(a2);
    let b3 = crc_step(b2);
    let a4 = crc_step(a3);
    let b4 = crc_step(b3);
    let a5 = crc_step(a4);
    let b5 = crc_step(b4);
    let a6 = crc_step(a5);
    let b6 = crc_step(b5);
    let a7 = crc_step(a6);
    let b7 = crc_step(b6);
    lemma_step_injective(a, b);
    lemma_step_injective(a1, b1);
    lemma_step_injective(a2, b2);
    lemma_step_injective(a3, b3);
    lemma_step_injective(a4, b4);
    lemma_step_injective(a5, b5);
    lemma_step_injective(a6, b6);
    lemma_step_injective(a7, b7);
}

/// Different registers fed the same bytes stay different.
proof fn lemma_update_injective(a: u32, b: u32, data: Seq<u8>)
    requires
        a != b,
    ensures
        crc_update(a, data) != crc_update(b, data),
    decreases data.len(),
{
    if data.len() > 0 {
        let x = data[0] as u32;
        assert(a ^ x != b ^ x) by (bit_vector)
            requires
                a != b,
        ;
        lemma_byte_injective(a ^ x, b ^ x);
        lemma_update_injective(crc_byte(a ^ x), crc_byte(b ^ x), data.drop_first());
    }
}

/// One register fed two byte strings of a length that differ in one byte
/// ends different.
proof fn lemma_update_one_byte(c: u32, a: Seq<u8>, b: Seq<u8>, p: int)
    requires
        a.len() == b.len(),
        0 <= p < a.len(),
        a[p] != b[p],
        forall|i: int| 0 <= i < a.len() && i != p ==> a[i] == b[i],
    ensures
        crc_update(c, a) != crc_update(c, b),
    decreases a.len(),
{
    let a0 = a[0] as u32;
    let b0 = b[0] as u32;
    if p == 0 {
        assert(c ^ a0 != c ^ b0) by (bit_vector)
            requires
                a0 != b0,
        ;
        lemma_byte_injective(c ^ a0, c ^ b0);
        assert(a.drop_first() =~= b.drop_first());
        lemma_update_injective(crc_byte(c ^ a0), crc_byte(c ^ b0), a.drop_first());
    } else {
        assert(a[0] == b[0]);
        lemma_update_one_byte(crc_byte(c ^ a0), a.drop_first(), b.drop_first(), p - 1);
    }
}

/// The checksum catches any one changed byte: two byte strings of a length
/// that differ in exactly one byte have different checksums.
pub proof fn lemma_crc_detects_one_byte(a: Seq<u8>, b: Seq<u8>, p: int)
    requires
        a.len() == b.len(),
        0 <= p < a.len(),
        a[p] != b[p],
        forall|i: int| 0 <= i < a.len() && i != p ==> a[i] == b[i],
    ensures
        crc32_ieee(a) != crc32_ieee(b),
{
    lemma_update_one_byte(0xFFFF_FFFF, a, b, p);
    let x = crc_update(0xFFFF_FFFF, a);
    let y = crc_update(0xFFFF_FFFF, b);
    assert(x ^ 0xFFFF_FFFFu32 != y ^ 0xFFFF_FFFFu32) by (bit_vector)
        requires
            x != y,
    ;
}

/// The standard check value: the checksum of the ASCII digits "123456789"
/// is 0xCBF43926.
pub proof fn lemma_crc_check_value()
    ensures
        crc32_ieee(seq![0x31u8, 0x32, 0x33, 0x34, 0x35, 0x36, 0x37, 0x38, 0x39]) == 0xCBF4_3926,
{
    assert(crc_byte(0xffffffffu32 ^ 0x31u32) == 0x7c231048u32) by (bit_vector);
    assert(seq![0x31u8, 0x32u8, 0x33u8, 0x34u8, 0x35u8, 0x36u8, 0x37u8, 0x38u8, 0x39u8].drop_first() =~= seq![0x32u8, 0x33u8, 0x34u8, 0x35u8, 0x36u8, 0x37u8, 0x38u8, 0x39u8]);
    assert(crc_update(0xffffffffu32, seq![0x31u8, 0x32u8, 0x33u8, 0x34u8, 0x35u8, 0x36u8, 0x37u8, 0x38u8, 0x39u8]) == crc_update(0x7c231048u32, seq![0x32u8, 0x33u8, 0x34u8, 0x35u8, 0x36u8, 0x37u8, 0x38u8, 0x39u8]));
    assert(crc_byte(0x7c231048u32 ^ 0x32u32) == 0xb0acbb32u32) by (bit_vector);
    assert(seq![0x32u8, 0x33u8, 0x34u8, 0x35u8, 0x36u8, 0x37u8, 0x38u8, 0x39u8].drop_first() =~= seq![0x33u8, 0x34u8, 0x35u8, 0x36u8, 0x37u8, 0x38u8, 0x39u8]);
    assert(crc_update(0x7c231048u32, seq![0x32u8, 0x33u8, 0x34u8, 0x35u8, 0x36u8, 0x37u8, 0x38u8, 0x39u8]) == crc_update(0xb0acbb32u32, seq![0x33u8, 0x34u8, 0x35u8, 0x36u8, 0x37u8, 0x38u8, 0x39u8]));
    assert(crc_byte(0xb0acbb32u32 ^ 0x33u32) == 0x77b79c2du32) by (bit_vector);
    assert(seq![0x33u8, 0x34u8, 0x35u8, 0x36u8, 0x37u8, 0x38u8, 0x39u8].drop_first() =~= seq![0x34u8, 0x35u8, 0x36u8, 0x37u8, 0x38u8, 0x39u8]);
    assert(crc_update(0xb0acbb32u32, seq![0x33u8, 0x34u8, 0x35u8, 0x36u8, 0x37u8, 0x38u8, 0x39u8]) == crc_update(0x77b79c2du32, seq![0x34u8, 0x35u8, 0x36u8, 0x37u8, 0x38u8, 0x39u8]));
    assert(crc_byte(0x77b79c2du32 ^ 0x34u32) == 0x641c1f5cu32) by (bit_vector);
    assert(seq![0x34u8, 0x35u8, 0x36u8, 0x37u8, 0x38u8, 0x39u8].drop_first() =~= seq![0x35u8, 0x36u8, 0x37u8, 0x38u8, 0x39u8]);
    assert(crc_update(0x77b79c2du32, seq![0x34u8, 0x35u8, 0x36u8, 0x37u8, 0x38u8, 0x39u8]) == crc_update(0x641c1f5cu32, seq![0x35u8, 0x36u8, 0x37u8, 0x38u8, 0x39u8]));
    assert(crc_byte(0x641c1f5cu32 ^ 0x35u32) == 0x340ac5e3u32) by (bit_vector);
    assert(seq![0x35u8, 0x36u8, 0x37u8, 0x38u8, 0x39u8].drop_first() =~= seq![0x36u8, 0x37u8, 0x38u8, 0x39u8]);
    assert(crc_update(0x641c1f5cu32, seq![0x35u8, 0x36u8, 0x37u8, 0x38u8, 0x39u8]) == crc_update(0x340ac5e3u32, seq![0x36u8, 0x37u8, 0x38u8, 0x39u8]));
    assert(crc_byte(0x340ac5e3u32 ^ 0x36u32) == 0xf68d2c9eu32) by (bit_vector);
    assert(seq![0x36u8, 0x37u8, 0x38u8, 0x39u8].drop_first() =~= seq![0x37u8, 0x38u8, 0x39u8]);
    assert(crc_update(0x340ac5e3u32, seq![0x36u8, 0x37u8, 0x38u8, 0x39u8]) == crc_update(0xf68d2c9eu32, seq![0x37u8, 0x38u8, 0x39u8]));
    assert(crc_byte(0xf68d2c9eu32 ^ 0x37u32) == 0xaffc9660u32) by (bit_vector);
    assert(seq![0x37u8, 0x38u8, 0x39u8].drop_first() =~= seq![0x38u8, 0x39u8]);
    assert(crc_update(0xf68d2c9eu32, seq![0x37u8, 0x38u8, 0x39u8]) == crc_update(0xaffc9660u32, seq![0x38u8, 0x39u8]));
    assert(crc_byte(0xaffc9660u32 ^ 0x38u32) == 0x651f2550u32) by (bit_vector);
    assert(seq![0x38u8, 0x39u8].drop_first() =~= seq![0x39u8]);
    assert(crc_update(0xaffc9660u32, seq![0x38u8, 0x39u8]) == crc_update(0x651f2550u32, seq![0x39u8]));
    assert(crc_byte(0x651f2550u32 ^ 0x39u32) == 0x340bc6d9u32) by (bit_vector);
    assert(seq![0x39u8].drop_first() =~= Seq::<u8>::empty());
    assert(crc_update(0x651f2550u32, seq![0x39u8]) == crc_update(0x340bc6d9u32, Seq::<u8>::empty()));
    assert(0x340bc6d9u32 ^ 0xFFFF_FFFFu32 == 0xCBF4_3926u32) by (bit_vector);
}

} // verus!
