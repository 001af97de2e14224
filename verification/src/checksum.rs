//! CRC-32 (ISO-HDLC): the integrity check carried by every message.
//!
//! The value is computed by the `crc` crate. What it computes is written out
//! here as a specification, register step by register step, so that the rest
//! of the library can reason about it.

use vstd::prelude::*;

verus! {

/// The generator polynomial, bit-reflected.
pub const CRC32_POLY: u32 = 0xEDB8_8320;

/// The register before any byte is taken in, and the mask applied at the end.
pub const CRC32_MASK: u32 = 0xFFFF_FFFF;

/// One shift of the reflected register: the low bit leaves, and where it was
/// set the polynomial is folded in.
pub open spec fn crc32_shift(value: u32) -> u32 {
    (value >> 1) ^ (if value & 1 == 1 {
        CRC32_POLY
    } else {
        0u32
    })
}

/// Eight shifts in a row.
pub open spec fn crc32_shift8(value: u32) -> u32 {
    crc32_shift(
        crc32_shift(
            crc32_shift(
                crc32_shift(crc32_shift(crc32_shift(crc32_shift(crc32_shift(value))))),
            ),
        ),
    )
}

/// The register after one more byte: the byte is mixed into the low eight
/// bits, which select the table entry `crc32_shift8(index)`; the rest of the
/// register moves down by eight bits.
pub open spec fn crc32_update(register: u32, byte: u8) -> u32 {
    crc32_shift8((register ^ (byte as u32)) & 0xFF) ^ (register >> 8)
}

/// The register after all of `data`, starting from all ones.
pub open spec fn crc32_register(data: Seq<u8>) -> u32
    decreases data.len(),
{
    if data.len() == 0 {
        CRC32_MASK
    } else {
        crc32_update(crc32_register(data.drop_last()), data.last())
    }
}

/// The CRC-32 of `data`: the final register with every bit flipped.
pub open spec fn crc32(data: Seq<u8>) -> u32 {
    crc32_register(data) ^ CRC32_MASK
}

/// Computes the CRC-32 of `data` with `crc::Crc::<u32>::checksum`, on the
/// algorithm `crc::CRC_32_ISO_HDLC`.
///
/// Trusted: that the crate's table-driven computation is the one written out
/// in [`crc32`]: reflected polynomial `0xEDB88320`, register starting at all
/// ones, one table lookup per byte, all bits flipped at the end.
#[verifier::external_body]
pub(crate) fn crc32_checksum(data: &[u8]) -> (sum: u32)
    ensures
        sum == crc32(data@),
{
    crc::Crc::<u32>::new(&crc::CRC_32_ISO_HDLC).checksum(data)
}

/// A shift loses nothing: the bit that leaves decides the top bit.
proof fn lemma_shift_injective(a: u32, b: u32)
    requires
        crc32_shift(a) == crc32_shift(b),
    ensures
        a == b,
{
    assert(((a >> 1) ^ (if a & 1 == 1 {
        0xEDB8_8320u32
    } else {
        0u32
    })) == ((b >> 1) ^ (if b & 1 == 1 {
        0xEDB8_8320u32
    } else {
        0u32
    })) ==> a == b) by (bit_vector);
}

proof fn lemma_shift8_injective(a: u32, b: u32)
    requires
        crc32_shift8(a) == crc32_shift8(b),
    ensures
        a == b,
{
    let a1 = crc32_shift(a);
    let a2 = crc32_shift(a1);
    let a3 = crc32_shift(a2);
    let a4 = crc32_shift(a3);
    let a5 = crc32_shift(a4);
    let a6 = crc32_shift(a5);
    let a7 = crc32_shift(a6);
    let b1 = crc32_shift(b);
    let b2 = crc32_shift(b1);
    let b3 = crc32_shift(b2);
    let b4 = crc32_shift(b3);
    let b5 = crc32_shift(b4);
    let b6 = crc32_shift(b5);
    let b7 = crc32_shift(b6);
    lemma_shift_injective(a7, b7);
    lemma_shift_injective(a6, b6);
    lemma_shift_injective(a5, b5);
    lemma_shift_injective(a4, b4);
    lemma_shift_injective(a3, b3);
    lemma_shift_injective(a2, b2);
    lemma_shift_injective(a1, b1);
    lemma_shift_injective(a, b);
}

/// A shift distributes over the exclusive or of two registers, and leaves
/// the register of all zeros as it is.
proof fn lemma_shift_split(x: u32, y: u32)
    ensures
        crc32_shift(x ^ y) == crc32_shift(x) ^ crc32_shift(y) ^ crc32_shift(0),
        crc32_shift(0) == 0,
{
    assert(((x ^ y) >> 1) ^ (if (x ^ y) & 1 == 1 {
        0xEDB8_8320u32
    } else {
        0u32
    }) == ((x >> 1) ^ (if x & 1 == 1 {
        0xEDB8_8320u32
    } else {
        0u32
    })) ^ ((y >> 1) ^ (if y & 1 == 1 {
        0xEDB8_8320u32
    } else {
        0u32
    })) ^ 0u32) by (bit_vector);
    assert((0u32 >> 1) ^ (if 0u32 & 1 == 1 {
        0xEDB8_8320u32
    } else {
        0u32
    }) == 0u32) by (bit_vector);
}

/// A register whose low bit is clear is only moved down by a shift.
proof fn lemma_shift_clear(h: u32)
    requires
        h & 1 == 0,
    ensures
        crc32_shift(h) == h >> 1,
{
    assert(h & 1 == 0 ==> ((h >> 1) ^ (if h & 1 == 1 {
        0xEDB8_8320u32
    } else {
        0u32
    })) == h >> 1) by (bit_vector);
}

/// Eight shifts of a register whose low byte is clear move it down a byte.
proof fn lemma_shift8_high(h: u32)
    requires
        h & 0xFF == 0,
    ensures
        crc32_shift8(h) == h >> 8,
{
    assert(h & 0xFF == 0 ==> h & 1 == 0 && (h >> 1) & 1 == 0 && (h >> 2) & 1 == 0 && (h >> 3) & 1
        == 0 && (h >> 4) & 1 == 0 && (h >> 5) & 1 == 0 && (h >> 6) & 1 == 0 && (h >> 7) & 1 == 0)
        by (bit_vector);
    assert((h >> 1) >> 1 == h >> 2 && (h >> 2) >> 1 == h >> 3 && (h >> 3) >> 1 == h >> 4 && (h
        >> 4) >> 1 == h >> 5 && (h >> 5) >> 1 == h >> 6 && (h >> 6) >> 1 == h >> 7 && (h >> 7)
        >> 1 == h >> 8) by (bit_vector);
    lemma_shift_clear(h);
    lemma_shift_clear(h >> 1);
    lemma_shift_clear(h >> 2);
    lemma_shift_clear(h >> 3);
    lemma_shift_clear(h >> 4);
    lemma_shift_clear(h >> 5);
    lemma_shift_clear(h >> 6);
    lemma_shift_clear(h >> 7);
}

/// Eight shifts distribute over the exclusive or of two registers.
proof fn lemma_shift8_split(x: u32, y: u32)
    ensures
        crc32_shift8(x ^ y) == crc32_shift8(x) ^ crc32_shift8(y),
{
    let x1 = crc32_shift(x);
    let x2 = crc32_shift(x1);
    let x3 = crc32_shift(x2);
    let x4 = crc32_shift(x3);
    let x5 = crc32_shift(x4);
    let x6 = crc32_shift(x5);
    let x7 = crc32_shift(x6);
    let y1 = crc32_shift(y);
    let y2 = crc32_shift(y1);
    let y3 = crc32_shift(y2);
    let y4 = crc32_shift(y3);
    let y5 = crc32_shift(y4);
    let y6 = crc32_shift(y5);
    let y7 = crc32_shift(y6);
    lemma_shift_split(x, y);
    lemma_shift_split(x1, y1);
    lemma_shift_split(x2, y2);
    lemma_shift_split(x3, y3);
    lemma_shift_split(x4, y4);
    lemma_shift_split(x5, y5);
    lemma_shift_split(x6, y6);
    lemma_shift_split(x7, y7);
    assert(forall|a: u32| #[trigger] (a ^ 0u32) == a) by (bit_vector);
}

/// Taking a byte in through the table is eight shifts of the register mixed
/// with the byte.
pub proof fn lemma_update_is_shift8(register: u32, byte: u8)
    ensures
        crc32_update(register, byte) == crc32_shift8(register ^ (byte as u32)),
{
    let b = byte as u32;
    let x = register ^ b;
    let low = x & 0xFF;
    let high = x & 0xFFFF_FF00;
    assert(x == low ^ high) by (bit_vector)
        requires
            low == x & 0xFF,
            high == x & 0xFFFF_FF00,
    ;
    assert(high & 0xFF == 0) by (bit_vector)
        requires
            high == x & 0xFFFF_FF00,
    ;
    assert(high >> 8 == register >> 8) by (bit_vector)
        requires
            high == x & 0xFFFF_FF00,
            x == register ^ b,
            b <= 0xFF,
    ;
    lemma_shift8_split(low, high);
    lemma_shift8_high(high);
}

/// Two registers that differ still differ after the same byte.
pub proof fn lemma_update_keeps_registers_apart(first: u32, second: u32, byte: u8)
    requires
        first != second,
    ensures
        crc32_update(first, byte) != crc32_update(second, byte),
{
    let b = byte as u32;
    lemma_update_is_shift8(first, byte);
    lemma_update_is_shift8(second, byte);
    if crc32_shift8(first ^ b) == crc32_shift8(second ^ b) {
        lemma_shift8_injective(first ^ b, second ^ b);
        assert(first ^ b == second ^ b ==> first == second) by (bit_vector);
    }
}

/// One register gives different results for two different bytes.
pub proof fn lemma_update_keeps_bytes_apart(register: u32, first: u8, second: u8)
    requires
        first != second,
    ensures
        crc32_update(register, first) != crc32_update(register, second),
{
    let a = first as u32;
    let b = second as u32;
    lemma_update_is_shift8(register, first);
    lemma_update_is_shift8(register, second);
    if crc32_shift8(register ^ a) == crc32_shift8(register ^ b) {
        lemma_shift8_injective(register ^ a, register ^ b);
        assert(register ^ a == register ^ b ==> a == b) by (bit_vector);
    }
}

/// Changing one byte of the data changes the register after it.
proof fn lemma_register_detects_byte(data: Seq<u8>, at: int, byte: u8)
    requires
        0 <= at < data.len(),
        byte != data[at],
    ensures
        crc32_register(data.update(at, byte)) != crc32_register(data),
    decreases data.len(),
{
    let changed = data.update(at, byte);
    if at == data.len() - 1 {
        assert(changed.drop_last() =~= data.drop_last());
        lemma_update_keeps_bytes_apart(crc32_register(data.drop_last()), byte, data[at]);
    } else {
        assert(changed.drop_last() =~= data.drop_last().update(at, byte));
        lemma_register_detects_byte(data.drop_last(), at, byte);
        lemma_update_keeps_registers_apart(
            crc32_register(changed.drop_last()),
            crc32_register(data.drop_last()),
            data.last(),
        );
    }
}

/// The checksum detects every change of a single byte: data that differs
/// from `data` in exactly the byte at `at` has another CRC-32.
pub proof fn lemma_crc32_detects_byte(data: Seq<u8>, at: int, byte: u8)
    requires
        0 <= at < data.len(),
        byte != data[at],
    ensures
        crc32(data.update(at, byte)) != crc32(data),
{
    lemma_register_detects_byte(data, at, byte);
    let a = crc32_register(data.update(at, byte));
    let b = crc32_register(data);
    assert(a != b ==> (a ^ 0xFFFF_FFFFu32) != (b ^ 0xFFFF_FFFFu32)) by (bit_vector);
}

} // verus!
