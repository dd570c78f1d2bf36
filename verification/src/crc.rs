//! CRC-32 (IEEE 802.3, reflected polynomial `0xEDB88320`), computed bit by bit.
use vstd::prelude::*;

verus! {

/// The reflected CRC-32 generator polynomial.
pub const CRC32_POLY: u32 = 0xedb8_8320;

/// One shift of the CRC register: shift right, folding in the polynomial
/// when the bit that falls out is set.
pub open spec fn crc_shift(c: u32) -> u32 {
    if c & 1 != 0 {
        (c >> 1u32) ^ CRC32_POLY
    } else {
        c >> 1u32
    }
}

/// `k` consecutive register shifts.
pub open spec fn crc_shifts(c: u32, k: nat) -> u32
    decreases k,
{
    if k == 0 {
        c
    } else {
        crc_shift(crc_shifts(c, (k - 1) as nat))
    }
}

/// Feeds one byte into the register.
pub open spec fn crc_feed(c: u32, b: u8) -> u32 {
    crc_shifts(c ^ (b as u32), 8)
}

/// The register after feeding all of `data`, starting from all ones.
pub open spec fn crc_register(data: Seq<u8>) -> u32
    decreases data.len(),
{
    if data.len() == 0 {
        0xffff_ffffu32
    } else {
        crc_feed(crc_register(data.drop_last()), data.last())
    }
}

/// The CRC-32 of `data`: the final register, inverted.
pub open spec fn spec_crc32(data: Seq<u8>) -> u32 {
    !crc_register(data)
}

/// Entry `k` of the CRC-32 table: the value `k` shifted eight times
/// through the register.
pub open spec fn crc_table(k: u32) -> u32 {
    crc_shifts(k, 8)
}

/// A register shift is linear over XOR.
proof fn lemma_shift_xor(a: u32, b: u32)
    ensures
        crc_shift(a ^ b) == crc_shift(a) ^ crc_shift(b),
{
    assert((((a ^ b) & 1 != 0) ==> ((a ^ b) >> 1u32) ^ 0xedb8_8320u32 == (if a & 1 != 0 {
        (a >> 1u32) ^ 0xedb8_8320u32
    } else {
        a >> 1u32
    }) ^ (if b & 1 != 0 {
        (b >> 1u32) ^ 0xedb8_8320u32
    } else {
        b >> 1u32
    })) && (((a ^ b) & 1 == 0) ==> (a ^ b) >> 1u32 == (if a & 1 != 0 {
        (a >> 1u32) ^ 0xedb8_8320u32
    } else {
        a >> 1u32
    }) ^ (if b & 1 != 0 {
        (b >> 1u32) ^ 0xedb8_8320u32
    } else {
        b >> 1u32
    }))) by (bit_vector);
}

/// Repeated shifts are linear over XOR.
proof fn lemma_shifts_xor(a: u32, b: u32, k: nat)
    ensures
        crc_shifts(a ^ b, k) == crc_shifts(a, k) ^ crc_shifts(b, k),
    decreases k,
{
    if k > 0 {
        lemma_shifts_xor(a, b, (k - 1) as nat);
        lemma_shift_xor(crc_shifts(a, (k - 1) as nat), crc_shifts(b, (k - 1) as nat));
    }
}

/// A value whose low eight bits are clear just shifts right through up to
/// eight register steps: the polynomial is never folded in.
proof fn lemma_shifts_high(x: u32, k: nat)
    requires
        x & 0xff == 0,
        k <= 8,
    ensures
        crc_shifts(x, k) == x >> (k as u32),
    decreases k,
{
    if k > 0 {
        lemma_shifts_high(x, (k - 1) as nat);
        let j = (k - 1) as u32;
        let kk = k as u32;
        assert(((x >> j) & 1 == 0) && ((x >> j) >> 1u32 == x >> kk)) by (bit_vector)
            requires
                x & 0xff == 0,
                j < 8,
                kk == j + 1,
        ;
    } else {
        assert(x >> 0u32 == x) by (bit_vector);
    }
}

/// Feeding one byte into the CRC-32 register is the table step: the
/// register shifts right by eight and the table entry for its low byte,
/// XORed with the (zero-extended) input byte, is folded in.
pub proof fn theorem_crc_table_step(data: Seq<u8>, b: u8)
    ensures
        crc_register(data.push(b)) == (crc_register(data) >> 8u32) ^ crc_table(
            (crc_register(data) ^ (b as u32)) & 0xff,
        ),
        spec_crc32(data.push(b)) == !((crc_register(data) >> 8u32) ^ crc_table(
            (crc_register(data) ^ (b as u32)) & 0xff,
        )),
{
    let r = crc_register(data);
    assert(data.push(b).drop_last() =~= data);
    let x = r ^ (b as u32);
    let hi = x & 0xffff_ff00u32;
    let lo = x & 0xff;
    assert(x == hi ^ lo && hi & 0xff == 0 && hi >> 8u32 == r >> 8u32) by (bit_vector)
        requires
            x == r ^ (b as u32),
            hi == x & 0xffff_ff00u32,
            lo == x & 0xff,
    ;
    lemma_shifts_xor(hi, lo, 8);
    lemma_shifts_high(hi, 8);
}

/// Two entries of the standard CRC-32 table: the single top bit of a byte
/// shifts out as the polynomial itself, and the value 1 gives `0x77073096`.
pub proof fn theorem_crc_table_entries()
    ensures
        crc_table(0x80) == 0xedb8_8320u32,
        crc_table(1) == 0x7707_3096u32,
{
    reveal_with_fuel(crc_shifts, 9);
    assert(crc_table(0x80) == 0xedb8_8320u32) by (bit_vector);
    assert(crc_table(1) == 0x7707_3096u32) by (bit_vector);
}

/// Computes the CRC-32 of `data`.
pub fn crc32(data: &[u8]) -> (r: u32)
    ensures
        r == spec_crc32(data@),
{
    let mut c: u32 = 0xffff_ffff;
    let mut i: usize = 0;
    while i < data.len()
        invariant
            i <= data.len(),
            c == crc_register(data@.take(i as int)),
        decreases data.len() - i,
    {
        c = c ^ (data[i] as u32);
        let ghost start = c;
        let mut k: u32 = 0;
        while k < 8
            invariant
                k <= 8,
                c == crc_shifts(start, k as nat),
            decreases 8 - k,
        {
            let bit = c & 1;
            c = c >> 1u32;
            if bit != 0 {
                c = c ^ CRC32_POLY;
            }
            k = k + 1;
        }
        assert(data@.take(i + 1).drop_last() =~= data@.take(i as int));
        i = i + 1;
    }
    assert(data@.take(i as int) =~= data@);
    !c
}

} // verus!
