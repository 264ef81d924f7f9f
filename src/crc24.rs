//! The OpenPGP CRC-24 (polynomial 0x1864CFB, seed 0xB704CE), computed bit by
//! bit, most significant bit of each byte first.

use vstd::prelude::*;

verus! {

/// Seed of the CRC-24 register.
pub const CRC24_INIT: u32 = 0x00B7_04CE;

/// The CRC-24 generator polynomial, x^24 term included.
pub const CRC24_POLY: u32 = 0x0186_4CFB;

/// The x^24 bit of the working register.
pub const CRC24_TOP: u32 = 0x0100_0000;

/// The 24 bits of a checksum.
pub const CRC24_MASK: u32 = 0x00FF_FFFF;

/// One step of the register: multiply by x, and reduce by the polynomial when
/// the x^24 term appears.
pub open spec fn shift_reduce(reg: u32) -> u32 {
    let t = reg << 1;
    if t & CRC24_TOP == CRC24_TOP {
        t ^ CRC24_POLY
    } else {
        t
    }
}

/// `n` steps of the register.
pub open spec fn shift_reduce_n(reg: u32, n: nat) -> u32
    decreases n,
{
    if n == 0 {
        reg
    } else {
        shift_reduce(shift_reduce_n(reg, (n - 1) as nat))
    }
}

/// The register after taking in one byte.
pub open spec fn absorb(reg: u32, b: u8) -> u32 {
    shift_reduce_n(reg ^ ((b as u32) << 16), 8)
}

/// The register after taking in every byte of `d`, in order, from the seed.
pub open spec fn crc24_register(d: Seq<u8>) -> u32
    decreases d.len(),
{
    if d.len() == 0 {
        CRC24_INIT
    } else {
        absorb(crc24_register(d.drop_last()), d.last())
    }
}

/// The CRC-24 of `d`: the low 24 bits of the register.
pub open spec fn crc24(d: Seq<u8>) -> u32 {
    crc24_register(d) & CRC24_MASK
}

/// A register below 2^24 stays below 2^24 after one step.
proof fn lemma_shift_reduce_bounded(reg: u32)
    requires
        reg < CRC24_TOP,
    ensures
        shift_reduce(reg) < CRC24_TOP,
{
    let t = reg << 1;
    assert(t & 0x0100_0000 == 0x0100_0000 ==> t ^ 0x0186_4CFB < 0x0100_0000) by (bit_vector)
        requires
            t == reg << 1,
            reg < 0x0100_0000,
    ;
    assert(t & 0x0100_0000 != 0x0100_0000 ==> t < 0x0100_0000) by (bit_vector)
        requires
            t == reg << 1,
            reg < 0x0100_0000,
    ;
}

/// A register below 2^24 stays below 2^24 after any number of steps.
proof fn lemma_shift_reduce_n_bounded(reg: u32, n: nat)
    requires
        reg < CRC24_TOP,
    ensures
        shift_reduce_n(reg, n) < CRC24_TOP,
    decreases n,
{
    if n > 0 {
        lemma_shift_reduce_n_bounded(reg, (n - 1) as nat);
        lemma_shift_reduce_bounded(shift_reduce_n(reg, (n - 1) as nat));
    }
}

/// Taking in a byte keeps the register below 2^24.
proof fn lemma_absorb_bounded(reg: u32, b: u8)
    requires
        reg < CRC24_TOP,
    ensures
        absorb(reg, b) < CRC24_TOP,
{
    let w = b as u32;
    assert(reg ^ (w << 16) < 0x0100_0000) by (bit_vector)
        requires
            reg < 0x0100_0000,
            w < 256,
    ;
    lemma_shift_reduce_n_bounded(reg ^ (w << 16), 8);
}

/// The register never reaches the x^24 bit.
pub proof fn lemma_register_bounded(d: Seq<u8>)
    ensures
        crc24_register(d) < CRC24_TOP,
    decreases d.len(),
{
    if d.len() > 0 {
        lemma_register_bounded(d.drop_last());
        lemma_absorb_bounded(crc24_register(d.drop_last()), d.last());
    } else {
        assert(CRC24_INIT < CRC24_TOP);
    }
}

/// One step of the register distributes over xor.
proof fn lemma_shift_reduce_xor(x: u32, y: u32)
    requires
        x < CRC24_TOP,
        y < CRC24_TOP,
    ensures
        shift_reduce(x ^ y) == shift_reduce(x) ^ shift_reduce(y),
{
    let tx = x << 1;
    let ty = y << 1;
    let txy = (x ^ y) << 1;
    assert(txy == tx ^ ty) by (bit_vector)
        requires
            tx == x << 1,
            ty == y << 1,
            txy == (x ^ y) << 1,
    ;
    assert(({
        let a = if tx & 0x0100_0000 == 0x0100_0000 { tx ^ 0x0186_4CFB } else { tx };
        let b = if ty & 0x0100_0000 == 0x0100_0000 { ty ^ 0x0186_4CFB } else { ty };
        let c = if txy & 0x0100_0000 == 0x0100_0000 { txy ^ 0x0186_4CFB } else { txy };
        c == a ^ b
    })) by (bit_vector)
        requires
            txy == tx ^ ty,
    ;
}

/// Any number of steps of the register distribute over xor.
proof fn lemma_shift_reduce_n_xor(x: u32, y: u32, n: nat)
    requires
        x < CRC24_TOP,
        y < CRC24_TOP,
    ensures
        shift_reduce_n(x ^ y, n) == shift_reduce_n(x, n) ^ shift_reduce_n(y, n),
    decreases n,
{
    if n > 0 {
        let m = (n - 1) as nat;
        lemma_shift_reduce_n_xor(x, y, m);
        lemma_shift_reduce_n_bounded(x, m);
        lemma_shift_reduce_n_bounded(y, m);
        lemma_shift_reduce_xor(shift_reduce_n(x, m), shift_reduce_n(y, m));
    }
}

/// A step of the register sends no nonzero value to zero.
proof fn lemma_shift_reduce_nonzero(x: u32)
    requires
        0 < x < CRC24_TOP,
    ensures
        shift_reduce(x) != 0,
{
    let t = x << 1;
    assert(t & 0x0100_0000 == 0x0100_0000 ==> t ^ 0x0186_4CFB != 0) by (bit_vector)
        requires
            t == x << 1,
    ;
    assert(t & 0x0100_0000 != 0x0100_0000 ==> t != 0) by (bit_vector)
        requires
            t == x << 1,
            0 < x < 0x0100_0000,
    ;
}

/// Any number of steps of the register send no nonzero value to zero.
proof fn lemma_shift_reduce_n_nonzero(x: u32, n: nat)
    requires
        0 < x < CRC24_TOP,
    ensures
        shift_reduce_n(x, n) != 0,
    decreases n,
{
    if n > 0 {
        let m = (n - 1) as nat;
        lemma_shift_reduce_n_nonzero(x, m);
        lemma_shift_reduce_n_bounded(x, m);
        lemma_shift_reduce_nonzero(shift_reduce_n(x, m));
    }
}

/// Two registers that differ still differ after taking in the same byte.
proof fn lemma_absorb_keeps_difference(r1: u32, r2: u32, b: u8)
    requires
        r1 < CRC24_TOP,
        r2 < CRC24_TOP,
        r1 != r2,
    ensures
        absorb(r1, b) != absorb(r2, b),
{
    let w = (b as u32) << 16;
    let x = r1 ^ w;
    let y = r2 ^ w;
    assert(w < 0x0100_0000) by (bit_vector)
        requires
            w == (b as u32) << 16,
    ;
    assert(x < 0x0100_0000 && y < 0x0100_0000 && x ^ y == r1 ^ r2 && 0 < r1 ^ r2 < 0x0100_0000)
        by (bit_vector)
        requires
            x == r1 ^ w,
            y == r2 ^ w,
            r1 < 0x0100_0000,
            r2 < 0x0100_0000,
            w < 0x0100_0000,
            r1 != r2,
    ;
    lemma_shift_reduce_n_xor(x, y, 8);
    lemma_shift_reduce_n_nonzero(x ^ y, 8);
    let a1 = shift_reduce_n(x, 8);
    let a2 = shift_reduce_n(y, 8);
    assert(a1 ^ a2 != 0 ==> a1 != a2) by (bit_vector);
}

/// One register that takes in two different bytes ends in two different states.
proof fn lemma_absorb_separates_bytes(reg: u32, b1: u8, b2: u8)
    requires
        reg < CRC24_TOP,
        b1 != b2,
    ensures
        absorb(reg, b1) != absorb(reg, b2),
{
    let w1 = b1 as u32;
    let w2 = b2 as u32;
    let x = reg ^ (w1 << 16);
    let y = reg ^ (w2 << 16);
    assert(x < 0x0100_0000 && y < 0x0100_0000 && 0 < x ^ y < 0x0100_0000) by (bit_vector)
        requires
            x == reg ^ (w1 << 16),
            y == reg ^ (w2 << 16),
            reg < 0x0100_0000,
            w1 < 256,
            w2 < 256,
            w1 != w2,
    ;
    lemma_shift_reduce_n_xor(x, y, 8);
    lemma_shift_reduce_n_nonzero(x ^ y, 8);
    let a1 = shift_reduce_n(x, 8);
    let a2 = shift_reduce_n(y, 8);
    assert(a1 ^ a2 != 0 ==> a1 != a2) by (bit_vector);
}

/// Changing one byte of a sequence changes its CRC-24: the checksum detects
/// every error confined to a single byte.
pub proof fn lemma_byte_change_detected(d: Seq<u8>, i: int, b: u8)
    requires
        0 <= i < d.len(),
        b != d[i],
    ensures
        crc24(d.update(i, b)) != crc24(d),
{
    let e = d.update(i, b);
    lemma_prefixes_differ(d, e, i, d.len() as int);
    assert(d.take(d.len() as int) =~= d);
    assert(e.take(e.len() as int) =~= e);
    lemma_register_bounded(d);
    lemma_register_bounded(e);
    let r1 = crc24_register(d);
    let r2 = crc24_register(e);
    assert(r1 & 0x00FF_FFFF == r1 && r2 & 0x00FF_FFFF == r2) by (bit_vector)
        requires
            r1 < 0x0100_0000,
            r2 < 0x0100_0000,
    ;
}

/// Two sequences equal but at index `i`, where they differ, have different
/// registers on every prefix that covers `i`.
proof fn lemma_prefixes_differ(d: Seq<u8>, e: Seq<u8>, i: int, j: int)
    requires
        d.len() == e.len(),
        0 <= i < j <= d.len(),
        d[i] != e[i],
        forall|k: int| 0 <= k < d.len() && k != i ==> d[k] == e[k],
    ensures
        crc24_register(d.take(j)) != crc24_register(e.take(j)),
    decreases j,
{
    assert(d.take(j).drop_last() =~= d.take(j - 1));
    assert(e.take(j).drop_last() =~= e.take(j - 1));
    lemma_register_bounded(d.take(j - 1));
    lemma_register_bounded(e.take(j - 1));
    if j - 1 == i {
        assert(d.take(i) =~= e.take(i));
        lemma_absorb_separates_bytes(crc24_register(d.take(i)), d[i], e[i]);
    } else {
        lemma_prefixes_differ(d, e, i, j - 1);
        lemma_absorb_keeps_difference(
            crc24_register(d.take(j - 1)),
            crc24_register(e.take(j - 1)),
            d[j - 1],
        );
    }
}

/// Flipping any one bit of the data changes its CRC-24.
pub proof fn lemma_bit_flip_detected(d: Seq<u8>, i: int, k: u8)
    requires
        0 <= i < d.len(),
        k < 8,
    ensures
        crc24(d.update(i, d[i] ^ (1u8 << k))) != crc24(d),
{
    let x = d[i];
    assert(x ^ (1u8 << k) != x) by (bit_vector)
        requires
            k < 8,
    ;
    lemma_byte_change_detected(d, i, x ^ (1u8 << k));
}

/// The CRC-24 is a function of the bytes alone: equal inputs give equal
/// checksums, whenever and however often it is computed.
pub proof fn lemma_crc_deterministic(a: Seq<u8>, b: Seq<u8>)
    requires
        a == b,
    ensures
        crc24(a) == crc24(b),
{
}

/// The CRC-24 of no bytes is the seed itself.
pub proof fn lemma_crc_empty()
    ensures
        crc24(Seq::<u8>::empty()) == CRC24_INIT,
{
    assert(0x00B7_04CEu32 & 0x00FF_FFFF == 0x00B7_04CE) by (bit_vector);
}

/// Computes the OpenPGP CRC-24 of `data`.
pub fn calc_crc(data: &Vec<u8>) -> (r: u32)
    ensures
        r == crc24(data@),
        r == crc24_register(data@),
        r <= CRC24_MASK,
{
    let mut crc: u32 = CRC24_INIT;
    let mut i: usize = 0;
    while i < data.len()
        invariant
            i <= data.len(),
            crc == crc24_register(data@.take(i as int)),
            crc < CRC24_TOP,
        decreases data.len() - i,
    {
        let byte: u32 = data[i] as u32;
        assert(crc ^ (byte << 16) < 0x0100_0000) by (bit_vector)
            requires
                crc < 0x0100_0000,
                byte < 256,
        ;
        let ghost start: u32 = crc ^ (byte << 16);
        crc ^= byte << 16;
        let mut k: u32 = 0;
        while k < 8
            invariant
                k <= 8,
                crc == shift_reduce_n(start, k as nat),
                crc < CRC24_TOP,
            decreases 8 - k,
        {
            proof {
                lemma_shift_reduce_bounded(crc);
            }
            crc <<= 1;
            if (crc & CRC24_TOP) == CRC24_TOP {
                crc ^= CRC24_POLY;
            }
            k += 1;
        }
        assert(data@.take(i + 1).drop_last() =~= data@.take(i as int));
        i += 1;
    }
    assert(data@.take(i as int) =~= data@);
    assert(crc & 0x00FF_FFFF == crc) by (bit_vector)
        requires
            crc < 0x0100_0000,
    ;
    crc & CRC24_MASK
}

} // verus!
