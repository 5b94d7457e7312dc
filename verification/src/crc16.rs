//! The CRC-16 that protects the payload of a frame.

use vstd::prelude::*;

verus! {

/// One step of the division by x^16 + x^12 + x^5 + 1: shift the register left
/// and subtract the polynomial when a bit falls out.
pub open spec fn crc16_shift(reg: u16) -> u16 {
    if reg & 0x8000u16 != 0 {
        (reg << 1u16) ^ 0x1021u16
    } else {
        reg << 1u16
    }
}

/// `n` steps of the division.
pub open spec fn crc16_shifts(reg: u16, n: nat) -> u16
    decreases n,
{
    if n == 0 {
        reg
    } else {
        crc16_shift(crc16_shifts(reg, (n - 1) as nat))
    }
}

/// Takes one byte into the register: the byte goes into the upper half, then
/// eight bits are divided out.
pub open spec fn crc16_byte(reg: u16, byte: u8) -> u16 {
    crc16_shifts(reg ^ ((byte as u16) << 8u16), 8)
}

/// The register after `bytes`, starting from `reg`.
pub open spec fn crc16_from(reg: u16, bytes: Seq<u8>) -> u16
    decreases bytes.len(),
{
    if bytes.len() == 0 {
        reg
    } else {
        crc16_byte(crc16_from(reg, bytes.drop_last()), bytes.last())
    }
}

/// CRC-16/CCITT-FALSE, also known as CRC-16/IBM-3740: width 16, polynomial
/// 0x1021, initial value 0xFFFF, no reflection and no final XOR.
pub open spec fn crc16(bytes: Seq<u8>) -> u16 {
    crc16_from(0xFFFF, bytes)
}

/// Calls `crc::Crc::<u16>::checksum` with the catalogue entry
/// `crc::CRC_16_IBM_3740`, and trusts it to compute that checksum: the
/// remainder that `crc16` defines.
#[verifier::external_body]
pub(crate) fn checksum(bytes: &[u8]) -> (r: u16)
    ensures
        r == crc16(bytes@),
{
    crc::Crc::<u16>::new(&crc::CRC_16_IBM_3740).checksum(bytes)
}

proof fn lemma_shift_injective(a: u16, b: u16)
    requires
        a != b,
    ensures
        crc16_shift(a) != crc16_shift(b),
{
    assert(a != b ==> (if a & 0x8000u16 != 0 {
        (a << 1u16) ^ 0x1021u16
    } else {
        a << 1u16
    }) != (if b & 0x8000u16 != 0 {
        (b << 1u16) ^ 0x1021u16
    } else {
        b << 1u16
    })) by (bit_vector);
}

proof fn lemma_shifts_injective(a: u16, b: u16, n: nat)
    requires
        a != b,
    ensures
        crc16_shifts(a, n) != crc16_shifts(b, n),
    decreases n,
{
    if n > 0 {
        lemma_shifts_injective(a, b, (n - 1) as nat);
        lemma_shift_injective(
            crc16_shifts(a, (n - 1) as nat),
            crc16_shifts(b, (n - 1) as nat),
        );
    }
}

/// A register that differs stays different while the same bytes are taken in.
proof fn lemma_register_difference_survives(a: u16, b: u16, bytes: Seq<u8>)
    requires
        a != b,
    ensures
        crc16_from(a, bytes) != crc16_from(b, bytes),
    decreases bytes.len(),
{
    if bytes.len() > 0 {
        let x = crc16_from(a, bytes.drop_last());
        let y = crc16_from(b, bytes.drop_last());
        let last = bytes.last();
        lemma_register_difference_survives(a, b, bytes.drop_last());
        assert(x != y ==> x ^ ((last as u16) << 8u16) != y ^ ((last as u16) << 8u16))
            by (bit_vector);
        lemma_shifts_injective(x ^ ((last as u16) << 8u16), y ^ ((last as u16) << 8u16), 8);
    }
}

proof fn lemma_crc_split(reg: u16, a: Seq<u8>, b: Seq<u8>)
    ensures
        crc16_from(reg, a + b) == crc16_from(crc16_from(reg, a), b),
    decreases b.len(),
{
    if b.len() == 0 {
        assert(a + b =~= a);
    } else {
        lemma_crc_split(reg, a, b.drop_last());
        assert((a + b).drop_last() =~= a + b.drop_last());
        assert((a + b).last() == b.last());
    }
}

proof fn lemma_shift_linear(a: u16, b: u16)
    ensures
        crc16_shift(a ^ b) == crc16_shift(a) ^ crc16_shift(b),
{
    assert((if (a ^ b) & 0x8000u16 != 0 {
        ((a ^ b) << 1u16) ^ 0x1021u16
    } else {
        (a ^ b) << 1u16
    }) == (if a & 0x8000u16 != 0 {
        (a << 1u16) ^ 0x1021u16
    } else {
        a << 1u16
    }) ^ (if b & 0x8000u16 != 0 {
        (b << 1u16) ^ 0x1021u16
    } else {
        b << 1u16
    })) by (bit_vector);
}

proof fn lemma_shifts_linear(a: u16, b: u16, n: nat)
    ensures
        crc16_shifts(a ^ b, n) == crc16_shifts(a, n) ^ crc16_shifts(b, n),
    decreases n,
{
    if n > 0 {
        lemma_shifts_linear(a, b, (n - 1) as nat);
        lemma_shift_linear(crc16_shifts(a, (n - 1) as nat), crc16_shifts(b, (n - 1) as nat));
    }
}

proof fn lemma_shifts_compose(a: u16, m: nat, n: nat)
    ensures
        crc16_shifts(crc16_shifts(a, m), n) == crc16_shifts(a, m + n),
    decreases n,
{
    if n > 0 {
        lemma_shifts_compose(a, m, (n - 1) as nat);
    }
}

/// Eight steps move a byte from the lower half of the register to the upper.
proof fn lemma_low_byte_moves_up(byte: u8)
    ensures
        crc16_shifts(byte as u16, 8) == (byte as u16) << 8u16,
{
    reveal_with_fuel(crc16_shifts, 9);
    let b = byte as u16;
    assert(b < 0x100u16 ==> b & 0x8000u16 == 0 && (b << 1u16) & 0x8000u16 == 0
        && (b << 1u16 << 1u16) & 0x8000u16 == 0 && (b << 1u16 << 1u16 << 1u16) & 0x8000u16 == 0
        && (b << 1u16 << 1u16 << 1u16 << 1u16) & 0x8000u16 == 0
        && (b << 1u16 << 1u16 << 1u16 << 1u16 << 1u16) & 0x8000u16 == 0
        && (b << 1u16 << 1u16 << 1u16 << 1u16 << 1u16 << 1u16) & 0x8000u16 == 0
        && (b << 1u16 << 1u16 << 1u16 << 1u16 << 1u16 << 1u16 << 1u16) & 0x8000u16 == 0
        && (b << 1u16 << 1u16 << 1u16 << 1u16 << 1u16 << 1u16 << 1u16 << 1u16) == b << 8u16)
        by (bit_vector);
}

/// Two bytes are one division of sixteen bits.
proof fn lemma_two_bytes(reg: u16, x: u8, y: u8)
    ensures
        crc16_byte(crc16_byte(reg, x), y) == crc16_shifts(
            reg ^ (((x as u16) << 8u16) ^ (y as u16)),
            16,
        ),
{
    let top = reg ^ ((x as u16) << 8u16);
    lemma_low_byte_moves_up(y);
    lemma_shifts_linear(top, y as u16, 8);
    lemma_shifts_compose(top ^ (y as u16), 8, 8);
    let xx = x as u16;
    let yy = y as u16;
    assert((reg ^ (xx << 8u16)) ^ yy == reg ^ ((xx << 8u16) ^ yy)) by (bit_vector);
}

/// Corruption that stays inside two adjacent bytes, and so any flipped bit or
/// changed byte, changes the checksum.
pub proof fn law_crc16_detects_two_adjacent_bytes(a: Seq<u8>, b: Seq<u8>, at: int)
    requires
        a.len() == b.len(),
        0 <= at,
        a != b,
        forall|i: int| 0 <= i < a.len() && i != at && i != at + 1 ==> a[i] == b[i],
    ensures
        crc16(a) != crc16(b),
{
    assert(a.len() > at) by {
        if a.len() <= at {
            assert(a =~= b);
        }
    }
    let head = a.subrange(0, at);
    assert(head =~= b.subrange(0, at));
    let reg = crc16(head);
    if at + 1 == a.len() {
        assert(a =~= head + seq![a[at]]);
        assert(b =~= head + seq![b[at]]);
        assert(a[at] != b[at]);
        let x = a[at];
        let y = b[at];
        assert(a.drop_last() =~= head);
        assert(b.drop_last() =~= head);
        assert(x != y ==> reg ^ ((x as u16) << 8u16) != reg ^ ((y as u16) << 8u16)) by (bit_vector);
        lemma_shifts_injective(reg ^ ((x as u16) << 8u16), reg ^ ((y as u16) << 8u16), 8);
    } else {
        let tail = a.subrange(at + 2, a.len() as int);
        assert(tail =~= b.subrange(at + 2, a.len() as int));
        let ma = seq![a[at], a[at + 1]];
        let mb = seq![b[at], b[at + 1]];
        assert(a =~= head + (ma + tail));
        assert(b =~= head + (mb + tail));
        lemma_crc_split(0xFFFF, head, ma + tail);
        lemma_crc_split(0xFFFF, head, mb + tail);
        lemma_crc_split(reg, ma, tail);
        lemma_crc_split(reg, mb, tail);
        lemma_two_byte_seq(reg, ma);
        lemma_two_byte_seq(reg, mb);
        lemma_two_bytes(reg, ma[0], ma[1]);
        lemma_two_bytes(reg, mb[0], mb[1]);
        let (x, y, u, v) = (ma[0], ma[1], mb[0], mb[1]);
        assert(x != u || y != v) by {
            if x == u && y == v {
                assert(a =~= b);
            }
        }
        assert((x != u || y != v) ==> reg ^ (((x as u16) << 8u16) ^ (y as u16)) != reg ^ (((
        u as u16) << 8u16) ^ (v as u16))) by (bit_vector);
        lemma_shifts_injective(
            reg ^ (((x as u16) << 8u16) ^ (y as u16)),
            reg ^ (((u as u16) << 8u16) ^ (v as u16)),
            16,
        );
        lemma_register_difference_survives(crc16_from(reg, ma), crc16_from(reg, mb), tail);
    }
}

proof fn lemma_two_byte_seq(reg: u16, m: Seq<u8>)
    requires
        m.len() == 2,
    ensures
        crc16_from(reg, m) == crc16_byte(crc16_byte(reg, m[0]), m[1]),
{
    reveal_with_fuel(crc16_from, 3);
    assert(m.drop_last().drop_last() =~= Seq::<u8>::empty());
    assert(m.drop_last().last() == m[0]);
}

} // verus!
