//! Integers in network byte order.

use vstd::prelude::*;

verus! {

/// The two bytes of `n`, most significant first.
pub open spec fn be16(n: u16) -> Seq<u8> {
    seq![(n / 0x100) as u8, (n % 0x100) as u8]
}

/// The number that two bytes hold, most significant first.
pub open spec fn from_be16(hi: u8, lo: u8) -> int {
    hi * 0x100 + lo
}

/// The number that a sequence of bytes holds, most significant first.
pub open spec fn be_value(bytes: Seq<u8>) -> nat
    decreases bytes.len(),
{
    if bytes.len() == 0 {
        0
    } else {
        be_value(bytes.drop_last()) * 0x100 + bytes.last() as nat
    }
}

/// The last `width` bytes of `n`, most significant first.
pub open spec fn be_bytes(n: nat, width: nat) -> Seq<u8>
    decreases width,
{
    if width == 0 {
        Seq::empty()
    } else {
        be_bytes(n / 0x100, (width - 1) as nat).push((n % 0x100) as u8)
    }
}

/// `0x100` to the power of `width`.
pub open spec fn byte_range(width: nat) -> nat
    decreases width,
{
    if width == 0 {
        1
    } else {
        byte_range((width - 1) as nat) * 0x100
    }
}

/// The order of byte strings of equal length in a sorted tree: the first byte
/// that differs decides.
pub open spec fn bytes_less(a: Seq<u8>, b: Seq<u8>) -> bool {
    exists|i: int|
        0 <= i < a.len() && #[trigger] a[i] < b[i] && forall|j: int| 0 <= j < i ==> a[j] == b[j]
}

pub proof fn lemma_be_bytes(n: nat, width: nat)
    ensures
        be_bytes(n, width).len() == width,
        n < byte_range(width) ==> be_value(be_bytes(n, width)) == n,
    decreases width,
{
    if width > 0 {
        lemma_be_bytes(n / 0x100, (width - 1) as nat);
        assert(be_bytes(n, width).drop_last() =~= be_bytes(n / 0x100, (width - 1) as nat));
    }
}

/// Byte strings of equal length are ordered as the numbers that they hold.
pub proof fn lemma_bytes_less_is_number_order(a: Seq<u8>, b: Seq<u8>)
    requires
        a.len() == b.len(),
    ensures
        bytes_less(a, b) <==> be_value(a) < be_value(b),
        a == b <==> be_value(a) == be_value(b),
    decreases a.len(),
{
    if a.len() == 0 {
        assert(a =~= b);
    } else {
        let x = a.drop_last();
        let y = b.drop_last();
        lemma_bytes_less_is_number_order(x, y);
        if be_value(x) < be_value(y) {
            let i = choose|i: int|
                0 <= i < x.len() && #[trigger] x[i] < y[i] && forall|j: int|
                    0 <= j < i ==> x[j] == y[j];
            assert(a[i] < b[i]);
            assert forall|j: int| 0 <= j < i implies a[j] == b[j] by {
                assert(x[j] == y[j]);
            }
        } else if be_value(x) == be_value(y) {
            assert(x == y);
            let n = a.len() - 1;
            assert forall|j: int| 0 <= j < n implies a[j] == b[j] by {
                assert(x[j] == y[j]);
            }
            if a[n] == b[n] {
                assert(a =~= b);
            }
            if a[n] < b[n] {
                assert(bytes_less(a, b));
            }
        } else {
            if bytes_less(a, b) {
                let i = choose|i: int|
                    0 <= i < a.len() && #[trigger] a[i] < b[i] && forall|j: int|
                        0 <= j < i ==> a[j] == b[j];
                if i < x.len() {
                    assert(x[i] < y[i]);
                    assert forall|j: int| 0 <= j < i implies x[j] == y[j] by {
                        assert(a[j] == b[j]);
                    }
                    assert(bytes_less(x, y));
                } else {
                    assert(x =~= y);
                }
            }
        }
    }
}

proof fn lemma_be_value_push(s: Seq<u8>, x: u8)
    ensures
        be_value(s.push(x)) == be_value(s) * 0x100 + x,
{
    assert(s.push(x).drop_last() =~= s);
}

/// A number followed by a number of four bytes.
pub proof fn lemma_be_value_pair(a: Seq<u8>, b: Seq<u8>)
    requires
        b.len() == 4,
    ensures
        be_value(a + b) == be_value(a) * 0x1_0000_0000 + be_value(b),
{
    let e = Seq::<u8>::empty();
    assert(a + b =~= a.push(b[0]).push(b[1]).push(b[2]).push(b[3]));
    assert(b =~= e.push(b[0]).push(b[1]).push(b[2]).push(b[3]));
    lemma_be_value_push(a, b[0]);
    lemma_be_value_push(a.push(b[0]), b[1]);
    lemma_be_value_push(a.push(b[0]).push(b[1]), b[2]);
    lemma_be_value_push(a.push(b[0]).push(b[1]).push(b[2]), b[3]);
    lemma_be_value_push(e, b[0]);
    lemma_be_value_push(e.push(b[0]), b[1]);
    lemma_be_value_push(e.push(b[0]).push(b[1]), b[2]);
    lemma_be_value_push(e.push(b[0]).push(b[1]).push(b[2]), b[3]);
}

/// Appends the last `width` bytes of `n` in network byte order.
pub fn push_bytes(buf: &mut Vec<u8>, n: u64, width: u32)
    ensures
        final(buf)@ == old(buf)@ + be_bytes(n as nat, width as nat),
    decreases width,
{
    if width > 0 {
        push_bytes(buf, n / 0x100, width - 1);
        buf.push((n % 0x100) as u8);
    }
    assert(buf@ =~= old(buf)@ + be_bytes(n as nat, width as nat));
}

/// Appends `n` in network byte order.
pub fn push_u16(buf: &mut Vec<u8>, n: u16)
    ensures
        final(buf)@ == old(buf)@ + be16(n),
{
    buf.push((n / 0x100) as u8);
    buf.push((n % 0x100) as u8);
    assert(buf@ =~= old(buf)@ + be16(n));
}

/// Reads two bytes in network byte order.
pub fn read_u16(hi: u8, lo: u8) -> (r: u16)
    ensures
        r == from_be16(hi, lo),
{
    (hi as u16) * 0x100 + (lo as u16)
}

/// Reads two bytes in network byte order as a two's-complement number.
pub fn read_i16(hi: u8, lo: u8) -> (r: i16)
    ensures
        r == (if from_be16(hi, lo) < 0x8000 {
            from_be16(hi, lo)
        } else {
            from_be16(hi, lo) - 0x1_0000
        }),
{
    let n: i32 = (hi as i32) * 0x100 + (lo as i32);
    if n < 0x8000 {
        n as i16
    } else {
        (n - 0x1_0000) as i16
    }
}

/// Whether two sequences of bytes are the same.
pub fn same_bytes(a: &[u8], b: &[u8]) -> (r: bool)
    ensures
        r == (a@ == b@),
{
    if a.len() != b.len() {
        return false;
    }
    let mut i: usize = 0;
    while i < a.len()
        invariant
            i <= a@.len() == b@.len(),
            forall|k: int| 0 <= k < i ==> a@[k] == b@[k],
        decreases a@.len() - i,
    {
        if a[i] != b[i] {
            return false;
        }
        i = i + 1;
    }
    assert(a@ =~= b@);
    true
}

} // verus!
