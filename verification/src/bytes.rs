//! Byte strings as numbers.

use vstd::prelude::*;

verus! {

/// The number that a byte string stands for, least significant byte first.
pub open spec fn le_bytes_value(bytes: Seq<u8>) -> nat
    decreases bytes.len(),
{
    if bytes.len() == 0 {
        0
    } else {
        (bytes[0] as nat) + 256 * le_bytes_value(bytes.drop_first())
    }
}

/// The number that a byte string stands for, most significant byte first.
pub open spec fn be_bytes_value(bytes: Seq<u8>) -> nat {
    le_bytes_value(bytes.reverse())
}

/// The number that the bytes from position `from` on stand for.
pub open spec fn le_suffix_value(bytes: Seq<u8>, from: int) -> nat {
    le_bytes_value(bytes.subrange(from, bytes.len() as int))
}

/// A suffix is its first byte and the suffix after it.
pub proof fn lemma_le_suffix_step(bytes: Seq<u8>, from: int)
    requires
        0 <= from < bytes.len(),
    ensures
        le_suffix_value(bytes, from) == bytes[from] + 256 * le_suffix_value(bytes, from + 1),
{
    let len = bytes.len() as int;
    assert(bytes.subrange(from, len).drop_first() =~= bytes.subrange(from + 1, len));
}

/// The whole string is the suffix from 0, and the empty suffix stands for 0.
pub proof fn lemma_le_suffix_ends(bytes: Seq<u8>)
    ensures
        le_suffix_value(bytes, 0) == le_bytes_value(bytes),
        le_suffix_value(bytes, bytes.len() as int) == 0,
{
    assert(bytes.subrange(0, bytes.len() as int) =~= bytes);
}

/// Byte strings of one length that stand for one number are equal.
pub proof fn lemma_le_bytes_value_injective(a: Seq<u8>, b: Seq<u8>)
    requires
        a.len() == b.len(),
        le_bytes_value(a) == le_bytes_value(b),
    ensures
        a == b,
    decreases a.len(),
{
    if a.len() > 0 {
        let ra = le_bytes_value(a.drop_first());
        let rb = le_bytes_value(b.drop_first());
        assert(a[0] + 256 * ra == b[0] + 256 * rb);
        assert(a[0] == b[0] && ra == rb);
        lemma_le_bytes_value_injective(a.drop_first(), b.drop_first());
        assert(a =~= seq![a[0]] + a.drop_first());
        assert(b =~= seq![b[0]] + b.drop_first());
    } else {
        assert(a =~= b);
    }
}

/// Reversing twice gives the string back.
pub proof fn lemma_reverse_twice(bytes: Seq<u8>)
    ensures
        bytes.reverse().reverse() == bytes,
{
    assert(bytes.reverse().reverse() =~= bytes);
}

/// The same 48 bytes in the opposite order.
pub fn swap48(x: &[u8; 48]) -> (swapped: [u8; 48])
    ensures
        swapped@ == x@.reverse(),
{
    let mut swapped = [0u8; 48];
    let mut i: usize = 0;
    while i < 48
        invariant
            i <= 48,
            forall|j: int| 0 <= j < i ==> swapped@[j] == x@[47 - j],
        decreases 48 - i,
    {
        swapped[i] = x[47 - i];
        i += 1;
    }
    assert(swapped@ =~= x@.reverse());
    swapped
}

} // verus!
