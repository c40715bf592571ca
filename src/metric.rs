use crate::key::{xor_bytes, Key, KEY_BITS, KEY_SIZE};
use vstd::prelude::*;

verus! {

/// Whether bit `p` of `d` is set, bits counted from the most significant
/// bit of the first byte.
pub open spec fn bit_set(d: Seq<u8>, p: int) -> bool {
    (d[p / 8] >> ((7 - p % 8) as u8)) & 1u8 == 1u8
}

/// Position of the first set bit of `d` at or after `p`, or the last bit
/// position when no such bit is set.
pub open spec fn first_set_bit_from(d: Seq<u8>, p: int) -> int
    decreases KEY_BITS - p,
{
    if p < 0 || p >= KEY_BITS {
        KEY_BITS - 1
    } else if bit_set(d, p) {
        p
    } else {
        first_set_bit_from(d, p + 1)
    }
}

/// Index of the bucket in which `owner` files `other`: the position of the
/// highest set bit of their distance, or the last index when they are equal.
pub open spec fn bucket_of(owner: Seq<u8>, other: Seq<u8>) -> int {
    first_set_bit_from(xor_bytes(owner, other), 0)
}

/// The bucket index of `key` relative to `local`.
pub fn bucket_index(local: &Key, key: &Key) -> (r: usize)
    ensures
        r == bucket_of(local@, key@),
        r < KEY_BITS,
{
    let distance = local.distance(key);
    let ghost d = distance@;
    let mut i: usize = 0;
    while i < KEY_SIZE
        invariant
            i <= KEY_SIZE,
            d == distance@,
            d == xor_bytes(local@, key@),
            first_set_bit_from(d, 0) == first_set_bit_from(d, 8 * i as int),
        decreases KEY_SIZE - i,
    {
        let byte = distance.0[i];
        let mut j: u8 = 0;
        while j < 8
            invariant
                i < KEY_SIZE,
                j <= 8,
                byte == d[i as int],
                d == distance@,
                d == xor_bytes(local@, key@),
                first_set_bit_from(d, 0) == first_set_bit_from(d, 8 * i as int + j as int),
            decreases 8 - j,
        {
            let ghost p: int = 8 * i as int + j as int;
            assert(p / 8 == i && p % 8 == j);
            let s: u8 = 7 - j;
            assert(s == (7 - p % 8) as u8);
            if (byte >> s) & 1 != 0 {
                assert((byte >> s) & 1u8 == 1u8) by (bit_vector)
                    requires
                        (byte >> s) & 1u8 != 0u8,
                ;
                assert(bit_set(d, p));
                assert(first_set_bit_from(d, p) == p);
                return i * 8 + j as usize;
            }
            j = j + 1;
        }
        i = i + 1;
    }
    KEY_BITS - 1
}

/// Bit `p` of a XOR is set exactly when the bits of the operands differ.
pub proof fn lemma_bit_of_xor(a: Seq<u8>, b: Seq<u8>, p: int)
    requires
        a.len() == KEY_SIZE,
        b.len() == KEY_SIZE,
        0 <= p < KEY_BITS,
    ensures
        bit_set(xor_bytes(a, b), p) == (bit_set(a, p) != bit_set(b, p)),
{
    let x = a[p / 8];
    let y = b[p / 8];
    let s = (7 - p % 8) as u8;
    assert(s < 8);
    assert(((x ^ y) >> s) & 1u8 == 1u8 <==> (((x >> s) & 1u8 == 1u8) != ((y >> s) & 1u8 == 1u8)))
        by (bit_vector)
        requires
            s < 8,
    ;
}

/// Where no bit in `[start, end)` is set, the search continues at `end`.
pub proof fn lemma_skip_clear_bits(d: Seq<u8>, start: int, end: int)
    requires
        0 <= start <= end <= KEY_BITS,
        forall|q: int| start <= q < end ==> !bit_set(d, q),
    ensures
        first_set_bit_from(d, start) == first_set_bit_from(d, end),
    decreases end - start,
{
    if start < end {
        lemma_skip_clear_bits(d, start + 1, end);
    }
}

/// A key falls in the last bucket relative to itself.
pub proof fn lemma_bucket_of_self(a: Key)
    ensures
        bucket_of(a@, a@) == KEY_BITS - 1,
{
    let d = xor_bytes(a@, a@);
    assert forall|q: int| 0 <= q < KEY_BITS implies !bit_set(d, q) by {
        lemma_bit_of_xor(a@, a@, q);
    }
    lemma_skip_clear_bits(d, 0, KEY_BITS as int);
}

/// Two keys that differ in exactly one bit, at position `p` counted from
/// the most significant bit, fall in bucket `p` relative to each other.
pub proof fn lemma_single_bit_difference(a: Key, b: Key, p: int)
    requires
        0 <= p < KEY_BITS,
        forall|q: int| 0 <= q < KEY_BITS ==> (bit_set(a@, q) != bit_set(b@, q) <==> q == p),
    ensures
        bucket_of(a@, b@) == p,
{
    let d = xor_bytes(a@, b@);
    assert forall|q: int| 0 <= q < p implies !bit_set(d, q) by {
        lemma_bit_of_xor(a@, b@, q);
    }
    lemma_skip_clear_bits(d, 0, p);
    lemma_bit_of_xor(a@, b@, p);
}

} // verus!
