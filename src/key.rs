use sha2::Digest;
use vstd::prelude::*;

verus! {

/// Number of bytes in a key.
pub const KEY_SIZE: usize = 32;

/// Number of bits in a key, which is also the number of routing buckets.
pub const KEY_BITS: usize = 256;

/// The SHA-256 digest of the UTF-8 encoding of a text.
pub uninterp spec fn sha256_of_text(s: Seq<char>) -> Seq<u8>;

/// Relies on sha2::Sha256::digest: the 32-byte digest of the text's bytes,
/// which depends on the text alone.
#[verifier::external_body]
fn sha256_digest(input: &str) -> (r: [u8; 32])
    ensures
        r@ == sha256_of_text(input@),
{
    sha2::Sha256::digest(input.as_bytes()).into()
}

/// Byte-wise exclusive or of two byte sequences of equal length.
pub open spec fn xor_bytes(a: Seq<u8>, b: Seq<u8>) -> Seq<u8> {
    Seq::new(a.len(), |i: int| a[i] ^ b[i])
}

/// The all-zero byte sequence of a key's length.
pub open spec fn zero_bytes() -> Seq<u8> {
    Seq::new(KEY_SIZE as nat, |i: int| 0u8)
}

/// A 256-bit identifier of a node, or a lookup target.
#[derive(Clone, Copy, PartialEq, Eq, Hash, Debug)]
pub struct Key(pub [u8; 32]);

/// The XOR of two keys; smaller values (compared byte-wise, most
/// significant byte first) are closer.
#[derive(Clone, Copy, PartialEq, Eq, Hash, PartialOrd, Ord, Debug)]
pub struct Distance(pub [u8; 32]);

impl View for Key {
    type V = Seq<u8>;

    open spec fn view(&self) -> Seq<u8> {
        self.0@
    }
}

impl View for Distance {
    type V = Seq<u8>;

    open spec fn view(&self) -> Seq<u8> {
        self.0@
    }
}

impl Key {
    /// Derives a key from a seed text by hashing it: the same seed always
    /// gives the same key.
    pub fn new(input: String) -> (r: Key)
        ensures
            r@ == sha256_of_text(input@),
    {
        Key(sha256_digest(input.as_str()))
    }

    /// The distance between this key and another.
    pub fn distance(&self, key: &Key) -> (r: Distance)
        ensures
            r@ == xor_bytes(self@, key@),
    {
        Distance::new(self, key)
    }

    /// Whether two keys hold the same bytes.
    pub fn same_as(&self, other: &Key) -> (r: bool)
        ensures
            r == (self@ == other@),
    {
        let mut i: usize = 0;
        while i < KEY_SIZE
            invariant
                i <= KEY_SIZE,
                forall|j: int| 0 <= j < i ==> self@[j] == other@[j],
            decreases KEY_SIZE - i,
        {
            if self.0[i] != other.0[i] {
                return false;
            }
            i = i + 1;
        }
        assert(self@ =~= other@);
        true
    }
}

impl Distance {
    /// The byte-wise XOR of two keys.
    pub fn new(k1: &Key, k2: &Key) -> (r: Distance)
        ensures
            r@ == xor_bytes(k1@, k2@),
    {
        let mut distance = [0u8; 32];
        let mut i: usize = 0;
        while i < KEY_SIZE
            invariant
                i <= KEY_SIZE,
                forall|j: int| 0 <= j < i ==> distance@[j] == k1@[j] ^ k2@[j],
            decreases KEY_SIZE - i,
        {
            distance[i] = k1.0[i] ^ k2.0[i];
            i = i + 1;
        }
        assert(distance@ =~= xor_bytes(k1@, k2@));
        Distance(distance)
    }
}

/// A key is at distance zero from itself.
pub proof fn lemma_distance_to_self_is_zero(a: Key)
    ensures
        xor_bytes(a@, a@) == zero_bytes(),
{
    assert forall|i: int| 0 <= i < KEY_SIZE implies #[trigger] xor_bytes(a@, a@)[i] == 0u8 by {
        let x = a@[i];
        assert(x ^ x == 0u8) by (bit_vector);
    }
    assert(xor_bytes(a@, a@) =~= zero_bytes());
}

/// The distance is symmetric.
pub proof fn lemma_distance_symmetric(a: Key, b: Key)
    ensures
        xor_bytes(a@, b@) == xor_bytes(b@, a@),
{
    assert forall|i: int| 0 <= i < KEY_SIZE implies #[trigger] xor_bytes(a@, b@)[i] == xor_bytes(
        b@,
        a@,
    )[i] by {
        let x = a@[i];
        let y = b@[i];
        assert(x ^ y == y ^ x) by (bit_vector);
    }
    assert(xor_bytes(a@, b@) =~= xor_bytes(b@, a@));
}

} // verus!
