//! 32-byte BLAKE3 digests.

use vstd::prelude::*;

verus! {

/// What `blake3::hash` returns for `data`: the 32 bytes of the default
/// BLAKE3 hash.
pub uninterp spec fn blake3_digest(data: Seq<u8>) -> [u8; 32];

/// The bytes of the BLAKE3 hash of `data`.
pub open spec fn blake3_bytes(data: Seq<u8>) -> Seq<u8> {
    blake3_digest(data)@
}

/// Two inputs differ and have the same BLAKE3 hash.
pub open spec fn collide(x: Seq<u8>, y: Seq<u8>) -> bool {
    x != y && blake3_bytes(x) == blake3_bytes(y)
}

/// `blake3::hash`, followed by `Hash::as_bytes`. The digest is a function of
/// the input bytes alone and holds 32 bytes, which the array type records.
#[verifier::external_body]
fn blake3_hash(data: &[u8]) -> (out: [u8; 32])
    ensures
        out == blake3_digest(data@),
{
    *blake3::hash(data).as_bytes()
}

/// A BLAKE3 digest, held as its raw bytes.
#[derive(Debug, Clone, Copy, PartialEq, Eq)]
pub struct Digest {
    bytes: [u8; 32],
}

impl View for Digest {
    type V = Seq<u8>;

    closed spec fn view(&self) -> Seq<u8> {
        self.bytes@
    }
}

impl Digest {
    /// The digest of `data`.
    pub fn of(data: &[u8]) -> (digest: Self)
        ensures
            digest@ == blake3_bytes(data@),
            digest@ == blake3_digest(data@)@,
            digest@.len() == 32,
    {
        Digest { bytes: blake3_hash(data) }
    }

    /// The digest of `left` followed by `right`.
    pub fn of_pair(left: Digest, right: Digest) -> (digest: Self)
        ensures
            digest@ == blake3_bytes(left@ + right@),
            digest@ == blake3_digest(left@ + right@)@,
            digest@.len() == 32,
    {
        let mut preimage: Vec<u8> = Vec::new();
        left.append_to(&mut preimage);
        right.append_to(&mut preimage);
        assert(preimage@ =~= left@ + right@);
        Digest::of(preimage.as_slice())
    }

    /// A digest with the given raw bytes.
    pub fn from_bytes(bytes: [u8; 32]) -> (digest: Self)
        ensures
            digest@ == bytes@,
    {
        Digest { bytes }
    }

    /// The raw bytes.
    pub fn as_bytes(&self) -> (bytes: &[u8; 32])
        ensures
            bytes@ == self@,
    {
        &self.bytes
    }

    /// Appends the raw bytes to `out`.
    pub fn append_to(&self, out: &mut Vec<u8>)
        ensures
            final(out)@ == old(out)@ + self@,
            self@.len() == 32,
    {
        let mut i: usize = 0;
        while i < 32
            invariant
                i <= 32,
                out@ == old(out)@ + self.bytes@.take(i as int),
            decreases 32 - i,
        {
            out.push(self.bytes[i]);
            assert(self.bytes@.take(i + 1) =~= self.bytes@.take(i as int).push(
                self.bytes@[i as int],
            ));
            i += 1;
        }
        assert(self.bytes@.take(32) =~= self.bytes@);
    }
}

/// A digest holds 32 bytes.
pub proof fn lemma_digest_len(digest: Digest)
    ensures
        digest@.len() == 32,
{
}

/// What stands for the hash of some bytes is all 32 bytes of their BLAKE3 hash.
pub proof fn law_hash_is_blake3(data: Seq<u8>)
    ensures
        blake3_bytes(data).len() == 32,
        forall|i: int| 0 <= i < 32 ==> #[trigger] blake3_bytes(data)[i] == blake3_digest(data)[i],
{
}

} // verus!
