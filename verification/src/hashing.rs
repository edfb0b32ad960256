use sha2::Digest;
use vstd::prelude::*;

verus! {

/// The SHA-256 digest of `data`, as computed by the `sha2` crate.
pub uninterp spec fn sha256_digest(data: Seq<u8>) -> Seq<u8>;

/// Calls `sha2::Sha256::digest`; the contract claims only that the 32 bytes
/// it returns are the SHA-256 digest of `data` (a function of `data` alone).
#[verifier::external_body]
fn sha256(data: &[u8]) -> (r: [u8; 32])
    ensures
        r@ == sha256_digest(data@),
{
    sha2::Sha256::digest(data).into()
}

/// A SHA-256 hasher that is fed bytes piece by piece, in the manner of
/// `sha2::Digest::update`: its view is the sequence of every byte fed so far,
/// and `finalize` hashes exactly that sequence.
pub struct Sha256Hasher {
    absorbed: Vec<u8>,
}

impl View for Sha256Hasher {
    type V = Seq<u8>;

    closed spec fn view(&self) -> Seq<u8> {
        self.absorbed@
    }
}

impl Sha256Hasher {
    /// A hasher that has been fed nothing.
    pub fn new() -> (h: Self)
        ensures
            h@ == Seq::<u8>::empty(),
    {
        Sha256Hasher { absorbed: Vec::new() }
    }

    /// Feeds `data` to the hasher.
    pub fn update(&mut self, data: &[u8])
        ensures
            final(self)@ == old(self)@ + data@,
    {
        let mut i: usize = 0;
        while i < data.len()
            invariant
                0 <= i <= data@.len(),
                self.absorbed@ == old(self)@ + data@.take(i as int),
            decreases data@.len() - i,
        {
            self.absorbed.push(data[i]);
            i = i + 1;
            assert(data@.take(i as int) =~= data@.take(i - 1).push(data@[i - 1]));
        }
        assert(data@.take(data@.len() as int) =~= data@);
    }

    /// The SHA-256 digest of every byte fed so far.
    pub fn finalize(&self) -> (d: [u8; 32])
        ensures
            d@ == sha256_digest(self@),
    {
        sha256(self.absorbed.as_slice())
    }
}

} // verus!
