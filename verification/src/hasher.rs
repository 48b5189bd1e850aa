//! Content fingerprints: the MD5 digest of a file's bytes, written in
//! lower-case hexadecimal.

use crate::text::{hex_lower, lemma_hex_lower_len, to_hex};
use md5::Digest;
use vstd::prelude::*;

verus! {

/// The number of bytes to read from a file at a time while hashing it.
pub const HASH_BUFFER_SIZE: usize = 8192;

/// The sixteen bytes that the `md-5` crate's hasher puts out once it has
/// taken in `data`. The digest is not computed here, only named.
pub uninterp spec fn md5_digest(data: Seq<u8>) -> Seq<u8>;

/// The running state of the `md-5` crate's hasher (`md5::Md5`). That type
/// is an alias of a generic wrapper whose declaration Verus does not take,
/// so the state is held here and stays hidden from the verifier.
#[verifier::external_body]
pub struct Md5State {
    inner: md5::Md5,
}

/// The bytes that `state` has taken in so far, first to last.
pub uninterp spec fn absorbed(state: Md5State) -> Seq<u8>;

/// `Md5::new`: a hasher that has taken in nothing yet.
#[verifier::external_body]
fn md5_new() -> (state: Md5State)
    ensures
        absorbed(state) == Seq::<u8>::empty(),
{
    Md5State { inner: md5::Md5::new() }
}

/// `Md5::update`: the hasher takes in `data` behind what it already has;
/// feeding a message piece by piece is the same as feeding it whole.
#[verifier::external_body]
fn md5_update(state: &mut Md5State, data: &[u8])
    ensures
        absorbed(*final(state)) == absorbed(*old(state)) + data@,
{
    state.inner.update(data);
}

/// `Md5::finalize`: the digest of everything taken in, which for MD5 is
/// sixteen bytes long.
#[verifier::external_body]
fn md5_finalize(state: Md5State) -> (digest: Vec<u8>)
    ensures
        digest@ == md5_digest(absorbed(state)),
        digest@.len() == 16,
{
    state.inner.finalize().to_vec()
}

/// The fingerprint of a file whose bytes are `content`: its MD5 digest in
/// lower-case hexadecimal.
pub open spec fn fingerprint_of(content: Seq<u8>) -> Seq<char> {
    hex_lower(md5_digest(content))
}

/// Computes the fingerprint of content that arrives in chunks, so that a
/// file of any size is hashed with one buffer's worth of memory.
pub struct Fingerprinter {
    state: Md5State,
}

impl Fingerprinter {
    /// The content taken in so far.
    pub closed spec fn content(&self) -> Seq<u8> {
        absorbed(self.state)
    }

    /// Starts on empty content.
    pub fn new() -> (hasher: Self)
        ensures
            hasher.content() == Seq::<u8>::empty(),
    {
        Fingerprinter { state: md5_new() }
    }

    /// Takes in the next chunk of the content. An empty chunk is how a
    /// reader reports the end of a file: the result tells whether the chunk
    /// held anything, that is whether to go on reading.
    pub fn feed(&mut self, chunk: &[u8]) -> (more: bool)
        ensures
            final(self).content() == old(self).content() + chunk@,
            more == (chunk@.len() > 0),
    {
        md5_update(&mut self.state, chunk);
        chunk.len() > 0
    }

    /// Ends the content and gives its fingerprint, 32 hexadecimal digits.
    pub fn finish(self) -> (fingerprint: String)
        ensures
            fingerprint@ == fingerprint_of(self.content()),
            fingerprint@.len() == 32,
    {
        let digest = md5_finalize(self.state);
        proof {
            lemma_hex_lower_len(digest@);
        }
        to_hex(digest.as_slice())
    }
}

/// The fingerprint of content that is held in memory as a whole.
pub fn hash_bytes(content: &[u8]) -> (fingerprint: String)
    ensures
        fingerprint@ == fingerprint_of(content@),
        fingerprint@.len() == 32,
{
    let mut hasher = Fingerprinter::new();
    hasher.feed(content);
    assert(Seq::<u8>::empty() + content@ =~= content@);
    hasher.finish()
}

} // verus!
