//! The digests of files.

use vstd::prelude::*;

use crate::text::{hex, hex_encode};

verus! {

/// How many bytes a digest is taken of at most, less one: their count in bits has
/// to fit in 64 bits.
pub const HASH_LIMIT: u64 = 0x2000_0000_0000_0000;

/// `sha2::Sha256` holds the state of a digest that is being computed.
#[verifier::external_type_specification]
#[verifier::external_body]
pub struct ExSha256(sha2::Sha256);

/// The bytes that a state has taken in.
pub uninterp spec fn taken_in(state: sha2::Sha256) -> Seq<u8>;

/// The SHA-256 of a byte string, as the `sha2` crate computes it.
pub uninterp spec fn sha256(b: Seq<u8>) -> Seq<u8>;

/// `sha2::Digest::new`: a new state has taken in nothing.
#[verifier::external_body]
fn new_state() -> (r: sha2::Sha256)
    ensures
        taken_in(r) == Seq::<u8>::empty(),
{
    <sha2::Sha256 as sha2::Digest>::new()
}

/// `sha2::Digest::chain_update`: the bytes come behind those that the state had
/// taken in.
#[verifier::external_body]
fn add_bytes(state: sha2::Sha256, bytes: &[u8]) -> (r: sha2::Sha256)
    requires
        taken_in(state).len() + bytes@.len() < HASH_LIMIT,
    ensures
        taken_in(r) == taken_in(state) + bytes@,
{
    <sha2::Sha256 as sha2::Digest>::chain_update(state, bytes)
}

/// `sha2::Digest::finalize` is a function of the bytes that the state has taken in,
/// however they were divided; it gives 32 of them. Which ones is left to the name.
#[verifier::external_body]
fn digest_bytes(state: sha2::Sha256) -> (r: Vec<u8>)
    requires
        taken_in(state).len() < HASH_LIMIT,
    ensures
        r@ == sha256(taken_in(state)),
        r@.len() == 32,
{
    <sha2::Sha256 as sha2::Digest>::finalize(state).to_vec()
}

/// The digest of a file that is read piece by piece. Its view is what has been read.
#[derive(Debug)]
pub struct FileHash {
    state: sha2::Sha256,
}

impl View for FileHash {
    type V = Seq<u8>;

    closed spec fn view(&self) -> Seq<u8> {
        taken_in(self.state)
    }
}

impl FileHash {
    #[verifier::type_invariant]
    spec fn in_limit(self) -> bool {
        taken_in(self.state).len() < HASH_LIMIT
    }

    /// The digest of a file of which nothing has been read.
    pub fn new() -> (r: Self)
        ensures
            r@ == Seq::<u8>::empty(),
    {
        FileHash { state: new_state() }
    }

    /// The next piece of the file.
    pub fn update(self, piece: &[u8]) -> (r: Self)
        requires
            self@.len() + piece@.len() < HASH_LIMIT,
        ensures
            r@ == self@ + piece@,
    {
        FileHash { state: add_bytes(self.state, piece) }
    }

    /// The SHA-256 of what has been read, in hexadecimal.
    pub fn finish(self) -> (r: String)
        ensures
            r@ == hex(sha256(self@)),
    {
        proof {
            use_type_invariant(&self);
        }
        let digest = digest_bytes(self.state);
        hex_encode(digest.as_slice())
    }
}

/// The SHA-256 of a byte string in hexadecimal.
pub fn sha256_hex(bytes: &[u8]) -> (r: String)
    requires
        bytes@.len() < HASH_LIMIT,
    ensures
        r@ == hex(sha256(bytes@)),
{
    let hash = FileHash::new().update(bytes);
    assert(hash@ =~= bytes@);
    hash.finish()
}

} // verus!
