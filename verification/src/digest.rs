//! SHA-256 digests.

use vstd::prelude::*;
use crate::text;

verus! {

/// The longest message, in bytes, whose length in bits still fits in the 64
/// bits that end a padded message.
pub const MAX_MESSAGE: u64 = 0x1fff_ffff_ffff_ffff;

/// The SHA-256 state of the `sha2` crate.
#[verifier::external_type_specification]
#[verifier::external_body]
pub struct ExSha256(sha2::Sha256);

/// The SHA-256 digest of a message.
pub uninterp spec fn sha256(message: Seq<u8>) -> Seq<u8>;

/// The message a hash state has taken in so far.
pub uninterp spec fn absorbed(state: sha2::Sha256) -> Seq<u8>;

/// `<sha2::Sha256 as sha2::Digest>::new`: a state that has taken in nothing.
#[verifier::external_body]
fn fresh() -> (state: sha2::Sha256)
    ensures
        absorbed(state) == Seq::<u8>::empty(),
{
    sha2::Digest::new()
}

/// `<sha2::Sha256 as sha2::Digest>::update`: takes in the bytes behind what
/// was taken in before.
#[verifier::external_body]
fn absorb(state: &mut sha2::Sha256, bytes: &[u8])
    requires
        absorbed(*old(state)).len() + bytes@.len() <= MAX_MESSAGE,
    ensures
        absorbed(*final(state)) == absorbed(*old(state)) + bytes@,
{
    sha2::Digest::update(state, bytes);
}

/// `<sha2::Sha256 as sha2::Digest>::finalize`: the digest, 32 bytes, of the
/// message that was taken in.
#[verifier::external_body]
fn conclude(state: sha2::Sha256) -> (digest: Vec<u8>)
    requires
        absorbed(state).len() <= MAX_MESSAGE,
    ensures
        digest@ == sha256(absorbed(state)),
        digest@.len() == 32,
{
    sha2::Digest::finalize(state).to_vec()
}

/// A digest in the making.
pub struct Hasher {
    state: sha2::Sha256,
}

impl Hasher {
    /// The message so far.
    pub closed spec fn message(&self) -> Seq<u8> {
        absorbed(self.state)
    }

    /// A digest of nothing yet.
    pub fn new() -> (hasher: Hasher)
        ensures
            hasher.message() == Seq::<u8>::empty(),
    {
        Hasher { state: fresh() }
    }

    /// Continues the message with `bytes`.
    pub fn update(&mut self, bytes: &[u8])
        requires
            old(self).message().len() + bytes@.len() <= MAX_MESSAGE,
        ensures
            final(self).message() == old(self).message() + bytes@,
    {
        absorb(&mut self.state, bytes);
    }

    /// The digest of the message.
    pub fn finish(self) -> (digest: Vec<u8>)
        requires
            self.message().len() <= MAX_MESSAGE,
        ensures
            digest@ == sha256(self.message()),
            digest@.len() == 32,
    {
        conclude(self.state)
    }
}

/// The digest of a message, in hexadecimal.
pub fn hex_digest(message: &[u8]) -> (hex: String)
    requires
        message@.len() <= MAX_MESSAGE,
    ensures
        hex@ == text::hex_text(sha256(message@)),
{
    let mut hasher = Hasher::new();
    hasher.update(message);
    assert(hasher.message() == message@);
    text::hex(&hasher.finish())
}

} // verus!
