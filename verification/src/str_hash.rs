//! 128-bit hashes that identify the strings kept in the string store.

use siphasher::sip128::{Hasher128, SipHasher24};
use std::hash::Hasher;
use vstd::prelude::*;
use vstd::string::*;
use crate::endian::{
    lemma_u128_bytes_roundtrip, lemma_u128_value_roundtrip, u128_from_be, u128_from_be_bytes,
    u128_to_be, u128_to_be_bytes,
};

verus! {

/// Name for the 128-bit SipHash-2-4, with both keys zero, of a byte
/// sequence (the digest as the crate converts it to a `u128`).
pub uninterp spec fn sip_hash_128(bytes: Seq<u8>) -> u128;

/// `siphasher::sip128::SipHasher24`: a fresh hasher (zero keys) fed with the
/// bytes, finished to a 128-bit digest. Its value is only named.
#[verifier::external_body]
fn sip_hash_128_of(bytes: &[u8]) -> (r: u128)
    ensures
        r == sip_hash_128(bytes@),
{
    let mut hasher = SipHasher24::new();
    hasher.write(bytes);
    hasher.finish128().into()
}

/// The hash of a string, under which the string store keeps it.
#[derive(PartialEq, Eq, Structural, Debug, Clone, Copy, Hash)]
pub struct StrHash {
    hash: u128,
}

impl View for StrHash {
    type V = u128;

    closed spec fn view(&self) -> u128 {
        self.hash
    }
}

impl StrHash {
    /// The hash whose value is `h`.
    pub closed spec fn from_value(h: u128) -> StrHash {
        StrHash { hash: h }
    }

    /// The hash of the string whose UTF-8 bytes are `bytes`.
    pub open spec fn of_bytes(bytes: Seq<u8>) -> StrHash {
        Self::from_value(sip_hash_128(bytes))
    }

    /// The 16 big-endian bytes of the hash.
    pub open spec fn bytes(self) -> Seq<u8> {
        u128_to_be(self@)
    }

    /// The hash stored in 16 big-endian bytes.
    pub open spec fn from_bytes_spec(b: Seq<u8>) -> StrHash {
        Self::from_value(u128_from_be(b))
    }

    /// Reading back the bytes of a hash gives the hash, and the bytes read
    /// from 16 bytes are these bytes.
    pub proof fn lemma_bytes_roundtrip(self, b: Seq<u8>)
        ensures
            Self::from_bytes_spec(self.bytes()) == self,
            self.bytes().len() == 16,
            b.len() == 16 ==> Self::from_bytes_spec(b).bytes() == b,
    {
        lemma_u128_value_roundtrip(self.hash);
        if b.len() == 16 {
            lemma_u128_bytes_roundtrip(b);
        }
    }

    /// Hashes a string.
    pub fn new(value: &str) -> (r: Self)
        ensures
            r == Self::of_bytes(value.spec_bytes()),
    {
        Self { hash: sip_hash_128_of(value.as_bytes()) }
    }

    /// The hash stored in 16 big-endian bytes.
    pub fn from_be_bytes(bytes: [u8; 16]) -> (r: Self)
        ensures
            r == Self::from_bytes_spec(bytes@),
    {
        Self { hash: u128_from_be_bytes(bytes) }
    }

    /// The 16 big-endian bytes of the hash.
    pub fn to_be_bytes(self) -> (r: [u8; 16])
        ensures
            r@ == self.bytes(),
    {
        u128_to_be_bytes(self.hash)
    }
}

} // verus!
