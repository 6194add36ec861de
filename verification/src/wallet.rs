//! Key-pair holding and address derivation: a checksummed, versioned
//! rendering of the public-key digest.

use vstd::prelude::*;
use vstd::slice::{slice_subrange, slice_to_vec};
use crate::codec::append_bytes;
use crate::utils::{base58_encode, base58_of, new_key_pair, ripemd160_digest, ripemd160_of,
    sha256_digest, sha256_of};

verus! {

/// The version byte every address payload starts with.
pub const VERSION: u8 = 0x00;

/// How many checksum bytes an address payload ends with.
pub const ADDRESS_CHECK_SUM_LENGTH: usize = 4;

/// A key pair: the PKCS#8 document holding the private key, and the
/// public key derived from it.
pub struct Wallet {
    pub pkcs8: Vec<u8>,
    pub public_key: Vec<u8>,
}

/// Relies on ring::signature::EcdsaKeyPair::from_pkcs8 and
/// ring::signature::KeyPair::public_key: parses a PKCS#8 document and
/// hands back the public key it carries; `None` where ring rejects the
/// document.
#[verifier::external_body]
fn public_key_of_pkcs8(pkcs8: &[u8]) -> Option<Vec<u8>> {
    let rng = ring::rand::SystemRandom::new();
    match ring::signature::EcdsaKeyPair::from_pkcs8(
        &ring::signature::ECDSA_P256_SHA256_FIXED_SIGNING,
        pkcs8,
        &rng,
    ) {
        Ok(key_pair) => Some(ring::signature::KeyPair::public_key(&key_pair).as_ref().to_vec()),
        Err(_) => None,
    }
}

/// The owner digest of a public key: RIPEMD-160 of its SHA-256 digest.
pub open spec fn spec_hash_pub_key(pk: Seq<u8>) -> Seq<u8> {
    ripemd160_of(sha256_of(pk))
}

/// The four checksum bytes of an address payload: the leading bytes of
/// its double SHA-256 digest.
pub open spec fn spec_checksum(payload: Seq<u8>) -> Seq<u8> {
    sha256_of(sha256_of(payload)).take(ADDRESS_CHECK_SUM_LENGTH as int)
}

/// The full address payload of a public key: version byte, owner digest,
/// checksum over the first two.
pub open spec fn spec_address_payload(pk: Seq<u8>) -> Seq<u8> {
    (seq![VERSION] + spec_hash_pub_key(pk)) + spec_checksum(seq![VERSION] + spec_hash_pub_key(pk))
}

/// Derives the owner digest of a public key.
pub fn hash_pub_key(pub_key: &[u8]) -> (r: Vec<u8>)
    ensures
        r@ == spec_hash_pub_key(pub_key@),
        r@.len() == 20,
{
    let pub_key_sha256 = sha256_digest(pub_key);
    ripemd160_digest(pub_key_sha256.as_slice())
}

/// Derives the checksum bytes of an address payload.
pub fn checksum(payload: &[u8]) -> (r: Vec<u8>)
    ensures
        r@ == spec_checksum(payload@),
        r@.len() == ADDRESS_CHECK_SUM_LENGTH,
{
    let first_sha = sha256_digest(payload);
    let second_sha = sha256_digest(first_sha.as_slice());
    let r = slice_to_vec(slice_subrange(second_sha.as_slice(), 0, ADDRESS_CHECK_SUM_LENGTH));
    proof {
        assert(r@ =~= spec_checksum(payload@));
    }
    r
}

impl Wallet {
    /// Generates a fresh random key pair; `None` where ring rejects the
    /// document it just generated, which cannot be told apart here from
    /// any other rejection.
    pub fn new() -> Option<Wallet> {
        let pkcs8 = new_key_pair();
        match public_key_of_pkcs8(pkcs8.as_slice()) {
            Some(public_key) => Some(Wallet { pkcs8, public_key }),
            None => None,
        }
    }

    /// The public key.
    pub fn get_public_key(&self) -> (r: &[u8])
        ensures
            r@ == self.public_key@,
    {
        self.public_key.as_slice()
    }

    /// The PKCS#8 document holding the private key.
    pub fn get_pkcs8(&self) -> (r: &[u8])
        ensures
            r@ == self.pkcs8@,
    {
        self.pkcs8.as_slice()
    }

    /// The checksummed base58 address of this wallet's public key.
    pub fn get_address(&self) -> (r: String)
        ensures
            r@ == base58_of(spec_address_payload(self.public_key@)),
    {
        let pub_key_hash = hash_pub_key(self.public_key.as_slice());
        let mut payload: Vec<u8> = Vec::new();
        payload.push(VERSION);
        proof {
            assert(payload@ =~= seq![VERSION]);
        }
        append_bytes(&mut payload, pub_key_hash.as_slice());
        let check = checksum(payload.as_slice());
        append_bytes(&mut payload, check.as_slice());
        proof {
            assert(payload@ =~= spec_address_payload(self.public_key@));
        }
        base58_encode(payload.as_slice())
    }
}

} // verus!
