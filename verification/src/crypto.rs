//! Hashing, signature verification and randomness, as OpenSSL and the
//! operating system provide them.

use vstd::prelude::*;
use crate::types::Address;

verus! {

/// The SHA3-256 digest of `data`: 32 bytes that depend on `data` alone.
pub uninterp spec fn sha3_256(data: Seq<u8>) -> Seq<u8>;

/// Whether `signature` is an RSA PKCS#1 v1.5 signature with a SHA3-256 digest
/// over `data` under the public key whose SubjectPublicKeyInfo DER is
/// `public_key`. Bytes that are not such a key verify nothing.
pub uninterp spec fn rsa_sha3_verifies(public_key: Seq<u8>, signature: Seq<u8>, data: Seq<u8>) -> bool;

/// The SubjectPublicKeyInfo DER of the public half of the RSA key whose
/// PEM is `private_key`; nothing where the bytes are no such key.
pub uninterp spec fn rsa_public_key_of(private_key: Seq<u8>) -> Option<Seq<u8>>;

/// The RSA PKCS#1 v1.5 signature with a SHA3-256 digest over `data` under
/// the key whose PEM is `private_key`; nothing where the bytes are no such
/// key.
pub uninterp spec fn rsa_sha3_signature(private_key: Seq<u8>, data: Seq<u8>) -> Option<Seq<u8>>;

/// The longest text of a key that OpenSSL takes: its reader holds a
/// length no greater than a C `int`.
pub const MAX_KEY_TEXT: usize = 0x7fff_ffff;

/// The bytes that may be there, as a sequence.
pub open spec fn bytes_view(bytes: Option<Vec<u8>>) -> Option<Seq<u8>> {
    match bytes {
        Some(b) => Some(b@),
        None => None,
    }
}

/// The address of a public key: the first 16 bytes of its digest.
pub open spec fn address_of(public_key: Seq<u8>) -> Seq<u8> {
    sha3_256(public_key).subrange(0, 16)
}

/// Calls `openssl::hash::hash` with `MessageDigest::sha3_256()`. Trusted: the
/// result is the SHA3-256 digest of `data`, which is 32 bytes long. OpenSSL
/// reports an error here only when it cannot set the digest up at all; the
/// process stops then, as it does when memory runs out.
#[verifier::external_body]
pub(crate) fn sha3_256_digest(data: &[u8]) -> (digest: [u8; 32])
    ensures
        digest@ == sha3_256(data@),
{
    let bytes = openssl::hash::hash(openssl::hash::MessageDigest::sha3_256(), data).unwrap();
    let mut digest = [0u8; 32];
    digest.copy_from_slice(&bytes);
    digest
}

/// Calls `Rsa::public_key_from_der`, `PKey::from_rsa`, and `Verifier::new`,
/// `update` and `verify` of `openssl::sign`. Trusted: the answer is that of
/// OpenSSL's verification of `signature` over `data` under `public_key`, and
/// it is `false` wherever OpenSSL reports an error (a key that does not
/// parse, a signature of the wrong shape).
#[verifier::external_body]
pub(crate) fn rsa_sha3_verify(public_key: &[u8], signature: &[u8], data: &[u8]) -> (valid: bool)
    ensures
        valid == rsa_sha3_verifies(public_key@, signature@, data@),
{
    let Ok(rsa) = openssl::rsa::Rsa::public_key_from_der(public_key) else { return false; };
    let Ok(pkey) = openssl::pkey::PKey::from_rsa(rsa) else { return false; };
    let digest = openssl::hash::MessageDigest::sha3_256();
    let Ok(mut verifier) = openssl::sign::Verifier::new(digest, &pkey) else { return false; };
    if verifier.update(data).is_err() {
        return false;
    }
    verifier.verify(signature).unwrap_or(false)
}

/// Calls `Rsa::private_key_from_pem_passphrase` with an empty passphrase,
/// so that OpenSSL never asks for one, then `PKey::from_rsa` and
/// `PKey::public_key_to_der`. Trusted: the bytes are the public key of
/// that private key, the same for the same PEM, and there are none
/// wherever OpenSSL reports an error. A text longer than OpenSSL's reader
/// takes is left out.
#[verifier::external_body]
pub(crate) fn rsa_public_key_der(private_key: &[u8]) -> (public_key: Option<Vec<u8>>)
    requires
        private_key@.len() <= MAX_KEY_TEXT,
    ensures
        bytes_view(public_key) == rsa_public_key_of(private_key@),
{
    let Ok(rsa) = openssl::rsa::Rsa::private_key_from_pem_passphrase(private_key, b"") else { return None; };
    let Ok(pkey) = openssl::pkey::PKey::from_rsa(rsa) else { return None; };
    pkey.public_key_to_der().ok()
}

/// Calls `Rsa::private_key_from_pem_passphrase` with an empty passphrase,
/// `PKey::from_rsa`, and `Signer::new`, `update` and `sign_to_vec` of
/// `openssl::sign`. Trusted: the bytes are
/// OpenSSL's PKCS#1 v1.5 signature over `data`, the same for the same key
/// and data, and there are none wherever OpenSSL reports an error. A key
/// text longer than OpenSSL's reader takes is left out.
#[verifier::external_body]
pub(crate) fn rsa_sha3_sign(private_key: &[u8], data: &[u8]) -> (signature: Option<Vec<u8>>)
    requires
        private_key@.len() <= MAX_KEY_TEXT,
    ensures
        bytes_view(signature) == rsa_sha3_signature(private_key@, data@),
{
    let Ok(rsa) = openssl::rsa::Rsa::private_key_from_pem_passphrase(private_key, b"") else { return None; };
    let Ok(pkey) = openssl::pkey::PKey::from_rsa(rsa) else { return None; };
    let digest = openssl::hash::MessageDigest::sha3_256();
    let Ok(mut signer) = openssl::sign::Signer::new(digest, &pkey) else { return None; };
    if signer.update(data).is_err() {
        return None;
    }
    signer.sign_to_vec().ok()
}

/// Calls `Rng::gen` on `rand::thread_rng()`. Nothing is promised of the 32
/// bytes that come back.
#[verifier::external_body]
pub(crate) fn random_nonce() -> (nonce: [u8; 32])
{
    rand::Rng::gen::<[u8; 32]>(&mut rand::thread_rng())
}

/// Whether `signature` is a signature over `data` under the RSA public key
/// whose DER is `public_key`.
pub fn verify(public_key: &[u8], signature: &[u8], data: &[u8]) -> (valid: bool)
    ensures
        valid == rsa_sha3_verifies(public_key@, signature@, data@),
{
    rsa_sha3_verify(public_key, signature, data)
}

/// SHA3-256 of `data`.
pub fn hash_bytes(data: &[u8]) -> (digest: [u8; 32])
    ensures
        digest@ == sha3_256(data@),
{
    sha3_256_digest(data)
}

/// The address that belongs to a public key given as DER bytes.
pub fn derive_address(public_key: &[u8]) -> (address: Address)
    ensures
        address@ == address_of(public_key@),
{
    let digest = sha3_256_digest(public_key);
    let mut address: Address = [0u8; 16];
    let mut i: usize = 0;
    while i < 16
        invariant
            i <= 16,
            forall|j: int| 0 <= j < i ==> address@[j] == digest@[j],
        decreases 16 - i,
    {
        address[i] = digest[i];
        i += 1;
    }
    assert(address@ =~= address_of(public_key@));
    address
}

} // verus!
