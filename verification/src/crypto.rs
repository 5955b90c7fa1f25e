//! The cryptographic edge of the credential store: SHA-256 key derivation,
//! AES-256-GCM sealing of the credential file's plaintext, and its base64
//! transport encoding. The outside calls stand behind trusted wrappers; the
//! key-material layout and the fixed nonce are the library's own and are
//! verified.

use aes_gcm::aead::{Aead, KeyInit};
use aes_gcm::{Aes256Gcm, Nonce};
use base64::engine::general_purpose;
use base64::Engine;
use sha2::{Digest, Sha256};
use vstd::prelude::*;

verus! {

/// What SHA-256 digests the given bytes to.
pub uninterp spec fn sha256_of(data: Seq<u8>) -> Seq<u8>;

/// Relies on `sha2::Sha256` through `Digest::digest`: a 32-byte digest that
/// depends on the input bytes alone.
#[verifier::external_body]
pub fn sha256(data: &Vec<u8>) -> (r: Vec<u8>)
    ensures
        r@ == sha256_of(data@),
        r@.len() == 32,
{
    Sha256::digest(data.as_slice()).to_vec()
}

/// What AES-256-GCM seals the given plaintext to (ciphertext and tag) under
/// the given key and nonce.
pub uninterp spec fn gcm_seal_of(key: Seq<u8>, nonce: Seq<u8>, plaintext: Seq<u8>) -> Seq<u8>;

/// Relies on `aes_gcm::Aes256Gcm` encryption: under a fixed key and nonce
/// the sealed bytes are a function of the plaintext alone, a 16-byte tag
/// longer than it, and sealing refuses only plaintexts over the cipher's
/// 2^36-byte cap.
#[verifier::external_body]
pub fn gcm_encrypt(key: &Vec<u8>, nonce: &Vec<u8>, plaintext: &Vec<u8>) -> (r: Option<Vec<u8>>)
    requires
        key@.len() == 32,
        nonce@.len() == 12,
    ensures
        r matches Some(c) ==> c@ == gcm_seal_of(key@, nonce@, plaintext@),
        r matches Some(c) ==> c@.len() == plaintext@.len() + 16,
        (r is Some) == (plaintext@.len() <= 0x1000000000),
{
    let cipher = Aes256Gcm::new_from_slice(key.as_slice()).ok()?;
    cipher.encrypt(Nonce::from_slice(nonce.as_slice()), plaintext.as_slice()).ok()
}

/// Relies on `aes_gcm::Aes256Gcm` decryption: authentication accepts
/// exactly the sealed outputs under the same key and nonce, and inverting
/// the keystream returns the one plaintext that was sealed.
#[verifier::external_body]
pub fn gcm_decrypt(key: &Vec<u8>, nonce: &Vec<u8>, ciphertext: &Vec<u8>) -> (r: Option<Vec<u8>>)
    requires
        key@.len() == 32,
        nonce@.len() == 12,
    ensures
        r matches Some(p) ==> ciphertext@ == gcm_seal_of(key@, nonce@, p@),
        r matches Some(p) ==> forall|q: Seq<u8>|
            ciphertext@ == gcm_seal_of(key@, nonce@, q) ==> p@ == q,
        (exists|p: Seq<u8>|
            p.len() <= 0x1000000000 && ciphertext@ == gcm_seal_of(key@, nonce@, p)) ==> r is Some,
{
    let cipher = Aes256Gcm::new_from_slice(key.as_slice()).ok()?;
    cipher.decrypt(Nonce::from_slice(nonce.as_slice()), ciphertext.as_slice()).ok()
}

/// What the base64 standard alphabet, with padding, encodes the given bytes
/// to.
pub uninterp spec fn base64_of(data: Seq<u8>) -> Seq<u8>;

/// Relies on base64's `STANDARD` engine encoding: canonical padded output,
/// a function of the input bytes alone, four characters per three-byte
/// chunk.
#[verifier::external_body]
pub fn b64_encode(data: &Vec<u8>) -> (r: Vec<u8>)
    ensures
        r@ == base64_of(data@),
        r@.len() == 4 * ((data@.len() + 2) / 3),
{
    general_purpose::STANDARD.encode(data.as_slice()).into_bytes()
}

/// Relies on base64's `STANDARD` engine decoding, which requires canonical
/// padding and zero trailing bits: it succeeds on exactly the canonical
/// encodings and returns the one byte string that was encoded.
#[verifier::external_body]
pub fn b64_decode(data: &Vec<u8>) -> (r: Option<Vec<u8>>)
    ensures
        r matches Some(d) ==> data@ == base64_of(d@),
        r matches Some(d) ==> forall|q: Seq<u8>| data@ == base64_of(q) ==> d@ == q,
        (exists|d: Seq<u8>| data@ == base64_of(d)) ==> r is Some,
{
    general_purpose::STANDARD.decode(data.as_slice()).ok()
}

/// Relies on `whoami::devicename`. The name depends on the machine, so
/// nothing is promised of it; callers treat it as an arbitrary string.
#[verifier::external_body]
pub fn device_name() -> String {
    whoami::devicename()
}

/// The fixed nonce under which every credential blob is sealed (it spells
/// `mind-flayer!`). Reusing one nonce under one key is a known weakness of
/// this format, kept for compatibility with existing credential files.
pub open spec fn spec_fixed_nonce() -> Seq<u8> {
    seq![109u8, 105u8, 110u8, 100u8, 45u8, 102u8, 108u8, 97u8, 121u8, 101u8, 114u8, 33u8]
}

/// The fixed nonce as bytes.
pub fn fixed_nonce() -> (r: Vec<u8>)
    ensures
        r@ == spec_fixed_nonce(),
        r@.len() == 12,
{
    let r: Vec<u8> = vec![109, 105, 110, 100, 45, 102, 108, 97, 121, 101, 114, 33];
    proof {
        assert(r@ =~= spec_fixed_nonce());
    }
    r
}

/// The bytes hashed into the encryption key: a fixed application tag
/// followed by the machine's device name.
pub open spec fn spec_key_material(machine_id: Seq<char>) -> Seq<u8> {
    vstd::utf8::encode_utf8("mind-flayer-v1"@) + vstd::utf8::encode_utf8(machine_id)
}

/// Derives the credential file's encryption key from the machine's device
/// name: the SHA-256 digest of a fixed application tag followed by the
/// name.
pub fn derive_encryption_key(machine_id: &str) -> (r: Vec<u8>)
    ensures
        r@ == sha256_of(spec_key_material(machine_id@)),
        r@.len() == 32,
{
    let mut data = "mind-flayer-v1".as_bytes_vec();
    let mut id_bytes = machine_id.as_bytes_vec();
    data.append(&mut id_bytes);
    proof {
        assert(data@ =~= spec_key_material(machine_id@));
    }
    sha256(&data)
}

} // verus!
