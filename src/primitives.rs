//! Calls into the cryptographic and encoding crates, each with the contract
//! that the rest of the library relies on.
use vstd::prelude::*;
use aes_gcm_siv::aead::{Aead, AeadCore, KeyInit};
use aes_gcm_siv::Aes256GcmSiv;
use argon2::Argon2;
use base64::prelude::BASE64_STANDARD;
use base64::Engine;
use rand::rngs::OsRng;
use rand::{Rng, RngCore};

verus! {

/// The largest plaintext, in bytes, that AES-256-GCM-SIV accepts.
pub const PLAINTEXT_MAX: u64 = 68719476736;

/// The largest password, in bytes, that Argon2 accepts.
pub const PASSWORD_MAX: u64 = 4294967295;

/// The key that Argon2id with its default parameters derives from a password
/// and a salt.
pub uninterp spec fn argon2_key(password: Seq<u8>, salt: Seq<u8>) -> Seq<u8>;

/// The ciphertext (with its authentication tag appended) that AES-256-GCM-SIV
/// produces for a key, a nonce and a plaintext, with no associated data.
pub uninterp spec fn siv_seal(key: Seq<u8>, nonce: Seq<u8>, plaintext: Seq<u8>) -> Seq<u8>;

/// The padded standard base64 text of a byte sequence, as ASCII bytes.
pub uninterp spec fn base64_text(bytes: Seq<u8>) -> Seq<u8>;

/// A byte of the standard base64 alphabet, or its padding byte.
pub open spec fn is_base64_symbol(c: u8) -> bool {
    (0x41 <= c && c <= 0x5a) || (0x61 <= c && c <= 0x7a) || (0x30 <= c && c <= 0x39) || c == 0x2b
        || c == 0x2f || c == 0x3d
}

/// Whether `needle` occurs in `hay` as a contiguous run of characters.
pub open spec fn occurs_in(needle: Seq<char>, hay: Seq<char>) -> bool {
    exists|i: int| 0 <= i && i + needle.len() <= hay.len() && #[trigger] hay.subrange(i, i + needle.len()) == needle
}

/// Relies on `Argon2::hash_password_into` with `Argon2::default()`: the key
/// depends on the password and the salt alone; it fails only for a password
/// over `PASSWORD_MAX` bytes or a salt under 8 bytes.
#[verifier::external_body]
pub(crate) fn argon2_derive(password: &[u8], salt: &[u8; 32]) -> (r: [u8; 32])
    requires
        password@.len() <= PASSWORD_MAX,
    ensures
        r@ == argon2_key(password@, salt@),
{
    let mut key = [0u8; 32];
    Argon2::default().hash_password_into(password, salt, &mut key).expect("key derivation failed");
    key
}

/// Relies on `rand::Rng::gen` over the operating system's generator: 32 fresh
/// random bytes.
#[verifier::external_body]
pub(crate) fn random_salt() -> (r: [u8; 32]) {
    OsRng.gen()
}

/// Relies on `rand::RngCore::next_u64` over the operating system's generator.
#[verifier::external_body]
pub(crate) fn random_u64() -> (r: u64) {
    OsRng.next_u64()
}

/// Relies on `AeadCore::generate_nonce` of `Aes256GcmSiv`: 12 random bytes
/// from the operating system's generator.
#[verifier::external_body]
pub(crate) fn random_nonce() -> (r: [u8; 12]) {
    Aes256GcmSiv::generate_nonce(OsRng).into()
}

/// Relies on `Aead::encrypt` of `Aes256GcmSiv`, which fails only for a
/// plaintext over `PLAINTEXT_MAX` bytes.
#[verifier::external_body]
pub(crate) fn siv_encrypt(key: &[u8; 32], nonce: &[u8; 12], plaintext: &[u8]) -> (r: Vec<u8>)
    requires
        plaintext@.len() <= PLAINTEXT_MAX,
    ensures
        r@ == siv_seal(key@, nonce@, plaintext@),
{
    let cipher = Aes256GcmSiv::new(key.into());
    cipher.encrypt(nonce.into(), plaintext).expect("plaintext too long")
}

/// Relies on `Aead::decrypt` of `Aes256GcmSiv`: it returns a plaintext
/// exactly when the tag checks, that is when the ciphertext is what
/// encrypting that plaintext under the same key and nonce gives.
#[verifier::external_body]
pub(crate) fn siv_decrypt(key: &[u8; 32], nonce: &[u8; 12], ciphertext: &[u8]) -> (r: Option<Vec<u8>>)
    ensures
        r matches Some(p) ==> ciphertext@ == siv_seal(key@, nonce@, p@),
        forall|p: Seq<u8>|
            p.len() <= PLAINTEXT_MAX && ciphertext@ == #[trigger] siv_seal(key@, nonce@, p)
                ==> r.is_some() && r.unwrap()@ == p,
{
    let cipher = Aes256GcmSiv::new(key.into());
    cipher.decrypt(nonce.into(), ciphertext).ok()
}

/// Relies on `Engine::encode` of `BASE64_STANDARD`: padded text over the
/// standard alphabet.
#[verifier::external_body]
pub(crate) fn base64_encode(bytes: &[u8]) -> (r: Vec<u8>)
    ensures
        r@ == base64_text(bytes@),
        forall|i: int| 0 <= i < r@.len() ==> is_base64_symbol(#[trigger] r@[i]),
{
    BASE64_STANDARD.encode(bytes).into_bytes()
}

/// Relies on `Engine::decode` of `BASE64_STANDARD`: it gives back the bytes
/// whose encoding the text is.
#[verifier::external_body]
pub(crate) fn base64_decode(text: &[u8]) -> (r: Option<Vec<u8>>)
    ensures
        forall|b: Seq<u8>| text@ == #[trigger] base64_text(b) ==> r.is_some() && r.unwrap()@ == b,
{
    BASE64_STANDARD.decode(text).ok()
}

/// Relies on `String::from_utf8`: it succeeds exactly on well-formed UTF-8
/// and then holds the characters that the bytes encode.
#[verifier::external_body]
pub(crate) fn string_from_utf8(bytes: Vec<u8>) -> (r: Option<String>)
    ensures
        r is Some <==> vstd::utf8::valid_utf8(bytes@),
        r matches Some(s) ==> s@ == vstd::utf8::decode_utf8(bytes@),
{
    String::from_utf8(bytes).ok()
}

/// Relies on `str::contains` with a string pattern: whether the pattern
/// occurs in the text.
#[verifier::external_body]
pub(crate) fn str_contains(hay: &str, needle: &str) -> (r: bool)
    ensures
        r == occurs_in(needle@, hay@),
{
    hay.contains(needle)
}

} // verus!
