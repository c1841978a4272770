//! Password hashing, key derivation and authenticated encryption.
//!
//! The primitives themselves come from the argon2 and aes-gcm crates and
//! stand behind trusted wrappers; the layout of an encrypted blob
//! (12-byte nonce, then ciphertext with its 16-byte tag) and every
//! decision around the calls is verified code.

use vstd::prelude::*;
use vstd::string::StringSliceAdditionalSpecFns;

use crate::errors::CryptoError;

use aes_gcm::aead::Aead;
use aes_gcm::KeyInit;
use argon2::PasswordHasher;
use argon2::PasswordVerifier;
use rand::TryRng;

verus! {

/// The byte length of a vault key.
pub const KEY_LEN: usize = 32;

/// The byte length of the AES-GCM nonce that prefixes every encrypted
/// blob.
pub const NONCE_LEN: usize = 12;

/// The byte length of the AES-GCM authentication tag that ends every
/// encrypted blob.
pub const TAG_LEN: usize = 16;

/// The byte length of the salt used for password-based key derivation.
pub const SALT_LEN: usize = 16;

/// What argon2's verify_password decides for a password and a
/// PHC-format hash string: the hash embeds its salt and parameters, so
/// the decision is a function of the two arguments alone.
pub uninterp spec fn password_matches(pw: Seq<u8>, hash: Seq<char>) -> bool;

/// Whether phc::PasswordHash::new accepts the string as a PHC-format
/// hash: a function of the string alone.
pub uninterp spec fn phc_valid(hash: Seq<char>) -> bool;

/// What argon2's hash_password_into derives for a password and a salt
/// at 32 bytes of output: a function of the two arguments alone.
pub uninterp spec fn derived_key32(pw: Seq<u8>, salt: Seq<u8>) -> Seq<u8>;

/// What AES-256-GCM decryption yields for a blob laid out as nonce
/// followed by ciphertext-with-tag, under a 32-byte key: `Some` of the
/// plaintext when the tag verifies, `None` otherwise. Deterministic in
/// the blob and the key.
pub uninterp spec fn aead_open_spec(blob: Seq<u8>, key: Seq<u8>) -> Option<Seq<u8>>;

/// Relies on getrandom's SysRng::try_fill_bytes: fills the buffer from
/// the operating system's secure source. The bytes are random, so only
/// the length is promised.
#[verifier::external_body]
fn random_bytes(n: usize) -> (r: Result<Vec<u8>, CryptoError>)
    ensures
        r matches Ok(b) ==> b@.len() == n,
        r matches Err(e) ==> e == CryptoError::Internal,
{
    let mut buf = vec![0u8; n];
    match rand::rngs::SysRng.try_fill_bytes(&mut buf) {
        Ok(()) => Ok(buf),
        Err(_) => Err(CryptoError::Internal),
    }
}

/// Relies on argon2's PasswordHasher::hash_password: it draws a fresh
/// random salt, and returns a PHC-format string that embeds algorithm,
/// parameters and salt, such that verifying it against the same
/// password succeeds.
#[verifier::external_body]
fn argon2_hash(pw: &[u8]) -> (r: Result<String, CryptoError>)
    ensures
        r matches Ok(h) ==> password_matches(pw@, h@) && phc_valid(h@),
{
    match argon2::Argon2::default().hash_password(pw) {
        Ok(h) => Ok(h.to_string()),
        Err(_) => Err(CryptoError::Internal),
    }
}

/// Relies on argon2's PasswordVerifier::verify_password: it re-derives
/// with the parameters and salt embedded in the hash string and
/// compares, a deterministic function of password and hash.
#[verifier::external_body]
fn argon2_verify(pw: &[u8], hash: &str) -> (r: bool)
    ensures
        r == password_matches(pw@, hash@),
{
    argon2::Argon2::default().verify_password(pw, hash).is_ok()
}

/// Relies on phc::PasswordHash::new: parses the PHC string format,
/// accepting or rejecting on the text alone.
#[verifier::external_body]
fn phc_parse_ok(hash: &str) -> (r: bool)
    ensures
        r == phc_valid(hash@),
{
    argon2::PasswordHash::new(hash).is_ok()
}

/// Relies on argon2's hash_password_into: derives 32 bytes from the
/// password and salt alone. Its source rejects only a password over
/// 2^32 - 1 bytes, a salt outside 8 through 2^32 - 1 bytes, or an
/// output outside 4 through 2^32 - 1 bytes, so inside those bounds the
/// call succeeds (failing to allocate its 19 MiB of work memory aside).
#[verifier::external_body]
fn argon2_derive(pw: &[u8], salt: &[u8]) -> (r: Result<Vec<u8>, CryptoError>)
    requires
        8 <= salt@.len() <= 64,
    ensures
        r matches Ok(k) ==> k@ == derived_key32(pw@, salt@) && k@.len() == 32,
        r matches Err(e) ==> e == CryptoError::Internal,
        pw@.len() <= 0xFFFF_FFFF ==> r is Ok,
{
    let mut out = vec![0u8; 32];
    match argon2::Argon2::default().hash_password_into(pw, salt, &mut out) {
        Ok(()) => Ok(out),
        Err(_) => Err(CryptoError::Internal),
    }
}

/// Relies on aes-gcm's Aead::encrypt for AES-256-GCM: the ciphertext
/// carries a 16-byte postfix tag, and decrypting it under the same
/// nonce and key yields the plaintext back.
#[verifier::external_body]
fn aead_seal(nonce: &[u8], data: &[u8], key: &[u8]) -> (r: Result<Vec<u8>, CryptoError>)
    requires
        nonce@.len() == 12,
        key@.len() == 32,
    ensures
        r matches Ok(ct) ==> ct@.len() == data@.len() + 16 && aead_open_spec(
            nonce@ + ct@,
            key@,
        ) == Some(data@),
        r matches Err(e) ==> e == CryptoError::Internal,
{
    let cipher = aes_gcm::Aes256Gcm::new_from_slice(key).map_err(|_| CryptoError::Internal)?;
    let nonce_arr =
        aes_gcm::Nonce::<aes_gcm::aead::consts::U12>::try_from(nonce).map_err(|_| CryptoError::Internal)?;
    cipher.encrypt(&nonce_arr, data).map_err(|_| CryptoError::Internal)
}

/// Relies on aes-gcm's Aead::decrypt for AES-256-GCM: authenticates the
/// tag and decrypts, a deterministic function of nonce, ciphertext and
/// key.
#[verifier::external_body]
fn aead_open(nonce: &[u8], ct: &[u8], key: &[u8]) -> (r: Option<Vec<u8>>)
    requires
        nonce@.len() == 12,
        key@.len() == 32,
    ensures
        match r {
            Some(p) => aead_open_spec(nonce@ + ct@, key@) == Some(p@),
            None => aead_open_spec(nonce@ + ct@, key@) is None,
        },
{
    let cipher = match aes_gcm::Aes256Gcm::new_from_slice(key) {
        Ok(c) => c,
        Err(_) => return None,
    };
    let nonce_arr = match aes_gcm::Nonce::<aes_gcm::aead::consts::U12>::try_from(nonce) {
        Ok(n) => n,
        Err(_) => return None,
    };
    cipher.decrypt(&nonce_arr, ct).ok()
}

/// The outcome decrypt_data is specified to produce for a blob and a
/// 32-byte key.
pub open spec fn decrypt_outcome(blob: Seq<u8>, key: Seq<u8>) -> Result<Seq<u8>, CryptoError> {
    if blob.len() < 12 {
        Err(CryptoError::TooShort)
    } else {
        match aead_open_spec(blob, key) {
            Some(p) => Ok(p),
            None => Err(CryptoError::AuthenticationFailed),
        }
    }
}

/// The outcome verify_password is specified to produce for a password
/// and a stored hash string.
pub open spec fn verify_outcome(pw: Seq<u8>, hash: Seq<char>) -> Result<bool, CryptoError> {
    if phc_valid(hash) {
        Ok(password_matches(pw, hash))
    } else {
        Err(CryptoError::InvalidFormat)
    }
}

/// Password hashing, verification, key generation and authenticated
/// encryption of byte payloads.
pub struct CryptoManager {}

impl CryptoManager {
    pub fn new() -> CryptoManager {
        CryptoManager {  }
    }

    /// Derives a salted, memory-hard hash of the password with a fresh
    /// random salt; the returned string embeds algorithm, parameters
    /// and salt, so verification needs no side state.
    pub fn hash_password(&self, password: &str) -> (r: Result<String, CryptoError>)
        ensures
            r matches Ok(h) ==> password_matches(password.spec_bytes(), h@)
                && phc_valid(h@),
            r matches Err(e) ==> e == CryptoError::Internal,
    {
        match argon2_hash(password.as_bytes()) {
            Ok(h) => Ok(h),
            Err(_) => Err(CryptoError::Internal),
        }
    }

    /// Parses the self-describing hash and recomputes: `Ok(true)` iff
    /// the password matches, `Ok(false)` on a clean mismatch, and
    /// `InvalidFormat` exactly when the hash string does not parse.
    pub fn verify_password(&self, password: &str, hash: &str) -> (r: Result<bool, CryptoError>)
        ensures
            r == verify_outcome(password.spec_bytes(), hash@),
    {
        if !phc_parse_ok(hash) {
            Err(CryptoError::InvalidFormat)
        } else {
            Ok(argon2_verify(password.as_bytes(), hash))
        }
    }

    /// Draws a fresh 256-bit key from the system's secure source.
    pub fn generate_key(&self) -> (r: Result<Vec<u8>, CryptoError>)
        ensures
            r matches Ok(k) ==> k@.len() == KEY_LEN,
            r matches Err(e) ==> e == CryptoError::Internal,
    {
        random_bytes(KEY_LEN)
    }

    /// Draws a fresh random salt for password-based key derivation.
    pub fn generate_salt(&self) -> (r: Result<Vec<u8>, CryptoError>)
        ensures
            r matches Ok(s) ==> s@.len() == SALT_LEN,
            r matches Err(e) ==> e == CryptoError::Internal,
    {
        random_bytes(SALT_LEN)
    }

    /// Derives the 32-byte key that a password and salt determine;
    /// equal inputs always derive the equal key, which is what makes a
    /// stored, key-wrapped vault key recoverable on a later unlock.
    pub fn derive_key(&self, password: &str, salt: &Vec<u8>) -> (r: Result<Vec<u8>, CryptoError>)
        requires
            salt@.len() == SALT_LEN,
        ensures
            r matches Ok(k) ==> k@ == derived_key32(
                password.spec_bytes(),
                salt@,
            ) && k@.len() == KEY_LEN,
            r matches Err(e) ==> e == CryptoError::Internal,
            password.spec_bytes().len() <= 0xFFFF_FFFF ==> r is Ok,
    {
        match argon2_derive(password.as_bytes(), salt.as_slice()) {
            Ok(k) => Ok(k),
            Err(_) => Err(CryptoError::Internal),
        }
    }

    /// Encrypts the payload under the key with a fresh random 96-bit
    /// nonce; the output is the nonce followed by the ciphertext with
    /// its tag, and decrypting it under the same key yields the payload
    /// back.
    pub fn encrypt_data(&self, data: &[u8], key: &Vec<u8>) -> (r: Result<Vec<u8>, CryptoError>)
        requires
            key@.len() == KEY_LEN,
        ensures
            r matches Ok(blob) ==> blob@.len() == data@.len() + NONCE_LEN + TAG_LEN
                && aead_open_spec(blob@, key@) == Some(data@),
            r matches Err(e) ==> e == CryptoError::Internal,
    {
        let nonce = random_bytes(NONCE_LEN)?;
        let ct = aead_seal(nonce.as_slice(), data, key.as_slice())?;
        let mut blob = nonce;
        let mut rest = ct;
        blob.append(&mut rest);
        Ok(blob)
    }

    /// Splits the first 12 bytes as the nonce, authenticates and
    /// decrypts the remainder: `TooShort` when the blob cannot even
    /// hold a nonce, `AuthenticationFailed` when the tag does not
    /// verify (tampered data or a wrong key).
    pub fn decrypt_data(&self, encrypted: &[u8], key: &Vec<u8>) -> (r: Result<Vec<u8>, CryptoError>)
        requires
            key@.len() == KEY_LEN,
        ensures
            match r {
                Ok(p) => decrypt_outcome(encrypted@, key@) == Ok::<Seq<u8>, CryptoError>(p@),
                Err(e) => decrypt_outcome(encrypted@, key@) == Err::<Seq<u8>, CryptoError>(e),
            },
    {
        if encrypted.len() < NONCE_LEN {
            return Err(CryptoError::TooShort);
        }
        let nonce: &[u8] = vstd::slice::slice_subrange(encrypted, 0, NONCE_LEN);
        let ct: &[u8] = vstd::slice::slice_subrange(encrypted, NONCE_LEN, encrypted.len());
        proof {
            assert(nonce@ + ct@ =~= encrypted@);
        }
        match aead_open(nonce, ct, key.as_slice()) {
            Some(p) => Ok(p),
            None => Err(CryptoError::AuthenticationFailed),
        }
    }
}

impl Default for CryptoManager {
    fn default() -> (r: CryptoManager) {
        CryptoManager::new()
    }
}

/// Round trip: a blob that decrypts to a payload under a key, as every
/// blob produced by `encrypt_data` under that key does, is exactly what
/// `decrypt_data` returns `Ok` of.
pub proof fn lemma_encrypt_decrypt_round_trip(blob: Seq<u8>, key: Seq<u8>, data: Seq<u8>)
    requires
        blob.len() >= 12,
        aead_open_spec(blob, key) == Some(data),
    ensures
        decrypt_outcome(blob, key) == Ok::<Seq<u8>, CryptoError>(data),
{
}

/// Round trip: a hash string that a password produced, as every string
/// returned by `hash_password` is, verifies as `Ok(true)` against that
/// same password.
pub proof fn lemma_hash_verify_round_trip(pw: Seq<u8>, hash: Seq<char>)
    requires
        phc_valid(hash),
        password_matches(pw, hash),
    ensures
        verify_outcome(pw, hash) == Ok::<bool, CryptoError>(true),
{
}

} // verus!
