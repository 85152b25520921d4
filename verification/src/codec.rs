//! Symmetric encryption of byte chunks and of file-path strings.
//!
//! A chunk of plaintext is sealed with a key derived from a caller-supplied
//! secret string: a fresh 16-byte salt and 12-byte nonce are drawn, the key is
//! the digest of the secret's bytes followed by the salt, and the sealed body
//! carries a 16-byte authentication tag.  Every ciphertext is therefore
//! exactly [`ENCRYPTION_OVERHEAD`] bytes longer than its plaintext, and
//! decryption under the same secret gives the plaintext back; decryption
//! under any other secret, or of corrupted bytes, fails.
//!
//! A relative file path is encrypted the same way (as one chunk) and the
//! ciphertext is then encoded with a URL-safe base64 alphabet, so that the
//! result is a single file-name segment with no `/` in it.

use vstd::prelude::*;
use vstd::string::StrSliceExecFns;
use vstd::string::StringSliceAdditionalSpecFns;
use vstd::utf8::{decode_utf8, encode_utf8, valid_utf8};
use aes_gcm::aead::Aead;
use aes_gcm::KeyInit;
use base64::Engine;
use sha2::Digest;

verus! {

/// Plaintext bytes per transfer chunk.
pub const CHUNK_SIZE: usize = 4096;

/// Bytes the codec adds to each chunk: the salt, the nonce and the tag.
pub const ENCRYPTION_OVERHEAD: usize = 44;

/// Ciphertext bytes per transfer chunk.
pub const ENCRYPTED_CHUNK_SIZE: usize = 4140;

/// Bytes of key salt at the front of a ciphertext.
pub const SALT_LEN: usize = 16;

/// Bytes of nonce after the salt.
pub const NONCE_LEN: usize = 12;

/// Bytes of authentication tag at the end of the sealed body.
pub const TAG_LEN: usize = 16;

/// Longest UTF-8 encoding of a path that the name codec accepts.
pub const NAME_PLAIN_MAX: usize = 0x0100_0000;

/// Why an encryption or decryption call did not produce a result.
#[derive(Clone, Copy, Debug, PartialEq, Eq, Structural)]
pub enum CodecError {
    /// The operating system would not supply random bytes.
    RandomUnavailable,
    /// The cipher refused to seal the plaintext.
    EncryptionRefused,
    /// Authentication failed: wrong secret or corrupted bytes.
    DecryptionFailed,
    /// An encoded file name is not in the base64 alphabet.
    NameNotEncoded,
    /// A decrypted file name is not text.
    NameNotText,
    /// A path is too long to become an encrypted file name.
    NameTooLong,
}

/// The digest that `sha2::Sha256` computes of the given bytes.
pub uninterp spec fn sha256_of(data: Seq<u8>) -> Seq<u8>;

/// What `aes_gcm::Aes256Gcm` decryption yields for the given key, nonce and
/// sealed body: the plaintext, or nothing when authentication fails.
pub uninterp spec fn aead_open(key: Seq<u8>, nonce: Seq<u8>, body: Seq<u8>) -> Option<Seq<u8>>;

/// The URL-safe base64 encoding of the given bytes.
pub uninterp spec fn b64url_of(data: Seq<u8>) -> Seq<char>;

/// What URL-safe base64 decoding yields for the given text, or nothing when
/// the text is not an encoding.
pub uninterp spec fn b64url_decode_of(text: Seq<char>) -> Option<Seq<u8>>;

/// Relies on getrandom::getrandom: fills a buffer with operating-system
/// entropy, or reports that none is available.
#[verifier::external_body]
fn os_random(n: usize) -> (r: Result<Vec<u8>, CodecError>)
    ensures
        r matches Ok(b) ==> b@.len() == n,
        r matches Err(e) ==> e == CodecError::RandomUnavailable,
{
    let mut buf = vec![0u8; n];
    match getrandom::getrandom(&mut buf) {
        Ok(()) => Ok(buf),
        Err(_) => Err(CodecError::RandomUnavailable),
    }
}

/// Relies on sha2::Sha256: a 32-byte digest that depends on the input bytes
/// alone.
#[verifier::external_body]
fn sha256(data: &[u8]) -> (r: Vec<u8>)
    ensures
        r@ == sha256_of(data@),
        r@.len() == 32,
{
    sha2::Sha256::digest(data).to_vec()
}

/// Relies on aes_gcm::Aes256Gcm (Aead::encrypt): seals the plaintext under
/// the key and nonce, appending a 16-byte tag; decrypting the result with the
/// same key and nonce gives the plaintext back.
#[verifier::external_body]
fn aead_seal(key: &[u8], nonce: &[u8], plaintext: &[u8]) -> (r: Result<Vec<u8>, CodecError>)
    requires
        key@.len() == 32,
        nonce@.len() == 12,
        plaintext@.len() + 16 <= usize::MAX,
    ensures
        r matches Ok(body) ==> body@.len() == plaintext@.len() + 16 && aead_open(
            key@,
            nonce@,
            body@,
        ) == Some(plaintext@),
        r matches Err(e) ==> e == CodecError::EncryptionRefused,
{
    let cipher = aes_gcm::Aes256Gcm::new(aes_gcm::Key::<aes_gcm::Aes256Gcm>::from_slice(key));
    match cipher.encrypt(aes_gcm::Nonce::from_slice(nonce), plaintext) {
        Ok(body) => Ok(body),
        Err(_) => Err(CodecError::EncryptionRefused),
    }
}

/// Relies on aes_gcm::Aes256Gcm (Aead::decrypt): either authentication
/// verifies and the plaintext comes back, or the call fails; the outcome
/// depends on the key, nonce and body alone.
#[verifier::external_body]
fn aead_unseal(key: &[u8], nonce: &[u8], body: &[u8]) -> (r: Result<Vec<u8>, CodecError>)
    requires
        key@.len() == 32,
        nonce@.len() == 12,
    ensures
        r matches Ok(p) ==> aead_open(key@, nonce@, body@) == Some(p@) && p@.len() + 16
            == body@.len(),
        r matches Err(e) ==> e == CodecError::DecryptionFailed && aead_open(key@, nonce@, body@)
            is None,
{
    let cipher = aes_gcm::Aes256Gcm::new(aes_gcm::Key::<aes_gcm::Aes256Gcm>::from_slice(key));
    match cipher.decrypt(aes_gcm::Nonce::from_slice(nonce), body) {
        Ok(p) => Ok(p),
        Err(_) => Err(CodecError::DecryptionFailed),
    }
}

/// Relies on base64's URL_SAFE engine: encodes with the URL-safe alphabet
/// (letters, digits, `-`, `_` and `=` padding, never `/`), and decoding
/// inverts the encoding.
#[verifier::external_body]
fn b64_encode(data: &[u8]) -> (r: String)
    requires
        4 * data@.len() + 8 <= usize::MAX,
    ensures
        r@ == b64url_of(data@),
        b64url_decode_of(r@) == Some(data@),
        forall|i: int| 0 <= i < r@.len() ==> r@[i] != '/',
{
    base64::engine::general_purpose::URL_SAFE.encode(data)
}

/// Relies on base64's URL_SAFE engine: decoding either inverts an encoding or
/// reports that the text is not one; the outcome depends on the text alone.
#[verifier::external_body]
fn b64_decode(text: &str) -> (r: Result<Vec<u8>, CodecError>)
    ensures
        r matches Ok(b) ==> b64url_decode_of(text@) == Some(b@),
        r matches Err(e) ==> e == CodecError::NameNotEncoded && b64url_decode_of(text@) is None,
{
    match base64::engine::general_purpose::URL_SAFE.decode(text) {
        Ok(b) => Ok(b),
        Err(_) => Err(CodecError::NameNotEncoded),
    }
}

/// Relies on String::from_utf8: succeeds exactly on valid UTF-8 and returns
/// the text that the bytes encode.
#[verifier::external_body]
fn bytes_to_string(b: Vec<u8>) -> (r: Result<String, CodecError>)
    ensures
        r matches Ok(s) ==> encode_utf8(s@) == b@,
        r matches Err(e) ==> e == CodecError::NameNotText && !valid_utf8(b@),
{
    match String::from_utf8(b) {
        Ok(s) => Ok(s),
        Err(_) => Err(CodecError::NameNotText),
    }
}

/// The key that a secret and a salt derive.
pub open spec fn derived_key(secret: Seq<char>, salt: Seq<u8>) -> Seq<u8> {
    sha256_of(encode_utf8(secret) + salt)
}

/// What decrypting `ct` under `secret` yields: the salt and nonce are read
/// from the front, the rest is unsealed with the derived key.
pub open spec fn decrypt_spec(ct: Seq<u8>, secret: Seq<char>) -> Option<Seq<u8>> {
    if ct.len() < ENCRYPTION_OVERHEAD {
        None
    } else {
        aead_open(
            derived_key(secret, ct.subrange(0, SALT_LEN as int)),
            ct.subrange(SALT_LEN as int, (SALT_LEN + NONCE_LEN) as int),
            ct.subrange((SALT_LEN + NONCE_LEN) as int, ct.len() as int),
        )
    }
}

/// A ciphertext that encryption can produce for `data` under `secret`: it
/// has exactly the overhead added and decrypts back to `data`.
pub open spec fn encrypted_chunk_ok(data: Seq<u8>, secret: Seq<char>, ct: Seq<u8>) -> bool {
    &&& ct.len() == data.len() + ENCRYPTION_OVERHEAD
    &&& decrypt_spec(ct, secret) == Some(data)
}

/// Encrypt one chunk of bytes under a secret.  On success the result is
/// exactly [`ENCRYPTION_OVERHEAD`] bytes longer than the input and decrypts
/// back to it; the call fails only when the system gives no entropy or the
/// cipher refuses.
pub fn encrypt_data(data: &[u8], secret: &str) -> (r: Result<Vec<u8>, CodecError>)
    requires
        data@.len() + ENCRYPTION_OVERHEAD <= usize::MAX,
    ensures
        r matches Ok(ct) ==> encrypted_chunk_ok(data@, secret@, ct@),
        r matches Err(e) ==> e == CodecError::RandomUnavailable || e
            == CodecError::EncryptionRefused,
{
    let salt = match os_random(SALT_LEN) {
        Ok(v) => v,
        Err(e) => return Err(e),
    };
    let nonce = match os_random(NONCE_LEN) {
        Ok(v) => v,
        Err(e) => return Err(e),
    };
    let mut key_input = secret.as_bytes_vec();
    key_input.extend_from_slice(salt.as_slice());
    assert(key_input@ == encode_utf8(secret@) + salt@);
    let key = sha256(key_input.as_slice());
    let body = match aead_seal(key.as_slice(), nonce.as_slice(), data) {
        Ok(v) => v,
        Err(e) => return Err(e),
    };
    let mut ct = salt;
    ct.extend_from_slice(nonce.as_slice());
    ct.extend_from_slice(body.as_slice());
    proof {
        assert(ct@.subrange(0, SALT_LEN as int) =~= salt@);
        assert(ct@.subrange(SALT_LEN as int, (SALT_LEN + NONCE_LEN) as int) =~= nonce@);
        assert(ct@.subrange((SALT_LEN + NONCE_LEN) as int, ct@.len() as int) =~= body@);
    }
    Ok(ct)
}

/// Decrypt one chunk of bytes under a secret.  Succeeds exactly when the
/// bytes are a ciphertext under that secret, and then returns the plaintext
/// they seal.
pub fn decrypt_data(ct: &[u8], secret: &str) -> (r: Result<Vec<u8>, CodecError>)
    ensures
        r matches Ok(p) ==> decrypt_spec(ct@, secret@) == Some(p@) && p@.len()
            + ENCRYPTION_OVERHEAD == ct@.len(),
        r matches Err(e) ==> e == CodecError::DecryptionFailed && decrypt_spec(ct@, secret@)
            is None,
{
    if ct.len() < ENCRYPTION_OVERHEAD {
        return Err(CodecError::DecryptionFailed);
    }
    let salt = crate::chunks::take_range(ct, 0, SALT_LEN);
    let nonce = crate::chunks::take_range(ct, SALT_LEN, SALT_LEN + NONCE_LEN);
    let body = crate::chunks::take_range(ct, SALT_LEN + NONCE_LEN, ct.len());
    let mut key_input = secret.as_bytes_vec();
    key_input.extend_from_slice(salt.as_slice());
    assert(key_input@ == encode_utf8(secret@) + salt@);
    let key = sha256(key_input.as_slice());
    match aead_unseal(key.as_slice(), nonce.as_slice(), body.as_slice()) {
        Ok(p) => Ok(p),
        Err(e) => Err(e),
    }
}

/// What decoding and decrypting an encrypted file name yields: the base64
/// text is decoded, the ciphertext decrypted, and the plaintext read as text.
pub open spec fn decrypt_name_spec(name: Seq<char>, secret: Seq<char>) -> Option<Seq<char>> {
    match b64url_decode_of(name) {
        None => None,
        Some(ct) => match decrypt_spec(ct, secret) {
            None => None,
            Some(b) => if valid_utf8(b) {
                Some(decode_utf8(b))
            } else {
                None
            },
        },
    }
}

/// Encrypt a relative path into a single filesystem-safe name segment: the
/// path's bytes are encrypted as one chunk and the ciphertext is base64
/// encoded.  On success the name holds no `/` and decodes back to the path.
pub fn encrypt_name(path: &str, secret: &str) -> (r: Result<String, CodecError>)
    ensures
        r matches Ok(name) ==> decrypt_name_spec(name@, secret@) == Some(path@) && (forall|i: int|
            0 <= i < name@.len() ==> name@[i] != '/'),
        r matches Err(e) ==> e == CodecError::RandomUnavailable || e
            == CodecError::EncryptionRefused || e == CodecError::NameTooLong,
        encode_utf8(path@).len() > NAME_PLAIN_MAX ==> (r matches Err(e) && e
            == CodecError::NameTooLong),
        r matches Err(e) && e == CodecError::NameTooLong ==> encode_utf8(path@).len()
            > NAME_PLAIN_MAX,
{
    let bytes = path.as_bytes_vec();
    if bytes.len() > NAME_PLAIN_MAX {
        return Err(CodecError::NameTooLong);
    }
    let ct = match encrypt_data(bytes.as_slice(), secret) {
        Ok(v) => v,
        Err(e) => return Err(e),
    };
    let name = b64_encode(ct.as_slice());
    proof {
        broadcast use vstd::utf8::encode_utf8_valid_utf8, vstd::utf8::encode_utf8_decode_utf8;

        assert(decrypt_name_spec(name@, secret@) == Some(path@));
    }
    Ok(name)
}

/// Decode and decrypt an encrypted file name back into the relative path it
/// was made from.  Each failure names its stage: not base64, authentication
/// failed, or the plaintext is not text.
pub fn decrypt_name(name: &str, secret: &str) -> (r: Result<String, CodecError>)
    ensures
        r matches Ok(path) ==> decrypt_name_spec(name@, secret@) == Some(path@),
        r matches Err(e) ==> decrypt_name_spec(name@, secret@) is None && (match e {
            CodecError::NameNotEncoded => b64url_decode_of(name@) is None,
            CodecError::DecryptionFailed => b64url_decode_of(name@) matches Some(ct)
                && decrypt_spec(ct, secret@) is None,
            CodecError::NameNotText => b64url_decode_of(name@) matches Some(ct) && (decrypt_spec(
                ct,
                secret@,
            ) matches Some(b) && !valid_utf8(b)),
            _ => false,
        }),
{
    let ct = match b64_decode(name) {
        Ok(v) => v,
        Err(e) => return Err(e),
    };
    let bytes = match decrypt_data(ct.as_slice(), secret) {
        Ok(v) => v,
        Err(e) => return Err(e),
    };
    let path = match bytes_to_string(bytes) {
        Ok(s) => s,
        Err(e) => return Err(e),
    };
    proof {
        broadcast use vstd::utf8::encode_utf8_valid_utf8, vstd::utf8::encode_utf8_decode_utf8;

    }
    Ok(path)
}

/// Chunk-size invariant and chunk round trip: a ciphertext that encryption
/// produces for `data` under `secret` is exactly the overhead longer than
/// `data`, and decryption under `secret` yields `data` and nothing else.
pub proof fn lemma_chunk_round_trip(data: Seq<u8>, secret: Seq<char>, ct: Seq<u8>)
    requires
        encrypted_chunk_ok(data, secret, ct),
    ensures
        ct.len() == data.len() + ENCRYPTION_OVERHEAD,
        decrypt_spec(ct, secret) == Some(data),
        forall|other: Seq<u8>| decrypt_spec(ct, secret) == Some(other) ==> other == data,
{
}

} // verus!
