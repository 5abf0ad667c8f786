//! The outside cryptography the codec leans on: SHA1 digests for the chained
//! integrity checks, AES-256-ECB for the index envelope, and base64 for key
//! material. Each call is behind a trusted wrapper whose contract names what
//! the outside crate computes.

use aes::Aes256;
use block_modes::block_padding::NoPadding;
use block_modes::{BlockMode, Ecb};
use sha1::{Digest, Sha1};
use vstd::prelude::*;

use crate::PakError;

verus! {

/// The SHA1 digest of a byte sequence; a pure function of the bytes alone.
pub uninterp spec fn sha1_of(bytes: Seq<u8>) -> Seq<u8>;

/// Relies on the sha1 crate's `Sha1::digest`: a 20-byte digest that depends
/// on the input bytes alone.
#[verifier::external_body]
pub(crate) fn sha1_digest(bytes: &[u8]) -> (r: [u8; 20])
    ensures
        r@ == sha1_of(bytes@),
        r@.len() == 20,
{
    let out = Sha1::digest(bytes);
    let mut r = [0u8; 20];
    r.copy_from_slice(&out);
    r
}

/// AES-256-ECB encryption with NoPadding; a pure function of key and data.
pub uninterp spec fn aes_enc_of(key: Seq<u8>, data: Seq<u8>) -> Seq<u8>;

/// AES-256-ECB decryption with NoPadding; a pure function of key and data.
pub uninterp spec fn aes_dec_of(key: Seq<u8>, data: Seq<u8>) -> Seq<u8>;

/// Relies on block-modes' `Ecb<Aes256, NoPadding>`: encryption keeps the
/// length, and decrypting the result with the same key gives back the input,
/// as decryption applies the inverse cipher permutation block by block.
#[verifier::external_body]
pub(crate) fn aes256_ecb_encrypt(key: &[u8], data: &[u8]) -> (r: Vec<u8>)
    requires
        key@.len() == 32,
        data@.len() % 16 == 0,
    ensures
        r@ == aes_enc_of(key@, data@),
        r@.len() == data@.len(),
        aes_dec_of(key@, r@) == data@,
{
    let cipher = Ecb::<Aes256, NoPadding>::new_from_slices(key, &[]).expect("a 32-byte key");
    cipher.encrypt_vec(data)
}

/// Relies on block-modes' `Ecb<Aes256, NoPadding>`: decryption keeps the
/// length and encrypting the result with the same key gives back the input.
/// With a 32-byte key and a block-aligned input it cannot fail: `decrypt_vec`
/// errors only on a misaligned length, and `NoPadding::unpad` always succeeds.
#[verifier::external_body]
pub(crate) fn aes256_ecb_decrypt(key: &[u8], data: &[u8]) -> (r: Vec<u8>)
    requires
        key@.len() == 32,
        data@.len() % 16 == 0,
    ensures
        r@ == aes_dec_of(key@, data@),
        r@.len() == data@.len(),
        aes_enc_of(key@, r@) == data@,
{
    let cipher = Ecb::<Aes256, NoPadding>::new_from_slices(key, &[]).expect("a 32-byte key");
    cipher.decrypt_vec(data).expect("a block-aligned length")
}

/// What base64 decoding yields for a string, when it is valid base64; a pure
/// function of the characters alone.
pub uninterp spec fn base64_of(s: Seq<char>) -> Option<Seq<u8>>;

/// Relies on the base64 crate's `decode` with the standard alphabet: it
/// succeeds exactly on valid base64 and its result depends on the input
/// characters alone.
#[verifier::external_body]
pub(crate) fn base64_decode(s: &str) -> (r: Result<Vec<u8>, PakError>)
    ensures
        match r {
            Ok(v) => base64_of(s@) == Some(v@),
            Err(e) => base64_of(s@) is None && e == PakError::Other,
        },
{
    match base64::decode(s) {
        Ok(v) => Ok(v),
        Err(_) => Err(PakError::Other),
    }
}

/// Decodes base64 key material and requires exactly the 32 bytes of an
/// AES-256 key: `Ok` exactly when the text is valid base64 of a 32-byte key,
/// `Other` exactly on invalid base64, `InvalidInput` exactly on a wrong size.
pub fn aes256_base64_key(key: &str) -> (r: Result<Vec<u8>, PakError>)
    ensures
        match r {
            Ok(v) => base64_of(key@) == Some(v@) && v@.len() == 32,
            Err(e) => (e == PakError::Other && base64_of(key@) is None) || (e
                == PakError::InvalidInput && match base64_of(key@) {
                Some(b) => b.len() != 32,
                None => false,
            }),
        },
{
    let v = match base64_decode(key) {
        Ok(v) => v,
        Err(e) => { return Err(e) },
    };
    if v.len() != 32 {
        return Err(PakError::InvalidInput);
    }
    Ok(v)
}

} // verus!
