//! The two outside primitives: ChaCha20-Poly1305 and SHA-256.

use chacha20poly1305::aead::{Aead, Payload};
use chacha20poly1305::KeyInit;
use sha2::Digest;
use vstd::prelude::*;

verus! {

/// The longest message that ChaCha20-Poly1305 encrypts, in bytes: the 32-bit
/// block counter starts at one and its last value is not used.
pub const MAX_PLAINTEXT: u64 = 274_877_906_816;

/// The shortest message that ChaCha20-Poly1305 refuses with an error.
pub const REFUSED_PLAINTEXT: u64 = 274_877_906_880;

/// How many bytes ciphertext is longer than its message.
pub const TAG_LEN: usize = 16;

/// The cipher either encrypts a message of `len` bytes or refuses it with an
/// error. On the 63 lengths in between it runs out of keystream and panics.
pub open spec fn definite_len(len: int) -> bool {
    len <= MAX_PLAINTEXT || REFUSED_PLAINTEXT <= len
}

/// Of all lengths only those 63 are left out.
pub proof fn law_all_but_63_lengths_are_definite(len: int)
    ensures
        definite_len(len) <==> !(274_877_906_816 < len < 274_877_906_880),
{
}

/// The error of the outside AEAD implementation, which carries no data.
#[verifier::external_type_specification]
#[verifier::external_body]
pub struct ExAeadError(chacha20poly1305::aead::Error);

/// What ChaCha20-Poly1305 makes of a message of at most `MAX_PLAINTEXT` bytes,
/// given a key of 32 bytes, a nonce of 12 and the associated data: the
/// ciphertext with its tag behind it.
pub uninterp spec fn aead_encrypted(
    key: Seq<u8>,
    nonce: Seq<u8>,
    aad: Seq<u8>,
    msg: Seq<u8>,
) -> Seq<u8>;

/// The SHA-256 digest of a byte string.
pub uninterp spec fn sha256_digest(data: Seq<u8>) -> Seq<u8>;

/// Calls `Aead::encrypt` of `chacha20poly1305::ChaCha20Poly1305` with a payload
/// of message and associated data. Claimed of it: it fails on messages that are
/// too long and on no others; the ciphertext is a function of the four
/// arguments, and its tag makes it 16 bytes longer than the message.
#[verifier::external_body]
pub(crate) fn aead_encrypt(key: &[u8; 32], nonce: &[u8; 12], aad: &[u8], msg: &[u8]) -> (r: Result<
    Vec<u8>,
    chacha20poly1305::aead::Error,
>)
    requires
        definite_len(msg@.len() as int),
        msg@.len() + TAG_LEN <= isize::MAX,
    ensures
        r is Ok <==> msg@.len() <= MAX_PLAINTEXT,
        r matches Ok(ct) ==> ct@ == aead_encrypted(key@, nonce@, aad@, msg@) && ct@.len()
            == msg@.len() + TAG_LEN,
{
    chacha20poly1305::ChaCha20Poly1305::new(chacha20poly1305::Key::from_slice(key)).encrypt(
        chacha20poly1305::Nonce::from_slice(nonce),
        Payload { msg, aad },
    )
}

/// Calls `Aead::decrypt` of `chacha20poly1305::ChaCha20Poly1305` with a payload
/// of ciphertext and associated data. Claimed of it: it returns the one message
/// whose encryption under the same key, nonce and associated data is the given
/// ciphertext, and fails if there is none. The implementation recomputes the tag
/// over the associated data and the ciphertext, compares all of it, and only then
/// applies the keystream, which is its own inverse.
#[verifier::external_body]
pub(crate) fn aead_decrypt(key: &[u8; 32], nonce: &[u8; 12], aad: &[u8], ct: &[u8]) -> (r: Result<
    Vec<u8>,
    chacha20poly1305::aead::Error,
>)
    requires
        definite_len(ct@.len() - TAG_LEN),
    ensures
        r matches Ok(msg) ==> {
            &&& msg@.len() <= MAX_PLAINTEXT
            &&& ct@.len() == msg@.len() + TAG_LEN
            &&& ct@ == aead_encrypted(key@, nonce@, aad@, msg@)
            &&& forall|other: Seq<u8>|
                other.len() <= MAX_PLAINTEXT && ct@ == #[trigger] aead_encrypted(
                    key@,
                    nonce@,
                    aad@,
                    other,
                ) ==> other == msg@
        },
        r is Err ==> forall|msg: Seq<u8>|
            msg.len() <= MAX_PLAINTEXT ==> ct@ != #[trigger] aead_encrypted(
                key@,
                nonce@,
                aad@,
                msg,
            ),
{
    chacha20poly1305::ChaCha20Poly1305::new(chacha20poly1305::Key::from_slice(key)).decrypt(
        chacha20poly1305::Nonce::from_slice(nonce),
        Payload { msg: ct, aad },
    )
}

/// Calls `Digest::digest` of `sha2::Sha256`. Claimed of it: the digest is a
/// function of the data. The bound is that of its 64-bit count of message bits.
#[verifier::external_body]
pub(crate) fn sha256(data: &[u8]) -> (r: [u8; 32])
    requires
        data@.len() < 0x2000_0000_0000_0000,
    ensures
        r@ == sha256_digest(data@),
{
    sha2::Sha256::digest(data).into()
}

} // verus!
