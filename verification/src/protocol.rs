//! Wire format and end-to-end encryption.
//!
//! Datagram layout (the relay never parses any of this):
//!
//! ```text
//! hello: [ 0x01 | sender_id: u32 BE ]                       (plaintext keepalive)
//! audio: [ 0x02 | sender_id: u32 BE | seq: u64 BE | ciphertext ]
//! ```
//!
//! The ciphertext is ChaCha20-Poly1305 over one Opus frame, with the 13-byte
//! header as associated data, so a tampered header fails authentication. The
//! nonce is `sender_id || seq`: unique per key as long as each client picks a
//! random `sender_id` and never reuses a sequence number.

use vstd::prelude::*;
use vstd::slice::slice_subrange;
use vstd::utf8::encode_utf8;

use crate::bytes::{u32_from_be, u32_to_be, u64_from_be, u64_to_be};
use crate::crypto::{aead_decrypt, aead_encrypt, sha256, MAX_PLAINTEXT, TAG_LEN};

verus! {

/// First byte of a keepalive.
pub const PKT_HELLO: u8 = 0x01;

/// First byte of an audio datagram.
pub const PKT_AUDIO: u8 = 0x02;

/// Length of an audio datagram's header: type, sender and sequence number.
pub const HDR_LEN: usize = 1 + 4 + 8;

/// Why a datagram could not be made or opened.
#[derive(Debug, Clone, Copy, PartialEq, Eq, Structural)]
pub enum ProtocolError {
    /// The frame is too long for the cipher.
    EncryptionFailed,
    /// The datagram has no audio header, or nothing behind it.
    NotAudio,
    /// No frame encrypts to this datagram under the call key.
    DecryptionFailed,
}

impl ProtocolError {
    /// The text that is shown to the user.
    pub open spec fn text(self) -> Seq<char> {
        match self {
            ProtocolError::EncryptionFailed => "encryption failed"@,
            ProtocolError::NotAudio => "not an audio packet"@,
            ProtocolError::DecryptionFailed =>
                "decryption failed (wrong secret or corrupted packet)"@,
        }
    }

    /// The text that is shown to the user.
    pub fn message(&self) -> (s: &'static str)
        ensures
            s@ == self.text(),
    {
        match self {
            ProtocolError::EncryptionFailed => "encryption failed",
            ProtocolError::NotAudio => "not an audio packet",
            ProtocolError::DecryptionFailed =>
                "decryption failed (wrong secret or corrupted packet)",
        }
    }
}

/// The keepalive of `sender_id`.
pub open spec fn hello_bytes(sender_id: u32) -> Seq<u8> {
    seq![PKT_HELLO] + crate::bytes::be32(sender_id)
}

/// The header of the audio datagram number `seq` of `sender_id`.
pub open spec fn header_bytes(sender_id: u32, seq: u64) -> Seq<u8> {
    seq![PKT_AUDIO] + crate::bytes::be32(sender_id) + crate::bytes::be64(seq)
}

/// The nonce of the audio datagram number `seq` of `sender_id`.
pub open spec fn nonce_bytes(sender_id: u32, seq: u64) -> Seq<u8> {
    crate::bytes::be32(sender_id) + crate::bytes::be64(seq)
}

/// The audio datagram that carries `frame` under `key`.
pub open spec fn sealed(key: Seq<u8>, sender_id: u32, seq: u64, frame: Seq<u8>) -> Seq<u8> {
    header_bytes(sender_id, seq) + crate::crypto::aead_encrypted(
        key,
        nonce_bytes(sender_id, seq),
        header_bytes(sender_id, seq),
        frame,
    )
}

/// `pkt` is long enough for an audio datagram and is marked as one.
pub open spec fn has_audio_header(pkt: Seq<u8>) -> bool {
    pkt.len() > HDR_LEN && pkt[0] == PKT_AUDIO
}

/// `pkt` is the audio datagram number `seq` of `sender_id` and carries `frame`.
pub open spec fn carries(
    key: Seq<u8>,
    pkt: Seq<u8>,
    sender_id: u32,
    seq: u64,
    frame: Seq<u8>,
) -> bool {
    frame.len() <= MAX_PLAINTEXT && pkt == sealed(key, sender_id, seq, frame)
}

/// What sealing `frame` returns.
pub open spec fn seal_outcome(
    key: Seq<u8>,
    sender_id: u32,
    seq: u64,
    frame: Seq<u8>,
    r: Result<Vec<u8>, ProtocolError>,
) -> bool {
    match r {
        Ok(pkt) => carries(key, pkt@, sender_id, seq, frame) && pkt@.len() == HDR_LEN + frame.len()
            + TAG_LEN,
        Err(e) => e == ProtocolError::EncryptionFailed && frame.len() > MAX_PLAINTEXT,
    }
}

/// What opening `pkt` returns: the one frame that it carries, or why there is none.
pub open spec fn open_outcome(
    key: Seq<u8>,
    pkt: Seq<u8>,
    r: Result<(u32, u64, Vec<u8>), ProtocolError>,
) -> bool {
    match r {
        Ok((sender_id, seq, frame)) => {
            &&& has_audio_header(pkt)
            &&& pkt.len() == HDR_LEN + frame@.len() + TAG_LEN
            &&& carries(key, pkt, sender_id, seq, frame@)
            &&& forall|i: u32, s: u64, f: Seq<u8>| #[trigger]
                carries(key, pkt, i, s, f) ==> i == sender_id && s == seq && f == frame@
        },
        Err(ProtocolError::NotAudio) => !has_audio_header(pkt),
        Err(ProtocolError::DecryptionFailed) => has_audio_header(pkt) && forall|
            i: u32,
            s: u64,
            f: Seq<u8>,
        | !#[trigger] carries(key, pkt, i, s, f),
        Err(ProtocolError::EncryptionFailed) => false,
    }
}

/// Sender and sequence number of an audio datagram.
#[derive(Debug, Clone, Copy, PartialEq, Eq, Structural)]
pub struct AudioHeader {
    pub sender_id: u32,
    pub seq: u64,
}

/// Derive the 32-byte call key from the shared secret: the SHA-256 of its bytes.
/// Both clients must use the same secret; the relay never sees it. (A plain hash
/// is fine for a trial: a real deployment would do an authenticated key exchange
/// instead.)
pub fn derive_key(secret: &str) -> (key: [u8; 32])
    requires
        encode_utf8(secret@).len() < 0x2000_0000_0000_0000,
    ensures
        key@ == crate::crypto::sha256_digest(encode_utf8(secret@)),
{
    sha256(secret.as_bytes())
}

/// The header of an audio datagram: type, sender, sequence number.
pub fn audio_header(sender_id: u32, seq: u64) -> (h: Vec<u8>)
    ensures
        h@ == header_bytes(sender_id, seq),
        h@.len() == 13,
        h@[0] == 2,
        h@.subrange(1, 5) == crate::bytes::be32(sender_id),
        h@.subrange(5, 13) == crate::bytes::be64(seq),
{
    let mut h: Vec<u8> = Vec::new();
    h.push(PKT_AUDIO);
    h.extend_from_slice(&u32_to_be(sender_id));
    h.extend_from_slice(&u64_to_be(seq));
    proof {
        assert(h@ =~= header_bytes(sender_id, seq));
        law_header_layout(sender_id, seq);
    }
    h
}

/// The header of an audio datagram, if `pkt` has one and something behind it.
pub fn parse_audio(pkt: &[u8]) -> (r: Option<AudioHeader>)
    ensures
        r is Some <==> has_audio_header(pkt@),
        r matches Some(h) ==> pkt@.subrange(0, HDR_LEN as int) == header_bytes(h.sender_id, h.seq),
        r is Some <==> pkt@.len() > 13 && pkt@[0] == 2,
        r matches Some(h) ==> pkt@.subrange(1, 5) == crate::bytes::be32(h.sender_id)
            && pkt@.subrange(5, 13) == crate::bytes::be64(h.seq),
{
    if pkt.len() <= HDR_LEN || pkt[0] != PKT_AUDIO {
        return None;
    }
    let h = AudioHeader { sender_id: u32_from_be(pkt, 1), seq: u64_from_be(pkt, 5) };
    proof {
        assert(pkt@.subrange(0, HDR_LEN as int) =~= seq![PKT_AUDIO] + pkt@.subrange(1, 5)
            + pkt@.subrange(5, 13));
    }
    Some(h)
}

/// The call key, and what it seals and opens.
pub struct Crypto {
    key: [u8; 32],
}

impl Crypto {
    /// The bytes of the call key.
    pub closed spec fn key(&self) -> Seq<u8> {
        self.key@
    }

    /// Takes the call key.
    pub fn new(key: &[u8; 32]) -> (r: Self)
        ensures
            r.key() == key@,
    {
        Self { key: *key }
    }

    /// The nonce of an audio datagram: sender, then sequence number.
    pub fn nonce(sender_id: u32, seq: u64) -> (n: [u8; 12])
        ensures
            n@ == nonce_bytes(sender_id, seq),
            n@ == crate::bytes::be32(sender_id) + crate::bytes::be64(seq),
    {
        let a = u32_to_be(sender_id);
        let b = u64_to_be(seq);
        let n = [a[0], a[1], a[2], a[3], b[0], b[1], b[2], b[3], b[4], b[5], b[6], b[7]];
        proof {
            assert(n@ =~= a@ + b@);
        }
        n
    }

    /// Build an encrypted audio datagram from one Opus frame.
    pub fn seal_audio(&self, sender_id: u32, seq: u64, opus_frame: &[u8]) -> (r: Result<
        Vec<u8>,
        ProtocolError,
    >)
        requires
            crate::crypto::definite_len(opus_frame@.len() as int),
            HDR_LEN + opus_frame@.len() + TAG_LEN <= isize::MAX,
        ensures
            seal_outcome(self.key(), sender_id, seq, opus_frame@, r),
            r is Ok <==> opus_frame@.len() <= 274_877_906_816,
            r matches Err(e) ==> e == ProtocolError::EncryptionFailed,
            r matches Ok(pkt) ==> {
                &&& pkt@.len() == 13 + opus_frame@.len() + 16
                &&& pkt@[0] == 2
                &&& pkt@.subrange(1, 5) == crate::bytes::be32(sender_id)
                &&& pkt@.subrange(5, 13) == crate::bytes::be64(seq)
                &&& pkt@.subrange(13, pkt@.len() as int) == crate::crypto::aead_encrypted(
                    self.key(),
                    crate::bytes::be32(sender_id) + crate::bytes::be64(seq),
                    pkt@.subrange(0, 13),
                    opus_frame@,
                )
            },
    {
        let header = audio_header(sender_id, seq);
        let ciphertext = match aead_encrypt(
            &self.key,
            &Self::nonce(sender_id, seq),
            header.as_slice(),
            opus_frame,
        ) {
            Ok(ciphertext) => Some(ciphertext),
            Err(_) => None,
        };
        let r = datagram(header, ciphertext);
        proof {
            law_frame_is_encrypted_under_the_call_key(self.key(), sender_id, seq, opus_frame@, r);
        }
        r
    }

    /// Parse and decrypt an audio datagram. Returns `(sender_id, seq, opus_frame)`.
    pub fn open_audio(&self, pkt: &[u8]) -> (r: Result<(u32, u64, Vec<u8>), ProtocolError>)
        requires
            has_audio_header(pkt@) ==> crate::crypto::definite_len(pkt@.len() - HDR_LEN - TAG_LEN),
        ensures
            open_outcome(self.key(), pkt@, r),
            r == Err::<(u32, u64, Vec<u8>), ProtocolError>(ProtocolError::NotAudio) <==> pkt@.len()
                <= 13 || pkt@[0] != 2,
            r != Err::<(u32, u64, Vec<u8>), ProtocolError>(ProtocolError::EncryptionFailed),
            r == Err::<(u32, u64, Vec<u8>), ProtocolError>(ProtocolError::DecryptionFailed) ==> forall|
                f: Seq<u8>,
            |
                f.len() <= 274_877_906_816 ==> pkt@.subrange(13, pkt@.len() as int)
                    != #[trigger] crate::crypto::aead_encrypted(
                    self.key(),
                    pkt@.subrange(1, 13),
                    pkt@.subrange(0, 13),
                    f,
                ),
            r matches Ok((i, s, f)) ==> {
                &&& pkt@.len() == 13 + f@.len() + 16
                &&& f@.len() <= 274_877_906_816
                &&& pkt@.subrange(1, 5) == crate::bytes::be32(i)
                &&& pkt@.subrange(5, 13) == crate::bytes::be64(s)
                &&& pkt@.subrange(13, pkt@.len() as int) == crate::crypto::aead_encrypted(
                    self.key(),
                    crate::bytes::be32(i) + crate::bytes::be64(s),
                    pkt@.subrange(0, 13),
                    f@,
                )
            },
    {
        let header = match parse_audio(pkt) {
            Some(header) => header,
            None => {
                return Err(ProtocolError::NotAudio);
            },
        };
        let aad = slice_subrange(pkt, 0, HDR_LEN);
        let ciphertext = slice_subrange(pkt, HDR_LEN, pkt.len());
        let plaintext = match aead_decrypt(
            &self.key,
            &Self::nonce(header.sender_id, header.seq),
            aad,
            ciphertext,
        ) {
            Ok(frame) => Some(frame),
            Err(_) => None,
        };
        proof {
            assert forall|i: u32, s: u64, f: Seq<u8>| #[trigger]
                carries(self.key(), pkt@, i, s, f) implies i == header.sender_id && s == header.seq
                && f.len() <= MAX_PLAINTEXT && ciphertext@ == crate::crypto::aead_encrypted(
                self.key(),
                nonce_bytes(header.sender_id, header.seq),
                aad@,
                f,
            ) by {
                assert(pkt@.subrange(0, HDR_LEN as int) =~= header_bytes(i, s));
                law_headers_are_distinct(i, s, header.sender_id, header.seq);
                assert(ciphertext@ =~= crate::crypto::aead_encrypted(
                    self.key(),
                    nonce_bytes(i, s),
                    header_bytes(i, s),
                    f,
                ));
            }
            assert(pkt@ =~= aad@ + ciphertext@);
        }
        let r = opened(header, plaintext);
        proof {
            law_only_the_call_key_opens(self.key(), pkt@, r);
        }
        r
    }
}

/// What sealing a frame under this header returns, once the frame was encrypted
/// or refused.
pub fn datagram(header: Vec<u8>, ciphertext: Option<Vec<u8>>) -> (r: Result<
    Vec<u8>,
    ProtocolError,
>)
    ensures
        match ciphertext {
            Some(ct) => r matches Ok(pkt) && pkt@ == header@ + ct@,
            None => r == Err::<Vec<u8>, ProtocolError>(ProtocolError::EncryptionFailed),
        },
{
    match ciphertext {
        Some(mut ct) => {
            let mut pkt = header;
            pkt.append(&mut ct);
            Ok(pkt)
        },
        None => Err(ProtocolError::EncryptionFailed),
    }
}

/// What opening a datagram with this header returns, once its ciphertext was
/// decrypted or turned out not to be authentic.
pub fn opened(header: AudioHeader, plaintext: Option<Vec<u8>>) -> (r: Result<
    (u32, u64, Vec<u8>),
    ProtocolError,
>)
    ensures
        r == (match plaintext {
            Some(frame) => Ok((header.sender_id, header.seq, frame)),
            None => Err(ProtocolError::DecryptionFailed),
        }),
{
    match plaintext {
        Some(frame) => Ok((header.sender_id, header.seq, frame)),
        None => Err(ProtocolError::DecryptionFailed),
    }
}

/// The keepalive datagram.
pub fn hello_packet(sender_id: u32) -> (pkt: [u8; 5])
    ensures
        pkt@ == hello_bytes(sender_id),
        pkt@[0] == 1,
        pkt@.subrange(1, 5) == crate::bytes::be32(sender_id),
{
    let id = u32_to_be(sender_id);
    let pkt = [PKT_HELLO, id[0], id[1], id[2], id[3]];
    proof {
        assert(pkt@ =~= seq![PKT_HELLO] + id@);
    }
    pkt
}

/// An audio header is the byte 2, the sender and the sequence number, both big
/// endian; all of it but the first byte is the nonce.
pub proof fn law_header_layout(sender_id: u32, seq: u64)
    ensures
        header_bytes(sender_id, seq).len() == 13,
        header_bytes(sender_id, seq)[0] == 2,
        header_bytes(sender_id, seq).subrange(1, 5) == crate::bytes::be32(sender_id),
        header_bytes(sender_id, seq).subrange(5, 13) == crate::bytes::be64(seq),
        header_bytes(sender_id, seq).subrange(1, 13) == nonce_bytes(sender_id, seq),
{
    assert(header_bytes(sender_id, seq).subrange(1, 13) =~= nonce_bytes(sender_id, seq));
}

/// A keepalive is the byte 1 and the sender, big endian.
pub proof fn law_hello_layout(sender_id: u32)
    ensures
        hello_bytes(sender_id).len() == 5,
        hello_bytes(sender_id)[0] == 1,
        hello_bytes(sender_id).subrange(1, 5) == crate::bytes::be32(sender_id),
{
    assert(hello_bytes(sender_id).subrange(1, 5) =~= crate::bytes::be32(sender_id));
}

/// Whatever the key, the sender, the sequence number and the frame: every frame
/// that the cipher takes is sealed, and behind the 13 bytes of the header stands
/// its encryption under that very key, with sender and sequence number for the
/// nonce and the header for the associated data.
pub proof fn law_frame_is_encrypted_under_the_call_key(
    key: Seq<u8>,
    sender_id: u32,
    seq: u64,
    frame: Seq<u8>,
    r: Result<Vec<u8>, ProtocolError>,
)
    requires
        seal_outcome(key, sender_id, seq, frame, r),
    ensures
        r is Ok <==> frame.len() <= 274_877_906_816,
        r matches Err(e) ==> e == ProtocolError::EncryptionFailed,
        r matches Ok(pkt) ==> {
            &&& pkt@.len() == 13 + frame.len() + 16
            &&& pkt@[0] == 2
            &&& pkt@.subrange(1, 5) == crate::bytes::be32(sender_id)
            &&& pkt@.subrange(5, 13) == crate::bytes::be64(seq)
            &&& pkt@.subrange(13, pkt@.len() as int) == crate::crypto::aead_encrypted(
                key,
                crate::bytes::be32(sender_id) + crate::bytes::be64(seq),
                pkt@.subrange(0, 13),
                frame,
            )
        },
{
    if let Ok(pkt) = r {
        assert(pkt@.subrange(0, 13) =~= header_bytes(sender_id, seq));
        assert(pkt@.subrange(1, 5) =~= crate::bytes::be32(sender_id));
        assert(pkt@.subrange(5, 13) =~= crate::bytes::be64(seq));
        assert(pkt@.subrange(13, pkt@.len() as int) =~= crate::crypto::aead_encrypted(
            key,
            nonce_bytes(sender_id, seq),
            header_bytes(sender_id, seq),
            frame,
        ));
    }
}

/// Whatever the key and the datagram: what opens is the frame whose encryption
/// under that very key stands behind the header, and a datagram with an audio
/// header is turned away only if no frame has that encryption.
pub proof fn law_only_the_call_key_opens(
    key: Seq<u8>,
    pkt: Seq<u8>,
    r: Result<(u32, u64, Vec<u8>), ProtocolError>,
)
    requires
        open_outcome(key, pkt, r),
    ensures
        r == Err::<(u32, u64, Vec<u8>), ProtocolError>(ProtocolError::NotAudio) <==> pkt.len() <= 13
            || pkt[0] != 2,
        r != Err::<(u32, u64, Vec<u8>), ProtocolError>(ProtocolError::EncryptionFailed),
        r == Err::<(u32, u64, Vec<u8>), ProtocolError>(ProtocolError::DecryptionFailed) ==> forall|
            f: Seq<u8>,
        |
            f.len() <= 274_877_906_816 ==> pkt.subrange(13, pkt.len() as int)
                != #[trigger] crate::crypto::aead_encrypted(
                key,
                pkt.subrange(1, 13),
                pkt.subrange(0, 13),
                f,
            ),
        r matches Ok((i, s, f)) ==> {
            &&& pkt.len() == 13 + f@.len() + 16
            &&& f@.len() <= 274_877_906_816
            &&& pkt.subrange(1, 5) == crate::bytes::be32(i)
            &&& pkt.subrange(5, 13) == crate::bytes::be64(s)
            &&& pkt.subrange(13, pkt.len() as int) == crate::crypto::aead_encrypted(
                key,
                crate::bytes::be32(i) + crate::bytes::be64(s),
                pkt.subrange(0, 13),
                f@,
            )
        },
{
    match r {
        Ok((i, s, f)) => {
            assert(pkt.subrange(0, 13) =~= header_bytes(i, s));
            assert(pkt.subrange(1, 5) =~= crate::bytes::be32(i));
            assert(pkt.subrange(5, 13) =~= crate::bytes::be64(s));
            assert(pkt.subrange(13, pkt.len() as int) =~= crate::crypto::aead_encrypted(
                key,
                nonce_bytes(i, s),
                header_bytes(i, s),
                f@,
            ));
        },
        Err(ProtocolError::DecryptionFailed) => {
            assert forall|f: Seq<u8>| f.len() <= 274_877_906_816 implies pkt.subrange(
                13,
                pkt.len() as int,
            ) != #[trigger] crate::crypto::aead_encrypted(
                key,
                pkt.subrange(1, 13),
                pkt.subrange(0, 13),
                f,
            ) by {
                let i: u32 = crate::bytes::law_four_bytes_are_a_number(pkt.subrange(1, 5));
                let s: u64 = crate::bytes::law_eight_bytes_are_a_number(pkt.subrange(5, 13));
                assert(pkt.subrange(0, 13) =~= seq![2u8] + pkt.subrange(1, 5) + pkt.subrange(5, 13));
                assert(pkt.subrange(1, 13) =~= pkt.subrange(1, 5) + pkt.subrange(5, 13));
                assert(pkt.subrange(0, 13) =~= header_bytes(i, s));
                assert(pkt.subrange(1, 13) =~= nonce_bytes(i, s));
                assert(pkt =~= pkt.subrange(0, 13) + pkt.subrange(13, pkt.len() as int));
                assert(!carries(key, pkt, i, s, f));
            }
        },
        _ => {},
    }
}

/// A datagram that was sealed under one key is turned away under another, unless
/// some frame has the same encryption under both.
pub proof fn law_other_key_does_not_open(
    key: Seq<u8>,
    other: Seq<u8>,
    sender_id: u32,
    seq: u64,
    frame: Seq<u8>,
    pkt: Vec<u8>,
    r: Result<(u32, u64, Vec<u8>), ProtocolError>,
)
    requires
        seal_outcome(key, sender_id, seq, frame, Ok(pkt)),
        open_outcome(other, pkt@, r),
        forall|f: Seq<u8>|
            f.len() <= 274_877_906_816 ==> crate::crypto::aead_encrypted(
                key,
                pkt@.subrange(1, 13),
                pkt@.subrange(0, 13),
                frame,
            ) != #[trigger] crate::crypto::aead_encrypted(
                other,
                pkt@.subrange(1, 13),
                pkt@.subrange(0, 13),
                f,
            ),
    ensures
        r == Err::<(u32, u64, Vec<u8>), ProtocolError>(ProtocolError::DecryptionFailed),
{
    law_frame_is_encrypted_under_the_call_key(key, sender_id, seq, frame, Ok(pkt));
    law_only_the_call_key_opens(other, pkt@, r);
    assert(pkt@.subrange(1, 13) =~= pkt@.subrange(1, 5) + pkt@.subrange(5, 13));
    if let Ok((i, s, f)) = r {
        assert(crate::bytes::be32(i) + crate::bytes::be64(s) =~= pkt@.subrange(1, 13));
    }
}

/// Two audio datagrams have the same nonce only if they agree in sender and
/// sequence number: nonces are unique per key as long as no client reuses a
/// sequence number and no two clients share an id.
pub proof fn law_nonces_are_distinct(sender_a: u32, seq_a: u64, sender_b: u32, seq_b: u64)
    ensures
        nonce_bytes(sender_a, seq_a) == nonce_bytes(sender_b, seq_b) <==> (sender_a == sender_b
            && seq_a == seq_b),
{
    let a = nonce_bytes(sender_a, seq_a);
    let b = nonce_bytes(sender_b, seq_b);
    assert(a.subrange(0, 4) =~= crate::bytes::be32(sender_a));
    assert(b.subrange(0, 4) =~= crate::bytes::be32(sender_b));
    assert(a.subrange(4, 12) =~= crate::bytes::be64(seq_a));
    assert(b.subrange(4, 12) =~= crate::bytes::be64(seq_b));
    crate::bytes::law_be32_is_injective(sender_a, sender_b);
    crate::bytes::law_be64_is_injective(seq_a, seq_b);
}

/// The header tells sender and sequence number apart from all others.
pub proof fn law_headers_are_distinct(sender_a: u32, seq_a: u64, sender_b: u32, seq_b: u64)
    ensures
        header_bytes(sender_a, seq_a) == header_bytes(sender_b, seq_b) <==> (sender_a == sender_b
            && seq_a == seq_b),
{
    assert(header_bytes(sender_a, seq_a).subrange(1, 13) =~= nonce_bytes(sender_a, seq_a));
    assert(header_bytes(sender_b, seq_b).subrange(1, 13) =~= nonce_bytes(sender_b, seq_b));
    law_nonces_are_distinct(sender_a, seq_a, sender_b, seq_b);
}

/// Whoever holds the same key gets back from a datagram exactly the sender,
/// sequence number and frame that it was sealed from.
pub proof fn law_open_undoes_seal(
    key: Seq<u8>,
    sender_id: u32,
    seq: u64,
    frame: Seq<u8>,
    pkt: Vec<u8>,
    r: Result<(u32, u64, Vec<u8>), ProtocolError>,
)
    requires
        seal_outcome(key, sender_id, seq, frame, Ok(pkt)),
        open_outcome(key, pkt@, r),
    ensures
        crate::crypto::definite_len(pkt@.len() - HDR_LEN - TAG_LEN),
        r matches Ok((i, s, f)) && i == sender_id && s == seq && f@ == frame,
{
    assert(pkt@[0] == PKT_AUDIO);
    assert(carries(key, pkt@, sender_id, seq, frame));
}

/// Only sealed datagrams open: one that opens is, byte for byte, what sealing
/// the opened frame under its own header makes. So a datagram whose header or
/// ciphertext was altered opens only if the alteration is itself a sealed
/// datagram under the same key.
pub proof fn law_seal_undoes_open(
    key: Seq<u8>,
    pkt: Seq<u8>,
    sender_id: u32,
    seq: u64,
    frame: Vec<u8>,
    again: Result<Vec<u8>, ProtocolError>,
)
    requires
        open_outcome(key, pkt, Ok((sender_id, seq, frame))),
        seal_outcome(key, sender_id, seq, frame@, again),
    ensures
        again matches Ok(p) && p@ == pkt,
{
}

/// Different secrets are never hashed as the same bytes.
pub proof fn law_secrets_are_hashed_apart(a: Seq<char>, b: Seq<char>)
    ensures
        encode_utf8(a) == encode_utf8(b) <==> a == b,
{
    vstd::utf8::encode_utf8_decode_utf8(a);
    vstd::utf8::encode_utf8_decode_utf8(b);
}

/// A keepalive is never taken for audio.
pub proof fn law_hello_is_not_audio(sender_id: u32)
    ensures
        !has_audio_header(hello_bytes(sender_id)),
        hello_bytes(sender_id)[0] != PKT_AUDIO,
{
}

} // verus!
