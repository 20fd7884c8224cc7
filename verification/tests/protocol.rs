use rtc_trial::bytes::{u32_from_be, u32_to_be, u64_from_be, u64_to_be};
use rtc_trial::protocol::{
    audio_header, datagram, derive_key, hello_packet, opened, parse_audio, AudioHeader,
    Crypto, ProtocolError, HDR_LEN, PKT_AUDIO, PKT_HELLO,
};

fn hex(bytes: &[u8]) -> String {
    bytes.iter().map(|b| format!("{:02x}", b)).collect()
}

#[test]
fn seal_open_roundtrip() {
    let crypto = Crypto::new(&derive_key("test secret"));
    let frame = [7u8; 160];
    let pkt = crypto.seal_audio(0xDEADBEEF, 42, &frame).unwrap();
    assert_eq!(pkt[0], PKT_AUDIO);
    let (sender, seq, plain) = crypto.open_audio(&pkt).unwrap();
    assert_eq!(sender, 0xDEADBEEF);
    assert_eq!(seq, 42);
    assert_eq!(plain, frame);
}

#[test]
fn wrong_secret_fails() {
    let a = Crypto::new(&derive_key("secret A"));
    let b = Crypto::new(&derive_key("secret B"));
    let pkt = a.seal_audio(1, 1, &[1, 2, 3]).unwrap();
    assert!(b.open_audio(&pkt).is_err());
    assert_eq!(b.open_audio(&pkt), Err(ProtocolError::DecryptionFailed));
}

#[test]
fn tampered_header_fails() {
    let crypto = Crypto::new(&derive_key("test secret"));
    let mut pkt = crypto.seal_audio(1, 7, &[9u8; 40]).unwrap();
    pkt[12] ^= 0xFF; // flip a bit in the seq field
    assert!(crypto.open_audio(&pkt).is_err());
}

#[test]
fn every_single_byte_is_authenticated() {
    let crypto = Crypto::new(&derive_key("test secret"));
    let pkt = crypto.seal_audio(0x01020304, 7, &[9u8; 5]).unwrap();
    for at in 0..pkt.len() {
        let mut bad = pkt.clone();
        bad[at] ^= 0x10;
        let want = if at == 0 {
            ProtocolError::NotAudio
        } else {
            ProtocolError::DecryptionFailed
        };
        assert_eq!(crypto.open_audio(&bad), Err(want), "byte {}", at);
    }
}

#[test]
fn keys_are_the_sha256_of_the_secret() {
    assert_eq!(
        hex(&derive_key("test secret")),
        "6b9a437f51eddcbc1d2f6600807067f220b1d0c48a435d116afa16d8cd0164c1"
    );
    assert_eq!(
        hex(&derive_key("")),
        "e3b0c44298fc1c149afbf4c8996fb92427ae41e4649b934ca495991b7852b855"
    );
    assert_eq!(
        hex(&derive_key("geh\u{e9}im")),
        "499869b910a2ab677e6c43754cd7a817f82d0a665db7be274ad2d9f7be80b0b9"
    );
}

#[test]
fn sealed_datagram_bytes() {
    let crypto = Crypto::new(&derive_key("test secret"));
    let pkt = crypto.seal_audio(0xDEADBEEF, 42, &[1, 2, 3]).unwrap();
    assert_eq!(
        hex(&pkt),
        "02deadbeef000000000000002ae56b72f8b5b8b25e24177b599657be1c0e402a"
    );
    let empty = crypto.seal_audio(1, 0, &[]).unwrap();
    assert_eq!(hex(&empty), "02000000010000000000000000096c3713a1f21a1c7439cb535c1c000e");
    assert_eq!(crypto.open_audio(&empty), Ok((1, 0, vec![])));
}

#[test]
fn sealing_what_was_opened_gives_the_datagram_back() {
    let crypto = Crypto::new(&[3u8; 32]);
    let pkt = crypto.seal_audio(u32::MAX, u64::MAX, &[0, 255, 7]).unwrap();
    let (sender, seq, frame) = crypto.open_audio(&pkt).unwrap();
    assert_eq!(crypto.seal_audio(sender, seq, &frame), Ok(pkt));
}

#[test]
fn short_or_foreign_datagrams_are_not_audio() {
    let crypto = Crypto::new(&[0u8; 32]);
    assert_eq!(crypto.open_audio(&[]), Err(ProtocolError::NotAudio));
    assert_eq!(crypto.open_audio(&[PKT_AUDIO; HDR_LEN]), Err(ProtocolError::NotAudio));
    assert_eq!(crypto.open_audio(&[PKT_AUDIO; 14]), Err(ProtocolError::DecryptionFailed));
    assert_eq!(crypto.open_audio(&[PKT_AUDIO; 28]), Err(ProtocolError::DecryptionFailed));
    assert_eq!(crypto.open_audio(&[PKT_HELLO; 40]), Err(ProtocolError::NotAudio));
    assert_eq!(crypto.open_audio(&hello_packet(7)), Err(ProtocolError::NotAudio));
}

#[test]
fn hello_layout() {
    assert_eq!(hello_packet(0x0A0B0C0D), [PKT_HELLO, 0x0A, 0x0B, 0x0C, 0x0D]);
    assert_eq!(hello_packet(0), [1, 0, 0, 0, 0]);
}

#[test]
fn header_and_nonce_layout() {
    assert_eq!(
        audio_header(0x01020304, 0x05060708090A0B0C),
        vec![2, 1, 2, 3, 4, 5, 6, 7, 8, 9, 10, 11, 12]
    );
    assert_eq!(
        Crypto::nonce(0x01020304, 0x05060708090A0B0C),
        [1, 2, 3, 4, 5, 6, 7, 8, 9, 10, 11, 12]
    );
    assert_ne!(Crypto::nonce(1, 0), Crypto::nonce(0, 1));
    assert_ne!(Crypto::nonce(1, 5), Crypto::nonce(1, 6));
}

#[test]
fn headers_parse_back() {
    let mut pkt = audio_header(0xFFFFFFFE, 0x8000000000000001);
    assert_eq!(parse_audio(&pkt), None);
    pkt.push(0);
    let header = AudioHeader { sender_id: 0xFFFFFFFE, seq: 0x8000000000000001 };
    assert_eq!(parse_audio(&pkt), Some(header));
    pkt[0] = PKT_HELLO;
    assert_eq!(parse_audio(&pkt), None);
}

#[test]
fn datagrams_are_header_and_ciphertext() {
    assert_eq!(datagram(vec![1, 2], Some(vec![3, 4])), Ok(vec![1, 2, 3, 4]));
    assert_eq!(datagram(vec![1, 2], None), Err(ProtocolError::EncryptionFailed));
}

#[test]
fn equal_secrets_give_equal_keys_and_nothing_is_folded() {
    assert_eq!(derive_key("secret A"), derive_key("secret A"));
    assert_ne!(derive_key("secret A"), derive_key("secret B"));
    assert_ne!(derive_key("secret A"), derive_key("Secret A"));
    assert_ne!(derive_key("secret A"), derive_key("secret A "));
}

#[test]
fn opened_pairs_header_and_frame() {
    let header = AudioHeader { sender_id: 5, seq: 6 };
    assert_eq!(opened(header, Some(vec![1, 2])), Ok((5, 6, vec![1, 2])));
    assert_eq!(opened(header, None), Err(ProtocolError::DecryptionFailed));
}

#[test]
fn error_texts() {
    assert_eq!(ProtocolError::EncryptionFailed.message(), "encryption failed");
    assert_eq!(ProtocolError::NotAudio.message(), "not an audio packet");
    assert_eq!(
        ProtocolError::DecryptionFailed.message(),
        "decryption failed (wrong secret or corrupted packet)"
    );
}

#[test]
fn big_endian_integers() {
    assert_eq!(u32_to_be(0xDEADBEEF), 0xDEADBEEFu32.to_be_bytes());
    assert_eq!(u64_to_be(0x0123456789ABCDEF), 0x0123456789ABCDEFu64.to_be_bytes());
    assert_eq!(u32_from_be(&[9, 0xDE, 0xAD, 0xBE, 0xEF], 1), 0xDEADBEEF);
    assert_eq!(u64_from_be(&u64_to_be(u64::MAX - 5), 0), u64::MAX - 5);
}
