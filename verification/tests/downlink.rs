use rtc_trial::downlink::{Downlink, Reception};
use rtc_trial::protocol::{derive_key, hello_packet, Crypto, ProtocolError};
use rtc_trial::uplink::Uplink;

fn frame_of(r: Reception) -> Option<Vec<u8>> {
    match r {
        Reception::Frame(f) => Some(f),
        _ => None,
    }
}

#[test]
fn a_call_is_heard_in_full() {
    let crypto = Crypto::new(&derive_key("shared"));
    let mut sender: Uplink<u8> = Uplink::new(1, 0);
    let mut receiver = Downlink::new(2);
    for k in 0..20u8 {
        let pkt = sender.seal(&crypto, &[k; 30]).unwrap();
        assert_eq!(frame_of(receiver.receive(&crypto, &pkt)), Some(vec![k; 30]));
    }
}

#[test]
fn replays_and_late_datagrams_are_stale() {
    let crypto = Crypto::new(&derive_key("shared"));
    let mut receiver = Downlink::new(2);
    let old = crypto.seal_audio(1, 3, &[3]).unwrap();
    let new = crypto.seal_audio(1, 5, &[5]).unwrap();
    let between = crypto.seal_audio(1, 4, &[4]).unwrap();
    let other = crypto.seal_audio(8, 0, &[8]).unwrap();
    assert_eq!(frame_of(receiver.receive(&crypto, &old)), Some(vec![3]));
    assert!(matches!(receiver.receive(&crypto, &old), Reception::Stale));
    assert_eq!(frame_of(receiver.receive(&crypto, &new)), Some(vec![5]));
    assert!(matches!(receiver.receive(&crypto, &between), Reception::Stale));
    assert_eq!(frame_of(receiver.receive(&crypto, &other)), Some(vec![8]));
    assert!(matches!(receiver.receive(&crypto, &old), Reception::Stale));
    assert!(matches!(receiver.receive(&crypto, &other), Reception::Stale));
}

#[test]
fn own_datagrams_are_ignored_and_leave_no_trace() {
    let crypto = Crypto::new(&derive_key("shared"));
    let mut receiver = Downlink::new(2);
    let own = crypto.seal_audio(2, 9, &[1]).unwrap();
    assert!(matches!(receiver.receive(&crypto, &own), Reception::Own));
    assert!(matches!(receiver.receive(&crypto, &own), Reception::Own));
}

#[test]
fn keepalives_are_not_audio() {
    let crypto = Crypto::new(&derive_key("shared"));
    let mut receiver = Downlink::new(2);
    assert!(matches!(receiver.receive(&crypto, &hello_packet(1)), Reception::NotAudio));
    assert!(matches!(receiver.receive(&crypto, &[]), Reception::NotAudio));
    assert!(matches!(receiver.receive(&crypto, &[0; 40]), Reception::NotAudio));
}

#[test]
fn what_does_not_open_is_rejected_and_does_not_advance() {
    let crypto = Crypto::new(&derive_key("shared"));
    let foreign = Crypto::new(&derive_key("not shared"));
    let mut receiver = Downlink::new(2);
    let bad = foreign.seal_audio(1, 100, &[1]).unwrap();
    assert!(matches!(
        receiver.receive(&crypto, &bad),
        Reception::Rejected(ProtocolError::DecryptionFailed)
    ));
    assert!(matches!(
        receiver.receive(&crypto, &[2, 0, 0]),
        Reception::Rejected(ProtocolError::NotAudio)
    ));
    let good = crypto.seal_audio(1, 0, &[7]).unwrap();
    assert_eq!(frame_of(receiver.receive(&crypto, &good)), Some(vec![7]));
}

#[test]
fn accept_decides_on_what_was_opened() {
    let mut receiver = Downlink::new(2);
    assert_eq!(frame_of(receiver.accept(Ok((1, 0, vec![9])))), Some(vec![9]));
    assert!(matches!(receiver.accept(Ok((1, 0, vec![9]))), Reception::Stale));
    assert!(matches!(receiver.accept(Ok((2, 5, vec![]))), Reception::Own));
    assert_eq!(frame_of(receiver.accept(Ok((1, u64::MAX, vec![])))), Some(vec![]));
    assert!(matches!(receiver.accept(Ok((1, u64::MAX, vec![]))), Reception::Stale));
    assert!(matches!(
        receiver.accept(Err(ProtocolError::NotAudio)),
        Reception::Rejected(ProtocolError::NotAudio)
    ));
}
