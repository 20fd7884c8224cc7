use rtc_trial::call::{mic_mode, MicMode, APM_FRAME, CALL_RATE, FRAME_SAMPLES};
use rtc_trial::framing::cut_blocks;
use rtc_trial::protocol::{derive_key, Crypto};
use rtc_trial::uplink::{CaptureEvent, Turn, Uplink};

const SECOND: u128 = 1_000_000_000;

#[test]
fn frame_sizes() {
    assert_eq!(CALL_RATE, 48000);
    assert_eq!(FRAME_SAMPLES, 960);
    assert_eq!(APM_FRAME, 480);
}

#[test]
fn switches() {
    assert_eq!(mic_mode(false, false), MicMode::Processed);
    assert_eq!(mic_mode(false, true), MicMode::Raw);
    assert_eq!(mic_mode(true, false), MicMode::Muted);
    assert_eq!(mic_mode(true, true), MicMode::Muted);
}

#[test]
fn cutting_leaves_the_incomplete_block() {
    let mut buf = vec![1, 2, 3, 4, 5, 6, 7];
    assert_eq!(cut_blocks(&mut buf, 3), vec![vec![1, 2, 3], vec![4, 5, 6]]);
    assert_eq!(buf, vec![7]);
    assert!(cut_blocks(&mut buf, 3).is_empty());
    assert_eq!(buf, vec![7]);
    buf.extend([8, 9]);
    assert_eq!(cut_blocks(&mut buf, 3), vec![vec![7, 8, 9]]);
    assert!(buf.is_empty());
}

fn run_raw(chunks: &[Vec<u16>]) -> Vec<Vec<u16>> {
    let mut uplink = Uplink::new(9, 0);
    let mut all = Vec::new();
    for chunk in chunks {
        match uplink.on_capture(CaptureEvent::Samples(chunk.clone()), 0) {
            Turn::Continue { blocks, .. } => all.extend(uplink.on_clean(blocks)),
            Turn::Stop => panic!("stopped"),
        }
    }
    all
}

#[test]
fn frames_do_not_depend_on_the_chunks() {
    let samples: Vec<u16> = (0..5000).collect();
    let whole = run_raw(&[samples.clone()]);
    assert_eq!(whole.len(), 5);
    assert_eq!(whole[0], samples[..960].to_vec());
    assert_eq!(whole[4], samples[3840..4800].to_vec());
    for size in [1usize, 7, 479, 480, 481, 960, 1024] {
        let chunks: Vec<Vec<u16>> = samples.chunks(size).map(|c| c.to_vec()).collect();
        assert_eq!(run_raw(&chunks), whole, "chunks of {}", size);
    }
}

#[test]
fn blocks_are_handed_out_for_cleaning() {
    let mut uplink = Uplink::new(9, 0);
    match uplink.on_capture(CaptureEvent::Samples(vec![5u8; 1000]), 0) {
        Turn::Continue { blocks, hello_due } => {
            assert_eq!(blocks, vec![vec![5u8; 480], vec![5u8; 480]]);
            assert!(!hello_due);
            let doubled = blocks.iter().map(|b| b.iter().map(|s| s * 2).collect()).collect();
            assert_eq!(uplink.on_clean(doubled), vec![vec![10u8; 960]]);
        }
        Turn::Stop => panic!("stopped"),
    }
    match uplink.on_capture(CaptureEvent::Timeout, 0) {
        Turn::Continue { blocks, .. } => assert!(blocks.is_empty()),
        Turn::Stop => panic!("stopped"),
    }
}

#[test]
fn a_lost_capture_stream_ends_the_loop() {
    let mut uplink: Uplink<u8> = Uplink::new(9, 0);
    assert!(matches!(uplink.on_capture(CaptureEvent::Disconnected, 5 * SECOND), Turn::Stop));
}

fn due(uplink: &mut Uplink<u8>, now: u128) -> bool {
    match uplink.on_capture(CaptureEvent::Timeout, now) {
        Turn::Continue { hello_due, .. } => hello_due,
        Turn::Stop => panic!("stopped"),
    }
}

#[test]
fn keepalives_are_a_second_apart() {
    let mut uplink: Uplink<u8> = Uplink::new(0x01020304, 10 * SECOND);
    assert_eq!(uplink.hello(), [1, 1, 2, 3, 4]);
    assert!(!due(&mut uplink, 10 * SECOND));
    assert!(!due(&mut uplink, 11 * SECOND - 1));
    assert!(due(&mut uplink, 11 * SECOND));
    assert!(due(&mut uplink, 12 * SECOND));
    uplink.hello_sent(12 * SECOND);
    assert!(!due(&mut uplink, 12 * SECOND + 1));
    assert!(!due(&mut uplink, 3 * SECOND));
    assert!(due(&mut uplink, 13 * SECOND));
}

#[test]
fn sequence_numbers_count_up_from_zero() {
    let crypto = Crypto::new(&derive_key("test secret"));
    let mut uplink: Uplink<u8> = Uplink::new(77, 0);
    for k in 0..4u64 {
        assert_eq!(uplink.sequence(), k);
        let pkt = uplink.seal(&crypto, &[k as u8; 3]).unwrap();
        assert_eq!(pkt, crypto.seal_audio(77, k, &[k as u8; 3]).unwrap());
        assert_eq!(crypto.open_audio(&pkt), Ok((77, k, vec![k as u8; 3])));
        assert_ne!(Crypto::nonce(77, k), Crypto::nonce(77, k + 1));
    }
    assert_eq!(uplink.sequence(), 4);
}
