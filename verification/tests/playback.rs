use std::collections::VecDeque;

use rtc_trial::playback::{enqueue, max_buffer_samples, prebuffer_samples, Player};

#[test]
fn buffer_sizes() {
    assert_eq!(max_buffer_samples(48000), 24000);
    assert_eq!(max_buffer_samples(44100), 22050);
    assert_eq!(max_buffer_samples(1), 0);
    assert_eq!(max_buffer_samples(u32::MAX), 2147483647);
    assert_eq!(prebuffer_samples(48000), 2880);
    assert_eq!(prebuffer_samples(44100), 2646);
    assert_eq!(prebuffer_samples(16), 0);
    assert_eq!(prebuffer_samples(u32::MAX), 257698037);
}

#[test]
fn a_full_buffer_keeps_the_newest_half() {
    let mut queue: VecDeque<i32> = VecDeque::new();
    enqueue(&mut queue, &[1, 2, 3, 4], 7);
    enqueue(&mut queue, &[5, 6, 7], 7);
    assert_eq!(queue, [1, 2, 3, 4, 5, 6, 7]);
    enqueue(&mut queue, &[8], 7);
    assert_eq!(queue, [6, 7, 8]);
    enqueue(&mut queue, &[], 2);
    assert_eq!(queue, [8]);
    enqueue(&mut queue, &[9], 0);
    assert!(queue.is_empty());
}

#[test]
fn silence_until_the_prebuffer_is_full() {
    let mut player = Player::new(3);
    let mut queue: VecDeque<i32> = [1, 2].into();
    let mut out = [9; 2];
    player.render(&mut queue, &mut out, 1, 0);
    assert_eq!(out, [0, 0]);
    assert_eq!(queue, [1, 2]);
    queue.push_back(3);
    player.render(&mut queue, &mut out, 1, 0);
    assert_eq!(out, [1, 2]);
    assert_eq!(queue, [3]);
    player.render(&mut queue, &mut out, 1, 0);
    assert_eq!(out, [3, 0]);
    assert!(queue.is_empty());
}

#[test]
fn an_underrun_rebuilds_the_prebuffer() {
    let mut player = Player::new(2);
    let mut queue: VecDeque<i32> = [1, 2].into();
    let mut out = [9; 3];
    player.render(&mut queue, &mut out, 1, 0);
    assert_eq!(out, [1, 2, 0]);
    queue.push_back(4);
    player.render(&mut queue, &mut out, 1, 0);
    assert_eq!(out, [4, 0, 0]);
    player.render(&mut queue, &mut out, 1, 0);
    assert_eq!(out, [0, 0, 0]);
    queue.push_back(5);
    player.render(&mut queue, &mut out, 1, 0);
    assert_eq!(out, [0, 0, 0]);
    queue.push_back(6);
    player.render(&mut queue, &mut out, 1, 0);
    assert_eq!(out, [5, 6, 0]);
}

#[test]
fn samples_fan_out_to_every_channel() {
    let mut player = Player::new(1);
    let mut queue: VecDeque<i32> = [1, 2, 3, 4].into();
    let mut out = [9; 7];
    player.render(&mut queue, &mut out, 2, -1);
    assert_eq!(out, [1, 1, 2, 2, 3, 3, 4]);
    assert!(queue.is_empty());
    let mut queue: VecDeque<i32> = [1, 2].into();
    let mut out = [9; 9];
    player.render(&mut queue, &mut out, 3, -1);
    assert_eq!(out, [1, 1, 1, 2, 2, 2, -1, -1, -1]);
}

#[test]
fn no_prebuffer_and_nothing_queued() {
    let mut player = Player::new(0);
    let mut queue: VecDeque<i32> = VecDeque::new();
    let mut out = [9; 2];
    player.render(&mut queue, &mut out, 2, 0);
    assert_eq!(out, [0, 0]);
    queue.push_back(1);
    player.render(&mut queue, &mut out, 2, 0);
    assert_eq!(out, [1, 1]);
}
