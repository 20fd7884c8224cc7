use rtc_trial::relay::{PeerAddr, Relay};

const SECOND: u128 = 1_000_000_000;

fn peer(n: u16) -> PeerAddr {
    PeerAddr::V4 { ip: 0x7F000001, port: n }
}

#[test]
fn two_callers_reach_each_other() {
    let mut relay = Relay::new();
    let first = relay.on_datagram(peer(1), 0);
    assert_eq!(first.joined, Some(1));
    assert!(first.targets.is_empty() && first.timed_out.is_empty());
    let second = relay.on_datagram(peer(2), SECOND);
    assert_eq!(second.joined, Some(2));
    assert_eq!(second.targets, vec![peer(1)]);
    let third = relay.on_datagram(peer(1), 2 * SECOND);
    assert_eq!(third.joined, None);
    assert_eq!(third.targets, vec![peer(2)]);
}

#[test]
fn silent_peers_are_dropped_after_ten_seconds() {
    let mut relay = Relay::new();
    relay.on_datagram(peer(1), 0);
    relay.on_datagram(peer(2), SECOND);
    let early = relay.on_datagram(peer(2), 10 * SECOND - 1);
    assert_eq!(early.targets, vec![peer(1)]);
    let late = relay.on_datagram(peer(2), 10 * SECOND);
    assert!(late.targets.is_empty());
    assert_eq!(late.timed_out, vec![peer(1)]);
    let again = relay.on_datagram(peer(1), 11 * SECOND);
    assert_eq!(again.joined, Some(2));
    assert_eq!(again.targets, vec![peer(2)]);
}

#[test]
fn the_count_at_joining_includes_peers_that_time_out_now() {
    let mut relay = Relay::new();
    relay.on_datagram(peer(1), 0);
    relay.on_datagram(peer(2), 0);
    let f = relay.on_datagram(peer(3), 60 * SECOND);
    assert_eq!(f.joined, Some(3));
    assert_eq!(f.timed_out.len(), 2);
    assert!(f.timed_out.contains(&peer(1)) && f.timed_out.contains(&peer(2)));
    assert!(f.targets.is_empty());
    assert_eq!(relay.on_datagram(peer(4), 60 * SECOND).joined, Some(2));
}

#[test]
fn a_returning_sender_is_refreshed_not_timed_out() {
    let mut relay = Relay::new();
    relay.on_datagram(peer(1), 0);
    let f = relay.on_datagram(peer(1), 100 * SECOND);
    assert_eq!(f.joined, None);
    assert!(f.timed_out.is_empty() && f.targets.is_empty());
}

#[test]
fn everyone_else_gets_the_datagram() {
    let mut relay = Relay::new();
    for n in 1..=5 {
        relay.on_datagram(peer(n), 0);
    }
    let f = relay.on_datagram(peer(3), 5);
    assert_eq!(f.targets.len(), 4);
    for n in [1, 2, 4, 5] {
        assert!(f.targets.contains(&peer(n)));
    }
}

#[test]
fn addresses_differ_in_every_part() {
    let mut relay = Relay::new();
    let list = [
        PeerAddr::V4 { ip: 1, port: 1 },
        PeerAddr::V4 { ip: 2, port: 1 },
        PeerAddr::V4 { ip: 1, port: 2 },
        PeerAddr::V6 { ip6: 1, port: 1, flowinfo: 0, scope_id: 0 },
        PeerAddr::V6 { ip6: 1, port: 1, flowinfo: 1, scope_id: 0 },
        PeerAddr::V6 { ip6: 1, port: 1, flowinfo: 0, scope_id: 1 },
    ];
    for (i, addr) in list.iter().enumerate() {
        let f = relay.on_datagram(*addr, 0);
        assert_eq!(f.joined, Some(i + 1));
        assert_eq!(f.targets.len(), i);
    }
}
