//! The relay's peer table.
//!
//! The relay is deliberately protocol-agnostic: it never parses payloads and
//! never holds a key. Any datagram from an address registers (or refreshes) that
//! peer; the datagram is then forwarded to every other live peer. What to do
//! with a datagram depends on where it came from and when, not on what it holds.

use vstd::prelude::*;

use crate::call::{elapsed, PEER_TIMEOUT};

verus! {

/// A socket address.
#[derive(Debug, Clone, Copy, PartialEq, Eq, Structural)]
pub enum PeerAddr {
    V4 { ip: u32, port: u16 },
    V6 { ip6: u128, port: u16, flowinfo: u32, scope_id: u32 },
}

/// A peer, and when it was last heard.
#[derive(Clone, Copy)]
struct Peer {
    addr: PeerAddr,
    last_seen: u128,
}

/// What the relay does with a datagram.
#[derive(Debug)]
pub struct Forwarding {
    /// How many peers are connected, if the sender was not among them before. Peers
    /// that time out with this datagram still count.
    pub joined: Option<usize>,
    /// Peers that have been silent for too long and are dropped.
    pub timed_out: Vec<PeerAddr>,
    /// Where the datagram goes.
    pub targets: Vec<PeerAddr>,
}

/// A peer that was last heard at `last_seen` is still there at `now`.
pub open spec fn is_alive(last_seen: u128, now: u128) -> bool {
    crate::call::elapsed_time(last_seen, now) < PEER_TIMEOUT
}

/// The peers once a datagram from `src` arrived at `now`, dead ones included.
pub open spec fn heard(peers: Map<PeerAddr, u128>, src: PeerAddr, now: u128) -> Map<
    PeerAddr,
    u128,
> {
    peers.insert(src, now)
}

/// The addresses that are still live at `now`.
pub open spec fn live_addrs(peers: Map<PeerAddr, u128>, now: u128) -> Set<PeerAddr> {
    peers.dom().filter(|a: PeerAddr| is_alive(peers[a], now))
}

/// The addresses that are no longer live at `now`.
pub open spec fn dead_addrs(peers: Map<PeerAddr, u128>, now: u128) -> Set<PeerAddr> {
    peers.dom().filter(|a: PeerAddr| !is_alive(peers[a], now))
}

/// The peers after a datagram from `src` at `now`: dead ones are dropped.
pub open spec fn peers_after(peers: Map<PeerAddr, u128>, src: PeerAddr, now: u128) -> Map<
    PeerAddr,
    u128,
> {
    heard(peers, src, now).restrict(live_addrs(heard(peers, src, now), now))
}

/// The addresses in a list of peers.
spec fn addrs(peers: Seq<Peer>) -> Seq<PeerAddr> {
    peers.map_values(|p: Peer| p.addr)
}

/// The peers, each with the time it was last heard.
pub struct Relay {
    peers: Vec<Peer>,
}

/// The table that a list of peers stands for.
spec fn table(peers: Seq<Peer>) -> Map<PeerAddr, u128> {
    addrs(peers).to_set().mk_map(|a: PeerAddr| peers[addrs(peers).index_of(a)].last_seen)
}

impl View for Relay {
    type V = Map<PeerAddr, u128>;

    closed spec fn view(&self) -> Map<PeerAddr, u128> {
        table(self.peers@)
    }
}

impl Relay {
    /// No address is listed twice.
    #[verifier::type_invariant]
    spec fn wf(self) -> bool {
        addrs(self.peers@).no_duplicates()
    }

    /// A relay without peers.
    pub fn new() -> (r: Self)
        ensures
            r@ == Map::<PeerAddr, u128>::empty(),
    {
        let r = Relay { peers: Vec::new() };
        proof {
            assert(r@ =~= Map::<PeerAddr, u128>::empty());
        }
        r
    }

    /// Takes note of a datagram from `src` at `now` and says where it goes.
    pub fn on_datagram(&mut self, src: PeerAddr, now: u128) -> (f: Forwarding)
        ensures
            final(self)@ == peers_after(old(self)@, src, now),
            f.joined is None <==> old(self)@.contains_key(src),
            f.joined matches Some(n) ==> n == old(self)@.dom().len() + 1,
            final(self)@.dom().finite(),
            f.timed_out@.no_duplicates(),
            f.timed_out@.to_set() == dead_addrs(heard(old(self)@, src, now), now),
            f.targets@.no_duplicates(),
            f.targets@.to_set() == final(self)@.dom().remove(src),
            forall|a: PeerAddr| #[trigger]
                f.targets@.contains(a) <==> a != src && old(self)@.contains_key(a) && now - old(
                    self,
                )@[a] < 10_000_000_000,
            forall|a: PeerAddr| #[trigger]
                f.timed_out@.contains(a) <==> a != src && old(self)@.contains_key(a) && now - old(
                    self,
                )@[a] >= 10_000_000_000,
            forall|a: PeerAddr| #[trigger]
                final(self)@.contains_key(a) <==> a == src || (old(self)@.contains_key(a) && now
                    - old(self)@[a] < 10_000_000_000),
            forall|a: PeerAddr| #[trigger]
                final(self)@.contains_key(a) ==> final(self)@[a] == (if a == src {
                    now
                } else {
                    old(self)@[a]
                }),
    {
        proof {
            use_type_invariant(&*self);
        }
        let (known, all) = hear(&self.peers, src, now);
        let ghost alive = |p: Peer| is_alive(p.last_seen, now);
        let ghost dead = |p: Peer| !is_alive(p.last_seen, now);
        let ghost target = |p: Peer| is_alive(p.last_seen, now) && p.addr != src;
        let mut kept: Vec<Peer> = Vec::new();
        let mut timed_out: Vec<PeerAddr> = Vec::new();
        let mut targets: Vec<PeerAddr> = Vec::new();
        let mut i: usize = 0;
        proof {
            lemma_filter_take(all@, alive, 0);
            lemma_filter_take(all@, dead, 0);
            lemma_filter_take(all@, target, 0);
        }
        while i < all.len()
            invariant
                i <= all@.len(),
                alive == (|p: Peer| is_alive(p.last_seen, now)),
                dead == (|p: Peer| !is_alive(p.last_seen, now)),
                target == (|p: Peer| is_alive(p.last_seen, now) && p.addr != src),
                kept@ == all@.take(i as int).filter(alive),
                timed_out@ == addrs(all@.take(i as int).filter(dead)),
                targets@ == addrs(all@.take(i as int).filter(target)),
            decreases all@.len() - i,
        {
            let p = all[i];
            proof {
                lemma_filter_take(all@, alive, i as int);
                lemma_filter_take(all@, dead, i as int);
                lemma_filter_take(all@, target, i as int);
            }
            if elapsed(p.last_seen, now) < PEER_TIMEOUT {
                kept.push(p);
                if p.addr != src {
                    targets.push(p.addr);
                }
            } else {
                timed_out.push(p.addr);
            }
            i = i + 1;
            proof {
                assert(timed_out@ =~= addrs(all@.take(i as int).filter(dead)));
                assert(targets@ =~= addrs(all@.take(i as int).filter(target)));
            }
        }
        proof {
            assert(all@.take(i as int) =~= all@);
            lemma_filter_addrs(all@, alive);
            lemma_filter_addrs(all@, dead);
            lemma_filter_addrs(all@, target);
            lemma_table_len(all@);
            lemma_table_len(kept@);
            lemma_table_len(old(self).peers@);
            lemma_filtered_tables(all@, src, now);
            if !known {
                assert(table(all@).dom() =~= table(old(self).peers@).dom().insert(src));
            }
            let before = old(self)@;
            assert forall|a: PeerAddr| #[trigger] targets@.contains(a) <==> a != src
                && before.contains_key(a) && now - before[a] < 10_000_000_000 by {
                law_the_times_alone_decide(before, src, now, a);
                assert(targets@.contains(a) == targets@.to_set().contains(a));
            }
            assert forall|a: PeerAddr| #[trigger] timed_out@.contains(a) <==> a != src
                && before.contains_key(a) && now - before[a] >= 10_000_000_000 by {
                law_the_times_alone_decide(before, src, now, a);
                assert(timed_out@.contains(a) == timed_out@.to_set().contains(a));
            }
            assert forall|a: PeerAddr| #[trigger]
                peers_after(before, src, now).contains_key(a) <==> a == src || (
                before.contains_key(a) && now - before[a] < 10_000_000_000) by {
                law_the_times_alone_decide(before, src, now, a);
            }
        }
        self.peers = kept;
        Forwarding {
            joined: if known {
                None
            } else {
                Some(all.len())
            },
            timed_out,
            targets,
        }
    }
}

/// The peers with `src` entered as heard at `now`, and whether it was listed before.
fn hear(peers: &Vec<Peer>, src: PeerAddr, now: u128) -> (r: (bool, Vec<Peer>))
    requires
        addrs(peers@).no_duplicates(),
    ensures
        r.0 == table(peers@).contains_key(src),
        addrs(r.1@).no_duplicates(),
        table(r.1@) == heard(table(peers@), src, now),
{
    let mut all: Vec<Peer> = Vec::new();
    let mut known = false;
    let mut i: usize = 0;
    while i < peers.len()
        invariant
            i <= peers@.len(),
            all@.len() == i,
            forall|j: int|
                0 <= j < i ==> #[trigger] all@[j] == (Peer {
                    addr: peers@[j].addr,
                    last_seen: if peers@[j].addr == src {
                        now
                    } else {
                        peers@[j].last_seen
                    },
                }),
            known <==> exists|j: int| 0 <= j < i && (#[trigger] peers@[j]).addr == src,
        decreases peers@.len() - i,
    {
        let p = peers[i];
        if p.addr == src {
            known = true;
            all.push(Peer { addr: src, last_seen: now });
        } else {
            all.push(p);
        }
        i = i + 1;
    }
    if !known {
        all.push(Peer { addr: src, last_seen: now });
    }
    proof {
        lemma_table(peers@);
        assert forall|j: int, k: int|
            0 <= j < addrs(all@).len() && 0 <= k < addrs(all@).len() && j
                != k implies addrs(all@)[j] != addrs(all@)[k] by {
            if j < peers@.len() && k < peers@.len() {
                assert(addrs(peers@)[j] != addrs(peers@)[k]);
            }
        }
        lemma_table(all@);
        let before = table(peers@);
        let after = table(all@);
        assert forall|a: PeerAddr| after.contains_key(a) <==> #[trigger] heard(
            before,
            src,
            now,
        ).contains_key(a) by {
            if before.contains_key(a) {
                let j = choose|j: int| 0 <= j < peers@.len() && (#[trigger] peers@[j]).addr == a;
                assert(all@[j].addr == a);
            }
            if a == src && !known {
                assert(all@[peers@.len() as int].addr == a);
            }
            if after.contains_key(a) && a != src {
                let j = choose|j: int| 0 <= j < all@.len() && (#[trigger] all@[j]).addr == a;
                assert(peers@[j].addr == a);
            }
        }
        assert forall|a: PeerAddr| #[trigger] after.contains_key(a) implies after[a] == heard(
            before,
            src,
            now,
        )[a] by {
            let j = choose|j: int| 0 <= j < all@.len() && (#[trigger] all@[j]).addr == a;
            if a != src {
                assert(peers@[j].addr == a);
            }
        }
        assert(after =~= heard(before, src, now));
    }
    (known, all)
}

/// What the table of a list without duplicates holds.
proof fn lemma_table(peers: Seq<Peer>)
    requires
        addrs(peers).no_duplicates(),
    ensures
        forall|a: PeerAddr| #[trigger]
            table(peers).contains_key(a) <==> exists|j: int|
                0 <= j < peers.len() && (#[trigger] peers[j]).addr == a,
        forall|j: int|
            0 <= j < peers.len() ==> table(peers)[(#[trigger] peers[j]).addr]
                == peers[j].last_seen,
{
    assert forall|a: PeerAddr| #[trigger]
        table(peers).contains_key(a) <==> exists|j: int|
            0 <= j < peers.len() && (#[trigger] peers[j]).addr == a by {
        if table(peers).contains_key(a) {
            assert(addrs(peers).contains(a));
            let j = addrs(peers).index_of(a);
            assert(peers[j].addr == a);
        }
        if exists|j: int| 0 <= j < peers.len() && (#[trigger] peers[j]).addr == a {
            let j = choose|j: int| 0 <= j < peers.len() && (#[trigger] peers[j]).addr == a;
            assert(addrs(peers)[j] == a);
        }
    }
    assert forall|j: int| 0 <= j < peers.len() implies table(peers)[(#[trigger] peers[j]).addr]
        == peers[j].last_seen by {
        let a = peers[j].addr;
        assert(addrs(peers)[j] == a);
        assert(table(peers).contains_key(a));
        let k = addrs(peers).index_of(a);
        assert(addrs(peers)[k] == a);
        assert(k == j);
    }
}

proof fn lemma_table_len(peers: Seq<Peer>)
    requires
        addrs(peers).no_duplicates(),
    ensures
        table(peers).dom().len() == peers.len(),
        table(peers).dom().finite(),
{
    addrs(peers).unique_seq_to_set();
    assert(table(peers).dom() =~= addrs(peers).to_set());
}

proof fn lemma_filter_take(s: Seq<Peer>, pred: spec_fn(Peer) -> bool, i: int)
    requires
        0 <= i <= s.len(),
    ensures
        i == 0 ==> s.take(i).filter(pred) == Seq::<Peer>::empty(),
        i < s.len() ==> s.take(i + 1).filter(pred) == (if pred(s[i]) {
            s.take(i).filter(pred).push(s[i])
        } else {
            s.take(i).filter(pred)
        }),
{
    reveal(Seq::filter);
    if i < s.len() {
        assert(s.take(i + 1).drop_last() =~= s.take(i));
    }
}

/// Filtering a list without duplicates keeps exactly the entries that pass.
proof fn lemma_filter_addrs(s: Seq<Peer>, pred: spec_fn(Peer) -> bool)
    requires
        addrs(s).no_duplicates(),
    ensures
        addrs(s.filter(pred)).no_duplicates(),
        forall|p: Peer| #[trigger] s.filter(pred).contains(p) <==> s.contains(p) && pred(p),
    decreases s.len(),
{
    reveal(Seq::filter);
    if s.len() > 0 {
        let front = s.drop_last();
        let last = s.last();
        assert forall|j: int, k: int|
            0 <= j < addrs(front).len() && 0 <= k < addrs(front).len() && j
                != k implies addrs(front)[j] != addrs(front)[k] by {
            assert(addrs(s)[j] != addrs(s)[k]);
        }
        lemma_filter_addrs(front, pred);
        let rest = front.filter(pred);
        assert forall|p: Peer| #[trigger] s.contains(p) <==> front.contains(p) || p == last by {
            if s.contains(p) {
                let j = choose|j: int| 0 <= j < s.len() && s[j] == p;
                if j < front.len() {
                    assert(front[j] == p);
                }
            }
            if front.contains(p) {
                let j = choose|j: int| 0 <= j < front.len() && front[j] == p;
                assert(s[j] == p);
            }
            assert(s[s.len() - 1] == last);
        }
        if pred(last) {
            let all = rest.push(last);
            assert forall|p: Peer| #[trigger] all.contains(p) <==> rest.contains(p) || p == last by {
                if rest.contains(p) {
                    let j = choose|j: int| 0 <= j < rest.len() && rest[j] == p;
                    assert(all[j] == p);
                }
                assert(all[all.len() - 1] == last);
            }
            assert forall|j: int, k: int|
                0 <= j < addrs(all).len() && 0 <= k < addrs(all).len() && j
                    != k implies addrs(all)[j] != addrs(all)[k] by {
                if j < rest.len() && k < rest.len() {
                    assert(addrs(rest)[j] != addrs(rest)[k]);
                } else {
                    let other = if j < rest.len() {
                        j
                    } else {
                        k
                    };
                    assert(rest.contains(rest[other]));
                    let m = choose|m: int| 0 <= m < front.len() && front[m] == rest[other];
                    assert(addrs(s)[m] != addrs(s)[s.len() - 1]);
                }
            }
        }
    }
}

/// The filtered lists of `on_datagram`, as sets of addresses.
proof fn lemma_filtered_tables(all: Seq<Peer>, src: PeerAddr, now: u128)
    requires
        addrs(all).no_duplicates(),
    ensures
        ({
            let alive = |p: Peer| is_alive(p.last_seen, now);
            let dead = |p: Peer| !is_alive(p.last_seen, now);
            let target = |p: Peer| is_alive(p.last_seen, now) && p.addr != src;
            let kept = table(all).restrict(live_addrs(table(all), now));
            &&& table(all.filter(alive)) == kept
            &&& addrs(all.filter(dead)).to_set() == dead_addrs(table(all), now)
            &&& addrs(all.filter(target)).to_set() == kept.dom().remove(src)
        }),
{
    let alive = |p: Peer| is_alive(p.last_seen, now);
    let dead = |p: Peer| !is_alive(p.last_seen, now);
    let target = |p: Peer| is_alive(p.last_seen, now) && p.addr != src;
    let kept = table(all).restrict(live_addrs(table(all), now));
    lemma_table(all);
    lemma_filter_set(all, alive);
    lemma_filter_set(all, dead);
    lemma_filter_set(all, target);
    lemma_filter_addrs(all, alive);
    lemma_table(all.filter(alive));
    assert(table(all.filter(alive)).dom() =~= addrs(all.filter(alive)).to_set());
    assert forall|a: PeerAddr| #[trigger] table(all.filter(alive)).contains_key(a) implies table(
        all.filter(alive),
    )[a] == kept[a] by {
        let f = all.filter(alive);
        let j = choose|j: int| 0 <= j < f.len() && (#[trigger] f[j]).addr == a;
        assert(f.contains(f[j]));
        let k = choose|k: int| 0 <= k < all.len() && all[k] == f[j];
        assert(all[k].addr == a);
    }
    assert(table(all.filter(alive)).dom() =~= kept.dom());
    assert(table(all.filter(alive)) =~= kept);
    assert(addrs(all.filter(dead)).to_set() =~= dead_addrs(table(all), now));
    assert(addrs(all.filter(target)).to_set() =~= kept.dom().remove(src));
}

proof fn lemma_filter_set(all: Seq<Peer>, pred: spec_fn(Peer) -> bool)
    requires
        addrs(all).no_duplicates(),
    ensures
        forall|a: PeerAddr| #[trigger]
            addrs(all.filter(pred)).to_set().contains(a) <==> table(all).contains_key(a) && pred(
                Peer { addr: a, last_seen: table(all)[a] },
            ),
{
    lemma_table(all);
    lemma_filter_addrs(all, pred);
    let f = all.filter(pred);
    assert forall|a: PeerAddr| #[trigger]
        addrs(f).to_set().contains(a) <==> table(all).contains_key(a) && pred(
            Peer { addr: a, last_seen: table(all)[a] },
        ) by {
        if addrs(f).contains(a) {
            let j = choose|j: int| 0 <= j < addrs(f).len() && addrs(f)[j] == a;
            assert(f.contains(f[j]));
            let k = choose|k: int| 0 <= k < all.len() && all[k] == f[j];
            assert(all[k].addr == a);
        }
        if table(all).contains_key(a) && pred(Peer { addr: a, last_seen: table(all)[a] }) {
            let k = choose|k: int| 0 <= k < all.len() && (#[trigger] all[k]).addr == a;
            assert(all[k] == (Peer { addr: a, last_seen: table(all)[a] }));
            assert(f.contains(all[k]));
            let j = choose|j: int| 0 <= j < f.len() && f[j] == all[k];
            assert(addrs(f)[j] == a);
        }
    }
}

/// A peer that sends is registered, or refreshed if it was known.
pub proof fn law_sender_is_registered(peers: Map<PeerAddr, u128>, src: PeerAddr, now: u128)
    ensures
        peers_after(peers, src, now).contains_key(src),
        peers_after(peers, src, now)[src] == now,
{
}

/// A datagram goes to every other peer that was heard within the timeout, and
/// never back to its sender.
pub proof fn law_every_other_live_peer_is_served(
    peers: Map<PeerAddr, u128>,
    src: PeerAddr,
    now: u128,
    peer: PeerAddr,
)
    ensures
        peers_after(peers, src, now).dom().remove(src).contains(peer) <==> peer != src
            && peers.contains_key(peer) && is_alive(peers[peer], now),
{
}

/// The two times alone decide, and only by how far they are apart: a datagram
/// goes to each other peer in the table that was heard less than ten seconds
/// before, or at a time that has not come yet; each other peer that has been
/// silent for ten seconds or more leaves the table and is reported. Nobody but the
/// sender enters the table, and nobody else's time changes.
pub proof fn law_the_times_alone_decide(
    peers: Map<PeerAddr, u128>,
    src: PeerAddr,
    now: u128,
    peer: PeerAddr,
)
    ensures
        peer == src ==> {
            &&& peers_after(peers, src, now).contains_key(peer)
            &&& peers_after(peers, src, now)[peer] == now
            &&& !dead_addrs(heard(peers, src, now), now).contains(peer)
        },
        peer != src && !peers.contains_key(peer) ==> {
            &&& !peers_after(peers, src, now).contains_key(peer)
            &&& !dead_addrs(heard(peers, src, now), now).contains(peer)
        },
        peer != src && peers.contains_key(peer) && now - peers[peer] < 10_000_000_000 ==> {
            &&& peers_after(peers, src, now).dom().remove(src).contains(peer)
            &&& peers_after(peers, src, now)[peer] == peers[peer]
            &&& !dead_addrs(heard(peers, src, now), now).contains(peer)
        },
        peer != src && peers.contains_key(peer) && now - peers[peer] >= 10_000_000_000 ==> {
            &&& !peers_after(peers, src, now).contains_key(peer)
            &&& dead_addrs(heard(peers, src, now), now).contains(peer)
        },
{
}

/// It does not matter when the clock was started: if all times are later by the
/// same span, the same peers stay and the same peers time out.
pub proof fn law_the_start_of_the_clock_does_not_matter(
    peers: Map<PeerAddr, u128>,
    later: Map<PeerAddr, u128>,
    src: PeerAddr,
    now: u128,
    span: u128,
)
    requires
        now + span <= u128::MAX,
        later.dom() == peers.dom(),
        forall|a: PeerAddr| #[trigger] peers.contains_key(a) ==> later[a] == peers[a] + span,
    ensures
        peers_after(later, src, (now + span) as u128).dom() == peers_after(peers, src, now).dom(),
        dead_addrs(heard(later, src, (now + span) as u128), (now + span) as u128) == dead_addrs(
            heard(peers, src, now),
            now,
        ),
{
    let then: u128 = (now + span) as u128;
    assert forall|a: PeerAddr| #[trigger]
        peers_after(later, src, then).dom().contains(a) <==> peers_after(
            peers,
            src,
            now,
        ).dom().contains(a) by {
        law_the_times_alone_decide(peers, src, now, a);
        law_the_times_alone_decide(later, src, then, a);
        assert(later.dom().contains(a) == peers.dom().contains(a));
    }
    assert forall|a: PeerAddr| #[trigger]
        dead_addrs(heard(later, src, then), then).contains(a) <==> dead_addrs(
            heard(peers, src, now),
            now,
        ).contains(a) by {
        law_the_times_alone_decide(peers, src, now, a);
        law_the_times_alone_decide(later, src, then, a);
        assert(later.dom().contains(a) == peers.dom().contains(a));
    }
    assert(peers_after(later, src, then).dom() =~= peers_after(peers, src, now).dom());
    assert(dead_addrs(heard(later, src, then), then) =~= dead_addrs(heard(peers, src, now), now));
}

/// Whenever a datagram was handled, no peer in the table has timed out.
pub proof fn law_no_dead_peer_stays(
    peers: Map<PeerAddr, u128>,
    src: PeerAddr,
    now: u128,
    peer: PeerAddr,
)
    requires
        peers_after(peers, src, now).contains_key(peer),
    ensures
        is_alive(peers_after(peers, src, now)[peer], now),
{
}

/// A peer is dropped by a datagram of another peer if and only if it has been
/// silent for the whole timeout; the others keep their times.
pub proof fn law_silent_peer_is_dropped(
    peers: Map<PeerAddr, u128>,
    src: PeerAddr,
    now: u128,
    peer: PeerAddr,
)
    requires
        peers.contains_key(peer),
        peer != src,
    ensures
        is_alive(peers[peer], now) ==> peers_after(peers, src, now).contains_key(peer)
            && peers_after(peers, src, now)[peer] == peers[peer],
        !is_alive(peers[peer], now) ==> !peers_after(peers, src, now).contains_key(peer)
            && dead_addrs(heard(peers, src, now), now).contains(peer),
{
}

/// The peers after several datagrams, each with its sender and time.
pub open spec fn peers_after_all(
    peers: Map<PeerAddr, u128>,
    datagrams: Seq<(PeerAddr, u128)>,
) -> Map<PeerAddr, u128>
    decreases datagrams.len(),
{
    if datagrams.len() == 0 {
        peers
    } else {
        peers_after(
            peers_after_all(peers, datagrams.drop_last()),
            datagrams.last().0,
            datagrams.last().1,
        )
    }
}

/// A peer stays connected, whatever others send, for as long as the timeout
/// since it was heard has not passed; what it sends itself only prolongs that.
pub proof fn law_peer_stays_connected(
    peers: Map<PeerAddr, u128>,
    datagrams: Seq<(PeerAddr, u128)>,
    peer: PeerAddr,
    end: u128,
)
    requires
        peers.contains_key(peer),
        peers[peer] <= end,
        is_alive(peers[peer], end),
        forall|k: int|
            0 <= k < datagrams.len() ==> peers[peer] <= (#[trigger] datagrams[k]).1 <= end,
    ensures
        peers_after_all(peers, datagrams).contains_key(peer),
        peers[peer] <= peers_after_all(peers, datagrams)[peer] <= end,
        is_alive(peers_after_all(peers, datagrams)[peer], end),
    decreases datagrams.len(),
{
    if datagrams.len() > 0 {
        assert forall|k: int| 0 <= k < datagrams.drop_last().len() implies peers[peer] <= (
        #[trigger] datagrams.drop_last()[k]).1 <= end by {
            assert(datagrams.drop_last()[k] == datagrams[k]);
        }
        law_peer_stays_connected(peers, datagrams.drop_last(), peer, end);
        assert(datagrams[datagrams.len() - 1] == datagrams.last());
    }
}

/// Callers hear each other: once `b` has sent something, all that `a` sends
/// reaches it, whatever happens in between, until `b` has been silent for the
/// whole timeout.
pub proof fn law_callers_hear_each_other(
    peers: Map<PeerAddr, u128>,
    b: PeerAddr,
    b_at: u128,
    between: Seq<(PeerAddr, u128)>,
    a: PeerAddr,
    now: u128,
)
    requires
        a != b,
        b_at <= now,
        is_alive(b_at, now),
        forall|k: int| 0 <= k < between.len() ==> b_at <= (#[trigger] between[k]).1 <= now,
    ensures
        ({
            let later = peers_after_all(peers_after(peers, b, b_at), between);
            peers_after(later, a, now).dom().remove(a).contains(b)
        }),
{
    let then = peers_after(peers, b, b_at);
    law_sender_is_registered(peers, b, b_at);
    law_peer_stays_connected(then, between, b, now);
    law_every_other_live_peer_is_served(peers_after_all(then, between), a, now, b);
}

} // verus!
