//! The receiving side of a call: which datagrams are played.

use std::collections::HashMap;

use vstd::prelude::*;

use crate::crypto::TAG_LEN;
use crate::protocol::{Crypto, ProtocolError, HDR_LEN, PKT_AUDIO};

verus! {

broadcast use vstd::std_specs::hash::group_hash_axioms;

/// What becomes of a datagram.
#[derive(Debug)]
pub enum Reception {
    /// Not marked as audio: the keepalive of another peer.
    NotAudio,
    /// Marked as audio, but it does not open.
    Rejected(ProtocolError),
    /// Our own datagram came back.
    Own,
    /// A duplicate, a replay, or late behind a newer datagram of the same sender.
    Stale,
    /// A frame to decode and play.
    Frame(Vec<u8>),
}

/// `seq` is newer than everything that was played of `sender`.
pub open spec fn is_fresh(played: Map<u32, u64>, sender: u32, seq: u64) -> bool {
    played.contains_key(sender) ==> seq > played[sender]
}

/// What becomes of an audio datagram that was opened with result `opened`.
pub open spec fn reception(
    my_id: u32,
    played: Map<u32, u64>,
    opened: Result<(u32, u64, Vec<u8>), ProtocolError>,
) -> Reception {
    match opened {
        Err(e) => Reception::Rejected(e),
        Ok((sender, seq, frame)) => if sender == my_id {
            Reception::Own
        } else if !is_fresh(played, sender, seq) {
            Reception::Stale
        } else {
            Reception::Frame(frame)
        },
    }
}

/// The newest sequence numbers played, after that.
pub open spec fn played_after(
    my_id: u32,
    played: Map<u32, u64>,
    opened: Result<(u32, u64, Vec<u8>), ProtocolError>,
) -> Map<u32, u64> {
    match opened {
        Ok((sender, seq, _)) => if sender != my_id && is_fresh(played, sender, seq) {
            played.insert(sender, seq)
        } else {
            played
        },
        Err(_) => played,
    }
}

/// The state of the receive loop.
pub struct Downlink {
    my_id: u32,
    last_seq: HashMap<u32, u64>,
}

impl Downlink {
    /// The id under which this client sends.
    pub closed spec fn id(&self) -> u32 {
        self.my_id
    }

    /// The newest sequence number played of each sender.
    pub closed spec fn played(&self) -> Map<u32, u64> {
        self.last_seq@
    }

    /// A receive loop that has played nothing yet.
    pub fn new(my_id: u32) -> (r: Self)
        ensures
            r.id() == my_id,
            r.played() == Map::<u32, u64>::empty(),
    {
        Downlink { my_id, last_seq: HashMap::new() }
    }

    /// Decides on an audio datagram that was opened with result `opened`.
    pub fn accept(&mut self, opened: Result<(u32, u64, Vec<u8>), ProtocolError>) -> (r: Reception)
        ensures
            r == reception(old(self).id(), old(self).played(), opened),
            final(self).played() == played_after(old(self).id(), old(self).played(), opened),
            match opened {
                Err(e) => r == Reception::Rejected(e) && final(self).played() == old(self).played(),
                Ok((sender, seq, frame)) => if sender == old(self).id() {
                    r == Reception::Own && final(self).played() == old(self).played()
                } else if old(self).played().contains_key(sender) && seq
                    <= old(self).played()[sender] {
                    r == Reception::Stale && final(self).played() == old(self).played()
                } else {
                    r == Reception::Frame(frame) && final(self).played()
                        == old(self).played().insert(sender, seq)
                },
            },
            final(self).id() == old(self).id(),
    {
        let (sender, seq, frame) = match opened {
            Ok(v) => v,
            Err(e) => {
                return Reception::Rejected(e);
            },
        };
        if sender == self.my_id {
            return Reception::Own;
        }
        match self.last_seq.get(&sender) {
            Some(last) => {
                if seq <= *last {
                    return Reception::Stale;
                }
            },
            None => {},
        }
        self.last_seq.insert(sender, seq);
        Reception::Frame(frame)
    }

    /// Decides on a datagram as it came from the relay.
    pub fn receive(&mut self, crypto: &Crypto, pkt: &[u8]) -> (r: Reception)
        requires
            crate::protocol::has_audio_header(pkt@) ==> crate::crypto::definite_len(
                pkt@.len() - HDR_LEN - TAG_LEN,
            ),
        ensures
            r is NotAudio <==> pkt@.len() == 0 || pkt@[0] != PKT_AUDIO,
            r is NotAudio ==> final(self).played() == old(self).played(),
            !(r is NotAudio) ==> exists|opened: Result<(u32, u64, Vec<u8>), ProtocolError>|
                {
                    &&& #[trigger] crate::protocol::open_outcome(crypto.key(), pkt@, opened)
                    &&& r == reception(old(self).id(), old(self).played(), opened)
                    &&& final(self).played() == played_after(
                        old(self).id(),
                        old(self).played(),
                        opened,
                    )
                    &&& match opened {
                        Err(e) => r == Reception::Rejected(e) && final(self).played() == old(self).played(),
                        Ok((sender, seq, frame)) => if sender == old(self).id() {
                            r == Reception::Own && final(self).played() == old(self).played()
                        } else if old(self).played().contains_key(sender) && seq
                            <= old(self).played()[sender] {
                            r == Reception::Stale && final(self).played() == old(self).played()
                        } else {
                            r == Reception::Frame(frame) && final(self).played()
                                == old(self).played().insert(sender, seq)
                        },
                    }
                },
            r is NotAudio <==> pkt@.len() == 0 || pkt@[0] != 2,
            r == Reception::Rejected(ProtocolError::NotAudio) <==> 0 < pkt@.len() <= 13 && pkt@[0]
                == 2,
            r matches Reception::Frame(f) ==> pkt@.len() == 13 + f@.len() + 16 && pkt@.subrange(
                13,
                pkt@.len() as int,
            ) == crate::crypto::aead_encrypted(
                crypto.key(),
                pkt@.subrange(1, 13),
                pkt@.subrange(0, 13),
                f@,
            ),
            final(self).id() == old(self).id(),
    {
        if pkt.len() == 0 || pkt[0] != PKT_AUDIO {
            return Reception::NotAudio;
        }
        let opened = crypto.open_audio(pkt);
        proof {
            assert(crate::protocol::open_outcome(crypto.key(), pkt@, opened));
            if opened is Ok {
                assert(pkt@.subrange(1, 13) =~= pkt@.subrange(1, 5) + pkt@.subrange(5, 13));
            }
        }
        self.accept(opened)
    }
}

/// The newest sequence numbers played, after several datagrams were opened.
pub open spec fn played_after_all(
    my_id: u32,
    played: Map<u32, u64>,
    opened: Seq<Result<(u32, u64, Vec<u8>), ProtocolError>>,
) -> Map<u32, u64>
    decreases opened.len(),
{
    if opened.len() == 0 {
        played
    } else {
        played_after(
            my_id,
            played_after_all(my_id, played, opened.drop_last()),
            opened.last(),
        )
    }
}

/// What becomes of the `k`-th of several datagrams.
pub open spec fn nth_reception(
    my_id: u32,
    played: Map<u32, u64>,
    opened: Seq<Result<(u32, u64, Vec<u8>), ProtocolError>>,
    k: int,
) -> Reception {
    reception(my_id, played_after_all(my_id, played, opened.take(k)), opened[k])
}

/// Duplicates, replays and late datagrams are never played: whatever arrives in
/// between, the sequence numbers played of one sender only rise.
pub proof fn law_no_replay(
    my_id: u32,
    played: Map<u32, u64>,
    opened: Seq<Result<(u32, u64, Vec<u8>), ProtocolError>>,
    i: int,
    j: int,
)
    requires
        0 <= i < j < opened.len(),
        nth_reception(my_id, played, opened, i) is Frame,
        nth_reception(my_id, played, opened, j) is Frame,
        opened[i]->Ok_0.0 == opened[j]->Ok_0.0,
    ensures
        opened[i]->Ok_0.1 < opened[j]->Ok_0.1,
{
    let sender = opened[i]->Ok_0.0;
    assert(opened.take(i + 1).drop_last() =~= opened.take(i));
    lemma_played_only_rises(my_id, played, opened, sender, opened[i]->Ok_0.1, i + 1, j);
}

proof fn lemma_played_only_rises(
    my_id: u32,
    played: Map<u32, u64>,
    opened: Seq<Result<(u32, u64, Vec<u8>), ProtocolError>>,
    sender: u32,
    seq: u64,
    a: int,
    b: int,
)
    requires
        0 <= a <= b <= opened.len(),
        !is_fresh(played_after_all(my_id, played, opened.take(a)), sender, seq),
    ensures
        !is_fresh(played_after_all(my_id, played, opened.take(b)), sender, seq),
    decreases b - a,
{
    if a < b {
        lemma_played_only_rises(my_id, played, opened, sender, seq, a, b - 1);
        assert(opened.take(b).drop_last() =~= opened.take(b - 1));
    }
}

/// Senders do not affect each other: whatever was played of others, an opened
/// datagram of another client is played if nothing or only lower sequence numbers
/// were played of that client, and is dropped otherwise. Being played changes
/// nothing but that client's newest number.
pub proof fn law_senders_do_not_affect_each_other(
    my_id: u32,
    played: Map<u32, u64>,
    sender: u32,
    seq: u64,
    frame: Vec<u8>,
)
    requires
        sender != my_id,
    ensures
        !played.contains_key(sender) || seq > played[sender] ==> {
            &&& reception(my_id, played, Ok((sender, seq, frame))) == Reception::Frame(frame)
            &&& played_after(my_id, played, Ok((sender, seq, frame))) == played.insert(sender, seq)
        },
        played.contains_key(sender) && seq <= played[sender] ==> {
            &&& reception(my_id, played, Ok((sender, seq, frame))) == Reception::Stale
            &&& played_after(my_id, played, Ok((sender, seq, frame))) == played
        },
{
}

/// A datagram that does not open is reported with its error and changes nothing.
pub proof fn law_rejected_datagram_changes_nothing(
    my_id: u32,
    played: Map<u32, u64>,
    e: ProtocolError,
)
    ensures
        reception(my_id, played, Err(e)) == Reception::Rejected(e),
        played_after(my_id, played, Err(e)) == played,
{
}

/// Only what was played of its own sender decides on a datagram: two clients that
/// played the same of that sender treat it alike, whatever they played of others.
pub proof fn law_only_its_own_sender_decides(
    my_id: u32,
    a: Map<u32, u64>,
    b: Map<u32, u64>,
    sender: u32,
    seq: u64,
    frame: Vec<u8>,
)
    requires
        a.contains_key(sender) <==> b.contains_key(sender),
        a.contains_key(sender) ==> a[sender] == b[sender],
    ensures
        reception(my_id, a, Ok((sender, seq, frame))) == reception(
            my_id,
            b,
            Ok((sender, seq, frame)),
        ),
        forall|other: u32|
            other != sender ==> {
                &&& #[trigger] played_after(my_id, a, Ok((sender, seq, frame))).contains_key(other)
                    <==> a.contains_key(other)
                &&& a.contains_key(other) ==> played_after(
                    my_id,
                    a,
                    Ok((sender, seq, frame)),
                )[other] == a[other]
            },
{
}

/// In a call of any number of clients, however their datagrams are interleaved
/// with each other and with rejected ones: a datagram is played exactly if it
/// opens, is not our own, and has a higher sequence number than every earlier one
/// of the same sender.
pub proof fn law_played_exactly_if_newest_of_its_sender(
    my_id: u32,
    opened: Seq<Result<(u32, u64, Vec<u8>), ProtocolError>>,
    k: int,
)
    requires
        0 <= k < opened.len(),
    ensures
        nth_reception(my_id, Map::empty(), opened, k) is Frame <==> {
            &&& opened[k] is Ok
            &&& opened[k]->Ok_0.0 != my_id
            &&& forall|j: int|
                0 <= j < k && (#[trigger] opened[j]) is Ok && opened[j]->Ok_0.0
                    == opened[k]->Ok_0.0 ==> opened[j]->Ok_0.1 < opened[k]->Ok_0.1
        },
        nth_reception(my_id, Map::empty(), opened, k) is Frame ==> nth_reception(
            my_id,
            Map::empty(),
            opened,
            k,
        ) == Reception::Frame(opened[k]->Ok_0.2),
{
    if opened[k] is Ok && opened[k]->Ok_0.0 != my_id {
        lemma_played_is_the_newest(my_id, opened, opened[k]->Ok_0.0, k);
    }
}

proof fn lemma_played_is_the_newest(
    my_id: u32,
    opened: Seq<Result<(u32, u64, Vec<u8>), ProtocolError>>,
    sender: u32,
    k: int,
)
    requires
        sender != my_id,
        0 <= k <= opened.len(),
    ensures
        forall|j: int|
            0 <= j < k && (#[trigger] opened[j]) is Ok && opened[j]->Ok_0.0 == sender ==> {
                let played = played_after_all(my_id, Map::empty(), opened.take(k));
                played.contains_key(sender) && opened[j]->Ok_0.1 <= played[sender]
            },
        played_after_all(my_id, Map::empty(), opened.take(k)).contains_key(sender) ==> exists|
            j: int,
        |
            0 <= j < k && (#[trigger] opened[j]) is Ok && opened[j]->Ok_0.0 == sender
                && opened[j]->Ok_0.1 == played_after_all(
                my_id,
                Map::empty(),
                opened.take(k),
            )[sender],
    decreases k,
{
    if k > 0 {
        lemma_played_is_the_newest(my_id, opened, sender, k - 1);
        assert(opened.take(k).drop_last() =~= opened.take(k - 1));
        assert(opened.take(k).last() == opened[k - 1]);
    }
}

/// A call of several clients without reordering is heard in full: if of each of
/// them the datagrams arrive with rising sequence numbers, every one is played,
/// however the clients take turns.
pub proof fn law_interleaved_calls_are_played_in_full(
    my_id: u32,
    opened: Seq<Result<(u32, u64, Vec<u8>), ProtocolError>>,
    k: int,
)
    requires
        forall|i: int| 0 <= i < opened.len() ==> (#[trigger] opened[i]) is Ok && opened[i]->Ok_0.0
            != my_id,
        forall|i: int, j: int|
            0 <= i < j < opened.len() && (#[trigger] opened[i])->Ok_0.0 == (
            #[trigger] opened[j])->Ok_0.0 ==> opened[i]->Ok_0.1 < opened[j]->Ok_0.1,
        0 <= k < opened.len(),
    ensures
        nth_reception(my_id, Map::empty(), opened, k) == Reception::Frame(opened[k]->Ok_0.2),
{
    law_played_exactly_if_newest_of_its_sender(my_id, opened, k);
}

/// Nothing of what is heard was sent by ourselves.
pub proof fn law_own_audio_is_not_played(
    my_id: u32,
    played: Map<u32, u64>,
    opened: Result<(u32, u64, Vec<u8>), ProtocolError>,
)
    ensures
        reception(my_id, played, opened) is Frame ==> opened->Ok_0.0 != my_id,
        reception(my_id, played, opened) is Own <==> opened is Ok && opened->Ok_0.0 == my_id,
        reception(my_id, played, opened) is Own ==> played_after(my_id, played, opened) == played,
{
}

/// A datagram that another client sealed under the same key is played, with
/// exactly its frame, if it is newer than what was played of that client.
pub proof fn law_sealed_frame_is_played(
    key: Seq<u8>,
    my_id: u32,
    played: Map<u32, u64>,
    sender: u32,
    seq: u64,
    frame: Seq<u8>,
    pkt: Vec<u8>,
    opened: Result<(u32, u64, Vec<u8>), ProtocolError>,
)
    requires
        crate::protocol::seal_outcome(key, sender, seq, frame, Ok(pkt)),
        crate::protocol::open_outcome(key, pkt@, opened),
        sender != my_id,
        is_fresh(played, sender, seq),
    ensures
        pkt@[0] == PKT_AUDIO,
        reception(my_id, played, opened) matches Reception::Frame(f) && f@ == frame,
        played_after(my_id, played, opened) == played.insert(sender, seq),
{
    crate::protocol::law_open_undoes_seal(key, sender, seq, frame, pkt, opened);
}

/// A call without loss is heard in full: if the datagrams of one other client
/// arrive with rising sequence numbers, every one of them is played.
pub proof fn law_orderly_call_is_played_in_full(
    my_id: u32,
    sender: u32,
    opened: Seq<Result<(u32, u64, Vec<u8>), ProtocolError>>,
    k: int,
)
    requires
        sender != my_id,
        forall|i: int| 0 <= i < opened.len() ==> (#[trigger] opened[i]) is Ok && opened[i]->Ok_0.0
            == sender,
        forall|i: int, j: int|
            0 <= i < j < opened.len() ==> (#[trigger] opened[i])->Ok_0.1 < (
            #[trigger] opened[j])->Ok_0.1,
        0 <= k < opened.len(),
    ensures
        nth_reception(my_id, Map::empty(), opened, k) == Reception::Frame(opened[k]->Ok_0.2),
{
    lemma_orderly(my_id, sender, opened, k);
}

/// What is said is heard: of the datagrams that another client sealed under the
/// same key, all that arrive, in the order they were sent, are played with
/// exactly the frames that were sealed, whether or not some got lost in between.
pub proof fn law_what_is_sealed_is_heard(
    key: Seq<u8>,
    my_id: u32,
    sender: u32,
    seqs: Seq<u64>,
    frames: Seq<Seq<u8>>,
    pkts: Seq<Vec<u8>>,
    opened: Seq<Result<(u32, u64, Vec<u8>), ProtocolError>>,
    k: int,
)
    requires
        sender != my_id,
        seqs.len() == opened.len(),
        frames.len() == opened.len(),
        pkts.len() == opened.len(),
        forall|i: int, j: int| 0 <= i < j < seqs.len() ==> #[trigger] seqs[i] < #[trigger] seqs[j],
        forall|i: int|
            #![trigger pkts[i]]
            0 <= i < pkts.len() ==> crate::protocol::seal_outcome(
                key,
                sender,
                seqs[i],
                frames[i],
                Ok(pkts[i]),
            ) && crate::protocol::open_outcome(key, pkts[i]@, opened[i]),
        0 <= k < opened.len(),
    ensures
        nth_reception(my_id, Map::empty(), opened, k) matches Reception::Frame(f) && f@ == frames[k],
{
    assert forall|i: int| 0 <= i < opened.len() implies (#[trigger] opened[i]) matches Ok((a, s, f))
        && a == sender && s == seqs[i] && f@ == frames[i] by {
        crate::protocol::law_open_undoes_seal(
            key,
            sender,
            seqs[i],
            frames[i],
            pkts[i],
            opened[i],
        );
    }
    law_orderly_call_is_played_in_full(my_id, sender, opened, k);
}

proof fn lemma_orderly(
    my_id: u32,
    sender: u32,
    opened: Seq<Result<(u32, u64, Vec<u8>), ProtocolError>>,
    k: int,
)
    requires
        sender != my_id,
        forall|i: int| 0 <= i < opened.len() ==> (#[trigger] opened[i]) is Ok && opened[i]->Ok_0.0
            == sender,
        forall|i: int, j: int|
            0 <= i < j < opened.len() ==> (#[trigger] opened[i])->Ok_0.1 < (
            #[trigger] opened[j])->Ok_0.1,
        0 <= k <= opened.len(),
    ensures
        played_after_all(my_id, Map::empty(), opened.take(k)) == (if k == 0 {
            Map::empty()
        } else {
            Map::<u32, u64>::empty().insert(sender, opened[k - 1]->Ok_0.1)
        }),
    decreases k,
{
    if k > 0 {
        lemma_orderly(my_id, sender, opened, k - 1);
        assert(opened.take(k).drop_last() =~= opened.take(k - 1));
        assert(opened.take(k).last() == opened[k - 1]);
        assert(played_after_all(my_id, Map::empty(), opened.take(k)) =~= Map::<
            u32,
            u64,
        >::empty().insert(sender, opened[k - 1]->Ok_0.1));
    }
}

} // verus!
