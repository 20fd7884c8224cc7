//! The sending side of a call: from captured samples to sealed datagrams.
//!
//! Per turn of the send loop, captured samples go through [`Uplink::on_capture`],
//! the blocks it cuts are cleaned by the caller and handed to
//! [`Uplink::on_clean`], and each frame that comes out is encoded by the caller
//! and sealed with [`Uplink::seal`].

use vstd::prelude::*;

use crate::call::{elapsed, APM_FRAME, FRAME_SAMPLES, HELLO_INTERVAL};
use crate::crypto::{MAX_PLAINTEXT, TAG_LEN};
use crate::framing::cut_blocks;
use crate::protocol::{hello_packet, Crypto, ProtocolError, HDR_LEN};

verus! {

/// What waiting for the capture device came to.
#[derive(Debug)]
pub enum CaptureEvent<S> {
    /// Captured samples, resampled to the call rate.
    Samples(Vec<S>),
    /// Nothing arrived for a while.
    Timeout,
    /// The capture stream is gone.
    Disconnected,
}

/// What the send loop does next.
#[derive(Debug)]
pub enum Turn<S> {
    /// The call is over.
    Stop,
    /// Send a keepalive if it is due, then clean the blocks.
    Continue { hello_due: bool, blocks: Vec<Vec<S>> },
}

/// The samples that an event brings.
pub open spec fn event_samples<S>(event: CaptureEvent<S>) -> Seq<S> {
    match event {
        CaptureEvent::Samples(samples) => samples@,
        _ => Seq::empty(),
    }
}

/// The state of the send loop.
pub struct Uplink<S> {
    my_id: u32,
    seq: u64,
    last_hello: u128,
    pending: Vec<S>,
    cleaned: Vec<S>,
}

impl<S> Uplink<S> {
    /// The id under which this client sends.
    pub closed spec fn id(&self) -> u32 {
        self.my_id
    }

    /// The sequence number of the next audio datagram.
    pub closed spec fn next_seq(&self) -> u64 {
        self.seq
    }

    /// When the last keepalive went out.
    pub closed spec fn last_hello(&self) -> u128 {
        self.last_hello
    }

    /// Captured samples that do not fill a block yet.
    pub closed spec fn pending(&self) -> Seq<S> {
        self.pending@
    }

    /// Cleaned samples that do not fill a frame yet.
    pub closed spec fn cleaned(&self) -> Seq<S> {
        self.cleaned@
    }
}

impl<S: Copy> Uplink<S> {
    /// A send loop that starts at `now` with a keepalive.
    pub fn new(my_id: u32, now: u128) -> (r: Self)
        ensures
            r.id() == my_id,
            r.next_seq() == 0,
            r.last_hello() == now,
            r.pending() == Seq::<S>::empty(),
            r.cleaned() == Seq::<S>::empty(),
    {
        Uplink { my_id, seq: 0, last_hello: now, pending: Vec::new(), cleaned: Vec::new() }
    }

    /// The keepalive, which lets the relay learn our address (and keeps NAT open).
    pub fn hello(&self) -> (pkt: [u8; 5])
        ensures
            pkt@ == crate::protocol::hello_bytes(self.id()),
            pkt@[0] == 1,
            pkt@.subrange(1, 5) == crate::bytes::be32(self.id()),
    {
        hello_packet(self.my_id)
    }

    /// Records that a keepalive went out at `now`.
    pub fn hello_sent(&mut self, now: u128)
        ensures
            final(self).last_hello() == now,
            final(self).id() == old(self).id(),
            final(self).next_seq() == old(self).next_seq(),
            final(self).pending() == old(self).pending(),
            final(self).cleaned() == old(self).cleaned(),
    {
        self.last_hello = now;
    }

    /// The sequence number that the next sealed frame gets.
    pub fn sequence(&self) -> (seq: u64)
        ensures
            seq == self.next_seq(),
    {
        self.seq
    }

    /// Takes in what the capture device brought by `now` and says how to go on.
    pub fn on_capture(&mut self, event: CaptureEvent<S>, now: u128) -> (turn: Turn<S>)
        ensures
            turn is Stop <==> event is Disconnected,
            event is Disconnected ==> *final(self) == *old(self),
            turn matches Turn::Continue { hello_due, blocks } ==> {
                let captured = old(self).pending() + event_samples(event);
                &&& hello_due <==> crate::call::elapsed_time(old(self).last_hello(), now)
                    >= HELLO_INTERVAL
                &&& crate::framing::contents(blocks@) == crate::framing::blocks_of(
                    captured,
                    APM_FRAME as nat,
                )
                &&& final(self).pending() == crate::framing::rest_of(captured, APM_FRAME as nat)
            },
            turn matches Turn::Continue { hello_due, blocks } ==> {
                let captured = match event {
                    CaptureEvent::Samples(samples) => old(self).pending() + samples@,
                    _ => old(self).pending(),
                };
                &&& hello_due <==> now - old(self).last_hello() >= 1_000_000_000
                &&& blocks@.len() == captured.len() / 480
                &&& forall|i: int|
                    0 <= i < blocks@.len() ==> (#[trigger] blocks@[i])@ == captured.subrange(
                        i * 480,
                        i * 480 + 480,
                    )
                &&& final(self).pending() == captured.subrange(
                    (blocks@.len() * 480) as int,
                    captured.len() as int,
                )
            },
            final(self).id() == old(self).id(),
            final(self).next_seq() == old(self).next_seq(),
            final(self).last_hello() == old(self).last_hello(),
            final(self).cleaned() == old(self).cleaned(),
    {
        match event {
            CaptureEvent::Samples(mut samples) => {
                self.pending.append(&mut samples);
            },
            CaptureEvent::Timeout => {
                proof {
                    assert(self.pending() =~= old(self).pending() + Seq::<S>::empty());
                }
            },
            CaptureEvent::Disconnected => {
                return Turn::Stop;
            },
        }
        let hello_due = elapsed(self.last_hello, now) >= HELLO_INTERVAL;
        let blocks = cut_blocks(&mut self.pending, APM_FRAME);
        proof {
            assert(APM_FRAME == 480);
        }
        Turn::Continue { hello_due, blocks }
    }

    /// Takes in cleaned blocks and returns the complete frames to encode.
    pub fn on_clean(&mut self, blocks: Vec<Vec<S>>) -> (frames: Vec<Vec<S>>)
        ensures
            ({
                let cleaned = old(self).cleaned() + crate::framing::contents(blocks@).flatten();
                &&& crate::framing::contents(frames@) == crate::framing::blocks_of(
                    cleaned,
                    FRAME_SAMPLES as nat,
                )
                &&& final(self).cleaned() == crate::framing::rest_of(
                    cleaned,
                    FRAME_SAMPLES as nat,
                )
            }),
            ({
                let cleaned = old(self).cleaned() + blocks@.map_values(
                    |v: Vec<S>| v@,
                ).flatten();
                &&& frames@.len() == cleaned.len() / 960
                &&& forall|i: int|
                    0 <= i < frames@.len() ==> (#[trigger] frames@[i])@ == cleaned.subrange(
                        i * 960,
                        i * 960 + 960,
                    )
                &&& final(self).cleaned() == cleaned.subrange(
                    (frames@.len() * 960) as int,
                    cleaned.len() as int,
                )
            }),
            final(self).id() == old(self).id(),
            final(self).next_seq() == old(self).next_seq(),
            final(self).last_hello() == old(self).last_hello(),
            final(self).pending() == old(self).pending(),
    {
        let ghost all = crate::framing::contents(blocks@);
        let mut i: usize = 0;
        proof {
            assert(all.subrange(0, 0).flatten() =~= Seq::<S>::empty());
        }
        while i < blocks.len()
            invariant
                i <= blocks@.len(),
                all == crate::framing::contents(blocks@),
                self.cleaned@ == old(self).cleaned@ + all.subrange(0, i as int).flatten(),
                self.my_id == old(self).my_id,
                self.seq == old(self).seq,
                self.last_hello == old(self).last_hello,
                self.pending == old(self).pending,
            decreases blocks@.len() - i,
        {
            let mut block = vstd::slice::slice_to_vec(blocks[i].as_slice());
            self.cleaned.append(&mut block);
            proof {
                all.subrange(0, i as int).lemma_flatten_push(all[i as int]);
                assert(all.subrange(0, i as int).push(all[i as int]) =~= all.subrange(0, i + 1));
                assert(self.cleaned@ =~= old(self).cleaned@ + all.subrange(0, i + 1).flatten());
            }
            i = i + 1;
        }
        proof {
            assert(all.subrange(0, i as int) =~= all);
            assert(all =~= blocks@.map_values(|v: Vec<S>| v@));
            assert(FRAME_SAMPLES == 960);
        }
        cut_blocks(&mut self.cleaned, FRAME_SAMPLES)
    }

    /// Seals one encoded frame under the next sequence number.
    pub fn seal(&mut self, crypto: &Crypto, opus_frame: &[u8]) -> (r: Result<
        Vec<u8>,
        ProtocolError,
    >)
        requires
            opus_frame@.len() <= MAX_PLAINTEXT ==> old(self).next_seq() < u64::MAX,
            crate::crypto::definite_len(opus_frame@.len() as int),
            HDR_LEN + opus_frame@.len() + TAG_LEN <= isize::MAX,
        ensures
            crate::protocol::seal_outcome(
                crypto.key(),
                old(self).id(),
                old(self).next_seq(),
                opus_frame@,
                r,
            ),
            r is Ok <==> opus_frame@.len() <= 274_877_906_816,
            r matches Err(e) ==> e == ProtocolError::EncryptionFailed,
            r matches Ok(pkt) ==> {
                &&& pkt@.len() == 13 + opus_frame@.len() + 16
                &&& pkt@[0] == 2
                &&& pkt@.subrange(1, 5) == crate::bytes::be32(old(self).id())
                &&& pkt@.subrange(5, 13) == crate::bytes::be64(old(self).next_seq())
                &&& pkt@.subrange(13, pkt@.len() as int) == crate::crypto::aead_encrypted(
                    crypto.key(),
                    crate::bytes::be32(old(self).id()) + crate::bytes::be64(old(self).next_seq()),
                    pkt@.subrange(0, 13),
                    opus_frame@,
                )
            },
            final(self).next_seq() == old(self).next_seq() + (if r is Ok {
                1int
            } else {
                0int
            }),
            final(self).id() == old(self).id(),
            final(self).last_hello() == old(self).last_hello(),
            final(self).pending() == old(self).pending(),
            final(self).cleaned() == old(self).cleaned(),
    {
        let r = crypto.seal_audio(self.my_id, self.seq, opus_frame);
        if r.is_ok() {
            self.seq = self.seq + 1;
        }
        r
    }
}

/// A client never uses a nonce twice: taken before each sealed datagram of a
/// call, the states have one id and sequence numbers that go up by one, so no
/// two of these datagrams have the same nonce.
pub proof fn law_nonces_never_repeat<S>(states: Seq<Uplink<S>>, i: int, j: int)
    requires
        forall|k: int|
            0 <= k < states.len() - 1 ==> (#[trigger] states[k + 1]).next_seq()
                == states[k].next_seq() + 1 && states[k + 1].id() == states[k].id(),
        0 <= i < j < states.len(),
    ensures
        crate::protocol::nonce_bytes(states[i].id(), states[i].next_seq())
            != crate::protocol::nonce_bytes(states[j].id(), states[j].next_seq()),
{
    lemma_rising(states, i, j);
    crate::protocol::law_nonces_are_distinct(
        states[i].id(),
        states[i].next_seq(),
        states[j].id(),
        states[j].next_seq(),
    );
}

proof fn lemma_rising<S>(states: Seq<Uplink<S>>, i: int, j: int)
    requires
        forall|k: int|
            0 <= k < states.len() - 1 ==> (#[trigger] states[k + 1]).next_seq()
                == states[k].next_seq() + 1 && states[k + 1].id() == states[k].id(),
        0 <= i < j < states.len(),
    ensures
        states[i].next_seq() < states[j].next_seq(),
    decreases j,
{
    let k = j - 1;
    assert(states[k + 1].next_seq() == states[k].next_seq() + 1);
    if i < k {
        lemma_rising(states, i, k);
    }
}

/// The state of a call whose blocks are handed on without cleaning.
pub struct RawCall<S> {
    pub pending: Seq<S>,
    pub cleaned: Seq<S>,
    pub frames: Seq<Seq<S>>,
}

/// All turns of such a call, one per chunk: each does what `on_capture` and then
/// `on_clean` do.
pub open spec fn raw_call<S>(chunks: Seq<Seq<S>>) -> RawCall<S>
    decreases chunks.len(),
{
    if chunks.len() == 0 {
        RawCall { pending: Seq::empty(), cleaned: Seq::empty(), frames: Seq::empty() }
    } else {
        let before = raw_call(chunks.drop_last());
        let captured = before.pending + chunks.last();
        let cleaned = before.cleaned + crate::framing::blocks_of(
            captured,
            APM_FRAME as nat,
        ).flatten();
        RawCall {
            pending: crate::framing::rest_of(captured, APM_FRAME as nat),
            cleaned: crate::framing::rest_of(cleaned, FRAME_SAMPLES as nat),
            frames: before.frames + crate::framing::blocks_of(cleaned, FRAME_SAMPLES as nat),
        }
    }
}

/// With processing switched off, the frames of a call are the consecutive runs
/// of 20 ms of what was captured, however it was captured, and what is not in a
/// frame yet is still held, in order.
#[verifier::spinoff_prover]
pub proof fn law_raw_call_frames_the_capture<S>(chunks: Seq<Seq<S>>)
    ensures
        raw_call(chunks).frames == crate::framing::blocks_of(
            chunks.flatten(),
            FRAME_SAMPLES as nat,
        ),
        raw_call(chunks).frames.len() == chunks.flatten().len() / 960,
        forall|i: int|
            0 <= i < raw_call(chunks).frames.len() ==> #[trigger] raw_call(chunks).frames[i]
                == chunks.flatten().subrange(i * 960, i * 960 + 960),
        raw_call(chunks).frames.flatten() + raw_call(chunks).cleaned + raw_call(chunks).pending
            == chunks.flatten(),
{
    let s = chunks.flatten();
    let whole = crate::framing::blocks_of(s, APM_FRAME as nat).flatten();
    lemma_raw_call(chunks);
    crate::framing::law_cutting_keeps_samples(s, APM_FRAME as nat);
    crate::framing::law_cutting_keeps_samples(whole, FRAME_SAMPLES as nat);
    assert(APM_FRAME == 480 && FRAME_SAMPLES == 960);
    let tail = crate::framing::rest_of(s, 480);
    assert(whole =~= s.subrange(0, s.len() - tail.len()));
    lemma_frames_of_whole_blocks(s, whole);
}

proof fn lemma_frames_of_whole_blocks<S>(s: Seq<S>, whole: Seq<S>)
    requires
        whole == s.subrange(0, (s.len() / 480 * 480) as int),
    ensures
        crate::framing::blocks_of(whole, 960) == crate::framing::blocks_of(s, 960),
{
    assert(whole.len() / 960 == s.len() / 960);
    assert forall|i: int| 0 <= i < s.len() / 960 implies #[trigger] whole.subrange(
        i * 960,
        i * 960 + 960,
    ) == s.subrange(i * 960, i * 960 + 960) by {
        assert(whole.subrange(i * 960, i * 960 + 960) =~= s.subrange(i * 960, i * 960 + 960));
    }
    assert(crate::framing::blocks_of(whole, 960) =~= crate::framing::blocks_of(s, 960));
}

proof fn lemma_raw_call<S>(chunks: Seq<Seq<S>>)
    ensures
        raw_call(chunks).pending == crate::framing::rest_of(chunks.flatten(), APM_FRAME as nat),
        ({
            let whole = crate::framing::blocks_of(chunks.flatten(), APM_FRAME as nat).flatten();
            &&& raw_call(chunks).cleaned == crate::framing::rest_of(whole, FRAME_SAMPLES as nat)
            &&& raw_call(chunks).frames == crate::framing::blocks_of(whole, FRAME_SAMPLES as nat)
        }),
    decreases chunks.len(),
{
    let s = chunks.flatten();
    let whole = crate::framing::blocks_of(s, APM_FRAME as nat).flatten();
    if chunks.len() == 0 {
        assert(APM_FRAME == 480 && FRAME_SAMPLES == 960);
        assert(s =~= Seq::<S>::empty());
        assert(crate::framing::blocks_of(s, APM_FRAME as nat) =~= Seq::empty());
        assert(whole =~= Seq::<S>::empty());
        assert(crate::framing::rest_of(s, APM_FRAME as nat) =~= Seq::empty());
        assert(crate::framing::rest_of(whole, FRAME_SAMPLES as nat) =~= Seq::empty());
        assert(crate::framing::blocks_of(whole, FRAME_SAMPLES as nat) =~= Seq::empty());
    } else {
        let before = chunks.drop_last();
        lemma_raw_call(before);
        before.lemma_flatten_push(chunks.last());
        assert(before.push(chunks.last()) =~= chunks);
        crate::framing::law_cutting_in_two_steps(
            before.flatten(),
            chunks.last(),
            APM_FRAME as nat,
        );
        let old_blocks = crate::framing::blocks_of(before.flatten(), APM_FRAME as nat);
        let new_blocks = crate::framing::blocks_of(
            raw_call(before).pending + chunks.last(),
            APM_FRAME as nat,
        );
        vstd::seq_lib::lemma_flatten_concat(old_blocks, new_blocks);
        crate::framing::law_cutting_in_two_steps(
            old_blocks.flatten(),
            new_blocks.flatten(),
            FRAME_SAMPLES as nat,
        );
    }
}

} // verus!
