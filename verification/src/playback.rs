//! The playback buffer between the receive loop and the sound device.

use std::collections::VecDeque;

use vstd::prelude::*;

use crate::call::{MAX_BUFFER_MS, PREBUFFER_MS};

verus! {

/// How many samples at `rate` the playback buffer may hold.
pub fn max_buffer_samples(rate: u32) -> (n: usize)
    ensures
        n == rate * MAX_BUFFER_MS / 1000,
        n == rate * 500 / 1000,
{
    (rate as u64 * MAX_BUFFER_MS / 1000) as usize
}

/// How many samples at `rate` are collected before playback starts, so that it
/// does not stutter on the very first datagrams.
pub fn prebuffer_samples(rate: u32) -> (n: usize)
    ensures
        n == rate * PREBUFFER_MS / 1000,
        n == rate * 60 / 1000,
{
    (rate as u64 * PREBUFFER_MS / 1000) as usize
}

/// The buffer contents after a trim: once there are more than `max` samples,
/// only the newest `max / 2` stay.
pub open spec fn trimmed<S>(samples: Seq<S>, max: nat) -> Seq<S> {
    if samples.len() > max {
        samples.subrange(samples.len() - max / 2, samples.len() as int)
    } else {
        samples
    }
}

/// Queues decoded samples for playback, and drops the oldest audio if that
/// makes the latency too long.
pub fn enqueue<S: Copy>(queue: &mut VecDeque<S>, samples: &[S], max_buffer: usize)
    ensures
        final(queue)@ == trimmed(old(queue)@ + samples@, max_buffer as nat),
        old(queue)@.len() + samples@.len() <= max_buffer ==> final(queue)@ == old(queue)@
            + samples@,
        old(queue)@.len() + samples@.len() > max_buffer ==> final(queue)@.len() == max_buffer / 2
            && final(queue)@ == (old(queue)@ + samples@).subrange(
            old(queue)@.len() + samples@.len() - max_buffer / 2,
            (old(queue)@.len() + samples@.len()) as int,
        ),
{
    let ghost all = old(queue)@ + samples@;
    let mut i: usize = 0;
    while i < samples.len()
        invariant
            i <= samples@.len(),
            queue@ == old(queue)@ + samples@.subrange(0, i as int),
        decreases samples@.len() - i,
    {
        queue.push_back(samples[i]);
        i = i + 1;
        proof {
            assert(queue@ =~= old(queue)@ + samples@.subrange(0, i as int));
        }
    }
    proof {
        assert(queue@ =~= all);
    }
    if queue.len() > max_buffer {
        let keep: usize = max_buffer / 2;
        while queue.len() > keep
            invariant
                keep <= queue@.len() <= all.len(),
                queue@ == all.subrange(all.len() - queue@.len(), all.len() as int),
            decreases queue@.len(),
        {
            let _ = queue.pop_front();
        }
    }
}

/// Whether queued audio is played in this callback: not until the prebuffer is
/// full, and after an underrun not until it is full again.
pub open spec fn plays(started: bool, queued: nat, prebuffer: nat) -> bool {
    queued > 0 && (started || queued >= prebuffer)
}

/// How many frames an output of `len` samples has, an incomplete one included.
pub open spec fn frame_count(len: nat, channels: nat) -> int {
    (len + channels - 1) / (channels as int)
}

/// How many queued samples a callback for `len` output samples plays.
pub open spec fn taken(playing: bool, queued: nat, len: nat, channels: nat) -> int {
    if !playing {
        0
    } else if frame_count(len, channels) < queued {
        frame_count(len, channels)
    } else {
        queued as int
    }
}

/// The output of a callback: each queued sample on every channel of its frame,
/// and silence where there is none.
pub open spec fn output<S>(
    queue: Seq<S>,
    playing: bool,
    len: nat,
    channels: nat,
    silence: S,
) -> Seq<S> {
    Seq::new(
        len,
        |x: int|
            if playing && x / (channels as int) < queue.len() {
                queue[x / (channels as int)]
            } else {
                silence
            },
    )
}

/// Whether playback is running, and when it may start.
pub struct Player {
    started: bool,
    prebuffer: usize,
}

impl Player {
    /// Playback was running at the end of the last callback.
    pub closed spec fn started(&self) -> bool {
        self.started
    }

    /// How many samples must be queued before playback starts.
    pub closed spec fn prebuffer(&self) -> nat {
        self.prebuffer as nat
    }

    /// A player that waits for `prebuffer` samples.
    pub fn new(prebuffer: usize) -> (r: Self)
        ensures
            !r.started(),
            r.prebuffer() == prebuffer,
    {
        Player { started: false, prebuffer }
    }

    /// Fills one output buffer of interleaved frames from the queue.
    pub fn render<S: Copy>(
        &mut self,
        queue: &mut VecDeque<S>,
        out: &mut [S],
        channels: usize,
        silence: S,
    )
        requires
            channels > 0,
        ensures
            final(self).started() == plays(
                old(self).started(),
                old(queue)@.len(),
                old(self).prebuffer(),
            ),
            final(self).prebuffer() == old(self).prebuffer(),
            final(out)@ == output(
                old(queue)@,
                final(self).started(),
                old(out)@.len(),
                channels as nat,
                silence,
            ),
            final(queue)@ == old(queue)@.subrange(
                taken(
                    final(self).started(),
                    old(queue)@.len(),
                    old(out)@.len(),
                    channels as nat,
                ),
                old(queue)@.len() as int,
            ),
            final(self).started() <==> old(queue)@.len() > 0 && (old(self).started() || old(
                queue,
            )@.len() >= old(self).prebuffer()),
            final(out)@.len() == old(out)@.len(),
            forall|x: int|
                0 <= x < old(out)@.len() ==> #[trigger] final(out)@[x] == (if final(self).started()
                    && x / (channels as int) < old(queue)@.len() {
                    old(queue)@[x / (channels as int)]
                } else {
                    silence
                }),
            !final(self).started() ==> final(queue)@ == old(queue)@,
            final(self).started() && old(queue)@.len() * channels <= old(out)@.len()
                ==> final(queue)@.len() == 0,
            final(self).started() && old(queue)@.len() * channels > old(out)@.len() ==> {
                let frames = (old(out)@.len() + channels - 1) / (channels as int);
                &&& frames <= old(queue)@.len()
                &&& final(queue)@ == old(queue)@.subrange(frames, old(queue)@.len() as int)
            },
    {
        if !self.started && queue.len() >= self.prebuffer {
            self.started = true;
        }
        if self.started && queue.len() == 0 {
            self.started = false;
        }
        let ghost q = queue@;
        let ghost playing = self.started;
        let len: usize = out.len();
        let mut at: usize = 0;
        let ghost mut frame: int = 0;
        while at < len
            invariant
                channels > 0,
                len == out@.len(),
                at <= len,
                0 <= frame,
                at == frame * channels || (at == len && frame > 0 && (frame - 1) * channels < len
                    <= frame * channels),
                playing == self.started,
                queue@ == q.subrange(
                    if !playing {
                        0
                    } else if frame < q.len() {
                        frame
                    } else {
                        q.len() as int
                    },
                    q.len() as int,
                ),
                forall|x: int|
                    0 <= x < at ==> out@[x] == output(
                        q,
                        playing,
                        len as nat,
                        channels as nat,
                        silence,
                    )[x],
            decreases len - at,
        {
            let sample = if self.started {
                match queue.pop_front() {
                    Some(sample) => sample,
                    None => silence,
                }
            } else {
                silence
            };
            let ghost from = at;
            let mut c: usize = 0;
            while c < channels && at < len
                invariant
                    len == out@.len(),
                    at <= len,
                    c <= channels,
                    at == from + c,
                    forall|x: int|
                        0 <= x < from ==> out@[x] == output(
                            q,
                            playing,
                            len as nat,
                            channels as nat,
                            silence,
                        )[x],
                    forall|x: int| from <= x < at ==> out@[x] == sample,
                decreases channels - c,
            {
                out[at] = sample;
                at = at + 1;
                c = c + 1;
            }
            proof {
                assert forall|x: int| from <= x < at implies #[trigger] out@[x] == output(
                    q,
                    playing,
                    len as nat,
                    channels as nat,
                    silence,
                )[x] by {
                    crate::framing::lemma_quotient(x, channels as int, frame);
                }
                crate::framing::lemma_next_multiple(frame, channels as int);
                frame = frame + 1;
            }
        }
        proof {
            lemma_frame_count(len as int, channels as int, frame);
            assert(out@ =~= output(q, playing, len as nat, channels as nat, silence));
            law_what_is_played_leaves_the_queue(q.len(), len as nat, channels as nat);
            assert(q.subrange(0, q.len() as int) =~= q);
        }
    }
}

proof fn lemma_frame_count(len: int, channels: int, frame: int)
    requires
        channels > 0,
        len >= 0,
        frame >= 0,
        len == frame * channels || (frame > 0 && (frame - 1) * channels < len <= frame * channels),
    ensures
        frame_count(len as nat, channels as nat) == frame,
{
    crate::framing::lemma_next_multiple(frame - 1, channels);
    crate::framing::lemma_quotient(len + channels - 1, channels, frame);
}

/// However much arrives, the buffer never holds more than its bound after
/// samples were queued, and what it holds is the newest audio, in order.
pub proof fn law_latency_is_capped<S>(queue: Seq<S>, samples: Seq<S>, max_buffer: nat)
    ensures
        trimmed(queue + samples, max_buffer).len() <= max_buffer,
        trimmed(queue + samples, max_buffer).is_suffix_of(queue + samples),
{
    let all = queue + samples;
    let kept = trimmed(all, max_buffer);
    assert(all.subrange(all.len() - kept.len(), all.len() as int) =~= kept);
}

/// Nothing is dropped within the bound: if what is queued and what arrives is
/// together no longer than the bound, the buffer then holds all of it, in order.
/// If it is longer, exactly the newest half of the bound stays.
pub proof fn law_nothing_is_dropped_within_the_bound<S>(
    queue: Seq<S>,
    samples: Seq<S>,
    max_buffer: nat,
)
    ensures
        queue.len() + samples.len() <= max_buffer ==> trimmed(queue + samples, max_buffer) == queue
            + samples,
        queue.len() + samples.len() > max_buffer ==> {
            let all = queue + samples;
            let kept = trimmed(all, max_buffer);
            &&& kept.len() == max_buffer / 2
            &&& all == all.subrange(0, all.len() - kept.len()) + kept
        },
{
    let all = queue + samples;
    let kept = trimmed(all, max_buffer);
    if all.len() > max_buffer {
        assert(all =~= all.subrange(0, all.len() - kept.len()) + kept);
    }
}

/// A player plays exactly if something is queued and it was playing before or the
/// queue has reached the prebuffer.
pub proof fn law_playback_starts_and_stops(started: bool, queued: nat, prebuffer: nat)
    ensures
        queued == 0 ==> !plays(started, queued, prebuffer),
        queued > 0 && started ==> plays(started, queued, prebuffer),
        queued > 0 && queued >= prebuffer ==> plays(started, queued, prebuffer),
        !started && queued < prebuffer ==> !plays(started, queued, prebuffer),
{
}

/// A running player takes from the queue as many samples as the output has frames,
/// an incomplete one included, or all of them if there are fewer; a silent one
/// takes none.
pub proof fn law_what_is_played_leaves_the_queue(queued: nat, len: nat, channels: nat)
    requires
        channels > 0,
    ensures
        taken(false, queued, len, channels) == 0,
        queued * channels <= len ==> taken(true, queued, len, channels) == queued,
        queued * channels > len ==> {
            let n = taken(true, queued, len, channels);
            &&& 0 <= n <= queued
            &&& n == (len + channels - 1) / (channels as int)
            &&& (n - 1) * channels < len <= n * channels
        },
{
    let n = frame_count(len, channels);
    let rest = (len + channels - 1) % (channels as int);
    vstd::arithmetic::div_mod::lemma_fundamental_div_mod(len + channels - 1, channels as int);
    vstd::arithmetic::div_mod::lemma_mod_bound(len + channels - 1, channels as int);
    assert((n - 1) * channels < len <= n * channels && n >= 0) by (nonlinear_arith)
        requires
            channels > 0,
            len >= 0,
            len + channels - 1 == channels * n + rest,
            0 <= rest < channels,
    ;
    if queued * channels <= len {
        assert(queued <= n) by (nonlinear_arith)
            requires
                channels > 0,
                queued * channels <= len <= n * channels,
        ;
    } else {
        assert(n <= queued) by (nonlinear_arith)
            requires
                channels > 0,
                (n - 1) * channels < len < queued * channels,
        ;
    }
}

/// Until the prebuffer is full a stopped player is silent and keeps every queued
/// sample; so does any player whose queue ran empty.
pub proof fn law_silent_until_prebuffered<S>(
    queue: Seq<S>,
    started: bool,
    prebuffer: nat,
    len: nat,
    channels: nat,
    silence: S,
)
    requires
        queue.len() == 0 || (!started && queue.len() < prebuffer),
    ensures
        !plays(started, queue.len(), prebuffer),
        output(queue, plays(started, queue.len(), prebuffer), len, channels, silence) == Seq::new(
            len,
            |x: int| silence,
        ),
        taken(plays(started, queue.len(), prebuffer), queue.len(), len, channels) == 0,
{
    assert(output(queue, false, len, channels, silence) =~= Seq::new(len, |x: int| silence));
}

/// A running player plays the queue from its front, one sample per frame on all
/// channels alike, and every sample either in this callback or later.
pub proof fn law_played_in_order<S>(
    queue: Seq<S>,
    len: nat,
    channels: nat,
    silence: S,
    frame: int,
    channel: int,
)
    requires
        channels > 0,
        0 <= frame,
        0 <= channel < channels,
        frame * channels + channel < len,
    ensures
        frame < taken(true, queue.len(), len, channels) <==> frame < queue.len(),
        output(queue, true, len, channels, silence).len() == len,
        output(queue, true, len, channels, silence)[frame * channels + channel] == (if frame
            < queue.len() {
            queue[frame]
        } else {
            silence
        }),
        taken(true, queue.len(), len, channels) <= queue.len(),
{
    let x = frame * channels + channel;
    assert(0 <= frame * channels) by (nonlinear_arith)
        requires
            0 <= frame,
            channels > 0,
    ;
    crate::framing::lemma_quotient(x, channels as int, frame);
    let n = frame_count(len, channels);
    vstd::arithmetic::div_mod::lemma_fundamental_div_mod(len + channels - 1, channels as int);
    assert(frame < n) by (nonlinear_arith)
        requires
            channels > 0,
            0 <= channel,
            frame * channels + channel < len,
            len + channels - 1 == channels * n + (len + channels - 1) % (channels as int),
            (len + channels - 1) % (channels as int) < channels,
    ;
}

} // verus!
