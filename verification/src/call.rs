//! The fixed parameters of a call, and what its switches ask for.

use vstd::prelude::*;

verus! {

/// The call always runs at 48 kHz mono; device rates are resampled to match.
pub const CALL_RATE: u32 = 48000;

/// Samples in one Opus frame of 20 ms.
pub const FRAME_SAMPLES: usize = (CALL_RATE as usize) * 20 / 1000;

/// Samples in one block of 10 ms, the unit of the audio processing module.
pub const APM_FRAME: usize = (CALL_RATE as usize) * 10 / 1000;

/// Playback latency bound: if the jitter buffer grows past this, the oldest
/// audio is dropped instead of drifting ever further behind.
pub const MAX_BUFFER_MS: u64 = 500;

/// How much audio is collected before playback starts.
pub const PREBUFFER_MS: u64 = 60;

/// Nanoseconds between two keepalives.
pub const HELLO_INTERVAL: u128 = 1_000_000_000;

/// Nanoseconds after which a silent peer is dropped by the relay.
pub const PEER_TIMEOUT: u128 = 10_000_000_000;

/// What happens to the microphone.
#[derive(Debug, Clone, Copy, PartialEq, Eq, Structural)]
pub enum MicMode {
    /// Nothing is captured or sent; only keepalives go out.
    Muted,
    /// The captured signal is sent as it is.
    Raw,
    /// The captured signal is cleaned up before it is sent.
    Processed,
}

/// What the switches `--no-send` and `--no-processing` ask for. Without capture
/// there is no echo to cancel, so a muted call needs no processing either.
pub fn mic_mode(no_send: bool, no_processing: bool) -> (m: MicMode)
    ensures
        m == MicMode::Muted <==> no_send,
        m == MicMode::Processed <==> !no_send && !no_processing,
{
    if no_send {
        MicMode::Muted
    } else if no_processing {
        MicMode::Raw
    } else {
        MicMode::Processed
    }
}

/// How long ago `then` was at `now`; a clock that went backwards counts as no
/// time at all.
pub open spec fn elapsed_time(then: u128, now: u128) -> int {
    if now >= then {
        now - then
    } else {
        0
    }
}

/// Later by some span is that span ago, whenever it began; what is still to come is
/// no time ago.
pub proof fn law_elapsed_time_is_the_difference(then: u128, now: u128)
    ensures
        now >= then ==> then + elapsed_time(then, now) == now,
        now < then ==> elapsed_time(then, now) == 0,
{
}

/// How long ago `then` was at `now`.
pub fn elapsed(then: u128, now: u128) -> (d: u128)
    ensures
        d == elapsed_time(then, now),
        now >= then ==> d == now - then,
        now < then ==> d == 0,
{
    if now >= then {
        now - then
    } else {
        0
    }
}

} // verus!
