//! The verified core of an end-to-end encrypted audio call.
//!
//! Two clients exchange microphone audio through a relay that only ever sees
//! ciphertext. This crate holds every decision of the two programs: the wire
//! format and its encryption, the cutting of captured audio into frames, the
//! keepalive schedule, replay protection, the playback buffer, the choice of
//! an audio device, and the relay's peer table. Sockets, sound devices, codecs
//! and floating-point signal processing stay with the callers.

pub mod bytes;
pub mod call;
pub mod crypto;
pub mod devices;
pub mod downlink;
pub mod framing;
pub mod playback;
pub mod protocol;
pub mod relay;
pub mod uplink;
pub mod window;
