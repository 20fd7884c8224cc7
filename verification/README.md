# rtc_trial

End-to-end encrypted audio call: two full-duplex clients exchange mic audio
through a relay server that only ever sees ciphertext. The decisions of both
programs are a library that is verified with Verus; sockets, sound devices,
codecs and floating-point signal processing are ordinary Rust around it.

```text
client A  <->  relay server  <->  client B
mic/speaker    (no key:          mic/speaker
               forwards
               opaque UDP)
```

## The library (`src/`)

- `protocol`: wire format, call key, sealing and opening of audio datagrams
- `crypto`: the two outside primitives, ChaCha20-Poly1305 and SHA-256, and what
  is taken for granted of them
- `bytes`: big-endian integers
- `framing`: cutting a stream of samples into blocks
- `uplink`: the send loop's state: blocks, frames, keepalives, sequence numbers
- `downlink`: which received datagrams are played; replay protection
- `playback`: the bounded playback buffer and the output callback
- `window`: which input samples a resampler needs
- `devices`: choice of a sound device by name
- `relay`: the relay's peer table
- `call`: parameters of a call

Facts about the library as a whole are public proof functions named `law_...`.
Samples are a type parameter, so that the library never computes with floating
point; times are nanoseconds on a clock of the caller's.

## The programs (`app/`)

```sh
rtc_trial server --listen 0.0.0.0:4433
rtc_trial client --server <server-ip>:4433 --secret "something shared"
```

Useful client flags: `--list-devices`, `--input-device <substr>`,
`--output-device <substr>`, `--no-send` (receive only), `--no-processing` (send
the raw mic).

A wrong `--secret` shows up as `dropping packet: decryption failed` on the
receiver.

The call key is the SHA-256 of the secret.

## Caveats

This is a test bed, not a production call stack. The pre-shared secret and its
SHA-256 stand in for an authenticated key exchange. Packet loss plays as
silence. The relay forwards to everyone in its single implicit room.
