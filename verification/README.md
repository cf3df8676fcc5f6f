# webrtc_relay

The logic of relaying a Moonlight game stream to a WebRTC peer, verified with Verus.

- `src/sdp.rs` reads the video codecs that a session description offers; `src/codec.rs` and
  `src/video_format.rs` hold what is known of them, `src/text.rs` the operations on text.
- `src/payload.rs` and `src/relay.rs` split encoded frames into numbered RTP packets.
- `src/video.rs` and `src/control.rs` are the video and the control channel,
  `src/stream.rs` the main loop between them and the stream.
- `app/` is the I/O around the library: peer connection, tracks, data channels and the stream.

Public proof functions named `law_..` state what holds of the library as a whole.
