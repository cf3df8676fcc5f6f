//! Relaying a Moonlight stream to a WebRTC peer: which codecs the peer offers, how frames become
//! RTP packets, and what the events of the stream, the peer and the channels call for.
pub mod codec;
pub mod control;
pub mod error;
pub mod payload;
pub mod relay;
pub mod sdp;
pub mod stream;
pub mod text;
pub mod video;
pub mod video_format;
