//! Errors of the channels.
use vstd::prelude::*;

verus! {

#[derive(Clone, Copy, Debug, PartialEq, Eq, Structural)]
pub enum AppError {
    /// The client does not support the selected codec.
    WebRtcClientCodecNotSupported,
}

} // verus!
