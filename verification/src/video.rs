//! The video channel: which formats the remote side offers, the one selected, and what its
//! feedback asks for.
use vstd::prelude::*;

use crate::codec::{CodecView, FormatTable, RTCRtpCodecParameters};
use crate::error::AppError;
use crate::relay::{self, FrameRelay, Message};
use crate::sdp::{self, get_video_formats, Session};
use crate::video_format::{VideoFormat, VideoFormats};

verus! {

/// What the video channel asks of the stream.
#[derive(Clone, Copy, Debug, PartialEq, Eq, Structural)]
pub enum VideoChannelEvent {
    /// The receiver needs a frame that can be decoded on its own.
    SignalIdr,
}

/// An RTCP packet, as far as the video channel tells them apart.
#[derive(Clone, Copy, Debug, PartialEq, Eq, Structural)]
pub enum RtcpPacket {
    PictureLossIndication,
    ReceiverEstimatedMaximumBitrate,
    Other,
}

/// Where a video channel stands.
#[derive(Clone, Copy, Debug, PartialEq, Eq, Structural)]
pub enum State {
    /// No format has been selected yet.
    SelectVideoFormat,
    /// A selection is under way, or one has failed.
    Panic,
    /// A track carries frames.
    Sending,
}

/// The video channel of one peer.
pub struct VideoChannel {
    video_formats: FormatTable,
    state: State,
}

/// The contents of a [`VideoChannel`].
pub struct VideoChannelView {
    pub formats: Map<VideoFormat, CodecView>,
    pub state: State,
}

impl View for VideoChannel {
    type V = VideoChannelView;

    closed spec fn view(&self) -> VideoChannelView {
        VideoChannelView { formats: self.video_formats@, state: self.state }
    }
}

impl VideoChannelView {
    /// The channel once a format has been selected: the format is taken out of the table, and the
    /// channel waits for its track.
    pub open spec fn selecting(self, format: VideoFormat) -> VideoChannelView {
        VideoChannelView { formats: self.formats.remove(format), state: State::Panic }
    }

    /// The channel once its track has been added.
    pub open spec fn sending(self) -> VideoChannelView {
        VideoChannelView { state: State::Sending, ..self }
    }
}

/// A channel that waits for a format, with those of `formats` that are preferred.
pub open spec fn channel_start(
    formats: Map<VideoFormat, CodecView>,
    preferred: Set<VideoFormat>,
) -> VideoChannelView {
    VideoChannelView { formats: formats.restrict(preferred), state: State::SelectVideoFormat }
}

/// The track that carries a selected format.
pub struct VideoTrack {
    pub format: VideoFormat,
    pub codec: RTCRtpCodecParameters,
    pub id: String,
    pub stream_id: String,
}

impl VideoChannel {
    /// The channel for a session description. Of the formats that the description offers, those
    /// that are not preferred are left out.
    pub fn new(sdp: &Session, preferred_formats: VideoFormats) -> (channel: Result<Self, AppError>)
        ensures
            channel is Ok,
            exists|order: Seq<u8>|
                sdp::lists_codecs(sdp::attributes_of(sdp.medias@), order) && channel->Ok_0@
                    == channel_start(
                    #[trigger] sdp::offered_in_order(sdp::attributes_of(sdp.medias@), order),
                    preferred_formats@,
                ),
    {
        Ok(VideoChannel::with_formats(get_video_formats(sdp), preferred_formats))
    }

    /// The channel for a table of formats, of which those that are not preferred are left out.
    pub fn with_formats(formats: FormatTable, preferred_formats: VideoFormats) -> (channel: Self)
        ensures
            channel@ == channel_start(formats@, preferred_formats@),
    {
        let mut video_formats = formats;
        let all = VideoFormat::all();
        let ghost offered = formats@;
        let mut i: usize = 0;
        // Remove all not preferred codecs
        while i < all.len()
            invariant
                i <= all.len(),
                all@ == VideoFormat::every(),
                forall|f: VideoFormat| #[trigger]
                    video_formats@.contains_key(f) <==> offered.contains_key(f) && (f.ordinal() < i
                        ==> preferred_formats@.contains(f)),
                forall|f: VideoFormat| #[trigger]
                    video_formats@.contains_key(f) ==> video_formats@[f] == offered[f],
            decreases all.len() - i,
        {
            let format = all[i];
            proof {
                assert(format.ordinal() == i);
                assert forall|f: VideoFormat| f.ordinal() == i implies f == format by {
                    crate::video_format::lemma_ordinal(f, format);
                }
            }
            if !format.contained_in(preferred_formats) {
                video_formats.remove(format);
            }
            i = i + 1;
        }
        proof {
            assert forall|f: VideoFormat| f.ordinal() < i by {
                crate::video_format::lemma_ordinal(f, f);
            }
            assert(video_formats@ =~= offered.restrict(preferred_formats@));
        }
        VideoChannel { video_formats, state: State::SelectVideoFormat }
    }

    /// The formats that can be selected, with their codecs.
    pub fn supported_video_formats(&self) -> (formats: &FormatTable)
        ensures
            formats@ == self@.formats,
    {
        &self.video_formats
    }

    /// Tells whether a track carries frames.
    pub fn is_sending(&self) -> (sending: bool)
        ensures
            sending == (self@.state == State::Sending),
    {
        match self.state {
            State::Sending => true,
            _ => false,
        }
    }

    /// Selects a format and says which track has to be added for it. The caller adds the track
    /// and reports with [`VideoChannel::on_track_added`]; until then no frame is taken.
    pub fn on_video_format_selected(&mut self, format: VideoFormat) -> (track: Result<
        VideoTrack,
        AppError,
    >)
        ensures
            final(self)@ == old(self)@.selecting(format),
            track is Ok <==> old(self)@.formats.contains_key(format),
            match track {
                Ok(t) => {
                    &&& t.format == format
                    &&& t.codec@ == old(self)@.formats[format]
                    &&& t.id@ == "video"@
                    &&& t.stream_id@ == "moonlight"@
                },
                Err(e) => e == AppError::WebRtcClientCodecNotSupported,
            },
    {
        self.state = State::Panic;

        // Check video format
        match self.video_formats.remove(format) {
            Some(codec) => Ok(
                VideoTrack {
                    format,
                    codec,
                    id: "video".to_string(),
                    stream_id: "moonlight".to_string(),
                },
            ),
            None => Err(AppError::WebRtcClientCodecNotSupported),
        }
    }

    /// The track has been added: from here on frames are taken. Returns the relay for the track.
    pub fn on_track_added<H>(&mut self, track: &VideoTrack) -> (relay: FrameRelay<H>)
        ensures
            final(self)@ == old(self)@.sending(),
            relay@ == relay::relay_start::<H>(
                track.format,
                track.codec.payload_type,
                track.codec.capability.clock_rate,
            ),
    {
        self.state = State::Sending;
        FrameRelay::new(track.format, track.codec.payload_type, track.codec.capability.clock_rate)
    }

    /// What to send to the relay for a frame.
    pub fn on_frame<F, H>(&self, frame: F) -> (message: Message<F, H>)
        requires
            self@.state == State::Sending,
        ensures
            message == Message::<F, H>::Frame(frame),
    {
        Message::Frame(frame)
    }

    /// What to send to the relay when HDR is switched on or off.
    pub fn set_hdr_enabled<F, H>(&self, _enabled: bool, metadata: Option<H>) -> (message: Message<
        F,
        H,
    >)
        requires
            self@.state == State::Sending,
        ensures
            message == Message::<F, H>::HdrMetadata(metadata),
    {
        Message::HdrMetadata(metadata)
    }

    /// What the outcome of one read of RTCP feedback asks for; `None` where the reading has to go
    /// on. A failed read is passed over.
    pub fn drive<E>(&self, read: Result<Vec<RtcpPacket>, E>) -> (event: Option<VideoChannelEvent>)
        requires
            self@.state == State::Sending,
        ensures
            event is Some <==> (read matches Ok(packets) && packets@.contains(
                RtcpPacket::PictureLossIndication,
            )),
            event matches Some(e) ==> e == VideoChannelEvent::SignalIdr,
    {
        let packets = match read {
            Ok(packets) => packets,
            Err(_) => return None,
        };
        let mut i: usize = 0;
        while i < packets.len()
            invariant
                i <= packets.len(),
                read == Ok::<Vec<RtcpPacket>, E>(packets),
                forall|j: int|
                    0 <= j < i ==> packets@[j] != RtcpPacket::PictureLossIndication,
            decreases packets.len() - i,
        {
            match packets[i] {
                RtcpPacket::PictureLossIndication => {
                    assert(packets@[i as int] == RtcpPacket::PictureLossIndication);
                    return Some(VideoChannelEvent::SignalIdr);
                },
                RtcpPacket::ReceiverEstimatedMaximumBitrate => {},
                RtcpPacket::Other => {},
            }
            i = i + 1;
        }
        None
    }
}

/// A format can be selected once: whatever came of selecting it, it is no longer offered, and all
/// other formats are offered as before.
pub proof fn law_format_is_selected_once(
    channel: VideoChannelView,
    format: VideoFormat,
    other: VideoFormat,
)
    ensures
        !channel.selecting(format).formats.contains_key(format),
        !channel.selecting(format).sending().formats.contains_key(format),
        other != format ==> (channel.selecting(format).formats.contains_key(other)
            <==> channel.formats.contains_key(other)),
        other != format && channel.formats.contains_key(other) ==> channel.selecting(
            format,
        ).formats[other] == channel.formats[other],
{
}

/// A channel takes frames only once a track has been added: neither a fresh channel nor one with
/// a selection under way does.
pub proof fn law_frames_need_a_track(
    formats: Map<VideoFormat, CodecView>,
    preferred: Set<VideoFormat>,
    channel: VideoChannelView,
    format: VideoFormat,
)
    ensures
        channel_start(formats, preferred).state != State::Sending,
        channel.selecting(format).state != State::Sending,
        channel.sending().state == State::Sending,
{
}

/// A channel offers a format exactly where the session description offers it and it is preferred.
pub proof fn law_offers_what_is_preferred(
    formats: Map<VideoFormat, CodecView>,
    preferred: Set<VideoFormat>,
    format: VideoFormat,
)
    ensures
        channel_start(formats, preferred).formats.contains_key(format) <==> formats.contains_key(
            format,
        ) && preferred.contains(format),
        channel_start(formats, preferred).formats.contains_key(format) ==> channel_start(
            formats,
            preferred,
        ).formats[format] == formats[format],
{
}

/// Adding the track changes nothing about the formats that can still be selected.
pub proof fn law_track_keeps_the_formats(channel: VideoChannelView)
    ensures
        channel.sending().formats == channel.formats,
        channel.sending().state == State::Sending,
{
}

/// A selection, whatever comes of it, ends what the channel did before: no format that was not
/// offered comes to be offered, and no frame is taken until a track has been added.
pub proof fn law_selection_adds_no_format(
    channel: VideoChannelView,
    format: VideoFormat,
    other: VideoFormat,
)
    ensures
        channel.selecting(format).formats.contains_key(other) ==> channel.formats.contains_key(other)
            && channel.selecting(format).formats[other] == channel.formats[other] && other
            != format,
        channel.selecting(format).state == State::Panic,
{
}

} // verus!
