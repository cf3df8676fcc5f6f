//! What is known of a codec that the remote side offers, and the table of such codecs by video
//! format.
use std::collections::HashMap;

use vstd::prelude::*;
use webrtc::api::media_engine::{MIME_TYPE_AV1, MIME_TYPE_H264, MIME_TYPE_HEVC};

use crate::video_format::{CodecFamily, VideoFormat};

verus! {

broadcast use vstd::std_specs::hash::group_hash_axioms;

/// A kind of RTCP feedback that the receiver may send.
#[derive(Debug, PartialEq, Eq)]
pub struct RTCPFeedback {
    pub typ: String,
    pub parameter: String,
}

/// What a codec can do: its media type, its clock and its parameters.
#[derive(Debug, PartialEq, Eq)]
pub struct RTCRtpCodecCapability {
    pub mime_type: String,
    pub clock_rate: u32,
    pub channels: u16,
    pub sdp_fmtp_line: String,
    pub rtcp_feedback: Vec<RTCPFeedback>,
}

/// A codec under the payload type that it was given.
#[derive(Debug, PartialEq, Eq)]
pub struct RTCRtpCodecParameters {
    pub capability: RTCRtpCodecCapability,
    pub payload_type: u8,
    pub stats_id: String,
}

/// The text of an [`RTCPFeedback`].
pub struct FeedbackView {
    pub typ: Seq<char>,
    pub parameter: Seq<char>,
}

/// The contents of an [`RTCRtpCodecCapability`].
pub struct CapabilityView {
    pub mime_type: Seq<char>,
    pub clock_rate: u32,
    pub channels: u16,
    pub sdp_fmtp_line: Seq<char>,
    pub rtcp_feedback: Seq<FeedbackView>,
}

/// The contents of an [`RTCRtpCodecParameters`].
pub struct CodecView {
    pub capability: CapabilityView,
    pub payload_type: u8,
    pub stats_id: Seq<char>,
}

impl View for RTCPFeedback {
    type V = FeedbackView;

    open spec fn view(&self) -> FeedbackView {
        FeedbackView { typ: self.typ@, parameter: self.parameter@ }
    }
}

impl View for RTCRtpCodecCapability {
    type V = CapabilityView;

    open spec fn view(&self) -> CapabilityView {
        CapabilityView {
            mime_type: self.mime_type@,
            clock_rate: self.clock_rate,
            channels: self.channels,
            sdp_fmtp_line: self.sdp_fmtp_line@,
            rtcp_feedback: self.rtcp_feedback@.map_values(|f: RTCPFeedback| f@),
        }
    }
}

impl View for RTCRtpCodecParameters {
    type V = CodecView;

    open spec fn view(&self) -> CodecView {
        CodecView {
            capability: self.capability@,
            payload_type: self.payload_type,
            stats_id: self.stats_id@,
        }
    }
}

/// The MIME type of a codec family.
pub open spec fn mime_type(family: CodecFamily) -> Seq<char> {
    match family {
        CodecFamily::H264 => "video/H264"@,
        CodecFamily::H265 => "video/H265"@,
        CodecFamily::Av1 => "video/AV1"@,
    }
}

/// Reads the constant [`webrtc::api::media_engine::MIME_TYPE_H264`], which is `video/H264`.
#[verifier::external_body]
fn mime_type_h264() -> (text: String)
    ensures
        text@ == "video/H264"@,
{
    MIME_TYPE_H264.to_string()
}

/// Reads the constant [`webrtc::api::media_engine::MIME_TYPE_HEVC`], which is `video/H265`.
#[verifier::external_body]
fn mime_type_hevc() -> (text: String)
    ensures
        text@ == "video/H265"@,
{
    MIME_TYPE_HEVC.to_string()
}

/// Reads the constant [`webrtc::api::media_engine::MIME_TYPE_AV1`], which is `video/AV1`.
#[verifier::external_body]
fn mime_type_av1() -> (text: String)
    ensures
        text@ == "video/AV1"@,
{
    MIME_TYPE_AV1.to_string()
}

/// The feedback asked of the receiver: negative acknowledgement, picture loss indication (which
/// calls for an IDR frame) and the estimated maximum bitrate.
pub open spec fn feedback_kinds() -> Seq<FeedbackView> {
    seq![
        FeedbackView { typ: "nack"@, parameter: ""@ },
        FeedbackView { typ: "nack"@, parameter: "pli"@ },
        FeedbackView { typ: "goog-remb"@, parameter: ""@ },
    ]
}

/// The feedback asked of the receiver.
pub fn rtcp_feedback() -> (feedback: Vec<RTCPFeedback>)
    ensures
        feedback@.map_values(|f: RTCPFeedback| f@) == feedback_kinds(),
{
    let feedback = vec![
        // negative acknowledgement
        RTCPFeedback { typ: "nack".to_string(), parameter: "".to_string() },
        // picture loss indicator (idr)
        RTCPFeedback { typ: "nack".to_string(), parameter: "pli".to_string() },
        // receiver estimated maximum bitrate
        RTCPFeedback { typ: "goog-remb".to_string(), parameter: "".to_string() },
    ];
    assert(feedback@.map_values(|f: RTCPFeedback| f@) =~= feedback_kinds());
    feedback
}

/// What is offered for a codec of `family` under `payload_type`.
pub open spec fn offer(
    family: CodecFamily,
    payload_type: u8,
    clock_rate: u32,
    fmtp_line: Seq<char>,
) -> CodecView {
    CodecView {
        capability: CapabilityView {
            mime_type: mime_type(family),
            clock_rate,
            channels: 0,
            sdp_fmtp_line: fmtp_line,
            rtcp_feedback: feedback_kinds(),
        },
        payload_type,
        stats_id: Seq::empty(),
    }
}

/// The parameters of a codec of `family` under `payload_type`.
pub fn codec_parameters(
    family: CodecFamily,
    payload_type: u8,
    clock_rate: u32,
    fmtp_line: &str,
) -> (codec: RTCRtpCodecParameters)
    ensures
        codec@ == offer(family, payload_type, clock_rate, fmtp_line@),
{
    let mime_type = match family {
        CodecFamily::H264 => mime_type_h264(),
        CodecFamily::H265 => mime_type_hevc(),
        CodecFamily::Av1 => mime_type_av1(),
    };
    RTCRtpCodecParameters {
        capability: RTCRtpCodecCapability {
            mime_type,
            clock_rate,
            channels: 0,
            sdp_fmtp_line: fmtp_line.to_string(),
            rtcp_feedback: rtcp_feedback(),
        },
        payload_type,
        stats_id: String::new(),
    }
}

/// Codec parameters by video format.
pub struct FormatTable {
    codecs: HashMap<u8, RTCRtpCodecParameters>,
}

impl View for FormatTable {
    type V = Map<VideoFormat, CodecView>;

    closed spec fn view(&self) -> Map<VideoFormat, CodecView> {
        Map::new(
            |format: VideoFormat| self.codecs@.contains_key(format.ordinal()),
            |format: VideoFormat| self.codecs@[format.ordinal()]@,
        )
    }
}

impl FormatTable {
    /// An empty table.
    pub fn new() -> (table: FormatTable)
        ensures
            table@ == Map::<VideoFormat, CodecView>::empty(),
    {
        let table = FormatTable { codecs: HashMap::new() };
        assert(table@ =~= Map::<VideoFormat, CodecView>::empty());
        table
    }

    /// Enters `codec` for `format`, in place of what stood there.
    pub fn insert(&mut self, format: VideoFormat, codec: RTCRtpCodecParameters)
        ensures
            final(self)@ == old(self)@.insert(format, codec@),
    {
        self.codecs.insert(format.index(), codec);
        assert(self@ =~= old(self)@.insert(format, codec@));
    }

    /// Takes the entry of `format` out of the table.
    pub fn remove(&mut self, format: VideoFormat) -> (codec: Option<RTCRtpCodecParameters>)
        ensures
            final(self)@ == old(self)@.remove(format),
            match codec {
                Some(c) => old(self)@.contains_key(format) && c@ == old(self)@[format],
                None => !old(self)@.contains_key(format),
            },
    {
        let codec = self.codecs.remove(&format.index());
        assert(self@ =~= old(self)@.remove(format));
        codec
    }

    /// The entry of `format`.
    pub fn get(&self, format: VideoFormat) -> (codec: Option<&RTCRtpCodecParameters>)
        ensures
            match codec {
                Some(c) => self@.contains_key(format) && c@ == self@[format],
                None => !self@.contains_key(format),
            },
    {
        self.codecs.get(&format.index())
    }
}

/// The feedback asked of the receiver is negative acknowledgement, with and without an
/// indication of picture loss, and an estimate of the bitrate, and no other.
pub proof fn law_feedback(feedback: FeedbackView)
    ensures
        feedback_kinds().contains(feedback) <==> {
            ||| feedback.typ == "nack"@ && feedback.parameter == ""@
            ||| feedback.typ == "nack"@ && feedback.parameter == "pli"@
            ||| feedback.typ == "goog-remb"@ && feedback.parameter == ""@
        },
        feedback_kinds().len() == 3,
{
    let kinds = feedback_kinds();
    assert(kinds.contains(kinds[0]) && kinds.contains(kinds[1]) && kinds.contains(kinds[2]));
    if feedback.typ == "nack"@ && feedback.parameter == ""@ {
        assert(feedback == kinds[0]);
    }
    if feedback.typ == "nack"@ && feedback.parameter == "pli"@ {
        assert(feedback == kinds[1]);
    }
    if feedback.typ == "goog-remb"@ && feedback.parameter == ""@ {
        assert(feedback == kinds[2]);
    }
}

/// A codec is offered with what is given, and with the MIME type of its family.
pub proof fn law_offer_keeps_what_is_given(
    family: CodecFamily,
    payload_type: u8,
    clock_rate: u32,
    fmtp_line: Seq<char>,
)
    ensures
        offer(family, payload_type, clock_rate, fmtp_line).payload_type == payload_type,
        offer(family, payload_type, clock_rate, fmtp_line).stats_id.len() == 0,
        offer(family, payload_type, clock_rate, fmtp_line).capability.clock_rate == clock_rate,
        offer(family, payload_type, clock_rate, fmtp_line).capability.sdp_fmtp_line == fmtp_line,
        offer(family, payload_type, clock_rate, fmtp_line).capability.channels == 0,
        offer(family, payload_type, clock_rate, fmtp_line).capability.rtcp_feedback
            == feedback_kinds(),
        offer(family, payload_type, clock_rate, fmtp_line).capability.mime_type == (match family {
            CodecFamily::H264 => "video/H264"@,
            CodecFamily::H265 => "video/H265"@,
            CodecFamily::Av1 => "video/AV1"@,
        }),
{
}

/// Codec parameters are viewed with all that they hold.
pub proof fn law_parameters_are_viewed_whole(codec: RTCRtpCodecParameters, i: int)
    ensures
        codec@.payload_type == codec.payload_type,
        codec@.stats_id == codec.stats_id@,
        codec@.capability.mime_type == codec.capability.mime_type@,
        codec@.capability.clock_rate == codec.capability.clock_rate,
        codec@.capability.channels == codec.capability.channels,
        codec@.capability.sdp_fmtp_line == codec.capability.sdp_fmtp_line@,
        codec@.capability.rtcp_feedback.len() == codec.capability.rtcp_feedback@.len(),
        0 <= i < codec.capability.rtcp_feedback@.len() ==> codec@.capability.rtcp_feedback[i].typ
            == codec.capability.rtcp_feedback@[i].typ@
            && codec@.capability.rtcp_feedback[i].parameter
            == codec.capability.rtcp_feedback@[i].parameter@,
{
}

} // verus!
