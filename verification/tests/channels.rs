use webrtc_relay::codec::{codec_parameters, FormatTable};
use webrtc_relay::control::{
    ControlChannel, ControlChannelEvent, ControlStep, DataChannelState, Reception, Wake,
};
use webrtc_relay::error::AppError;
use webrtc_relay::relay::{FrameRelay, FrameTime, Message, VideoFrame};
use webrtc_relay::sdp::{Attribute, Media, Session};
use webrtc_relay::stream::{
    Action, ControlPacket, PeerConnectionState, StreamEvent, ToServer, Turn, WebrtcLoop,
};
use webrtc_relay::video::{RtcpPacket, VideoChannel, VideoChannelEvent};
use webrtc_relay::video_format::{CodecFamily, VideoFormat, VideoFormats};

fn table() -> FormatTable {
    let mut table = FormatTable::new();
    table.insert(
        VideoFormat::H264,
        codec_parameters(CodecFamily::H264, 102, 90000, "packetization-mode=1"),
    );
    table.insert(VideoFormat::H265, codec_parameters(CodecFamily::H265, 49, 90000, ""));
    table
}

fn both() -> VideoFormats {
    VideoFormats { h265: true, ..VideoFormats::mask_h264() }
}

#[test]
fn table_keeps_one_codec_for_each_format() {
    let mut table = table();
    table.insert(VideoFormat::H265, codec_parameters(CodecFamily::H265, 50, 1, "x"));
    assert_eq!(table.get(VideoFormat::H265).unwrap().payload_type, 50);
    assert_eq!(table.get(VideoFormat::H264).unwrap().payload_type, 102);
    assert_eq!(table.remove(VideoFormat::H265).unwrap().payload_type, 50);
    assert!(table.remove(VideoFormat::H265).is_none());
    assert!(table.get(VideoFormat::H265).is_none());
}

#[test]
fn channel_leaves_out_what_is_not_preferred() {
    let sdp = Session {
        medias: vec![Media {
            attributes: vec![
                Attribute { attribute: "rtpmap".into(), value: Some("49 H265/90000".into()) },
                Attribute { attribute: "rtpmap".into(), value: Some("45 AV1/90000".into()) },
            ],
        }],
    };
    let channel = VideoChannel::new(&sdp, VideoFormats::mask_h265()).unwrap();
    let formats = channel.supported_video_formats();
    assert_eq!(formats.get(VideoFormat::H265).unwrap().payload_type, 49);
    assert!(formats.get(VideoFormat::Av1Main8).is_none());
    assert!(!channel.is_sending());
    let none = VideoChannel::new(&sdp, VideoFormats::none()).unwrap();
    assert!(none.supported_video_formats().get(VideoFormat::H265).is_none());
}

#[test]
fn selecting_a_format_takes_it_out() {
    let mut channel = VideoChannel::with_formats(table(), both());
    let track = channel.on_video_format_selected(VideoFormat::H264).unwrap();
    assert_eq!(track.format, VideoFormat::H264);
    assert_eq!(track.codec.payload_type, 102);
    assert_eq!(track.id, "video");
    assert_eq!(track.stream_id, "moonlight");
    assert!(!channel.is_sending());
    let mut relay: FrameRelay<u8> = channel.on_track_added(&track);
    assert!(channel.is_sending());
    let nal: &[u8] = &[0x65, 1];
    let frame = VideoFrame { time: FrameTime { secs: 1, subsec_nanos: 0 }, buffers: vec![nal] };
    let packets = relay.relay_frame(&frame, false);
    assert_eq!(packets[0].payload_type, 102);
    assert_eq!(packets[0].timestamp, 90000);
    assert_eq!(
        channel.on_video_format_selected(VideoFormat::H264).err(),
        Some(AppError::WebRtcClientCodecNotSupported)
    );
    assert!(!channel.is_sending());
    assert!(channel.supported_video_formats().get(VideoFormat::H265).is_some());
}

#[test]
fn unsupported_format_is_an_error() {
    let mut channel = VideoChannel::with_formats(table(), VideoFormats::mask_h264());
    let refused = channel.on_video_format_selected(VideoFormat::H265);
    assert_eq!(refused.err(), Some(AppError::WebRtcClientCodecNotSupported));
}

fn sending() -> VideoChannel {
    let mut channel = VideoChannel::with_formats(table(), both());
    let track = channel.on_video_format_selected(VideoFormat::H265).unwrap();
    let _relay: FrameRelay<u8> = channel.on_track_added(&track);
    channel
}

#[test]
fn frames_and_metadata_become_messages() {
    let channel = sending();
    let message: Message<&str, u8> = channel.on_frame("frame");
    assert_eq!(message, Message::Frame("frame"));
    let message: Message<&str, u8> = channel.set_hdr_enabled(true, Some(4));
    assert_eq!(message, Message::HdrMetadata(Some(4)));
    let message: Message<&str, u8> = channel.set_hdr_enabled(false, None);
    assert_eq!(message, Message::HdrMetadata(None));
}

#[test]
fn picture_loss_signals_an_idr() {
    let channel = sending();
    let read = |packets| channel.drive::<()>(Ok(packets));
    assert_eq!(
        read(vec![RtcpPacket::Other, RtcpPacket::PictureLossIndication]),
        Some(VideoChannelEvent::SignalIdr)
    );
    assert_eq!(read(vec![RtcpPacket::ReceiverEstimatedMaximumBitrate, RtcpPacket::Other]), None);
    assert_eq!(read(vec![]), None);
    assert_eq!(channel.drive(Err("closed")), None);
}

fn transmit(channel: &ControlChannel, state: DataChannelState) -> Option<Vec<u8>> {
    match channel.drive(state, false) {
        ControlStep::Wait { transmit } => transmit.map(|packet| packet.to_vec()),
        ControlStep::Park => panic!("parked"),
    }
}

#[test]
fn labels_of_subchannels_have_the_prefix() {
    let channel = ControlChannel::new();
    assert!(channel.try_add_channel("moonlight.control.mouse"));
    assert!(channel.try_add_channel("moonlight.control."));
    assert!(!channel.try_add_channel(ControlChannel::label()));
    assert!(!channel.try_add_channel("moonlight.audio"));
    assert_eq!(ControlChannel::label(), "moonlight.control");
}

#[test]
fn written_part_of_the_buffer_is_queued() {
    let mut channel = ControlChannel::new();
    assert_eq!(transmit(&channel, DataChannelState::Open), None);
    channel.send::<()>(&[1, 2, 3, 0, 0], Ok(3));
    assert_eq!(transmit(&channel, DataChannelState::Open), Some(vec![1, 2, 3]));
    channel.send(&[9, 9], Err("too large"));
    assert_eq!(transmit(&channel, DataChannelState::Open), Some(vec![1, 2, 3]));
}

#[test]
fn last_queued_packet_goes_first() {
    let mut channel = ControlChannel::new();
    channel.send::<()>(&[1], Ok(1));
    channel.send::<()>(&[2], Ok(1));
    assert_eq!(transmit(&channel, DataChannelState::Open), Some(vec![2]));
    assert_eq!(channel.on_wake::<()>(Wake::Sent), None);
    assert_eq!(transmit(&channel, DataChannelState::Open), Some(vec![1]));
    assert_eq!(channel.on_wake::<()>(Wake::Sent), None);
    assert_eq!(transmit(&channel, DataChannelState::Open), None);
    assert_eq!(channel.on_wake::<()>(Wake::Sent), None);
}

#[test]
fn abandoned_send_keeps_its_packet() {
    let mut channel = ControlChannel::new();
    channel.send::<()>(&[1], Ok(1));
    assert_eq!(transmit(&channel, DataChannelState::Open), Some(vec![1]));
    assert_eq!(channel.on_wake::<()>(Wake::Opened), None);
    assert_eq!(channel.on_wake::<u8>(Wake::Received(Reception::Message(None))), None);
    assert_eq!(transmit(&channel, DataChannelState::Open), Some(vec![1]));
}

#[test]
fn nothing_is_transmitted_unless_open() {
    let mut channel = ControlChannel::new();
    channel.send::<()>(&[1], Ok(1));
    assert_eq!(transmit(&channel, DataChannelState::Connecting), None);
    assert_eq!(transmit(&channel, DataChannelState::Closing), None);
    assert_eq!(transmit(&channel, DataChannelState::Unspecified), None);
}

#[test]
fn dead_channel_is_parked() {
    let channel = ControlChannel::new();
    assert!(channel.is_alive(DataChannelState::Open, false));
    assert!(channel.is_alive(DataChannelState::Closing, false));
    assert!(!channel.is_alive(DataChannelState::Closed, false));
    assert!(!channel.is_alive(DataChannelState::Open, true));
    assert!(matches!(channel.drive(DataChannelState::Closed, false), ControlStep::Park));
    assert!(matches!(channel.drive(DataChannelState::Open, true), ControlStep::Park));
}

#[test]
fn received_packets_are_reported() {
    let mut channel = ControlChannel::new();
    assert_eq!(
        channel.on_wake(Wake::Received(Reception::Message(Some(5)))),
        Some(ControlChannelEvent::Packet(5))
    );
    assert_eq!(
        channel.on_wake::<u8>(Wake::Received(Reception::Ended)),
        Some(ControlChannelEvent::Closed)
    );
}

type Event = StreamEvent<&'static str, &'static str, u8, u16>;
type Acts = Vec<Action<&'static str, &'static str, u8, u16>>;

fn acts(relay: &WebrtcLoop, event: Event) -> Acts {
    relay.on_stream::<_, _, _, _, ()>(Ok(event)).unwrap()
}

#[test]
fn loop_asks_for_an_idr_first() {
    let (_, first) = WebrtcLoop::start::<u16>();
    assert_eq!(first, ToServer::RequestIdr);
}

#[test]
fn loop_stops_with_the_stream() {
    let (mut relay, _) = WebrtcLoop::start::<u16>();
    assert_eq!(relay.begin_turn(true, PeerConnectionState::Connected), Turn::Wait);
    assert_eq!(relay.begin_turn(false, PeerConnectionState::Connected), Turn::Stop);
    assert_eq!(relay.begin_turn(false, PeerConnectionState::Failed), Turn::Stop);
}

#[test]
fn stream_is_disconnected_once() {
    for gone in [PeerConnectionState::Failed, PeerConnectionState::Closed] {
        let (mut relay, _) = WebrtcLoop::start::<u16>();
        assert_eq!(relay.begin_turn(true, PeerConnectionState::Disconnected), Turn::Wait);
        assert_eq!(relay.begin_turn(true, gone), Turn::Disconnect);
        assert_eq!(relay.begin_turn(true, gone), Turn::Wait);
        assert_eq!(relay.begin_turn(true, PeerConnectionState::Connected), Turn::Wait);
        assert_eq!(relay.begin_turn(true, gone), Turn::Wait);
        assert_eq!(relay.begin_turn(false, gone), Turn::Stop);
    }
}

#[test]
fn stream_events_are_handed_on() {
    let (relay, _) = WebrtcLoop::start::<u16>();
    assert_eq!(acts(&relay, StreamEvent::AudioFrame("a")), vec![Action::AudioFrame("a")]);
    assert_eq!(acts(&relay, StreamEvent::VideoFrame("v")), vec![Action::VideoFrame("v")]);
    assert_eq!(
        acts(&relay, StreamEvent::SignalIdr),
        vec![Action::SendToServer(ToServer::RequestIdr)]
    );
    assert_eq!(
        acts(&relay, StreamEvent::Control(ControlPacket::Other(7))),
        vec![Action::SendToClient(ControlPacket::Other(7))]
    );
    assert_eq!(
        acts(&relay, StreamEvent::Control(ControlPacket::HdrMode { enabled: true, sunshine: Some(1) })),
        vec![
            Action::SetHdrEnabled { enabled: true, metadata: Some(1) },
            Action::SendToClient(ControlPacket::HdrMode { enabled: true, sunshine: Some(1) }),
        ]
    );
    assert_eq!(acts(&relay, StreamEvent::Other), vec![]);
    let failed: Result<Acts, &str> = relay.on_stream(Err("lost"));
    assert_eq!(failed, Err("lost"));
}

#[test]
fn disconnected_stream_is_ignored() {
    let (mut relay, _) = WebrtcLoop::start::<u16>();
    relay.begin_turn(true, PeerConnectionState::Closed);
    assert_eq!(acts(&relay, StreamEvent::AudioFrame("a")), vec![]);
    let failed: Result<Acts, &str> = relay.on_stream(Err("lost"));
    assert_eq!(failed, Ok(vec![]));
}

#[test]
fn channel_events_go_to_the_server() {
    let (relay, _) = WebrtcLoop::start::<u16>();
    assert_eq!(
        relay.on_video::<u16, ()>(Ok(VideoChannelEvent::SignalIdr)),
        Ok(ToServer::RequestIdr)
    );
    assert_eq!(relay.on_video::<u16, _>(Err("lost")), Err("lost"));
    assert_eq!(
        relay.on_control::<_, ()>(Ok(ControlChannelEvent::Packet(3))),
        Ok(Some(ToServer::Packet(3)))
    );
    assert_eq!(relay.on_control::<u16, ()>(Ok(ControlChannelEvent::Closed)), Ok(None));
    assert_eq!(relay.on_control::<u16, _>(Err("lost")), Err("lost"));
}
