use bytes::Bytes;
use webrtc_relay::payload::FramePayloader;
use webrtc_relay::relay::{
    packets_for, FrameRelay, FrameTime, HeaderExtension, Message, VideoFrame,
};
use webrtc_relay::video_format::VideoFormat;

fn frame<'a>(millis: u64, buffers: Vec<&'a [u8]>) -> VideoFrame<'a> {
    VideoFrame {
        time: FrameTime {
            secs: millis / 1000,
            subsec_nanos: (millis % 1000) as u32 * 1_000_000,
        },
        buffers,
    }
}

fn relay(format: VideoFormat) -> FrameRelay<u8> {
    FrameRelay::new(format, 102, 90000)
}

#[test]
fn time_is_counted_in_whole_milliseconds() {
    let time = FrameTime { secs: 2, subsec_nanos: 345_999_999 };
    assert_eq!(time.as_millis(), 2345);
    let longest = FrameTime { secs: u64::MAX, subsec_nanos: 999_999_999 };
    assert_eq!(longest.as_millis(), u64::MAX as u128 * 1000 + 999);
}

#[test]
fn timestamp_counts_clock_ticks() {
    let nal: &[u8] = &[0x65, 1, 2];
    let mut relay = relay(VideoFormat::H264);
    assert_eq!(relay.relay_frame(&frame(1000, vec![nal]), false)[0].timestamp, 90000);
    assert_eq!(relay.relay_frame(&frame(16, vec![nal]), false)[0].timestamp, 1440);
    let late = frame(100_000_000_000, vec![nal]);
    assert_eq!(
        relay.relay_frame(&late, false)[0].timestamp,
        (9_000_000_000_000u64 % (1 << 32)) as u32
    );
}

#[test]
fn small_h264_unit_is_one_packet_without_its_start_code() {
    let nal: &[u8] = &[0, 0, 0, 1, 0x65, 1, 2, 3];
    let mut relay = relay(VideoFormat::H264);
    let packets = relay.relay_frame(&frame(0, vec![nal]), false);
    assert_eq!(packets.len(), 1);
    let packet = &packets[0];
    assert_eq!(&packet.payload[..], &[0x65, 1, 2, 3]);
    assert_eq!(packet.version, 2);
    assert!(packet.marker);
    assert_eq!(packet.payload_type, 102);
    assert_eq!(packet.sequence_number, 1);
    assert_eq!(packet.timestamp, 0);
    assert_eq!(
        packet.extensions,
        vec![HeaderExtension::PlayoutDelay { min_delay: 0, max_delay: 0 }]
    );
}

#[test]
fn large_h264_unit_is_fragmented() {
    let mut nal = vec![0x65u8];
    nal.extend(std::iter::repeat(7).take(3000));
    let mut relay = relay(VideoFormat::H264);
    let packets = relay.relay_frame(&frame(40, vec![&nal]), false);
    assert_eq!(packets.len(), 3);
    assert_eq!(packets[0].payload.len(), 1200);
    assert_eq!(packets[0].payload[0], 28 | 0x60);
    assert_eq!(packets[0].payload[1], 0x85);
    assert_eq!(packets[2].payload[1], 0x45);
    let marks: Vec<bool> = packets.iter().map(|p| p.marker).collect();
    assert_eq!(marks, vec![false, false, true]);
    let numbers: Vec<u16> = packets.iter().map(|p| p.sequence_number).collect();
    assert_eq!(numbers, vec![1, 2, 3]);
    assert!(packets.iter().all(|p| p.timestamp == 3600));
}

#[test]
fn h264_parameter_sets_are_held_for_the_next_unit() {
    let sps: &[u8] = &[0x67, 1];
    let pps: &[u8] = &[0x68, 2];
    let slice: &[u8] = &[0x65, 3];
    let mut relay = relay(VideoFormat::H264);
    assert_eq!(relay.relay_frame(&frame(0, vec![sps, pps]), false).len(), 0);
    let packets = relay.relay_frame(&frame(0, vec![slice]), false);
    assert_eq!(packets.len(), 2);
    assert_eq!(&packets[0].payload[..], &[0x78, 0, 2, 0x67, 1, 0, 2, 0x68, 2]);
    assert_eq!(&packets[1].payload[..], &[0x65, 3]);
    assert!(!packets[0].marker);
    assert!(packets[1].marker);
}

#[test]
fn h265_units_are_payloaded() {
    let nal: &[u8] = &[0, 0, 0, 1, 0x26, 1, 9, 9];
    let mut relay = relay(VideoFormat::H265Main10);
    let packets = relay.relay_frame(&frame(0, vec![nal]), false);
    assert_eq!(packets.len(), 1);
    assert_eq!(&packets[0].payload[..], &[0x26, 1, 9, 9]);
    let sets: &[u8] = &[0, 0, 0, 1, 0x40, 1, 0, 0, 0, 1, 0x42, 1, 0, 0, 0, 1, 0x44, 1];
    let packets = relay.relay_frame(&frame(0, vec![sets]), false);
    assert_eq!(packets.len(), 1);
    assert_eq!(&packets[0].payload[..], &[0x60, 1, 0, 2, 0x40, 1, 0, 2, 0x42, 1, 0, 2, 0x44, 1]);
    assert_eq!(packets[0].sequence_number, 2);
}

#[test]
fn h265_parameter_sets_are_held_across_frames() {
    let vps: &[u8] = &[0, 0, 1, 0x40, 1];
    let rest: &[u8] = &[0, 0, 1, 0x42, 1, 0, 0, 1, 0x44, 1];
    let mut relay = relay(VideoFormat::H265);
    assert_eq!(relay.relay_frame(&frame(0, vec![vps]), false).len(), 0);
    assert_eq!(relay.relay_frame(&frame(0, vec![rest]), false).len(), 1);
}

#[test]
fn av1_units_are_payloaded() {
    let obu: &[u8] = &[0x32, 2, 5, 6];
    let mut relay = relay(VideoFormat::Av1Main8);
    let packets = relay.relay_frame(&frame(0, vec![obu]), false);
    assert_eq!(packets.len(), 1);
    assert_eq!(&packets[0].payload[..], &[0x10, 0x30, 5, 6]);
}

#[test]
fn cut_short_units_are_refused() {
    let h264 = FramePayloader::new(VideoFormat::H264);
    assert!(h264.takes(&[0, 0, 0, 1, 0x65]));
    let h265 = FramePayloader::new(VideoFormat::H265);
    assert!(h265.takes(&[]));
    assert!(h265.takes(&[0x26]));
    assert!(h265.takes(&[0, 0, 0, 1]));
    assert!(h265.takes(&[0, 0, 0, 1, 0x26, 1]));
    assert!(!h265.takes(&[0, 0, 0, 1, 0x26]));
    assert!(!h265.takes(&[0, 0, 1, 0x26]));
    assert!(!h265.takes(&[0, 0, 0, 1, 0x26, 0, 0, 0, 1, 0x26, 1]));
    assert!(!h265.takes(&[0, 0, 1, 0x26, 0, 0, 1, 0x26, 1]));
    // with long start codes the short ones belong to the units
    assert!(h265.takes(&[0, 0, 0, 1, 0x26, 1, 0, 0, 1, 0x26]));
    let av1 = FramePayloader::new(VideoFormat::Av1Main8);
    assert!(av1.takes(&[]));
    assert!(av1.takes(&[0x30]));
    assert!(av1.takes(&[0x32, 1, 7]));
    assert!(av1.takes(&[0x12, 0, 0x32, 1, 7]));
    assert!(!av1.takes(&[0x32]));
    assert!(!av1.takes(&[0x34]));
    assert!(!av1.takes(&[0x32, 2, 7]));
    assert!(av1.takes(&[0x36, 0, 0x80, 0x80, 0]));
    // a size that never ends counts as none
    assert!(av1.takes(&[0x32, 0x80]));
    let mut large = vec![0x32, 0x80, 0x01];
    large.extend(vec![1u8; 128]);
    assert!(av1.takes(&large));
    large.pop();
    assert!(!av1.takes(&large));
}

#[test]
fn refusals_agree_with_the_payloaders() {
    let mut av1 = FramePayloader::new(VideoFormat::Av1Main8);
    for data in [
        vec![0x30u8],
        vec![0x32, 1, 7],
        vec![0x32, 0x80],
        vec![0x32, 0x80, 0x80, 0x80, 0x80, 0x80, 0x80, 0x80, 0x80, 0x81, 0x00, 9],
        vec![0x36, 1, 0x81, 0x00, 4],
        vec![0x12, 0, 0x0a, 1, 2, 0x32, 1, 7],
    ] {
        assert!(av1.takes(&data));
        av1.payload(1200, &Bytes::copy_from_slice(&data));
    }
    let mut h265 = FramePayloader::new(VideoFormat::H265);
    for data in [vec![0u8, 0, 0, 1], vec![0, 0, 1, 0, 0, 1, 2, 1], vec![0, 0, 0, 1, 2, 1, 0, 0, 1, 2]] {
        assert!(h265.takes(&data));
        h265.payload(1200, &Bytes::copy_from_slice(&data));
    }
}

#[test]
fn relay_refuses_a_frame_with_one_bad_buffer() {
    let good: &[u8] = &[0x32, 1, 7];
    let bad: &[u8] = &[0x32, 2, 7];
    let relay = relay(VideoFormat::Av1Main8);
    assert!(relay.takes(&frame(0, vec![good, good])));
    assert!(!relay.takes(&frame(0, vec![good, bad])));
    assert!(relay.takes(&frame(0, vec![])));
}

#[test]
fn paused_frames_are_dropped_without_a_gap() {
    let nal: &[u8] = &[0x65, 1, 2];
    let mut relay = relay(VideoFormat::H264);
    assert_eq!(relay.relay_frame(&frame(0, vec![nal]), false)[0].sequence_number, 1);
    assert_eq!(relay.relay_frame(&frame(16, vec![nal]), true).len(), 0);
    assert_eq!(relay.relay_frame(&frame(33, vec![nal]), false)[0].sequence_number, 2);
}

#[test]
fn numbers_run_on_across_metadata() {
    let nal: &[u8] = &[0x65, 1, 2];
    let mut relay = relay(VideoFormat::H264);
    let first = relay.relay_frame(&frame(0, vec![nal, nal]), false);
    assert_eq!(first[1].sequence_number, 2);
    assert_eq!(relay.on_message::<()>(Message::HdrMetadata(Some(1))), None);
    assert_eq!(relay.relay_frame(&frame(10, vec![nal]), true).len(), 0);
    assert_eq!(relay.on_message::<()>(Message::HdrMetadata(None)), None);
    let second = relay.relay_frame(&frame(20, vec![nal]), false);
    assert_eq!(second[0].sequence_number, 3);
    assert_eq!(second[0].payload_type, 102);
    assert_eq!(second[0].version, 2);
    assert_eq!(second[0].extensions, first[0].extensions);
}

#[test]
fn numbers_run_on_across_frames_and_wrap() {
    let nal: &[u8] = &[0x65, 1, 2];
    let mut relay = relay(VideoFormat::H264);
    for expected in 1..=65535u32 {
        let packets = relay.relay_frame(&frame(0, vec![nal]), false);
        assert_eq!(packets[0].sequence_number as u32, expected);
    }
    assert_eq!(relay.relay_frame(&frame(0, vec![nal, nal]), false)[0].sequence_number, 0);
    assert_eq!(relay.relay_frame(&frame(0, vec![nal]), false)[0].sequence_number, 2);
}

#[test]
fn payloads_are_wrapped_in_packets() {
    let payloads = vec![Bytes::from_static(b"one"), Bytes::from_static(b"two")];
    let (packets, last) = packets_for(payloads, 65535, 77, 5);
    assert_eq!(last, 1);
    assert_eq!(packets.len(), 2);
    assert_eq!(packets[0].sequence_number, 0);
    assert_eq!(packets[1].sequence_number, 1);
    assert_eq!(&packets[1].payload[..], b"two");
    assert!(!packets[0].marker && packets[1].marker);
    assert_eq!(packets[0].timestamp, 77);
    assert_eq!(packets[0].payload_type, 5);
    let (none, same) = packets_for(vec![], 9, 0, 0);
    assert!(none.is_empty());
    assert_eq!(same, 9);
}

#[test]
fn metadata_changes_no_packet() {
    let nal: &[u8] = &[0x65, 1, 2];
    let mut plain = relay(VideoFormat::H264);
    let mut hdr = relay(VideoFormat::H264);
    assert_eq!(hdr.on_message::<()>(Message::HdrMetadata(Some(1))), None);
    let with = hdr.relay_frame(&frame(5, vec![nal, nal]), false);
    let without = plain.relay_frame(&frame(5, vec![nal, nal]), false);
    assert_eq!(with.len(), 2);
    for (a, b) in with.iter().zip(&without) {
        assert_eq!(a.payload, b.payload);
        assert_eq!(a.extensions, b.extensions);
        assert_eq!((a.sequence_number, a.timestamp, a.marker), (b.sequence_number, b.timestamp, b.marker));
    }
}

#[test]
fn metadata_is_kept_and_frames_are_handed_back() {
    let mut relay = relay(VideoFormat::H265);
    assert_eq!(relay.on_message::<&str>(Message::HdrMetadata(Some(3))), None);
    assert_eq!(relay.on_message(Message::Frame("frame")), Some("frame"));
    assert_eq!(relay.on_message::<&str>(Message::HdrMetadata(None)), None);
}
