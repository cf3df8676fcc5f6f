use webrtc_relay::codec::{codec_parameters, rtcp_feedback};
use webrtc_relay::sdp::{
    get_video_formats, offer_all, parse_fmtp, parse_rtpmap, recognize, Attribute, Media, RtpCodec,
    Session,
};
use webrtc_relay::video_format::{CodecFamily, VideoFormat, VideoFormats};

fn attribute(name: &str, value: &str) -> Attribute {
    Attribute { attribute: name.to_string(), value: Some(value.to_string()) }
}

fn session(attributes: Vec<Attribute>) -> Session {
    Session { medias: vec![Media { attributes }] }
}

#[test]
fn rtpmap_is_read() {
    assert_eq!(parse_rtpmap("96 H264/90000"), Some((96, "H264", 90000)));
    assert_eq!(parse_rtpmap("0 /0"), Some((0, "", 0)));
    assert_eq!(parse_rtpmap("111 opus/48000/2"), None);
    assert_eq!(parse_rtpmap("300 H264/90000"), None);
    assert_eq!(parse_rtpmap("96 H264"), None);
    assert_eq!(parse_rtpmap("96"), None);
    assert_eq!(parse_rtpmap("96  H264/90000"), Some((96, " H264", 90000)));
    assert_eq!(parse_rtpmap("96 H264/4294967296"), None);
}

#[test]
fn fmtp_is_read() {
    assert_eq!(parse_fmtp("96 profile-id=1;tier-flag=0"), Some((96, "profile-id=1;tier-flag=0")));
    assert_eq!(parse_fmtp("96 "), Some((96, "")));
    assert_eq!(parse_fmtp("x profile-id=1"), None);
    assert_eq!(parse_fmtp("96"), None);
}

#[test]
fn h264_profile_selects_the_format() {
    let mode = "packetization-mode=1";
    assert_eq!(recognize("H264", mode), Some(VideoFormat::H264));
    assert_eq!(
        recognize("h264", "packetization-mode=1;profile-level-id=640c1f"),
        Some(VideoFormat::H264)
    );
    assert_eq!(
        recognize("H264", "profile-level-id=f4001f;packetization-mode=1"),
        Some(VideoFormat::H264High8_444)
    );
    assert_eq!(
        recognize("H264", "packetization-mode=1;profile-level-id=42e01f"),
        Some(VideoFormat::H264)
    );
    // the last profile that is known decides
    assert_eq!(
        recognize("H264", "profile-level-id=f400;profile-level-id=42e0;packetization-mode=1"),
        Some(VideoFormat::H264High8_444)
    );
    assert_eq!(
        recognize("H264", "profile-level-id=f400;profile-level-id=6400;packetization-mode=1"),
        Some(VideoFormat::H264)
    );
    // spaces belong to the name of a parameter
    assert_eq!(
        recognize("H264", "packetization-mode=1; profile-level-id=f4001f"),
        Some(VideoFormat::H264)
    );
}

#[test]
fn h264_needs_the_mode_that_fragments() {
    assert_eq!(recognize("H264", ""), None);
    assert_eq!(recognize("H264", "packetization-mode=0;profile-level-id=640c1f"), None);
}

#[test]
fn h265_profile_selects_the_format() {
    assert_eq!(recognize("H265", ""), Some(VideoFormat::H265));
    assert_eq!(recognize("h265", "profile-id=1"), Some(VideoFormat::H265));
    assert_eq!(recognize("H265", "level-id=93;profile-id=2"), Some(VideoFormat::H265Main10));
    assert_eq!(recognize("H265", "profile-id=4"), Some(VideoFormat::H265));
    assert_eq!(recognize("H265", "profile-id=2;profile-id=4"), Some(VideoFormat::H265Main10));
    assert_eq!(recognize("H265", "profile-id=2;profile-id=1"), Some(VideoFormat::H265));
    assert_eq!(recognize("H265", "profile-id=21"), Some(VideoFormat::H265));
}

#[test]
fn av1_profile_selects_the_format() {
    assert_eq!(recognize("AV1", ""), Some(VideoFormat::Av1Main8));
    assert_eq!(recognize("av1", "profile=1"), Some(VideoFormat::Av1Main8));
    assert_eq!(recognize("AV1", "level-idx=5;profile=2;tier=0"), Some(VideoFormat::Av1High8_444));
    assert_eq!(recognize("AV1", "profile=0"), Some(VideoFormat::Av1Main8));
}

#[test]
fn other_codecs_are_passed_over() {
    assert_eq!(recognize("VP8", ""), None);
    assert_eq!(recognize("opus", "minptime=10"), None);
    assert_eq!(recognize("", ""), None);
}

#[test]
fn feedback_asks_for_nack_pli_and_bitrate() {
    let kinds: Vec<(String, String)> =
        rtcp_feedback().into_iter().map(|f| (f.typ, f.parameter)).collect();
    assert_eq!(
        kinds,
        vec![
            ("nack".to_string(), "".to_string()),
            ("nack".to_string(), "pli".to_string()),
            ("goog-remb".to_string(), "".to_string()),
        ]
    );
}

#[test]
fn parameters_carry_the_mime_type_of_the_family() {
    let h264 = codec_parameters(CodecFamily::H264, 96, 90000, "packetization-mode=1");
    assert_eq!(h264.capability.mime_type, "video/H264");
    assert_eq!(h264.capability.clock_rate, 90000);
    assert_eq!(h264.capability.channels, 0);
    assert_eq!(h264.capability.sdp_fmtp_line, "packetization-mode=1");
    assert_eq!(h264.capability.rtcp_feedback, rtcp_feedback());
    assert_eq!(h264.payload_type, 96);
    assert_eq!(h264.stats_id, "");
    assert_eq!(codec_parameters(CodecFamily::H265, 97, 1, "").capability.mime_type, "video/H265");
    assert_eq!(codec_parameters(CodecFamily::Av1, 98, 1, "").capability.mime_type, "video/AV1");
}

#[test]
fn session_offers_its_codecs() {
    let sdp = Session {
        medias: vec![
            Media {
                attributes: vec![
                    attribute("rtpmap", "111 opus/48000/2"),
                    attribute("fmtp", "111 minptime=10"),
                ],
            },
            Media {
                attributes: vec![
                    attribute("rtpmap", "96 VP8/90000"),
                    attribute("fmtp", "102 level-asymmetry-allowed=1;packetization-mode=1;profile-level-id=640c1f"),
                    attribute("rtpmap", "102 H264/90000"),
                    attribute("rtpmap", "104 H264/90000"),
                    attribute("fmtp", "104 packetization-mode=0;profile-level-id=f4001f"),
                    attribute("rtpmap", "49 H265/90000"),
                    attribute("fmtp", "49 profile-id=2"),
                    attribute("rtpmap", "45 AV1/90000"),
                    Attribute { attribute: "rtpmap".to_string(), value: None },
                    attribute("recvonly", ""),
                ],
            },
        ],
    };
    let formats = get_video_formats(&sdp);
    let h264 = formats.get(VideoFormat::H264).unwrap();
    assert_eq!(h264.payload_type, 102);
    assert_eq!(
        h264.capability.sdp_fmtp_line,
        "level-asymmetry-allowed=1;packetization-mode=1;profile-level-id=640c1f"
    );
    let h265 = formats.get(VideoFormat::H265Main10).unwrap();
    assert_eq!(h265.payload_type, 49);
    assert_eq!(h265.capability.mime_type, "video/H265");
    let av1 = formats.get(VideoFormat::Av1Main8).unwrap();
    assert_eq!(av1.payload_type, 45);
    assert_eq!(av1.capability.sdp_fmtp_line, "");
    for format in VideoFormat::all() {
        let offered = matches!(
            format,
            VideoFormat::H264 | VideoFormat::H265Main10 | VideoFormat::Av1Main8
        );
        assert_eq!(formats.get(format).is_some(), offered);
    }
}

#[test]
fn later_attributes_replace_earlier_ones() {
    let sdp = session(vec![
        attribute("rtpmap", "96 H265/90000"),
        attribute("rtpmap", "96 AV1/48000"),
        attribute("fmtp", "96 profile=1"),
        attribute("fmtp", "96 profile=2"),
        attribute("fmtp", "broken"),
    ]);
    let formats = get_video_formats(&sdp);
    assert!(formats.get(VideoFormat::H265).is_none());
    let av1 = formats.get(VideoFormat::Av1High8_444).unwrap();
    assert_eq!(av1.capability.clock_rate, 48000);
    assert_eq!(av1.capability.sdp_fmtp_line, "profile=2");
}

#[test]
fn one_of_two_rivals_is_offered() {
    let sdp = session(vec![
        attribute("rtpmap", "96 H265/90000"),
        attribute("rtpmap", "97 H265/90000"),
    ]);
    for _ in 0..20 {
        let pt = get_video_formats(&sdp).get(VideoFormat::H265).unwrap().payload_type;
        assert!(pt == 96 || pt == 97);
    }
}

#[test]
fn of_two_rivals_in_a_row_the_later_stays() {
    let codec = |payload_type| RtpCodec {
        payload_type,
        name: "H265",
        clock_rate: 90000,
        fmtp_line: "",
    };
    let table = offer_all(&vec![codec(96), codec(97)]);
    assert_eq!(table.get(VideoFormat::H265).unwrap().payload_type, 97);
    let table = offer_all(&vec![codec(97), codec(96)]);
    assert_eq!(table.get(VideoFormat::H265).unwrap().payload_type, 96);
}

#[test]
fn empty_session_offers_nothing() {
    let formats = get_video_formats(&Session { medias: vec![] });
    for format in VideoFormat::all() {
        assert!(formats.get(format).is_none());
    }
}

#[test]
fn masks_hold_the_formats_of_a_family() {
    assert_eq!(VideoFormat::all().len(), 10);
    for (i, format) in VideoFormat::all().into_iter().enumerate() {
        assert_eq!(format.index() as usize, i);
        let family = format.family();
        assert_eq!(format.contained_in(VideoFormats::mask_h264()), family == CodecFamily::H264);
        assert_eq!(format.contained_in(VideoFormats::mask_h265()), family == CodecFamily::H265);
        assert!(!format.contained_in(VideoFormats::none()));
    }
    assert_eq!(VideoFormat::H264High8_444.family(), CodecFamily::H264);
    assert_eq!(VideoFormat::H265Rext10_444.family(), CodecFamily::H265);
    assert_eq!(VideoFormat::Av1High10_444.family(), CodecFamily::Av1);
}
