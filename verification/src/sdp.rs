//! Reading the codecs that a session description offers.
use std::collections::HashMap;

use vstd::prelude::*;

use crate::codec::{self, codec_parameters, CodecView, FormatTable};
use crate::text::{
    self, contains, eq_ignore_ascii_case, parse_u32, parse_u8, same_text, split_once, starts_with,
};
use crate::video_format::{self, CodecFamily, VideoFormat};

verus! {

broadcast use vstd::std_specs::hash::group_hash_axioms;

/// One attribute line of a media section: a name, and a value where there is one.
#[derive(Debug, PartialEq, Eq)]
pub struct Attribute {
    pub attribute: String,
    pub value: Option<String>,
}

/// A media section.
#[derive(Debug, PartialEq, Eq)]
pub struct Media {
    pub attributes: Vec<Attribute>,
}

/// A session description, as far as codecs are read from it.
#[derive(Debug, PartialEq, Eq)]
pub struct Session {
    pub medias: Vec<Media>,
}

/// The attributes of all media sections in order.
pub open spec fn attributes_of(medias: Seq<Media>) -> Seq<Attribute>
    decreases medias.len(),
{
    if medias.len() == 0 {
        Seq::empty()
    } else {
        attributes_of(medias.drop_last()) + medias.last().attributes@
    }
}

/// Payload type, codec name and clock rate in the value of an `rtpmap` attribute, which reads
/// `<payload type> <codec>/<clock rate>`.
pub open spec fn rtpmap(value: Seq<char>) -> Option<(u8, Seq<char>, u32)> {
    match text::cut(value, ' ') {
        Some((number, full_codec)) => match (
            text::unsigned(number, u8::MAX as int),
            text::cut(full_codec, '/'),
        ) {
            (Some(pt), Some((codec, rate))) => match text::unsigned(rate, u32::MAX as int) {
                Some(clock_rate) => Some((pt as u8, codec, clock_rate as u32)),
                None => None,
            },
            _ => None,
        },
        None => None,
    }
}

/// Payload type and parameter line in the value of an `fmtp` attribute, which reads
/// `<payload type> <line>`.
pub open spec fn fmtp(value: Seq<char>) -> Option<(u8, Seq<char>)> {
    match text::cut(value, ' ') {
        Some((number, line)) => match text::unsigned(number, u8::MAX as int) {
            Some(pt) => Some((pt as u8, line)),
            None => None,
        },
        None => None,
    }
}

/// Reads the value of an `rtpmap` attribute.
pub fn parse_rtpmap(attribute_value: &str) -> (parsed: Option<(u8, &str, u32)>)
    ensures
        match parsed {
            Some((pt, codec, clock_rate)) => rtpmap(attribute_value@) == Some(
                (pt, codec@, clock_rate),
            ),
            None => rtpmap(attribute_value@) is None,
        },
{
    let (pt_str, full_codec) = split_once(attribute_value, ' ')?;
    let pt = parse_u8(pt_str)?;

    // identify codec
    let (codec_str, clock_rate_str) = split_once(full_codec, '/')?;

    let clock_rate = parse_u32(clock_rate_str)?;

    Some((pt, codec_str, clock_rate))
}

/// Reads the value of an `fmtp` attribute.
pub fn parse_fmtp(attribute_value: &str) -> (parsed: Option<(u8, &str)>)
    ensures
        match parsed {
            Some((pt, line)) => fmtp(attribute_value@) == Some((pt, line@)),
            None => fmtp(attribute_value@) is None,
        },
{
    let (pt_str, sdp_fmtp_line) = split_once(attribute_value, ' ')?;
    let pt = parse_u8(pt_str)?;

    Some((pt, sdp_fmtp_line))
}

/// The parts between the semicolons of a parameter line.
pub open spec fn segments(line: Seq<char>) -> Seq<Seq<char>>
    decreases line.len(),
{
    proof {
        text::lemma_position_bounds(line, ';');
    }
    match text::cut(line, ';') {
        Some((first, rest)) => seq![first] + segments(rest),
        None => seq![line],
    }
}

/// The format that the parameter `key=value` selects in a codec family, where it selects one.
pub open spec fn profile(of: CodecFamily, key: Seq<char>, value: Seq<char>) -> Option<VideoFormat> {
    match of {
        CodecFamily::H264 => if key != "profile-level-id"@ {
            None
        } else if "64"@.is_prefix_of(value) {
            Some(VideoFormat::H264)
        } else if "f4"@.is_prefix_of(value) {
            Some(VideoFormat::H264High8_444)
        } else {
            None
        },
        CodecFamily::H265 => if key != "profile-id"@ {
            None
        } else if value == "1"@ {
            Some(VideoFormat::H265)
        } else if value == "2"@ {
            Some(VideoFormat::H265Main10)
        } else {
            None
        },
        CodecFamily::Av1 => if key != "profile"@ {
            None
        } else if value == "1"@ {
            Some(VideoFormat::Av1Main8)
        } else if value == "2"@ {
            Some(VideoFormat::Av1High8_444)
        } else {
            None
        },
    }
}

/// The format of a codec family where no parameter selects another.
pub open spec fn base_format(of: CodecFamily) -> VideoFormat {
    match of {
        CodecFamily::H264 => VideoFormat::H264,
        CodecFamily::H265 => VideoFormat::H265,
        CodecFamily::Av1 => VideoFormat::Av1Main8,
    }
}

/// The format that one part of a parameter line selects.
pub open spec fn segment_profile(of: CodecFamily, segment: Seq<char>) -> Option<VideoFormat> {
    match text::cut(segment, '=') {
        Some((key, value)) => profile(of, key, value),
        None => None,
    }
}

/// The format that the parts of a parameter line select: the last part that selects one decides.
pub open spec fn selected(of: CodecFamily, parts: Seq<Seq<char>>) -> VideoFormat
    decreases parts.len(),
{
    if parts.len() == 0 {
        base_format(of)
    } else {
        match segment_profile(of, parts.last()) {
            Some(format) => format,
            None => selected(of, parts.drop_last()),
        }
    }
}

/// The format that the parameter `key=value` selects.
fn profile_of(of: CodecFamily, key: &str, value: &str) -> (format: Option<VideoFormat>)
    ensures
        format == profile(of, key@, value@),
{
    match of {
        CodecFamily::H264 => {
            if !same_text(key, "profile-level-id") {
                None
            } else if starts_with(value, "64") {
                Some(VideoFormat::H264)
            } else if starts_with(value, "f4") {
                Some(VideoFormat::H264High8_444)
            } else {
                None
            }
        },
        CodecFamily::H265 => {
            // Range extensions, profile 4, are not told apart.
            if !same_text(key, "profile-id") {
                None
            } else if same_text(value, "1") {
                Some(VideoFormat::H265)
            } else if same_text(value, "2") {
                Some(VideoFormat::H265Main10)
            } else {
                None
            }
        },
        CodecFamily::Av1 => {
            if !same_text(key, "profile") {
                None
            } else if same_text(value, "1") {
                Some(VideoFormat::Av1Main8)
            } else if same_text(value, "2") {
                Some(VideoFormat::Av1High8_444)
            } else {
                None
            }
        },
    }
}

/// The format that one part of a parameter line leaves in force.
fn apply_segment(of: CodecFamily, format: VideoFormat, segment: &str) -> (next: VideoFormat)
    ensures
        next == (match segment_profile(of, segment@) {
            Some(f) => f,
            None => format,
        }),
{
    match split_once(segment, '=') {
        Some((key, value)) => match profile_of(of, key, value) {
            Some(f) => f,
            None => format,
        },
        None => format,
    }
}

/// The format that a parameter line selects in a codec family.
fn format_of(of: CodecFamily, line: &str) -> (format: VideoFormat)
    ensures
        format == selected(of, segments(line@)),
{
    let mut format = match of {
        CodecFamily::H264 => VideoFormat::H264,
        CodecFamily::H265 => VideoFormat::H265,
        CodecFamily::Av1 => VideoFormat::Av1Main8,
    };
    let mut rest = line;
    let ghost mut seen: Seq<Seq<char>> = Seq::empty();
    assert(seen + segments(line@) =~= segments(line@));
    loop
        invariant
            format == selected(of, seen),
            segments(line@) == seen + segments(rest@),
        decreases rest@.len(),
    {
        match split_once(rest, ';') {
            Some((segment, tail)) => {
                format = apply_segment(of, format, segment);
                proof {
                    text::lemma_position_bounds(rest@, ';');
                    let more = seen.push(segment@);
                    assert(more.drop_last() =~= seen);
                    assert(seen + (seq![segment@] + segments(tail@)) =~= more + segments(tail@));
                    seen = more;
                }
                rest = tail;
            },
            None => {
                format = apply_segment(of, format, rest);
                proof {
                    let more = seen.push(rest@);
                    assert(more.drop_last() =~= seen);
                    assert(seen + seq![rest@] =~= more);
                }
                return format;
            },
        }
    }
}

/// The video format of a codec, from its name and its parameter line; `None` where the codec is
/// not supported. H.264 is supported in the packetization mode that may fragment NAL units.
pub open spec fn recognized(name: Seq<char>, line: Seq<char>) -> Option<VideoFormat> {
    if text::same_but_ascii_case(name, "H264"@) {
        if text::has_substring(line, "packetization-mode=1"@) {
            Some(selected(CodecFamily::H264, segments(line)))
        } else {
            None
        }
    } else if text::same_but_ascii_case(name, "H265"@) {
        Some(selected(CodecFamily::H265, segments(line)))
    } else if text::same_but_ascii_case(name, "AV1"@) {
        Some(selected(CodecFamily::Av1, segments(line)))
    } else {
        None
    }
}

/// The video format of a codec, from its name and its parameter line.
pub fn recognize(name: &str, line: &str) -> (format: Option<VideoFormat>)
    ensures
        format == recognized(name@, line@),
{
    if eq_ignore_ascii_case(name, "H264") {
        if !contains(line, "packetization-mode=1") {
            // Single NAL mode is not supported
            return None;
        }
        Some(format_of(CodecFamily::H264, line))
    } else if eq_ignore_ascii_case(name, "H265") {
        Some(format_of(CodecFamily::H265, line))
    } else if eq_ignore_ascii_case(name, "AV1") {
        Some(format_of(CodecFamily::Av1, line))
    } else {
        None
    }
}

/// A codec as the attributes of a session description put it together.
pub struct RtpCodec<'a> {
    pub payload_type: u8,
    pub name: &'a str,
    pub clock_rate: u32,
    pub fmtp_line: &'a str,
}

/// The contents of an [`RtpCodec`].
pub struct RtpCodecView {
    pub payload_type: u8,
    pub name: Seq<char>,
    pub clock_rate: u32,
    pub fmtp_line: Seq<char>,
}

impl<'a> View for RtpCodec<'a> {
    type V = RtpCodecView;

    open spec fn view(&self) -> RtpCodecView {
        RtpCodecView {
            payload_type: self.payload_type,
            name: self.name@,
            clock_rate: self.clock_rate,
            fmtp_line: self.fmtp_line@,
        }
    }
}

/// The format under which a codec is offered.
pub open spec fn codec_format(codec: RtpCodecView) -> Option<VideoFormat> {
    recognized(codec.name, codec.fmtp_line)
}

/// The parameters under which a supported codec is offered.
pub open spec fn codec_offer(codec: RtpCodecView) -> CodecView
    recommends
        codec_format(codec) is Some,
{
    codec::offer(
        video_format::family(codec_format(codec)->0),
        codec.payload_type,
        codec.clock_rate,
        codec.fmtp_line,
    )
}

/// The formats that codecs offer, taken in order: of two codecs with one format the later stays.
pub open spec fn offered(codecs: Seq<RtpCodecView>) -> Map<VideoFormat, CodecView>
    decreases codecs.len(),
{
    if codecs.len() == 0 {
        Map::empty()
    } else {
        let earlier = offered(codecs.drop_last());
        match codec_format(codecs.last()) {
            Some(format) => earlier.insert(format, codec_offer(codecs.last())),
            None => earlier,
        }
    }
}

/// A format that a codec family selects belongs to that family.
proof fn lemma_selected_family(of: CodecFamily, parts: Seq<Seq<char>>)
    ensures
        video_format::family(selected(of, parts)) == of,
    decreases parts.len(),
{
    if parts.len() > 0 {
        lemma_selected_family(of, parts.drop_last());
    }
}

/// Adds every supported codec to a table, in order.
pub fn offer_all(codecs: &Vec<RtpCodec>) -> (table: FormatTable)
    ensures
        table@ == offered(codecs@.map_values(|c: RtpCodec| c@)),
{
    let ghost views = codecs@.map_values(|c: RtpCodec| c@);
    let mut table = FormatTable::new();
    let mut i: usize = 0;
    while i < codecs.len()
        invariant
            i <= codecs.len(),
            views == codecs@.map_values(|c: RtpCodec| c@),
            table@ == offered(views.take(i as int)),
        decreases codecs.len() - i,
    {
        let codec = &codecs[i];
        proof {
            let longer = views.take(i + 1);
            assert(longer.drop_last() =~= views.take(i as int));
            assert(longer.last() == codec@);
        }
        match recognize(codec.name, codec.fmtp_line) {
            Some(format) => {
                let parameters = codec_parameters(
                    format.family(),
                    codec.payload_type,
                    codec.clock_rate,
                    codec.fmtp_line,
                );
                table.insert(format, parameters);
            },
            None => {},
        }
        i = i + 1;
    }
    assert(views.take(i as int) =~= views);
    table
}

/// The codec name and clock rate that `rtpmap` attributes give each payload type. Attributes
/// without a value, or with one that cannot be read, count for nothing; a later one replaces an
/// earlier.
pub open spec fn codec_table(attributes: Seq<Attribute>) -> Map<u8, (Seq<char>, u32)>
    decreases attributes.len(),
{
    if attributes.len() == 0 {
        Map::empty()
    } else {
        let earlier = codec_table(attributes.drop_last());
        let last = attributes.last();
        if last.attribute@ == "rtpmap"@ && last.value is Some {
            match rtpmap(last.value->0@) {
                Some((pt, name, clock_rate)) => earlier.insert(pt, (name, clock_rate)),
                None => earlier,
            }
        } else {
            earlier
        }
    }
}

/// The parameter line that `fmtp` attributes give each payload type, by the same rules.
pub open spec fn fmtp_table(attributes: Seq<Attribute>) -> Map<u8, Seq<char>>
    decreases attributes.len(),
{
    if attributes.len() == 0 {
        Map::empty()
    } else {
        let earlier = fmtp_table(attributes.drop_last());
        let last = attributes.last();
        if last.attribute@ == "fmtp"@ && last.value is Some {
            match fmtp(last.value->0@) {
                Some((pt, line)) => earlier.insert(pt, line),
                None => earlier,
            }
        } else {
            earlier
        }
    }
}

/// The codec that attributes describe under a payload type of the codec table.
pub open spec fn described(attributes: Seq<Attribute>, pt: u8) -> RtpCodecView {
    RtpCodecView {
        payload_type: pt,
        name: codec_table(attributes)[pt].0,
        clock_rate: codec_table(attributes)[pt].1,
        fmtp_line: if fmtp_table(attributes).contains_key(pt) {
            fmtp_table(attributes)[pt]
        } else {
            Seq::empty()
        },
    }
}

/// `order` lists the payload types of the codec table, each once.
pub open spec fn lists_codecs(attributes: Seq<Attribute>, order: Seq<u8>) -> bool {
    &&& order.no_duplicates()
    &&& order.to_set() == codec_table(attributes).dom()
}

/// The formats offered where the codecs are taken in the given order of payload types.
pub open spec fn offered_in_order(attributes: Seq<Attribute>, order: Seq<u8>) -> Map<
    VideoFormat,
    CodecView,
> {
    offered(order.map_values(|pt: u8| described(attributes, pt)))
}

/// The tables that a session description fills, by payload type.
struct CodecMaps<'a> {
    codecs: HashMap<u8, (&'a str, u32)>,
    lines: HashMap<u8, &'a str>,
}

impl<'a> CodecMaps<'a> {
    /// The maps hold what `attributes` give.
    spec fn holds(self, attributes: Seq<Attribute>) -> bool {
        &&& self.codecs@.dom() == codec_table(attributes).dom()
        &&& forall|pt: u8| #[trigger]
            self.codecs@.contains_key(pt) ==> {
                &&& self.codecs@[pt].0@ == codec_table(attributes)[pt].0
                &&& self.codecs@[pt].1 == codec_table(attributes)[pt].1
            }
        &&& self.lines@.dom() == fmtp_table(attributes).dom()
        &&& forall|pt: u8| #[trigger]
            self.lines@.contains_key(pt) ==> self.lines@[pt]@ == fmtp_table(attributes)[pt]
    }

    /// Enters what one attribute gives.
    fn enter(&mut self, attribute: &'a Attribute, Ghost(earlier): Ghost<Seq<Attribute>>)
        requires
            old(self).holds(earlier),
        ensures
            final(self).holds(earlier.push(*attribute)),
    {
        assert(earlier.push(*attribute).drop_last() =~= earlier);
        let value = match &attribute.value {
            Some(value) => value,
            None => return,
        };
        if same_text(attribute.attribute.as_str(), "rtpmap") {
            proof {
                reveal_strlit("rtpmap");
                reveal_strlit("fmtp");
                assert("rtpmap"@.len() != "fmtp"@.len());
            }
            match parse_rtpmap(value.as_str()) {
                Some((pt, codec, clock_rate)) => {
                    self.codecs.insert(pt, (codec, clock_rate));
                    assert(self.codecs@.dom() =~= codec_table(earlier.push(*attribute)).dom());
                },
                None => {},
            }
        } else if same_text(attribute.attribute.as_str(), "fmtp") {
            match parse_fmtp(value.as_str()) {
                Some((pt, line)) => {
                    self.lines.insert(pt, line);
                    assert(self.lines@.dom() =~= fmtp_table(earlier.push(*attribute)).dom());
                },
                None => {},
            }
        }
    }
}

/// Reads the `rtpmap` and `fmtp` attributes of all media sections.
fn read_codecs(sdp: &Session) -> (maps: CodecMaps<'_>)
    ensures
        maps.holds(attributes_of(sdp.medias@)),
{
    let mut maps = CodecMaps { codecs: HashMap::new(), lines: HashMap::new() };
    let mut m: usize = 0;
    while m < sdp.medias.len()
        invariant
            m <= sdp.medias.len(),
            maps.holds(attributes_of(sdp.medias@.take(m as int))),
        decreases sdp.medias.len() - m,
    {
        let media = &sdp.medias[m];
        let ghost before = attributes_of(sdp.medias@.take(m as int));
        let mut a: usize = 0;
        assert(before + media.attributes@.take(0) =~= before);
        while a < media.attributes.len()
            invariant
                a <= media.attributes.len(),
                maps.holds(before + media.attributes@.take(a as int)),
            decreases media.attributes.len() - a,
        {
            let ghost earlier = before + media.attributes@.take(a as int);
            maps.enter(&media.attributes[a], Ghost(earlier));
            assert(earlier.push(media.attributes@[a as int]) =~= before + media.attributes@.take(
                a + 1,
            ));
            a = a + 1;
        }
        proof {
            assert(media.attributes@.take(a as int) =~= media.attributes@);
            let longer = sdp.medias@.take(m + 1);
            assert(longer.drop_last() =~= sdp.medias@.take(m as int));
        }
        m = m + 1;
    }
    assert(sdp.medias@.take(m as int) =~= sdp.medias@);
    maps
}

/// The video formats that a session description offers.
///
/// The codecs are walked in no fixed order, so where two of them have the same format, either may
/// be the one that stays.
pub fn get_video_formats(sdp: &Session) -> (formats: FormatTable)
    ensures
        exists|order: Seq<u8>|
            lists_codecs(attributes_of(sdp.medias@), order) && formats@ == #[trigger]
                offered_in_order(attributes_of(sdp.medias@), order),
{
    let maps = read_codecs(sdp);
    let ghost attributes = attributes_of(sdp.medias@);
    let mut codecs: Vec<RtpCodec> = Vec::new();
    let ghost mut order: Seq<u8> = Seq::empty();
    for entry in it: maps.codecs.iter()
        invariant
            maps.holds(attributes),
            it.seq() == vstd::std_specs::iter::IteratorSpec::remaining(
                &vstd::std_specs::hash::spec_hash_map_iter(&maps.codecs),
            ),
            it.seq().no_duplicates(),
            order == it.seq().take(it.index() as int).map_values(|e: (&u8, &(&str, u32))| *e.0),
            codecs@.map_values(|c: RtpCodec| c@) == order.map_values(
                |pt: u8| described(attributes, pt),
            ),
    {
        let (pt, codec) = entry;
        let fmtp_line = match maps.lines.get(pt) {
            Some(line) => *line,
            None => "",
        };
        let ghost before = codecs@.map_values(|c: RtpCodec| c@);
        codecs.push(
            RtpCodec { payload_type: *pt, name: codec.0, clock_rate: codec.1, fmtp_line },
        );
        proof {
            reveal_strlit("");
            assert(""@ =~= Seq::<char>::empty());
            let k = it.index() as int;
            assert(it.seq()[k] == entry);
            assert(maps.codecs@.contains_key(*it.seq()[k].0));
            assert(codecs@.last()@ == described(attributes, *pt));
            assert(codecs@.map_values(|c: RtpCodec| c@) =~= before.push(codecs@.last()@));
            let longer = order.push(*pt);
            assert(longer.map_values(|pt: u8| described(attributes, pt)) =~= order.map_values(
                |pt: u8| described(attributes, pt),
            ).push(described(attributes, *pt)));
            order = longer;
        }
    }
    proof {
        let walk = vstd::std_specs::iter::IteratorSpec::remaining(
            &vstd::std_specs::hash::spec_hash_map_iter(&maps.codecs),
        );
        assert(order =~= walk.map_values(|e: (&u8, &(&str, u32))| *e.0));
        assert forall|i: int, j: int| 0 <= i < order.len() && 0 <= j < order.len() && i != j implies
            order[i] != order[j] by {
            if order[i] == order[j] {
                assert(maps.codecs@[*walk[i].0] == *walk[i].1);
                assert(maps.codecs@[*walk[j].0] == *walk[j].1);
                assert(walk[i] == walk[j]);
            }
        }
        assert forall|pt: u8| order.contains(pt) == maps.codecs@.contains_key(pt) by {
            if maps.codecs@.contains_key(pt) {
                let k = choose|k: int|
                    0 <= k < walk.len() && walk[k] == (&pt, &maps.codecs@[pt]);
                assert(order[k] == pt);
            }
            if order.contains(pt) {
                let k = choose|k: int| 0 <= k < order.len() && order[k] == pt;
                assert(maps.codecs@.contains_key(*walk[k].0));
            }
        }
        assert(order.to_set() =~= codec_table(attributes).dom());
        assert(lists_codecs(attributes, order));
    }
    let formats = offer_all(&codecs);
    assert(formats@ == offered_in_order(attributes, order));
    formats
}

/// An `rtpmap` value that is put together as `<payload type> <codec>/<clock rate>` reads as just
/// that.
pub proof fn law_rtpmap_reads_its_parts(number: Seq<char>, codec: Seq<char>, rate: Seq<char>)
    requires
        text::unsigned(number, u8::MAX as int) is Some,
        text::unsigned(rate, u32::MAX as int) is Some,
        !codec.contains('/'),
    ensures
        rtpmap(number + seq![' '] + (codec + seq!['/'] + rate)) == Some(
            (
                text::unsigned(number, u8::MAX as int)->0 as u8,
                codec,
                text::unsigned(rate, u32::MAX as int)->0 as u32,
            ),
        ),
{
    text::law_number_lacks(number, u8::MAX as int, ' ');
    text::law_cut_finds_the_first(number, ' ', codec + seq!['/'] + rate);
    text::law_cut_finds_the_first(codec, '/', rate);
}

/// An `fmtp` value that is put together as `<payload type> <line>` reads as just that.
pub proof fn law_fmtp_reads_its_parts(number: Seq<char>, line: Seq<char>)
    requires
        text::unsigned(number, u8::MAX as int) is Some,
    ensures
        fmtp(number + seq![' '] + line) == Some(
            (text::unsigned(number, u8::MAX as int)->0 as u8, line),
        ),
{
    text::law_number_lacks(number, u8::MAX as int, ' ');
    text::law_cut_finds_the_first(number, ' ', line);
}

/// The codec name of a family.
pub open spec fn family_name(of: CodecFamily) -> Seq<char> {
    match of {
        CodecFamily::H264 => "H264"@,
        CodecFamily::H265 => "H265"@,
        CodecFamily::Av1 => "AV1"@,
    }
}

/// A codec is offered under the family that its name stands for, whatever its parameters say, and
/// with the MIME type of that family. H.264 is offered only where its parameter line allows the
/// packetization mode that may fragment NAL units.
pub proof fn law_format_follows_the_name(codec: RtpCodecView)
    requires
        codec_format(codec) is Some,
    ensures
        text::same_but_ascii_case(
            codec.name,
            family_name(video_format::family(codec_format(codec)->0)),
        ),
        codec_offer(codec).capability.mime_type == codec::mime_type(
            video_format::family(codec_format(codec)->0),
        ),
        video_format::family(codec_format(codec)->0) == CodecFamily::H264 ==> text::has_substring(
            codec.fmtp_line,
            "packetization-mode=1"@,
        ),
{
    lemma_selected_family(CodecFamily::H264, segments(codec.fmtp_line));
    lemma_selected_family(CodecFamily::H265, segments(codec.fmtp_line));
    lemma_selected_family(CodecFamily::Av1, segments(codec.fmtp_line));
}

/// Only these formats can be offered: a session description does not tell the others apart.
pub proof fn law_formats_that_can_be_offered(codec: RtpCodecView)
    requires
        codec_format(codec) is Some,
    ensures
        ({
            ||| codec_format(codec)->0 == VideoFormat::H264
            ||| codec_format(codec)->0 == VideoFormat::H264High8_444
            ||| codec_format(codec)->0 == VideoFormat::H265
            ||| codec_format(codec)->0 == VideoFormat::H265Main10
            ||| codec_format(codec)->0 == VideoFormat::Av1Main8
            ||| codec_format(codec)->0 == VideoFormat::Av1High8_444
        }),
{
    lemma_selected_format(CodecFamily::H264, segments(codec.fmtp_line));
    lemma_selected_format(CodecFamily::H265, segments(codec.fmtp_line));
    lemma_selected_format(CodecFamily::Av1, segments(codec.fmtp_line));
}

/// What the parts of a parameter line select is the base format of the family or one that a part
/// names.
proof fn lemma_selected_format(of: CodecFamily, parts: Seq<Seq<char>>)
    ensures
        ({
            let format = selected(of, parts);
            match of {
                CodecFamily::H264 => format == VideoFormat::H264 || format
                    == VideoFormat::H264High8_444,
                CodecFamily::H265 => format == VideoFormat::H265 || format
                    == VideoFormat::H265Main10,
                CodecFamily::Av1 => format == VideoFormat::Av1Main8 || format
                    == VideoFormat::Av1High8_444,
            }
        }),
    decreases parts.len(),
{
    if parts.len() > 0 {
        lemma_selected_format(of, parts.drop_last());
    }
}

/// What a row of codecs offers: a format where some codec of the row has it, with the parameters
/// of such a codec.
proof fn lemma_offered(codecs: Seq<RtpCodecView>, format: VideoFormat)
    ensures
        offered(codecs).contains_key(format) <==> exists|i: int|
            0 <= i < codecs.len() && codec_format(#[trigger] codecs[i]) == Some(format),
        offered(codecs).contains_key(format) ==> exists|i: int|
            0 <= i < codecs.len() && codec_format(#[trigger] codecs[i]) == Some(format)
                && offered(codecs)[format] == codec_offer(codecs[i]),
    decreases codecs.len(),
{
    if codecs.len() > 0 {
        let earlier = codecs.drop_last();
        lemma_offered(earlier, format);
        if codec_format(codecs.last()) == Some(format) {
            assert(codec_format(codecs[codecs.len() - 1]) == Some(format));
        } else {
            if offered(earlier).contains_key(format) {
                let i = choose|i: int|
                    0 <= i < earlier.len() && codec_format(#[trigger] earlier[i]) == Some(format)
                        && offered(earlier)[format] == codec_offer(earlier[i]);
                assert(codecs[i] == earlier[i]);
            }
            if exists|i: int|
                0 <= i < codecs.len() && codec_format(#[trigger] codecs[i]) == Some(format) {
                let i = choose|i: int|
                    0 <= i < codecs.len() && codec_format(#[trigger] codecs[i]) == Some(format);
                assert(earlier[i] == codecs[i]);
            }
        }
    }
}

/// A payload type of the codec table has this format.
pub open spec fn has_format(attributes: Seq<Attribute>, pt: u8, format: VideoFormat) -> bool {
    codec_table(attributes).contains_key(pt) && codec_format(described(attributes, pt)) == Some(
        format,
    )
}

/// In whatever order the codecs are walked, a format is offered exactly where some payload type
/// has it, and with the parameters of one that has it.
pub proof fn law_offers_every_supported_codec(
    attributes: Seq<Attribute>,
    order: Seq<u8>,
    format: VideoFormat,
)
    requires
        lists_codecs(attributes, order),
    ensures
        offered_in_order(attributes, order).contains_key(format) <==> exists|pt: u8| #[trigger]
            has_format(attributes, pt, format),
        offered_in_order(attributes, order).contains_key(format) ==> exists|pt: u8| #[trigger]
            has_format(attributes, pt, format) && offered_in_order(attributes, order)[format]
                == codec_offer(described(attributes, pt)),
{
    let codecs = order.map_values(|pt: u8| described(attributes, pt));
    lemma_offered(codecs, format);
    if offered(codecs).contains_key(format) {
        let i = choose|i: int|
            0 <= i < codecs.len() && codec_format(#[trigger] codecs[i]) == Some(format)
                && offered(codecs)[format] == codec_offer(codecs[i]);
        assert(order.to_set().contains(order[i]));
        assert(has_format(attributes, order[i], format));
    }
    if exists|pt: u8| #[trigger] has_format(attributes, pt, format) {
        let pt = choose|pt: u8| #[trigger] has_format(attributes, pt, format);
        assert(order.to_set().contains(pt));
        let i = choose|i: int| 0 <= i < order.len() && order[i] == pt;
        assert(codec_format(codecs[i]) == Some(format));
    }
}

/// Where no two payload types have the same format, the order in which the codecs are walked does
/// not matter.
pub proof fn law_order_matters_between_rivals_only(
    attributes: Seq<Attribute>,
    one: Seq<u8>,
    other: Seq<u8>,
)
    requires
        lists_codecs(attributes, one),
        lists_codecs(attributes, other),
        forall|a: u8, b: u8, format: VideoFormat| #[trigger]
            has_format(attributes, a, format) && #[trigger] has_format(attributes, b, format) ==> a
                == b,
    ensures
        offered_in_order(attributes, one) == offered_in_order(attributes, other),
{
    let left = offered_in_order(attributes, one);
    let right = offered_in_order(attributes, other);
    assert forall|format: VideoFormat| #[trigger]
        left.dom().contains(format) == right.dom().contains(format) by {
        law_offers_every_supported_codec(attributes, one, format);
        law_offers_every_supported_codec(attributes, other, format);
    }
    assert forall|format: VideoFormat| #[trigger] left.dom().contains(format) implies left[format]
        == right[format] by {
        law_offers_every_supported_codec(attributes, one, format);
        law_offers_every_supported_codec(attributes, other, format);
    }
    assert(left =~= right);
}

/// An `rtpmap` value that can be read is made of the parts that it reads as, so a value of any
/// other make is not read.
pub proof fn law_rtpmap_is_made_of_its_parts(value: Seq<char>)
    ensures
        rtpmap(value) matches Some((pt, codec, clock_rate)) ==> !codec.contains('/') && exists|
            number: Seq<char>,
            rate: Seq<char>,
        |
            value == #[trigger] (number + seq![' '] + (codec + seq!['/'] + rate))
                && text::unsigned(number, 0xff) == Some(pt as int) && text::unsigned(
                rate,
                0xffff_ffff,
            ) == Some(clock_rate as int),
{
    if rtpmap(value) is Some {
        text::law_cut_gives_the_text_back(value, ' ');
        let (number, full_codec) = text::cut(value, ' ')->0;
        text::law_cut_gives_the_text_back(full_codec, '/');
        let (codec, rate) = text::cut(full_codec, '/')->0;
        text::lemma_unsigned_bounds(number, 0xff);
        text::lemma_unsigned_bounds(rate, 0xffff_ffff);
        let (pt, name, clock_rate) = rtpmap(value)->0;
        assert(name == codec);
        assert(text::unsigned(number, 0xff) == Some(pt as int));
        assert(text::unsigned(rate, 0xffff_ffff) == Some(clock_rate as int));
        assert(value == number + seq![' '] + (name + seq!['/'] + rate));
    }
}

/// An `fmtp` value that can be read is made of the parts that it reads as.
pub proof fn law_fmtp_is_made_of_its_parts(value: Seq<char>)
    ensures
        fmtp(value) matches Some((pt, line)) ==> exists|number: Seq<char>|
            value == #[trigger] (number + seq![' '] + line) && text::unsigned(number, 0xff) == Some(
                pt as int,
            ),
{
    if fmtp(value) is Some {
        text::law_cut_gives_the_text_back(value, ' ');
        let (number, line) = text::cut(value, ' ')->0;
        text::lemma_unsigned_bounds(number, 0xff);
        let (pt, read) = fmtp(value)->0;
        assert(text::unsigned(number, 0xff) == Some(pt as int));
        assert(value == number + seq![' '] + read);
    }
}

/// The attributes of a description are those of all its sections, the first section's first.
pub proof fn law_sections_are_read_in_order(first: Seq<Media>, second: Seq<Media>, media: Media)
    ensures
        attributes_of(Seq::empty()) == Seq::<Attribute>::empty(),
        attributes_of(seq![media]) == media.attributes@,
        attributes_of(first + second) == attributes_of(first) + attributes_of(second),
    decreases second.len(),
{
    let one = seq![media];
    assert(one.drop_last() =~= Seq::<Media>::empty());
    assert(attributes_of(one.drop_last()) == Seq::<Attribute>::empty());
    assert(Seq::<Attribute>::empty() + media.attributes@ =~= media.attributes@);
    if second.len() == 0 {
        assert(first + second =~= first);
        assert(attributes_of(first) + attributes_of(second) =~= attributes_of(first));
    } else {
        law_sections_are_read_in_order(first, second.drop_last(), media);
        assert((first + second).drop_last() =~= first + second.drop_last());
        assert(attributes_of(first + second) =~= attributes_of(first) + attributes_of(second));
    }
}

/// Every attribute of every section counts, wherever the section stands.
pub proof fn law_every_section_is_read(medias: Seq<Media>, m: int, a: int)
    requires
        0 <= m < medias.len(),
        0 <= a < medias[m].attributes@.len(),
    ensures
        attributes_of(medias).contains(medias[m].attributes@[a]),
{
    let before = medias.take(m);
    let after = medias.skip(m + 1);
    let media = medias[m];
    assert(medias =~= before + (seq![media] + after));
    law_sections_are_read_in_order(before, seq![media] + after, media);
    law_sections_are_read_in_order(seq![media], after, media);
    let all = attributes_of(before) + (media.attributes@ + attributes_of(after));
    assert(all[attributes_of(before).len() + a] == media.attributes@[a]);
}

/// Of the readable `rtpmap` attributes for a payload type the last decides: it gives the codec its
/// name and clock rate.
pub proof fn law_last_rtpmap_decides(
    attributes: Seq<Attribute>,
    i: int,
    pt: u8,
    name: Seq<char>,
    clock_rate: u32,
)
    requires
        0 <= i < attributes.len(),
        attributes[i].attribute@ == "rtpmap"@,
        attributes[i].value is Some,
        rtpmap(attributes[i].value->0@) == Some((pt, name, clock_rate)),
        forall|k: int|
            i < k < attributes.len() && (#[trigger] attributes[k]).attribute@ == "rtpmap"@
                && attributes[k].value is Some ==> (rtpmap(attributes[k].value->0@) matches Some(
                (p, _, _),
            ) ==> p != pt),
    ensures
        codec_table(attributes).contains_key(pt),
        described(attributes, pt).payload_type == pt,
        described(attributes, pt).name == name,
        described(attributes, pt).clock_rate == clock_rate,
    decreases attributes.len(),
{
    if i < attributes.len() - 1 {
        let earlier = attributes.drop_last();
        assert forall|k: int|
            i < k < earlier.len() && (#[trigger] earlier[k]).attribute@ == "rtpmap"@
                && earlier[k].value is Some implies (rtpmap(earlier[k].value->0@) matches Some(
            (p, _, _),
        ) ==> p != pt) by {
            assert(attributes[k] == earlier[k]);
        }
        law_last_rtpmap_decides(earlier, i, pt, name, clock_rate);
        assert(attributes.last() == attributes[attributes.len() - 1]);
    }
}

/// Only readable `rtpmap` attributes bring codecs.
pub proof fn law_codecs_come_from_rtpmap(attributes: Seq<Attribute>, pt: u8)
    ensures
        codec_table(attributes).contains_key(pt) ==> exists|i: int|
            0 <= i < attributes.len() && (#[trigger] attributes[i]).attribute@ == "rtpmap"@
                && attributes[i].value is Some && (rtpmap(attributes[i].value->0@) matches Some(
                (p, _, _),
            ) && p == pt),
    decreases attributes.len(),
{
    if attributes.len() > 0 {
        let earlier = attributes.drop_last();
        law_codecs_come_from_rtpmap(earlier, pt);
        assert(attributes.last() == attributes[attributes.len() - 1]);
        if codec_table(earlier).contains_key(pt) {
            let i = choose|i: int|
                0 <= i < earlier.len() && (#[trigger] earlier[i]).attribute@ == "rtpmap"@
                    && earlier[i].value is Some && (rtpmap(earlier[i].value->0@) matches Some(
                    (p, _, _),
                ) && p == pt);
            assert(attributes[i] == earlier[i]);
        }
    }
}

/// Of the readable `fmtp` attributes for a payload type the last decides: it gives the codec its
/// parameter line.
pub proof fn law_last_fmtp_decides(attributes: Seq<Attribute>, i: int, pt: u8, line: Seq<char>)
    requires
        0 <= i < attributes.len(),
        attributes[i].attribute@ == "fmtp"@,
        attributes[i].value is Some,
        fmtp(attributes[i].value->0@) == Some((pt, line)),
        forall|k: int|
            i < k < attributes.len() && (#[trigger] attributes[k]).attribute@ == "fmtp"@
                && attributes[k].value is Some ==> (fmtp(attributes[k].value->0@) matches Some(
                (p, _),
            ) ==> p != pt),
    ensures
        fmtp_table(attributes).contains_key(pt),
        described(attributes, pt).fmtp_line == line,
    decreases attributes.len(),
{
    if i < attributes.len() - 1 {
        let earlier = attributes.drop_last();
        assert forall|k: int|
            i < k < earlier.len() && (#[trigger] earlier[k]).attribute@ == "fmtp"@
                && earlier[k].value is Some implies (fmtp(earlier[k].value->0@) matches Some(
            (p, _),
        ) ==> p != pt) by {
            assert(attributes[k] == earlier[k]);
        }
        law_last_fmtp_decides(earlier, i, pt, line);
        assert(attributes.last() == attributes[attributes.len() - 1]);
    }
}

/// A codec that no readable `fmtp` attribute speaks of has an empty parameter line.
pub proof fn law_line_is_empty_without_fmtp(attributes: Seq<Attribute>, pt: u8)
    requires
        forall|k: int|
            0 <= k < attributes.len() && (#[trigger] attributes[k]).attribute@ == "fmtp"@
                && attributes[k].value is Some ==> (fmtp(attributes[k].value->0@) matches Some(
                (p, _),
            ) ==> p != pt),
    ensures
        described(attributes, pt).fmtp_line == Seq::<char>::empty(),
    decreases attributes.len(),
{
    if attributes.len() > 0 {
        let earlier = attributes.drop_last();
        assert forall|k: int|
            0 <= k < earlier.len() && (#[trigger] earlier[k]).attribute@ == "fmtp"@
                && earlier[k].value is Some implies (fmtp(earlier[k].value->0@) matches Some(
            (p, _),
        ) ==> p != pt) by {
            assert(attributes[k] == earlier[k]);
        }
        law_line_is_empty_without_fmtp(earlier, pt);
        assert(attributes.last() == attributes[attributes.len() - 1]);
    }
}

/// Whatever order the codecs are walked in, each payload type that has a codec is met once.
pub proof fn law_walk_meets_every_codec_once(attributes: Seq<Attribute>, order: Seq<u8>, pt: u8)
    requires
        lists_codecs(attributes, order),
    ensures
        codec_table(attributes).contains_key(pt) <==> order.contains(pt),
        forall|i: int, j: int|
            0 <= i < order.len() && 0 <= j < order.len() && order[i] == order[j] ==> i == j,
{
    assert(order.to_set().contains(pt) <==> order.contains(pt));
}

/// A parameter line falls into parts at its semicolons and nowhere else.
pub proof fn law_segments_end_at_semicolons(first: Seq<char>, second: Seq<char>)
    ensures
        !first.contains(';') ==> segments(first) == seq![first],
        segments(first + seq![';'] + second) == segments(first) + segments(second),
    decreases first.len(),
{
    text::law_cut_gives_the_text_back(first, ';');
    match text::cut(first, ';') {
        None => {
            text::law_cut_finds_the_first(first, ';', second);
        },
        Some((head, tail)) => {
            law_segments_end_at_semicolons(tail, second);
            assert(first.contains(';')) by {
                assert(first[head.len() as int] == ';');
            }
            let rest = tail + seq![';'] + second;
            assert(first + seq![';'] + second =~= head + seq![';'] + rest);
            text::law_cut_finds_the_first(head, ';', rest);
            assert(seq![head] + (segments(tail) + segments(second)) =~= (seq![head] + segments(
                tail,
            )) + segments(second));
        },
    }
}

/// A part reads `key=` and then a value that begins with `head` exactly where it begins with all
/// of that, and `key=head` exactly where it is that.
proof fn lemma_key_value(part: Seq<char>, key: Seq<char>, head: Seq<char>, whole: Seq<char>)
    requires
        !key.contains('='),
        whole == key + seq!['='] + head,
    ensures
        whole.is_prefix_of(part) <==> (text::cut(part, '=') matches Some((k, v)) && k == key
            && head.is_prefix_of(v)),
        part == whole <==> (text::cut(part, '=') matches Some((k, v)) && k == key && v == head),
{
    text::law_cut_gives_the_text_back(part, '=');
    text::law_cut_finds_the_first(key, '=', head);
    if whole.is_prefix_of(part) {
        let rest = part.skip(key.len() as int + 1);
        assert forall|i: int| 0 <= i < whole.len() implies part[i] == whole[i] by {
            assert(part.subrange(0, whole.len() as int)[i] == part[i]);
        }
        assert(part =~= key + seq!['='] + rest);
        text::law_cut_finds_the_first(key, '=', rest);
        assert(rest.subrange(0, head.len() as int) =~= head);
    }
    if text::cut(part, '=') is Some {
        let (k, v) = text::cut(part, '=')->0;
        if k == key && head.is_prefix_of(v) {
            assert forall|i: int| 0 <= i < head.len() implies v[i] == head[i] by {
                assert(v.subrange(0, head.len() as int)[i] == v[i]);
            }
            assert(part.subrange(0, whole.len() as int) =~= whole);
        }
    }
}

/// Where the parts of a line can only select the base format of a family or one other, the other
/// is selected exactly where some part selects it and no later part selects the base format.
proof fn lemma_selected_last(of: CodecFamily, parts: Seq<Seq<char>>, other: VideoFormat)
    requires
        other != base_format(of),
        forall|part: Seq<char>|
            #![trigger segment_profile(of, part)]
            segment_profile(of, part) is None || segment_profile(of, part) == Some(base_format(of))
                || segment_profile(of, part) == Some(other),
    ensures
        selected(of, parts) == other <==> exists|i: int|
            0 <= i < parts.len() && segment_profile(of, #[trigger] parts[i]) == Some(other)
                && forall|j: int|
                i < j < parts.len() ==> segment_profile(of, #[trigger] parts[j]) != Some(
                    base_format(of),
                ),
        selected(of, parts) == other || selected(of, parts) == base_format(of),
    decreases parts.len(),
{
    if parts.len() > 0 {
        let earlier = parts.drop_last();
        lemma_selected_last(of, earlier, other);
        let last = parts.len() - 1;
        assert(parts.last() == parts[last]);
        assert(segment_profile(of, parts.last()) is None || segment_profile(of, parts.last())
            == Some(base_format(of)) || segment_profile(of, parts.last()) == Some(other));
        if selected(of, parts) == other {
            if segment_profile(of, parts.last()) is None {
                let i = choose|i: int|
                    0 <= i < earlier.len() && segment_profile(of, #[trigger] earlier[i]) == Some(
                        other,
                    ) && forall|j: int|
                        i < j < earlier.len() ==> segment_profile(of, #[trigger] earlier[j])
                            != Some(base_format(of));
                assert(parts[i] == earlier[i]);
                assert forall|j: int| i < j < parts.len() implies segment_profile(
                    of,
                    #[trigger] parts[j],
                ) != Some(base_format(of)) by {
                    if j < last {
                        assert(parts[j] == earlier[j]);
                    }
                }
            } else {
                assert(segment_profile(of, parts[last]) == Some(other));
            }
        }
        if exists|i: int|
            0 <= i < parts.len() && segment_profile(of, #[trigger] parts[i]) == Some(other)
                && forall|j: int|
                i < j < parts.len() ==> segment_profile(of, #[trigger] parts[j]) != Some(
                    base_format(of),
                ) {
            let i = choose|i: int|
                0 <= i < parts.len() && segment_profile(of, #[trigger] parts[i]) == Some(other)
                    && forall|j: int|
                    i < j < parts.len() ==> segment_profile(of, #[trigger] parts[j]) != Some(
                        base_format(of),
                    );
            if i < last {
                assert(earlier[i] == parts[i]);
                assert(segment_profile(of, parts[last]) != Some(base_format(of)));
                assert forall|j: int| i < j < earlier.len() implies segment_profile(
                    of,
                    #[trigger] earlier[j],
                ) != Some(base_format(of)) by {
                    assert(earlier[j] == parts[j]);
                }
            }
        }
    }
}

/// H.264 is supported exactly where its line allows packetization mode 1. It is the 4:4:4 format
/// exactly where some part of the line reads `profile-level-id=f4..` and no later part reads
/// `profile-level-id=64..`; any other profile is the base format.
pub proof fn law_h264_profiles(name: Seq<char>, line: Seq<char>)
    requires
        text::same_but_ascii_case(name, "H264"@),
    ensures
        recognized(name, line) is Some <==> text::has_substring(line, "packetization-mode=1"@),
        recognized(name, line) == Some(VideoFormat::H264High8_444) <==> text::has_substring(
            line,
            "packetization-mode=1"@,
        ) && exists|i: int|
            0 <= i < segments(line).len() && "profile-level-id=f4"@.is_prefix_of(
                #[trigger] segments(line)[i],
            ) && forall|j: int|
                i < j < segments(line).len() ==> !"profile-level-id=64"@.is_prefix_of(
                    #[trigger] segments(line)[j],
                ),
        recognized(name, line) is Some && recognized(name, line) != Some(
            VideoFormat::H264High8_444,
        ) ==> recognized(name, line) == Some(VideoFormat::H264),
{
    reveal_strlit("profile-level-id");
    reveal_strlit("64");
    reveal_strlit("f4");
    reveal_strlit("profile-level-id=64");
    reveal_strlit("profile-level-id=f4");
    assert("profile-level-id=64"@ =~= "profile-level-id"@ + seq!['='] + "64"@);
    assert("profile-level-id=f4"@ =~= "profile-level-id"@ + seq!['='] + "f4"@);
    assert forall|part: Seq<char>|
        #![trigger segment_profile(CodecFamily::H264, part)]
        (segment_profile(CodecFamily::H264, part) == Some(VideoFormat::H264)
            <==> "profile-level-id=64"@.is_prefix_of(part)) && (segment_profile(
            CodecFamily::H264,
            part,
        ) == Some(VideoFormat::H264High8_444) <==> "profile-level-id=f4"@.is_prefix_of(part)) by {
        lemma_key_value(part, "profile-level-id"@, "64"@, "profile-level-id=64"@);
        lemma_key_value(part, "profile-level-id"@, "f4"@, "profile-level-id=f4"@);
        if "profile-level-id=64"@.is_prefix_of(part) && "profile-level-id=f4"@.is_prefix_of(part) {
            let n = "profile-level-id=64"@.len() as int;
            assert(part.subrange(0, n)[n - 2] == '6');
            assert(part.subrange(0, n)[n - 2] == 'f');
        }
    }
    lemma_selected_last(CodecFamily::H264, segments(line), VideoFormat::H264High8_444);
}

/// H.265 is the ten bit format exactly where some part of the line reads `profile-id=2` and no
/// later part reads `profile-id=1`; any other profile is the base format.
pub proof fn law_h265_profiles(name: Seq<char>, line: Seq<char>)
    requires
        text::same_but_ascii_case(name, "H265"@),
    ensures
        recognized(name, line) == Some(VideoFormat::H265Main10) <==> exists|i: int|
            0 <= i < segments(line).len() && #[trigger] segments(line)[i] == "profile-id=2"@
                && forall|j: int|
                i < j < segments(line).len() ==> #[trigger] segments(line)[j] != "profile-id=1"@,
        recognized(name, line) != Some(VideoFormat::H265Main10) ==> recognized(name, line) == Some(
            VideoFormat::H265,
        ),
{
    reveal_strlit("H264");
    reveal_strlit("H265");
    reveal_strlit("profile-id");
    reveal_strlit("1");
    reveal_strlit("2");
    reveal_strlit("profile-id=1");
    reveal_strlit("profile-id=2");
    assert(text::ascii_lower(name[3]) == text::ascii_lower("H265"@[3]));
    assert(text::ascii_lower(name[3]) != text::ascii_lower("H264"@[3]));
    assert("profile-id=1"@ =~= "profile-id"@ + seq!['='] + "1"@);
    assert("profile-id=2"@ =~= "profile-id"@ + seq!['='] + "2"@);
    assert("1"@[0] != "2"@[0]);
    assert forall|part: Seq<char>|
        #![trigger segment_profile(CodecFamily::H265, part)]
        (segment_profile(CodecFamily::H265, part) == Some(VideoFormat::H265) <==> part
            == "profile-id=1"@) && (segment_profile(CodecFamily::H265, part) == Some(
            VideoFormat::H265Main10,
        ) <==> part == "profile-id=2"@) by {
        lemma_key_value(part, "profile-id"@, "1"@, "profile-id=1"@);
        lemma_key_value(part, "profile-id"@, "2"@, "profile-id=2"@);
    }
    lemma_selected_last(CodecFamily::H265, segments(line), VideoFormat::H265Main10);
}

/// AV1 is the 4:4:4 format exactly where some part of the line reads `profile=2` and no later part
/// reads `profile=1`; any other profile is the base format.
pub proof fn law_av1_profiles(name: Seq<char>, line: Seq<char>)
    requires
        text::same_but_ascii_case(name, "AV1"@),
    ensures
        recognized(name, line) == Some(VideoFormat::Av1High8_444) <==> exists|i: int|
            0 <= i < segments(line).len() && #[trigger] segments(line)[i] == "profile=2"@
                && forall|j: int|
                i < j < segments(line).len() ==> #[trigger] segments(line)[j] != "profile=1"@,
        recognized(name, line) != Some(VideoFormat::Av1High8_444) ==> recognized(name, line)
            == Some(VideoFormat::Av1Main8),
{
    reveal_strlit("H264");
    reveal_strlit("H265");
    reveal_strlit("AV1");
    reveal_strlit("profile");
    reveal_strlit("1");
    reveal_strlit("2");
    reveal_strlit("profile=1");
    reveal_strlit("profile=2");
    assert("profile=1"@ =~= "profile"@ + seq!['='] + "1"@);
    assert("profile=2"@ =~= "profile"@ + seq!['='] + "2"@);
    assert("1"@[0] != "2"@[0]);
    assert forall|part: Seq<char>|
        #![trigger segment_profile(CodecFamily::Av1, part)]
        (segment_profile(CodecFamily::Av1, part) == Some(VideoFormat::Av1Main8) <==> part
            == "profile=1"@) && (segment_profile(CodecFamily::Av1, part) == Some(
            VideoFormat::Av1High8_444,
        ) <==> part == "profile=2"@) by {
        lemma_key_value(part, "profile"@, "1"@, "profile=1"@);
        lemma_key_value(part, "profile"@, "2"@, "profile=2"@);
    }
    lemma_selected_last(CodecFamily::Av1, segments(line), VideoFormat::Av1High8_444);
}

/// A codec of any other name is not supported, whatever its line says.
pub proof fn law_other_names_are_not_recognized(name: Seq<char>, line: Seq<char>)
    requires
        !text::same_but_ascii_case(name, "H264"@),
        !text::same_but_ascii_case(name, "H265"@),
        !text::same_but_ascii_case(name, "AV1"@),
    ensures
        recognized(name, line) is None,
{
}

/// A supported codec is offered with its own payload type, clock rate and parameter line, with
/// the MIME type `video/` and its name, and with feedback for lost packets, lost pictures and the
/// bitrate.
pub proof fn law_offer_carries_the_codec(codec: RtpCodecView)
    requires
        codec_format(codec) is Some,
    ensures
        codec_format(codec) == recognized(codec.name, codec.fmtp_line),
        codec_offer(codec).payload_type == codec.payload_type,
        codec_offer(codec).stats_id.len() == 0,
        codec_offer(codec).capability.clock_rate == codec.clock_rate,
        codec_offer(codec).capability.channels == 0,
        codec_offer(codec).capability.sdp_fmtp_line == codec.fmtp_line,
        codec_offer(codec).capability.rtcp_feedback == codec::feedback_kinds(),
        text::same_but_ascii_case("video/"@ + codec.name, codec_offer(codec).capability.mime_type),
{
    law_format_follows_the_name(codec);
    reveal_strlit("video/");
    reveal_strlit("video/H264");
    reveal_strlit("video/H265");
    reveal_strlit("video/AV1");
    reveal_strlit("H264");
    reveal_strlit("H265");
    reveal_strlit("AV1");
    let family = video_format::family(codec_format(codec)->0);
    let mime = codec_offer(codec).capability.mime_type;
    assert(mime =~= "video/"@ + family_name(family));
    let full = "video/"@ + codec.name;
    assert forall|i: int| 0 <= i < full.len() implies #[trigger] text::ascii_lower(full[i])
        == text::ascii_lower(mime[i]) by {
        if i >= 6 {
            assert(text::ascii_lower(codec.name[i - 6]) == text::ascii_lower(
                family_name(family)[i - 6],
            ));
        }
    }
}

/// Of the codecs of a row that have the same format the last is offered, and a format that no
/// codec of the row has is not.
pub proof fn law_last_of_a_format_is_offered(
    codecs: Seq<RtpCodecView>,
    i: int,
    format: VideoFormat,
)
    ensures
        offered(codecs).contains_key(format) <==> exists|k: int|
            0 <= k < codecs.len() && recognized(
                (#[trigger] codecs[k]).name,
                codecs[k].fmtp_line,
            ) == Some(format),
        0 <= i < codecs.len() && recognized(codecs[i].name, codecs[i].fmtp_line) == Some(format) && (
        forall|k: int|
            i < k < codecs.len() ==> recognized((#[trigger] codecs[k]).name, codecs[k].fmtp_line)
                != Some(format)) ==> offered(codecs)[format] == codec_offer(codecs[i]),
    decreases codecs.len(),
{
    lemma_offered(codecs, format);
    if offered(codecs).contains_key(format) {
        let k = choose|k: int|
            0 <= k < codecs.len() && codec_format(#[trigger] codecs[k]) == Some(format);
        assert(recognized(codecs[k].name, codecs[k].fmtp_line) == Some(format));
    }
    if exists|k: int|
        0 <= k < codecs.len() && recognized((#[trigger] codecs[k]).name, codecs[k].fmtp_line)
            == Some(format) {
        let k = choose|k: int|
            0 <= k < codecs.len() && recognized((#[trigger] codecs[k]).name, codecs[k].fmtp_line)
                == Some(format);
        assert(codec_format(codecs[k]) == Some(format));
    }
    if 0 <= i < codecs.len() - 1 && recognized(codecs[i].name, codecs[i].fmtp_line) == Some(format)
        && forall|k: int|
        i < k < codecs.len() ==> recognized((#[trigger] codecs[k]).name, codecs[k].fmtp_line)
            != Some(format) {
        let earlier = codecs.drop_last();
        assert(codecs.last() == codecs[codecs.len() - 1]);
        assert(recognized(codecs.last().name, codecs.last().fmtp_line) != Some(format));
        assert forall|k: int| i < k < earlier.len() implies recognized(
            (#[trigger] earlier[k]).name,
            earlier[k].fmtp_line,
        ) != Some(format) by {
            assert(earlier[k] == codecs[k]);
        }
        assert(earlier[i] == codecs[i]);
        law_last_of_a_format_is_offered(earlier, i, format);
    }
}

/// In whatever order the codecs of a description are walked, a format is offered exactly where
/// some codec of the description has it, and then as that codec, or another with the same format,
/// is described: under its payload type, with its clock rate and its parameter line.
pub proof fn law_offers_are_the_codecs_described(
    attributes: Seq<Attribute>,
    order: Seq<u8>,
    format: VideoFormat,
)
    requires
        lists_codecs(attributes, order),
    ensures
        offered_in_order(attributes, order).contains_key(format) <==> exists|pt: u8|
            codec_table(attributes).contains_key(pt) && recognized(
                (#[trigger] described(attributes, pt)).name,
                described(attributes, pt).fmtp_line,
            ) == Some(format),
        offered_in_order(attributes, order).contains_key(format) ==> exists|pt: u8|
            {
                let offer = offered_in_order(attributes, order)[format];
                let codec = #[trigger] described(attributes, pt);
                &&& codec_table(attributes).contains_key(pt)
                &&& recognized(codec.name, codec.fmtp_line) == Some(format)
                &&& offer.payload_type == pt
                &&& offer.capability.clock_rate == codec.clock_rate
                &&& offer.capability.sdp_fmtp_line == codec.fmtp_line
                &&& text::same_but_ascii_case("video/"@ + codec.name, offer.capability.mime_type)
            },
{
    law_offers_every_supported_codec(attributes, order, format);
    if offered_in_order(attributes, order).contains_key(format) {
        let pt = choose|pt: u8| #[trigger]
            has_format(attributes, pt, format) && offered_in_order(attributes, order)[format]
                == codec_offer(described(attributes, pt));
        law_offer_carries_the_codec(described(attributes, pt));
    }
    if exists|pt: u8|
        codec_table(attributes).contains_key(pt) && recognized(
            (#[trigger] described(attributes, pt)).name,
            described(attributes, pt).fmtp_line,
        ) == Some(format) {
        let pt = choose|pt: u8|
            codec_table(attributes).contains_key(pt) && recognized(
                (#[trigger] described(attributes, pt)).name,
                described(attributes, pt).fmtp_line,
            ) == Some(format);
        assert(has_format(attributes, pt, format));
    }
}

/// A codec is viewed with all that it holds.
pub proof fn law_codec_is_viewed_whole(codec: RtpCodec<'_>)
    ensures
        codec@.payload_type == codec.payload_type,
        codec@.name == codec.name@,
        codec@.clock_rate == codec.clock_rate,
        codec@.fmtp_line == codec.fmtp_line@,
{
}

} // verus!
