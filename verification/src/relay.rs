//! Turning encoded frames into numbered RTP packets.
use bytes::Bytes;
use vstd::prelude::*;

use crate::payload::{self, outbound_mtu, FramePayloader, PayloaderState};
use crate::video_format::{self, VideoFormat};

verus! {

/// A span of time since the start of the stream, in seconds and nanoseconds.
#[derive(Clone, Copy, Debug, PartialEq, Eq, Structural)]
pub struct FrameTime {
    pub secs: u64,
    pub subsec_nanos: u32,
}

impl FrameTime {
    /// The number of whole milliseconds.
    pub open spec fn millis(self) -> int {
        self.secs * 1000 + self.subsec_nanos as int / 1_000_000
    }

    /// The whole milliseconds in the span.
    pub fn as_millis(self) -> (millis: u128)
        ensures
            millis == self.millis(),
    {
        self.secs as u128 * 1000 + (self.subsec_nanos / 1_000_000) as u128
    }
}

/// An encoded video frame; each buffer holds one NAL unit or more.
pub struct VideoFrame<'a> {
    pub time: FrameTime,
    pub buffers: Vec<&'a [u8]>,
}

/// What the relay task is sent: a frame, or the HDR metadata from here on.
#[derive(Debug, PartialEq, Eq)]
pub enum Message<F, H> {
    Frame(F),
    HdrMetadata(Option<H>),
}

/// An RTP header extension.
#[derive(Clone, Copy, Debug, PartialEq, Eq, Structural)]
pub enum HeaderExtension {
    /// Bounds on how long the receiver may hold a frame back, in units of ten milliseconds.
    PlayoutDelay { min_delay: u16, max_delay: u16 },
}

/// An RTP packet with its header extensions. The header fields that are not listed are zero or
/// empty.
pub struct RtpPacket {
    pub version: u8,
    pub marker: bool,
    pub payload_type: u8,
    pub sequence_number: u16,
    pub timestamp: u32,
    pub payload: Bytes,
    pub extensions: Vec<HeaderExtension>,
}

/// The contents of an [`RtpPacket`].
pub struct PacketView {
    pub version: u8,
    pub marker: bool,
    pub payload_type: u8,
    pub sequence_number: u16,
    pub timestamp: u32,
    pub payload: Seq<u8>,
    pub extensions: Seq<HeaderExtension>,
}

impl View for RtpPacket {
    type V = PacketView;

    open spec fn view(&self) -> PacketView {
        PacketView {
            version: self.version,
            marker: self.marker,
            payload_type: self.payload_type,
            sequence_number: self.sequence_number,
            timestamp: self.timestamp,
            payload: payload::bytes_contents(self.payload),
            extensions: self.extensions@,
        }
    }
}

/// The RTP timestamp of a point in time: ticks of the codec's clock, modulo two to the
/// thirty-second.
pub open spec fn rtp_timestamp(time: FrameTime, clock_rate: u32) -> u32 {
    (time.millis() * clock_rate / 1000 % 0x1_0000_0000) as u32
}

/// The sequence number that comes `steps` after `number`.
pub open spec fn later(number: u16, steps: int) -> u16 {
    ((number + steps) % 0x1_0000) as u16
}

/// Packet `i` of the packets that carry the payloads of one frame. `number` is the sequence
/// number of the packet before the frame.
pub open spec fn frame_packet(
    payloads: Seq<Seq<u8>>,
    i: int,
    number: u16,
    timestamp: u32,
    payload_type: u8,
) -> PacketView {
    PacketView {
        version: 2,
        marker: i == payloads.len() - 1,
        payload_type,
        sequence_number: later(number, i + 1),
        timestamp,
        payload: payloads[i],
        extensions: seq![HeaderExtension::PlayoutDelay { min_delay: 0, max_delay: 0 }],
    }
}

/// The packets that carry the payloads of one frame.
pub open spec fn frame_packets(
    payloads: Seq<Seq<u8>>,
    number: u16,
    timestamp: u32,
    payload_type: u8,
) -> Seq<PacketView> {
    Seq::new(
        payloads.len(),
        |i: int| frame_packet(payloads, i, number, timestamp, payload_type),
    )
}

/// Wraps the payloads of one frame in packets, numbered from `number` on. The marker stands on
/// the last packet of the frame. Returns the packets and the last sequence number in use.
pub fn packets_for(
    payloads: Vec<Bytes>,
    number: u16,
    timestamp: u32,
    payload_type: u8,
) -> (result: (Vec<RtpPacket>, u16))
    ensures
        result.0@.map_values(|p: RtpPacket| p@) == frame_packets(
            payload::contents_of(payloads@),
            number,
            timestamp,
            payload_type,
        ),
        result.1 == later(number, payloads@.len() as int),
{
    let len: usize = payloads.len();
    let mut packets: Vec<RtpPacket> = Vec::new();
    let mut sequence_number: u16 = number;
    let ghost contents = payload::contents_of(payloads@);
    let ghost all = payloads@;
    for payload in it: payloads.into_iter()
        invariant
            it.seq() == all,
            len == all.len(),
            contents == payload::contents_of(all),
            packets.len() == it.index(),
            sequence_number == later(number, packets.len() as int),
            forall|i: int|
                0 <= i < packets.len() ==> #[trigger] packets@[i]@ == frame_packet(
                    contents,
                    i,
                    number,
                    timestamp,
                    payload_type,
                ),
    {
        let i: usize = packets.len();
        sequence_number = sequence_number.wrapping_add(1);
        packets.push(
            RtpPacket {
                version: 2,
                // Marker needs to mark the end of one frame
                marker: i == len - 1,
                payload_type,
                sequence_number,
                timestamp,
                payload,
                extensions: vec![HeaderExtension::PlayoutDelay { min_delay: 0, max_delay: 0 }],
            },
        );
        assert(packets@[i as int]@.extensions =~= frame_packet(
            contents,
            i as int,
            number,
            timestamp,
            payload_type,
        ).extensions);
    }
    assert(packets@.map_values(|p: RtpPacket| p@) =~= frame_packets(
        contents,
        number,
        timestamp,
        payload_type,
    ));
    (packets, sequence_number)
}

/// The relay of one video track: packetizes frames and numbers the packets.
pub struct FrameRelay<H> {
    clock_rate: u32,
    payload_type: u8,
    payloader: FramePayloader,
    sequence_number: u16,
    hdr_metadata: Option<H>,
}

/// The state of a [`FrameRelay`].
pub struct RelayView<H> {
    pub clock_rate: u32,
    pub payload_type: u8,
    pub payloader: PayloaderState,
    /// The sequence number of the last packet.
    pub sequence_number: u16,
    /// The HDR metadata that came last.
    pub hdr_metadata: Option<H>,
}

impl<H> View for FrameRelay<H> {
    type V = RelayView<H>;

    closed spec fn view(&self) -> RelayView<H> {
        RelayView {
            clock_rate: self.clock_rate,
            payload_type: self.payload_type,
            payloader: self.payloader@,
            sequence_number: self.sequence_number,
            hdr_metadata: self.hdr_metadata,
        }
    }
}

impl<H> RelayView<H> {
    /// The payloader can take every buffer of a frame.
    pub open spec fn takes(self, buffers: Seq<Seq<u8>>) -> bool {
        payload::all_payloadable(self.payloader, buffers)
    }

    /// The payloads that a frame is split into.
    pub open spec fn payloads(self, buffers: Seq<Seq<u8>>) -> Seq<Seq<u8>> {
        payload::frame_packetized(self.payloader, 1200, buffers).0
    }

    /// The packets that a frame is sent in.
    pub open spec fn packets(self, time: FrameTime, buffers: Seq<Seq<u8>>) -> Seq<PacketView> {
        frame_packets(
            self.payloads(buffers),
            self.sequence_number,
            rtp_timestamp(time, self.clock_rate),
            self.payload_type,
        )
    }

    /// The state once a frame has been sent.
    pub open spec fn sent(self, buffers: Seq<Seq<u8>>) -> RelayView<H> {
        RelayView {
            payloader: payload::frame_packetized(self.payloader, 1200, buffers).1,
            sequence_number: later(self.sequence_number, self.payloads(buffers).len() as int),
            ..self
        }
    }
}

/// The state of a relay that has sent nothing yet.
pub open spec fn relay_start<H>(format: VideoFormat, payload_type: u8, clock_rate: u32) -> RelayView<H> {
    RelayView {
        clock_rate,
        payload_type,
        payloader: payload::fresh(video_format::family(format)),
        sequence_number: 0,
        hdr_metadata: None,
    }
}

impl<H> FrameRelay<H> {
    /// A relay for a track of the given format.
    pub fn new(format: VideoFormat, payload_type: u8, clock_rate: u32) -> (relay: FrameRelay<H>)
        ensures
            relay@ == relay_start::<H>(format, payload_type, clock_rate),
    {
        FrameRelay {
            clock_rate,
            payload_type,
            payloader: FramePayloader::new(format),
            sequence_number: 0,
            hdr_metadata: None,
        }
    }

    /// Takes a message in. HDR metadata is kept; a frame is handed back to be sent.
    pub fn on_message<F>(&mut self, message: Message<F, H>) -> (frame: Option<F>)
        ensures
            match message {
                Message::HdrMetadata(metadata) => {
                    &&& frame is None
                    &&& final(self)@ == (RelayView { hdr_metadata: metadata, ..old(self)@ })
                },
                Message::Frame(f) => frame == Some(f) && final(self)@ == old(self)@,
            },
    {
        match message {
            Message::HdrMetadata(metadata) => {
                self.hdr_metadata = metadata;
                None
            },
            Message::Frame(frame) => Some(frame),
        }
    }

    /// Tells whether the payloader can take every buffer of a frame.
    pub fn takes(&self, frame: &VideoFrame) -> (taken: bool)
        ensures
            taken == self@.takes(payload::slices(frame.buffers@)),
    {
        self.payloader.takes_all(&frame.buffers)
    }

    /// The packets that a frame is sent in. While all bindings of the track are paused the frame
    /// is dropped: the peer may still be negotiating when the first frame comes.
    pub fn relay_frame(&mut self, frame: &VideoFrame, all_bindings_paused: bool) -> (packets: Vec<
        RtpPacket,
    >)
        requires
            all_bindings_paused || old(self)@.takes(payload::slices(frame.buffers@)),
        ensures
            all_bindings_paused ==> packets@.len() == 0 && final(self)@ == old(self)@,
            !all_bindings_paused ==> {
                &&& packets@.map_values(|p: RtpPacket| p@) == old(self)@.packets(
                    frame.time,
                    payload::slices(frame.buffers@),
                )
                &&& final(self)@ == old(self)@.sent(payload::slices(frame.buffers@))
            },
    {
        if all_bindings_paused {
            return Vec::new();
        }
        let ticks: u128 = frame.time.as_millis();
        assert(ticks * self.clock_rate <= 0xffff_ffff_ffff_ffff_ffff_ffff_ffff) by (nonlinear_arith)
            requires
                ticks <= 0x4000_0000_0000_0000_0000,
                self.clock_rate <= 0xffff_ffff,
        ;
        let ticks: u128 = ticks * self.clock_rate as u128 / 1000;
        assert(ticks as u32 == ticks % 0x1_0000_0000) by (bit_vector);
        let timestamp = ticks as u32;
        let payloads = self.payloader.payload_all(outbound_mtu(), &frame.buffers);
        let (packets, sequence_number) = packets_for(
            payloads,
            self.sequence_number,
            timestamp,
            self.payload_type,
        );
        self.sequence_number = sequence_number;
        packets
    }
}

/// A frame that comes to a relay, and whether all bindings of the track are paused then.
pub struct FrameEvent {
    pub time: FrameTime,
    pub buffers: Seq<Seq<u8>>,
    pub all_bindings_paused: bool,
}

/// The packets that a relay sends for a row of messages, and its state afterwards.
pub open spec fn relayed<H>(relay: RelayView<H>, messages: Seq<Message<FrameEvent, H>>) -> (
    Seq<PacketView>,
    RelayView<H>,
)
    decreases messages.len(),
{
    if messages.len() == 0 {
        (Seq::empty(), relay)
    } else {
        let (earlier, before) = relayed(relay, messages.drop_last());
        match messages.last() {
            Message::HdrMetadata(metadata) => (
                earlier,
                RelayView { hdr_metadata: metadata, ..before },
            ),
            Message::Frame(frame) => if frame.all_bindings_paused {
                (earlier, before)
            } else {
                (earlier + before.packets(frame.time, frame.buffers), before.sent(frame.buffers))
            },
        }
    }
}

/// Steps add up.
proof fn lemma_later(number: u16, first: int, second: int)
    requires
        0 <= first,
        0 <= second,
    ensures
        later(later(number, first), second) == later(number, first + second),
{
}

/// The packets of a relay are numbered one after another, across frames, modulo two to the
/// sixteenth. Frames that are dropped, and HDR metadata between frames, leave no gap.
pub proof fn law_packets_are_numbered_in_order<H>(
    relay: RelayView<H>,
    messages: Seq<Message<FrameEvent, H>>,
)
    ensures
        relayed(relay, messages).1.sequence_number == later(
            relay.sequence_number,
            relayed(relay, messages).0.len() as int,
        ),
        forall|i: int|
            0 <= i < relayed(relay, messages).0.len() ==> (#[trigger] relayed(
                relay,
                messages,
            ).0[i]).sequence_number == later(relay.sequence_number, i + 1),
    decreases messages.len(),
{
    if messages.len() > 0 {
        law_packets_are_numbered_in_order(relay, messages.drop_last());
        let (earlier, before) = relayed(relay, messages.drop_last());
        if let Message::Frame(frame) = messages.last() {
            if !frame.all_bindings_paused {
                let packets = before.packets(frame.time, frame.buffers);
                lemma_later(relay.sequence_number, earlier.len() as int, packets.len() as int);
                assert(relayed(relay, messages).0 == earlier + packets);
                assert forall|i: int|
                    0 <= i < (earlier + packets).len() implies (#[trigger] (earlier
                    + packets)[i]).sequence_number == later(relay.sequence_number, i + 1) by {
                    if i >= earlier.len() {
                        let k = i - earlier.len();
                        assert((earlier + packets)[i] == packets[k]);
                        lemma_later(relay.sequence_number, earlier.len() as int, k + 1);
                    } else {
                        assert((earlier + packets)[i] == earlier[i]);
                    }
                }
            }
        }
    }
}

/// Every packet of a relay carries the payload type of its codec, and asks the receiver to play
/// its frame without delay.
pub proof fn law_packets_are_uniform<H>(
    relay: RelayView<H>,
    messages: Seq<Message<FrameEvent, H>>,
    i: int,
)
    requires
        0 <= i < relayed(relay, messages).0.len(),
    ensures
        relayed(relay, messages).1.payload_type == relay.payload_type,
        relayed(relay, messages).1.clock_rate == relay.clock_rate,
        relayed(relay, messages).0[i].version == 2,
        relayed(relay, messages).0[i].payload_type == relay.payload_type,
        relayed(relay, messages).0[i].extensions == seq![
            HeaderExtension::PlayoutDelay { min_delay: 0, max_delay: 0 },
        ],
    decreases messages.len(),
{
    lemma_codec_stays(relay, messages);
    lemma_codec_stays(relay, messages.drop_last());
    let (earlier, before) = relayed(relay, messages.drop_last());
    if i < earlier.len() {
        law_packets_are_uniform(relay, messages.drop_last(), i);
    }
    if let Message::Frame(frame) = messages.last() {
        if !frame.all_bindings_paused {
            let packets = before.packets(frame.time, frame.buffers);
            if i < earlier.len() {
                assert((earlier + packets)[i] == earlier[i]);
            } else {
                assert((earlier + packets)[i] == packets[i - earlier.len()]);
            }
        }
    }
}

/// A relay stays with its codec.
proof fn lemma_codec_stays<H>(relay: RelayView<H>, messages: Seq<Message<FrameEvent, H>>)
    ensures
        relayed(relay, messages).1.payload_type == relay.payload_type,
        relayed(relay, messages).1.clock_rate == relay.clock_rate,
    decreases messages.len(),
{
    if messages.len() > 0 {
        lemma_codec_stays(relay, messages.drop_last());
    }
}

/// The messages of a row that bring a frame.
pub open spec fn frames_of<H>(messages: Seq<Message<FrameEvent, H>>) -> Seq<Message<FrameEvent, H>>
    decreases messages.len(),
{
    if messages.len() == 0 {
        Seq::empty()
    } else {
        let earlier = frames_of(messages.drop_last());
        match messages.last() {
            Message::HdrMetadata(_) => earlier,
            Message::Frame(_) => earlier.push(messages.last()),
        }
    }
}

/// A row of messages yields the packets that its frames alone yield, whatever HDR metadata comes
/// between them.
pub proof fn law_metadata_may_be_left_out<H>(
    relay: RelayView<H>,
    messages: Seq<Message<FrameEvent, H>>,
)
    ensures
        relayed(relay, messages).0 == relayed(relay, frames_of(messages)).0,
        relayed(relay, messages).1 == (RelayView {
            hdr_metadata: relayed(relay, messages).1.hdr_metadata,
            ..relayed(relay, frames_of(messages)).1
        }),
    decreases messages.len(),
{
    if messages.len() > 0 {
        law_metadata_may_be_left_out(relay, messages.drop_last());
        let frames = frames_of(messages.drop_last());
        assert(frames.push(messages.last()).drop_last() =~= frames);
    }
}

/// HDR metadata is kept, but the packets of a frame are the same with it and without.
pub proof fn law_metadata_changes_no_packet<H>(
    relay: RelayView<H>,
    metadata: Option<H>,
    time: FrameTime,
    buffers: Seq<Seq<u8>>,
)
    ensures
        (RelayView { hdr_metadata: metadata, ..relay }).packets(time, buffers) == relay.packets(
            time,
            buffers,
        ),
{
}

/// The packets of one frame carry its payloads in order, share its timestamp, and the marker
/// stands on the last of them and on no other.
pub proof fn law_marker_ends_a_frame<H>(
    relay: RelayView<H>,
    time: FrameTime,
    buffers: Seq<Seq<u8>>,
    i: int,
)
    requires
        0 <= i < relay.packets(time, buffers).len(),
    ensures
        relay.packets(time, buffers).len() == relay.payloads(buffers).len(),
        relay.packets(time, buffers)[i].payload == relay.payloads(buffers)[i],
        relay.packets(time, buffers)[i].timestamp == rtp_timestamp(time, relay.clock_rate),
        relay.packets(time, buffers)[i].marker <==> i == relay.packets(time, buffers).len() - 1,
{
}

/// Whole milliseconds: what is left of the span is less than one.
pub proof fn law_millis_are_whole(time: FrameTime)
    ensures
        time.millis() * 1_000_000 <= time.secs * 1_000_000_000 + time.subsec_nanos,
        time.secs * 1_000_000_000 + time.subsec_nanos < (time.millis() + 1) * 1_000_000,
{
}

/// A timestamp is the number of whole ticks of the clock, up to turns of thirty-two bits.
pub proof fn law_timestamp_counts_whole_ticks(time: FrameTime, clock_rate: u32)
    ensures
        exists|turns: int|
            {
                let ticks = #[trigger] (turns * 0x1_0000_0000) + rtp_timestamp(time, clock_rate);
                &&& 0 <= turns
                &&& ticks * 1000 <= time.millis() * clock_rate
                &&& time.millis() * clock_rate < (ticks + 1) * 1000
            },
{
    let product = time.millis() * clock_rate;
    assert(product >= 0) by (nonlinear_arith)
        requires
            product == time.millis() * clock_rate,
            time.millis() >= 0,
            clock_rate >= 0,
    ;
    let ticks = product / 1000;
    let turns = ticks / 0x1_0000_0000;
    assert(turns * 0x1_0000_0000 + rtp_timestamp(time, clock_rate) == ticks);
}

/// Sequence numbers go up by one, and from the largest back to zero.
pub proof fn law_numbers_go_up_by_one(number: u16, steps: int)
    requires
        0 <= steps,
    ensures
        later(number, 0) == number,
        later(number, steps + 1) == (if later(number, steps) == 0xffff {
            0int
        } else {
            later(number, steps) + 1
        }),
{
}

/// The payloads of one frame are wrapped one for one, in order. Packets are of version two, share
/// the timestamp and the payload type, count on from the number before, ask for no delay, and the
/// marker stands on the last of them alone.
pub proof fn law_payloads_are_wrapped_one_for_one(
    payloads: Seq<Seq<u8>>,
    number: u16,
    timestamp: u32,
    payload_type: u8,
    i: int,
)
    ensures
        frame_packets(payloads, number, timestamp, payload_type).len() == payloads.len(),
        0 <= i < payloads.len() ==> {
            let packet = frame_packets(payloads, number, timestamp, payload_type)[i];
            &&& packet.payload == payloads[i]
            &&& packet.version == 2
            &&& packet.timestamp == timestamp
            &&& packet.payload_type == payload_type
            &&& packet.sequence_number == later(number, i + 1)
            &&& packet.marker <==> i == payloads.len() - 1
            &&& packet.extensions.len() == 1
            &&& packet.extensions[0] == HeaderExtension::PlayoutDelay { min_delay: 0, max_delay: 0 }
        },
{
}

/// A frame is sent in the payloads that its codec makes of it for packets of 1200 bytes. Its
/// buffers are taken in order, as if each part were a frame of its own, and the state of the
/// payloader goes from one to the next; codec and metadata stay.
pub proof fn law_frames_are_split_in_order<H>(
    relay: RelayView<H>,
    first: Seq<Seq<u8>>,
    second: Seq<Seq<u8>>,
    data: Seq<u8>,
)
    ensures
        relay.payloads(first + second) == relay.payloads(first) + relay.sent(first).payloads(
            second,
        ),
        relay.sent(first + second).payloader == relay.sent(first).sent(second).payloader,
        relay.payloads(seq![data]) == payload::packetized(relay.payloader, 1200, data).0,
        relay.sent(seq![data]).payloader == payload::packetized(relay.payloader, 1200, data).1,
        relay.payloads(Seq::empty()).len() == 0,
        relay.sent(first).clock_rate == relay.clock_rate,
        relay.sent(first).payload_type == relay.payload_type,
        relay.sent(first).hdr_metadata == relay.hdr_metadata,
        relay.sent(first).sequence_number == later(
            relay.sequence_number,
            relay.payloads(first).len() as int,
        ),
{
    payload::law_buffers_are_split_in_order(relay.payloader, 1200, first, second);
    payload::law_one_buffer_is_split_by_its_codec(relay.payloader, 1200, data);
}

/// A relay takes a frame exactly where its payloader takes every buffer of it.
pub proof fn law_relay_takes_what_its_payloader_takes<H>(
    relay: RelayView<H>,
    first: Seq<Seq<u8>>,
    second: Seq<Seq<u8>>,
    data: Seq<u8>,
)
    ensures
        relay.takes(first + second) <==> relay.takes(first) && relay.takes(second),
        relay.takes(seq![data]) <==> match relay.payloader {
            PayloaderState::H264(_) => true,
            PayloaderState::H265(_) => !payload::has_stub_unit(data),
            PayloaderState::Av1 => payload::obus_complete(data),
        },
{
    payload::law_which_frames_are_taken(relay.payloader, first, second, data);
}

/// A relay begins with the number zero behind it, without metadata, and with a payloader of its
/// codec that holds nothing.
pub proof fn law_relay_begins_afresh<H>(format: VideoFormat, payload_type: u8, clock_rate: u32)
    ensures
        relay_start::<H>(format, payload_type, clock_rate).clock_rate == clock_rate,
        relay_start::<H>(format, payload_type, clock_rate).payload_type == payload_type,
        relay_start::<H>(format, payload_type, clock_rate).sequence_number == 0,
        relay_start::<H>(format, payload_type, clock_rate).hdr_metadata is None,
        relay_start::<H>(format, payload_type, clock_rate).payloader == payload::fresh(
            video_format::family(format),
        ),
{
}

/// A packet is viewed with all that it holds.
pub proof fn law_packet_is_viewed_whole(packet: RtpPacket)
    ensures
        packet@.version == packet.version,
        packet@.marker == packet.marker,
        packet@.payload_type == packet.payload_type,
        packet@.sequence_number == packet.sequence_number,
        packet@.timestamp == packet.timestamp,
        packet@.payload == payload::bytes_contents(packet.payload),
        packet@.extensions == packet.extensions@,
{
}

} // verus!
