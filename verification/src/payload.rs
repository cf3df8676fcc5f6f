//! Splitting encoded frames into RTP payloads.
use bytes::Bytes;
use vstd::prelude::*;
use webrtc::rtp::codecs::av1::Av1Payloader;
use webrtc::rtp::codecs::h264::H264Payloader;
use webrtc::rtp::codecs::h265::{HevcPayloader, RTP_OUTBOUND_MTU};
use webrtc::rtp::packetizer::Payloader;
use webrtc::rtp::Error;

use crate::video_format::{self, CodecFamily, VideoFormat};

verus! {

/// Declares [`bytes::Bytes`], a shared buffer of bytes.
#[verifier::external_type_specification]
#[verifier::external_body]
pub struct ExBytes(Bytes);

/// Declares the H.264 payloader of the `rtp` crate.
#[verifier::external_type_specification]
#[verifier::external_body]
pub struct ExH264Payloader(H264Payloader);

/// Declares the H.265 payloader of the `rtp` crate.
#[verifier::external_type_specification]
#[verifier::external_body]
pub struct ExHevcPayloader(HevcPayloader);

/// Declares the AV1 payloader of the `rtp` crate.
#[verifier::external_type_specification]
#[verifier::external_body]
pub struct ExAv1Payloader(Av1Payloader);

/// Declares the error type of the `rtp` crate.
#[verifier::external_type_specification]
#[verifier::external_body]
pub struct ExRtpError(Error);

/// The bytes that a buffer holds.
pub uninterp spec fn bytes_contents(buffer: Bytes) -> Seq<u8>;

/// The bytes that each of several buffers holds.
pub open spec fn contents_of(buffers: Seq<Bytes>) -> Seq<Seq<u8>> {
    buffers.map_values(|b: Bytes| bytes_contents(b))
}

/// [`Bytes::copy_from_slice`] gives a buffer that holds the bytes of the slice.
pub assume_specification[ Bytes::copy_from_slice ](data: &[u8]) -> (buffer: Bytes)
    ensures
        bytes_contents(buffer) == data@,
;

/// No parameter set at all.
pub open spec fn no_sets() -> Map<u8, Seq<u8>> {
    Map::empty()
}

/// The parameter sets that an H.264 payloader holds back, by NAL unit type.
pub uninterp spec fn h264_parameter_sets(payloader: H264Payloader) -> Map<u8, Seq<u8>>;

/// What [`H264Payloader`] makes of a buffer: the payloads, and the parameter sets that it holds
/// afterwards.
pub uninterp spec fn h264_packetized(
    sets: Map<u8, Seq<u8>>,
    mtu: usize,
    data: Seq<u8>,
) -> (Seq<Seq<u8>>, Map<u8, Seq<u8>>);

/// Calls `H264Payloader::default`, which holds no parameter set.
#[verifier::external_body]
fn h264_payloader() -> (payloader: H264Payloader)
    ensures
        h264_parameter_sets(payloader) == no_sets(),
{
    H264Payloader::default()
}

/// Calls `<H264Payloader as Payloader>::payload`. The payloads, and the parameter sets that stay
/// behind, depend on the arguments and on the parameter sets held before the call alone; the call
/// does not fail.
#[verifier::external_body]
fn h264_payload(payloader: &mut H264Payloader, mtu: usize, data: &Bytes) -> (payloads: Result<
    Vec<Bytes>,
    Error,
>)
    ensures
        payloads is Ok,
        (contents_of(payloads->Ok_0@), h264_parameter_sets(*final(payloader)))
            == h264_packetized(h264_parameter_sets(*old(payloader)), mtu, bytes_contents(*data)),
{
    payloader.payload(mtu, data)
}

/// The parameter sets that an H.265 payloader holds back, by NAL unit type.
pub uninterp spec fn hevc_parameter_sets(payloader: HevcPayloader) -> Map<u8, Seq<u8>>;

/// What [`HevcPayloader`] makes of a buffer: the payloads, and the parameter sets that it holds
/// afterwards.
pub uninterp spec fn hevc_packetized(
    sets: Map<u8, Seq<u8>>,
    mtu: usize,
    data: Seq<u8>,
) -> (Seq<Seq<u8>>, Map<u8, Seq<u8>>);

/// A start code stands at index `i`: `zeros` zero bytes and a one.
pub open spec fn start_code_at(data: Seq<u8>, i: int, zeros: int) -> bool {
    &&& 0 <= i
    &&& i + zeros < data.len()
    &&& forall|k: int| i <= k < i + zeros ==> data[k] == 0
    &&& data[i + zeros] == 1
}

/// The number of zeros in the start codes that separate NAL units: three where such a start code
/// occurs, else two.
pub open spec fn start_code_zeros(data: Seq<u8>) -> int {
    if exists|i: int| start_code_at(data, i, 3) {
        3
    } else {
        2
    }
}

/// After the start code at index `i` comes a NAL unit of a single byte.
pub open spec fn stub_unit_at(data: Seq<u8>, i: int, zeros: int) -> bool {
    let end = i + zeros + 2;
    start_code_at(data, i, zeros) && (end == data.len() || start_code_at(data, end, zeros))
}

/// Some NAL unit is a single byte, half of an H.265 NAL unit header.
pub open spec fn has_stub_unit(data: Seq<u8>) -> bool {
    exists|i: int| #[trigger] stub_unit_at(data, i, start_code_zeros(data))
}

/// Calls `HevcPayloader::default`, which holds no parameter set.
#[verifier::external_body]
fn hevc_payloader() -> (payloader: HevcPayloader)
    ensures
        hevc_parameter_sets(payloader) == no_sets(),
{
    HevcPayloader::default()
}

/// Calls `<HevcPayloader as Payloader>::payload`. The payloads, and the parameter sets that stay
/// behind, depend on the arguments and on the parameter sets held before the call alone; the call
/// does not fail. It reads both bytes of every NAL unit header, so each unit that is not empty
/// must have them.
#[verifier::external_body]
fn hevc_payload(payloader: &mut HevcPayloader, mtu: usize, data: &Bytes) -> (payloads: Result<
    Vec<Bytes>,
    Error,
>)
    requires
        !has_stub_unit(bytes_contents(*data)),
    ensures
        payloads is Ok,
        (contents_of(payloads->Ok_0@), hevc_parameter_sets(*final(payloader)))
            == hevc_packetized(hevc_parameter_sets(*old(payloader)), mtu, bytes_contents(*data)),
{
    payloader.payload(mtu, data)
}

/// The largest size of a packet: that of the largest IP datagram.
pub const MAX_MTU: usize = 65535;

/// The payloads that [`Av1Payloader`] makes of a buffer.
pub uninterp spec fn av1_packetized(mtu: usize, data: Seq<u8>) -> Seq<Seq<u8>>;

/// The number of bytes of the LEB128 number that `data` begins with; 0 where it never ends.
pub open spec fn leb128_length(data: Seq<u8>) -> int
    decreases data.len(),
{
    if data.len() == 0 {
        0
    } else if data[0] < 0x80 {
        1
    } else {
        let rest = leb128_length(data.drop_first());
        if rest == 0 {
            0
        } else {
            rest + 1
        }
    }
}

/// The sum of the low seven bits of each byte, the first byte the least significant.
pub open spec fn leb128_sum(data: Seq<u8>) -> int
    decreases data.len(),
{
    if data.len() == 0 {
        0
    } else {
        data[0] as int % 128 + 128 * leb128_sum(data.drop_first())
    }
}

/// The value of a LEB128 number: thirty-two bits of its last eight bytes.
pub open spec fn leb128_value(data: Seq<u8>) -> int {
    let read = if data.len() > 8 {
        data.skip(data.len() - 8)
    } else {
        data
    };
    leb128_sum(read) % 0x1_0000_0000
}

/// The buffer is a row of complete OBUs. An OBU is a header of one byte, or of two where the
/// extension bit is set, and a payload. Where the size bit is set, the size of the payload stands
/// before it as a LEB128 number; else the payload takes all the rest.
pub open spec fn obus_complete(data: Seq<u8>) -> bool
    decreases data.len(),
{
    if data.len() == 0 {
        true
    } else {
        let header_size = obu_header_size(data[0]);
        if data.len() < header_size {
            false
        } else if !obu_has_size(data[0]) {
            true
        } else {
            proof {
                lemma_leb128_length(data.skip(header_size));
            }
            let body = data.skip(header_size);
            let end = leb128_length(body) + leb128_value(body.take(leb128_length(body)));
            &&& body.len() > 0
            &&& end <= body.len()
            &&& obus_complete(body.skip(end))
        }
    }
}

/// An OBU header takes two bytes where its extension bit is set.
pub open spec fn obu_header_size(header: u8) -> int {
    if header & 0x04 != 0 {
        2
    } else {
        1
    }
}

/// The size bit of an OBU header.
pub open spec fn obu_has_size(header: u8) -> bool {
    header & 0x02 != 0
}

/// A LEB128 number lies within the bytes that it is read from.
pub proof fn lemma_leb128_length(data: Seq<u8>)
    ensures
        0 <= leb128_length(data) <= data.len(),
    decreases data.len(),
{
    if data.len() > 0 && data[0] >= 0x80 {
        lemma_leb128_length(data.drop_first());
    }
}

/// Calls `Av1Payloader::default`; the payloader has no state.
#[verifier::external_body]
fn av1_payloader() -> Av1Payloader {
    Av1Payloader::default()
}

/// Calls `<Av1Payloader as Payloader>::payload`. The payloads depend on the arguments alone. The
/// call fails or panics where an OBU is cut short; on complete OBUs it does neither. The bound on
/// `mtu` keeps the shift by which it sizes fragments within a machine word.
#[verifier::external_body]
fn av1_payload(payloader: &mut Av1Payloader, mtu: usize, data: &Bytes) -> (payloads: Result<
    Vec<Bytes>,
    Error,
>)
    requires
        mtu <= MAX_MTU,
        obus_complete(bytes_contents(*data)),
    ensures
        payloads is Ok,
        contents_of(payloads->Ok_0@) == av1_packetized(mtu, bytes_contents(*data)),
{
    payloader.payload(mtu, data)
}

/// Reads the constant [`webrtc::rtp::codecs::h265::RTP_OUTBOUND_MTU`], which is 1200.
#[verifier::external_body]
pub(crate) fn outbound_mtu() -> (mtu: usize)
    ensures
        mtu == 1200,
{
    RTP_OUTBOUND_MTU
}

/// A payloader for one codec family.
pub enum FramePayloader {
    H264(H264Payloader),
    H265(HevcPayloader),
    Av1(Av1Payloader),
}

/// What a payloader remembers between buffers.
pub enum PayloaderState {
    H264(Map<u8, Seq<u8>>),
    H265(Map<u8, Seq<u8>>),
    Av1,
}

impl View for FramePayloader {
    type V = PayloaderState;

    open spec fn view(&self) -> PayloaderState {
        match self {
            FramePayloader::H264(p) => PayloaderState::H264(h264_parameter_sets(*p)),
            FramePayloader::H265(p) => PayloaderState::H265(hevc_parameter_sets(*p)),
            FramePayloader::Av1(_) => PayloaderState::Av1,
        }
    }
}

/// The state of a fresh payloader.
pub open spec fn fresh(of: CodecFamily) -> PayloaderState {
    match of {
        CodecFamily::H264 => PayloaderState::H264(Map::empty()),
        CodecFamily::H265 => PayloaderState::H265(Map::empty()),
        CodecFamily::Av1 => PayloaderState::Av1,
    }
}

/// A payloader can take a buffer.
pub open spec fn payloadable(state: PayloaderState, data: Seq<u8>) -> bool {
    match state {
        PayloaderState::H264(_) => true,
        PayloaderState::H265(_) => !has_stub_unit(data),
        PayloaderState::Av1 => obus_complete(data),
    }
}

/// A payloader can take every buffer of a frame.
pub open spec fn all_payloadable(state: PayloaderState, buffers: Seq<Seq<u8>>) -> bool {
    forall|i: int| 0 <= i < buffers.len() ==> payloadable(state, #[trigger] buffers[i])
}

/// The payloads that a payloader makes of a buffer, and its state afterwards.
pub open spec fn packetized(state: PayloaderState, mtu: usize, data: Seq<u8>) -> (
    Seq<Seq<u8>>,
    PayloaderState,
) {
    match state {
        PayloaderState::H264(sets) => {
            let (payloads, next) = h264_packetized(sets, mtu, data);
            (payloads, PayloaderState::H264(next))
        },
        PayloaderState::H265(sets) => {
            let (payloads, next) = hevc_packetized(sets, mtu, data);
            (payloads, PayloaderState::H265(next))
        },
        PayloaderState::Av1 => (av1_packetized(mtu, data), PayloaderState::Av1),
    }
}

/// The payloads that a payloader makes of the buffers of a frame, one after another, and its
/// state afterwards.
pub open spec fn frame_packetized(state: PayloaderState, mtu: usize, buffers: Seq<Seq<u8>>) -> (
    Seq<Seq<u8>>,
    PayloaderState,
)
    decreases buffers.len(),
{
    if buffers.len() == 0 {
        (Seq::empty(), state)
    } else {
        let (earlier, between) = frame_packetized(state, mtu, buffers.drop_last());
        let (payloads, next) = packetized(between, mtu, buffers.last());
        (earlier + payloads, next)
    }
}

impl FramePayloader {
    /// A fresh payloader for the codec of `format`.
    pub fn new(format: VideoFormat) -> (payloader: FramePayloader)
        ensures
            payloader@ == fresh(video_format::family(format)),
    {
        match format.family() {
            CodecFamily::H264 => FramePayloader::H264(h264_payloader()),
            CodecFamily::H265 => FramePayloader::H265(hevc_payloader()),
            CodecFamily::Av1 => FramePayloader::Av1(av1_payloader()),
        }
    }

    /// Splits one buffer into the payloads of packets of `mtu` bytes.
    pub fn payload(&mut self, mtu: usize, data: &Bytes) -> (payloads: Vec<Bytes>)
        requires
            mtu <= MAX_MTU,
            payloadable(old(self)@, bytes_contents(*data)),
        ensures
            (contents_of(payloads@), final(self)@) == packetized(
                old(self)@,
                mtu,
                bytes_contents(*data),
            ),
    {
        let result = match self {
            FramePayloader::H264(p) => h264_payload(p, mtu, data),
            FramePayloader::H265(p) => hevc_payload(p, mtu, data),
            FramePayloader::Av1(p) => av1_payload(p, mtu, data),
        };
        result.unwrap()
    }

    /// Splits the buffers of a frame, each one NAL unit or more, into payloads.
    pub fn payload_all(&mut self, mtu: usize, buffers: &Vec<&[u8]>) -> (payloads: Vec<Bytes>)
        requires
            mtu <= MAX_MTU,
            all_payloadable(old(self)@, slices(buffers@)),
        ensures
            (contents_of(payloads@), final(self)@) == frame_packetized(
                old(self)@,
                mtu,
                slices(buffers@),
            ),
    {
        let mut payloads: Vec<Bytes> = Vec::new();
        let mut i: usize = 0;
        let ghost data = slices(buffers@);
        assert(contents_of(payloads@) =~= Seq::empty());
        while i < buffers.len()
            invariant
                i <= buffers.len(),
                mtu <= MAX_MTU,
                data == slices(buffers@),
                all_payloadable(old(self)@, data),
                (contents_of(payloads@), self@) == frame_packetized(
                    old(self)@,
                    mtu,
                    data.take(i as int),
                ),
            decreases buffers.len() - i,
        {
            let ghost before = payloads@;
            let ghost state = self@;
            proof {
                lemma_same_family(old(self)@, mtu, data.take(i as int));
                lemma_payloadable_by_family(old(self)@, self@, data[i as int]);
            }
            let mut more = self.payload(mtu, &Bytes::copy_from_slice(buffers[i]));
            proof {
                let longer = data.take(i + 1);
                assert(longer.drop_last() =~= data.take(i as int));
                assert(contents_of(before + more@) =~= contents_of(before) + contents_of(more@));
            }
            payloads.append(&mut more);
            i = i + 1;
        }
        assert(data.take(i as int) =~= data);
        payloads
    }

    /// Tells whether the payloader can take a buffer.
    pub fn takes(&self, data: &[u8]) -> (taken: bool)
        ensures
            taken == payloadable(self@, data@),
    {
        match self {
            FramePayloader::H264(_) => true,
            FramePayloader::H265(_) => !find_stub_unit(data),
            FramePayloader::Av1(_) => check_obus(data),
        }
    }

    /// Tells whether the payloader can take all buffers of a frame.
    pub fn takes_all(&self, buffers: &Vec<&[u8]>) -> (taken: bool)
        ensures
            taken == all_payloadable(self@, slices(buffers@)),
    {
        let ghost data = slices(buffers@);
        let mut i: usize = 0;
        while i < buffers.len()
            invariant
                i <= buffers.len(),
                data == slices(buffers@),
                forall|j: int| 0 <= j < i ==> payloadable(self@, #[trigger] data[j]),
            decreases buffers.len() - i,
        {
            assert(data[i as int] == buffers@[i as int]@);
            if !self.takes(buffers[i]) {
                return false;
            }
            i = i + 1;
        }
        true
    }
}

/// The bytes of each of several slices.
pub open spec fn slices(buffers: Seq<&[u8]>) -> Seq<Seq<u8>> {
    buffers.map_values(|b: &[u8]| b@)
}

/// The codec family that a payloader is for.
pub open spec fn payloader_family(state: PayloaderState) -> CodecFamily {
    match state {
        PayloaderState::H264(_) => CodecFamily::H264,
        PayloaderState::H265(_) => CodecFamily::H265,
        PayloaderState::Av1 => CodecFamily::Av1,
    }
}

/// A payloader stays with its codec family.
pub proof fn lemma_same_family(state: PayloaderState, mtu: usize, buffers: Seq<Seq<u8>>)
    ensures
        payloader_family(frame_packetized(state, mtu, buffers).1) == payloader_family(state),
    decreases buffers.len(),
{
    if buffers.len() > 0 {
        lemma_same_family(state, mtu, buffers.drop_last());
    }
}

/// Which buffers a payloader can take depends on its codec family alone.
pub proof fn lemma_payloadable_by_family(a: PayloaderState, b: PayloaderState, data: Seq<u8>)
    requires
        payloader_family(a) == payloader_family(b),
    ensures
        payloadable(a, data) == payloadable(b, data),
{
}

/// Tells whether a start code stands at index `i`.
fn is_start_code(data: &[u8], i: usize, zeros: usize) -> (found: bool)
    requires
        2 <= zeros <= 3,
        i <= data@.len(),
    ensures
        found == start_code_at(data@, i as int, zeros as int),
{
    if data.len() - i <= zeros {
        return false;
    }
    if data[i] != 0 || data[i + 1] != 0 || data[i + zeros] != 1 {
        return false;
    }
    zeros == 2 || data[i + 2] == 0
}

/// The number of zeros in the start codes that separate NAL units.
fn count_zeros(data: &[u8]) -> (zeros: usize)
    ensures
        zeros == start_code_zeros(data@),
{
    let mut i: usize = 0;
    while i < data.len()
        invariant
            i <= data@.len(),
            forall|j: int| 0 <= j < i ==> !#[trigger] start_code_at(data@, j, 3),
        decreases data.len() - i,
    {
        if is_start_code(data, i, 3) {
            return 3;
        }
        i = i + 1;
    }
    assert forall|j: int| !#[trigger] start_code_at(data@, j, 3) by {}
    2
}

/// Tells whether some NAL unit is a single byte.
fn find_stub_unit(data: &[u8]) -> (found: bool)
    ensures
        found == has_stub_unit(data@),
{
    let zeros = count_zeros(data);
    let mut i: usize = 0;
    while i < data.len()
        invariant
            i <= data@.len(),
            zeros == start_code_zeros(data@),
            forall|j: int| 0 <= j < i ==> !#[trigger] stub_unit_at(data@, j, zeros as int),
        decreases data.len() - i,
    {
        if is_start_code(data, i, zeros) && data.len() - i >= zeros + 2 {
            let end: usize = i + zeros + 2;
            if end == data.len() || is_start_code(data, end, zeros) {
                assert(stub_unit_at(data@, i as int, zeros as int));
                return true;
            }
        }
        i = i + 1;
    }
    assert forall|j: int| !#[trigger] stub_unit_at(data@, j, zeros as int) by {}
    false
}

/// One more than the largest number in `bytes` times seven bits.
spec fn leb128_cap(bytes: nat) -> int
    decreases bytes,
{
    if bytes == 0 {
        1
    } else {
        128 * leb128_cap((bytes - 1) as nat)
    }
}

/// Up to eight bytes sum up to a number of fifty-six bits.
proof fn lemma_leb128_cap(data: Seq<u8>)
    requires
        data.len() <= 8,
    ensures
        0 <= leb128_sum(data) < leb128_cap(data.len()) <= 0x100_0000_0000_0000,
    decreases data.len(),
{
    reveal_with_fuel(leb128_cap, 9);
    if data.len() > 0 {
        lemma_leb128_cap(data.drop_first());
    }
}

/// The length of the LEB128 number that starts at index `from`.
fn leb128_end(data: &[u8], from: usize) -> (length: usize)
    requires
        from <= data.len(),
    ensures
        length == leb128_length(data@.skip(from as int)),
{
    let mut i: usize = from;
    while i < data.len()
        invariant
            from <= i <= data.len(),
            leb128_length(data@.skip(from as int)) == (if leb128_length(data@.skip(i as int)) == 0 {
                0
            } else {
                leb128_length(data@.skip(i as int)) + (i - from)
            }),
        decreases data.len() - i,
    {
        let ghost tail = data@.skip(i as int);
        if data[i] < 0x80 {
            return i - from + 1;
        }
        proof {
            assert(tail.drop_first() =~= data@.skip(i + 1));
            lemma_leb128_length(tail.drop_first());
        }
        i = i + 1;
    }
    0
}

/// The value of the LEB128 number of `length` bytes that starts at index `from`.
fn read_leb128(data: &[u8], from: usize, length: usize) -> (value: u64)
    requires
        from + length <= data.len(),
    ensures
        value == leb128_value(data@.subrange(from as int, from + length)),
{
    let ghost number = data@.subrange(from as int, from + length);
    let end: usize = from + length;
    let start: usize = if length > 8 {
        end - 8
    } else {
        from
    };
    let ghost read = data@.subrange(start as int, end as int);
    assert(read =~= (if number.len() > 8 {
        number.skip(number.len() - 8)
    } else {
        number
    }));
    let mut sum: u64 = 0;
    let mut i: usize = end;
    while i > start
        invariant
            start <= i <= end <= data@.len(),
            end - start <= 8,
            sum == leb128_sum(data@.subrange(i as int, end as int)),
        decreases i,
    {
        let ghost tail = data@.subrange(i as int, end as int);
        i = i - 1;
        proof {
            let longer = data@.subrange(i as int, end as int);
            assert(longer.drop_first() =~= tail);
            lemma_leb128_cap(longer);
        }
        sum = (data[i] % 128) as u64 + 128 * sum;
    }
    sum % 0x1_0000_0000
}

/// Tells whether a buffer is a row of complete OBUs.
fn check_obus(data: &[u8]) -> (complete: bool)
    ensures
        complete == obus_complete(data@),
{
    let mut at: usize = 0;
    assert(data@.skip(0) =~= data@);
    while at < data.len()
        invariant
            at <= data@.len(),
            obus_complete(data@) == obus_complete(data@.skip(at as int)),
        decreases data.len() - at,
    {
        let ghost rest = data@.skip(at as int);
        let header = data[at];
        let header_size: usize = if header & 0x04 != 0 {
            2
        } else {
            1
        };
        if data.len() - at < header_size {
            return false;
        }
        if header & 0x02 == 0 {
            return true;
        }
        let body = at + header_size;
        assert(rest.skip(header_size as int) =~= data@.skip(body as int));
        if body == data.len() {
            return false;
        }
        let length = leb128_end(data, body);
        proof {
            lemma_leb128_length(data@.skip(body as int));
        }
        let size = read_leb128(data, body, length);
        assert(data@.skip(body as int).take(length as int) =~= data@.subrange(
            body as int,
            body + length,
        ));
        let left = data.len() - body - length;
        if size > left as u64 {
            return false;
        }
        at = body + length + size as usize;
        assert(data@.skip(body as int).skip(length + size) =~= data@.skip(at as int));
    }
    assert(data@.skip(at as int) =~= Seq::<u8>::empty());
    true
}

/// A frame is split buffer by buffer, in order: the payloads of its first buffers come first, and
/// the payloader meets the buffers behind them in the state that those left.
pub proof fn law_buffers_are_split_in_order(
    state: PayloaderState,
    mtu: usize,
    first: Seq<Seq<u8>>,
    second: Seq<Seq<u8>>,
)
    ensures
        frame_packetized(state, mtu, first + second) == ({
            let (earlier, between) = frame_packetized(state, mtu, first);
            let (later, next) = frame_packetized(between, mtu, second);
            (earlier + later, next)
        }),
    decreases second.len(),
{
    if second.len() == 0 {
        assert(first + second =~= first);
        let payloads = frame_packetized(state, mtu, first).0;
        assert(payloads + Seq::<Seq<u8>>::empty() =~= payloads);
    } else {
        law_buffers_are_split_in_order(state, mtu, first, second.drop_last());
        let all = first + second;
        assert(all.drop_last() =~= first + second.drop_last());
        let (earlier, between) = frame_packetized(state, mtu, first);
        let (middle, before) = frame_packetized(between, mtu, second.drop_last());
        let last = packetized(before, mtu, second.last()).0;
        assert((earlier + middle) + last =~= earlier + (middle + last));
    }
}

/// A frame of one buffer is what the payloader of its codec makes of that buffer, in the state
/// that the payloader is in; a frame of none is nothing.
pub proof fn law_one_buffer_is_split_by_its_codec(
    state: PayloaderState,
    mtu: usize,
    data: Seq<u8>,
)
    ensures
        frame_packetized(state, mtu, Seq::empty()) == (Seq::<Seq<u8>>::empty(), state),
        frame_packetized(state, mtu, seq![data]) == packetized(state, mtu, data),
        match state {
            PayloaderState::H264(sets) => {
                &&& packetized(state, mtu, data).0 == h264_packetized(sets, mtu, data).0
                &&& packetized(state, mtu, data).1 == PayloaderState::H264(
                    h264_packetized(sets, mtu, data).1,
                )
            },
            PayloaderState::H265(sets) => {
                &&& packetized(state, mtu, data).0 == hevc_packetized(sets, mtu, data).0
                &&& packetized(state, mtu, data).1 == PayloaderState::H265(
                    hevc_packetized(sets, mtu, data).1,
                )
            },
            PayloaderState::Av1 => packetized(state, mtu, data) == (
                av1_packetized(mtu, data),
                PayloaderState::Av1,
            ),
        },
{
    let one = seq![data];
    assert(one.drop_last() =~= Seq::<Seq<u8>>::empty());
    assert(frame_packetized(state, mtu, one.drop_last()).0 == Seq::<Seq<u8>>::empty());
    assert(Seq::<Seq<u8>>::empty() + packetized(state, mtu, data).0 =~= packetized(
        state,
        mtu,
        data,
    ).0);
}

/// A payloader can take a frame exactly where it can take each part of it. H.264 takes any
/// buffer, H.265 one without a NAL unit of a single byte, AV1 one of complete OBUs.
pub proof fn law_which_frames_are_taken(
    state: PayloaderState,
    first: Seq<Seq<u8>>,
    second: Seq<Seq<u8>>,
    data: Seq<u8>,
)
    ensures
        all_payloadable(state, Seq::empty()),
        all_payloadable(state, first + second) <==> all_payloadable(state, first)
            && all_payloadable(state, second),
        all_payloadable(state, seq![data]) <==> match state {
            PayloaderState::H264(_) => true,
            PayloaderState::H265(_) => !has_stub_unit(data),
            PayloaderState::Av1 => obus_complete(data),
        },
{
    assert(seq![data][0] == data);
    let all = first + second;
    if all_payloadable(state, all) {
        assert forall|i: int| 0 <= i < first.len() implies payloadable(
            state,
            #[trigger] first[i],
        ) by {
            assert(all[i] == first[i]);
        }
        assert forall|i: int| 0 <= i < second.len() implies payloadable(
            state,
            #[trigger] second[i],
        ) by {
            assert(all[first.len() + i] == second[i]);
        }
    }
}

/// A fresh payloader is one of its codec family, and holds no parameter set.
pub proof fn law_fresh_payloader_holds_nothing(of: CodecFamily, unit_type: u8)
    ensures
        match fresh(of) {
            PayloaderState::H264(sets) => of == CodecFamily::H264 && !sets.contains_key(unit_type),
            PayloaderState::H265(sets) => of == CodecFamily::H265 && !sets.contains_key(unit_type),
            PayloaderState::Av1 => of == CodecFamily::Av1,
        },
{
}

/// Several buffers are viewed one for one, in order.
pub proof fn law_buffers_are_viewed_one_for_one(
    buffers: Seq<Bytes>,
    parts: Seq<&[u8]>,
)
    ensures
        contents_of(buffers).len() == buffers.len(),
        forall|i: int|
            0 <= i < buffers.len() ==> #[trigger] contents_of(buffers)[i] == bytes_contents(
                buffers[i],
            ),
        slices(parts).len() == parts.len(),
        forall|i: int| 0 <= i < parts.len() ==> #[trigger] slices(parts)[i] == parts[i]@,
{
}

/// NAL units are separated by `0 0 0 1` where that occurs, else by `0 0 1`. A unit is a single
/// byte exactly where one byte stands between such a start code and the next, or the end.
pub proof fn law_stub_unit_is_a_byte_between_start_codes(
    data: Seq<u8>,
    long: Seq<u8>,
    short: Seq<u8>,
)
    requires
        long == seq![0u8, 0, 0, 1],
        short == seq![0u8, 0, 1],
    ensures
        start_code_zeros(data) == 3 <==> exists|before: Seq<u8>, after: Seq<u8>|
            data == #[trigger] (before + long + after),
        start_code_zeros(data) == 3 ==> (has_stub_unit(data) <==> exists|
            before: Seq<u8>,
            unit: u8,
            after: Seq<u8>,
        |
            data == #[trigger] (before + long + seq![unit] + after) && (after.len()
                == 0 || long.is_prefix_of(after))),
        start_code_zeros(data) != 3 ==> (has_stub_unit(data) <==> exists|
            before: Seq<u8>,
            unit: u8,
            after: Seq<u8>,
        |
            data == #[trigger] (before + short + seq![unit] + after) && (after.len() == 0
                || short.is_prefix_of(after))),
{
    if start_code_zeros(data) == 3 {
        let i = choose|i: int| start_code_at(data, i, 3);
        lemma_start_code(data, i, long);
        assert(data =~= data.take(i) + long + data.skip(i + 4));
    }
    if exists|before: Seq<u8>, after: Seq<u8>| data == #[trigger] (before + long + after) {
        let (before, after) = choose|before: Seq<u8>, after: Seq<u8>|
            data == #[trigger] (before + long + after);
        assert(data.subrange(before.len() as int, before.len() as int + 4) =~= long);
        lemma_start_code(data, before.len() as int, long);
    }
    if start_code_zeros(data) == 3 {
        lemma_stub_unit(data, long);
    } else {
        lemma_stub_unit(data, short);
    }
}

/// A start code stands at an index where its bytes do.
proof fn lemma_start_code(data: Seq<u8>, i: int, code: Seq<u8>)
    requires
        code == seq![0u8, 0, 0, 1] || code == seq![0u8, 0, 1],
    ensures
        start_code_at(data, i, code.len() - 1) <==> 0 <= i && i + code.len() <= data.len()
            && data.subrange(i, i + code.len()) == code,
{
    if start_code_at(data, i, code.len() - 1) {
        assert(data.subrange(i, i + code.len()) =~= code);
    }
    if 0 <= i && i + code.len() <= data.len() && data.subrange(i, i + code.len()) == code {
        assert forall|k: int| i <= k < i + code.len() implies data[k] == #[trigger] code[k - i] by {
            assert(data.subrange(i, i + code.len())[k - i] == data[k]);
        }
        assert forall|k: int| i <= k < i + code.len() - 1 implies data[k] == 0 by {
            assert(code[k - i] == 0);
        }
        assert(code[code.len() - 1] == 1);
        assert(data[i + code.len() - 1] == code[code.len() - 1]);
    }
}

/// A byte between a start code and the next, or the end, cuts the data in three around it.
proof fn lemma_stub_unit_cuts(data: Seq<u8>, code: Seq<u8>, i: int)
    requires
        code == seq![0u8, 0, 0, 1] || code == seq![0u8, 0, 1],
        stub_unit_at(data, i, code.len() - 1),
    ensures
        ({
            let end = i + code.len() + 1;
            &&& data == data.take(i) + code + seq![data[end - 1]] + data.skip(end)
            &&& data.skip(end).len() == 0 || code.is_prefix_of(data.skip(end))
        }),
{
    let end = i + code.len() + 1;
    lemma_start_code(data, i, code);
    assert(data =~= data.take(i) + data.subrange(i, i + code.len()) + seq![data[end - 1]]
        + data.skip(end));
    if end != data.len() {
        lemma_start_code(data, end, code);
        assert(data.skip(end).subrange(0, code.len() as int) =~= data.subrange(
            end,
            end + code.len(),
        ));
    }
}

/// Data put together around a byte behind a start code has a unit of a single byte there, where a
/// start code or nothing follows.
proof fn lemma_stub_unit_found(
    data: Seq<u8>,
    code: Seq<u8>,
    before: Seq<u8>,
    unit: u8,
    after: Seq<u8>,
)
    requires
        code == seq![0u8, 0, 0, 1] || code == seq![0u8, 0, 1],
        data == before + code + seq![unit] + after,
        after.len() == 0 || code.is_prefix_of(after),
    ensures
        stub_unit_at(data, before.len() as int, code.len() - 1),
{
    let i = before.len() as int;
    let end = i + code.len() + 1;
    assert(data.subrange(i, i + code.len()) =~= code);
    lemma_start_code(data, i, code);
    if after.len() > 0 {
        assert(data.subrange(end, end + code.len()) =~= after.subrange(0, code.len() as int));
        lemma_start_code(data, end, code);
    }
}

/// What a unit of a single byte looks like for a given start code.
proof fn lemma_stub_unit(data: Seq<u8>, code: Seq<u8>)
    requires
        code == seq![0u8, 0, 0, 1] || code == seq![0u8, 0, 1],
        start_code_zeros(data) == code.len() - 1,
    ensures
        has_stub_unit(data) <==> exists|before: Seq<u8>, unit: u8, after: Seq<u8>|
            data == #[trigger] (before + code + seq![unit] + after) && (after.len() == 0
                || code.is_prefix_of(after)),
{
    if has_stub_unit(data) {
        let i = choose|i: int| #[trigger] stub_unit_at(data, i, code.len() - 1);
        lemma_stub_unit_cuts(data, code, i);
    }
    if exists|before: Seq<u8>, unit: u8, after: Seq<u8>|
        data == #[trigger] (before + code + seq![unit] + after) && (after.len() == 0
            || code.is_prefix_of(after)) {
        let (before, unit, after) = choose|before: Seq<u8>, unit: u8, after: Seq<u8>|
            data == #[trigger] (before + code + seq![unit] + after) && (after.len() == 0
                || code.is_prefix_of(after));
        lemma_stub_unit_found(data, code, before, unit, after);
    }
}

/// The bytes of a LEB128 number: all but the last have the top bit set.
pub open spec fn is_leb128(number: Seq<u8>) -> bool {
    &&& number.len() > 0
    &&& number.last() < 0x80
    &&& forall|i: int| 0 <= i < number.len() - 1 ==> #[trigger] number[i] >= 0x80
}

/// A LEB128 number is read to its end, whatever follows. Bytes that all have the top bit set
/// hold no number.
pub proof fn law_leb128_ends_at_a_clear_top_bit(number: Seq<u8>, rest: Seq<u8>)
    ensures
        number.len() > 0 && number.last() < 0x80 && (forall|i: int|
            0 <= i < number.len() - 1 ==> #[trigger] number[i] >= 0x80) ==> leb128_length(
            number + rest,
        ) == number.len(),
        (forall|i: int| 0 <= i < number.len() ==> #[trigger] number[i] >= 0x80) ==> leb128_length(
            number,
        ) == 0,
    decreases number.len(),
{
    if number.len() > 0 {
        let tail = number.drop_first();
        law_leb128_ends_at_a_clear_top_bit(tail, rest);
        assert((number + rest).drop_first() =~= tail + rest);
        assert((number + rest)[0] == number[0]);
        if forall|i: int| 0 <= i < number.len() ==> #[trigger] number[i] >= 0x80 {
            assert forall|i: int| 0 <= i < tail.len() implies #[trigger] tail[i] >= 0x80 by {
                assert(tail[i] == number[i + 1]);
            }
        }
        if number.len() > 1 && number.last() < 0x80 && forall|i: int|
            0 <= i < number.len() - 1 ==> #[trigger] number[i] >= 0x80 {
            assert forall|i: int| 0 <= i < tail.len() - 1 implies #[trigger] tail[i] >= 0x80 by {
                assert(tail[i] == number[i + 1]);
            }
            assert(tail.last() == number.last());
            assert(number[0] >= 0x80);
        }
    }
}

/// Turns of thirty-two bits may be left out before a shift.
proof fn lemma_shift_modulo(low: int, sum: int)
    ensures
        (low + 128 * sum) % 0x1_0000_0000 == (low + 128 * (sum % 0x1_0000_0000)) % 0x1_0000_0000,
{
    let turns = sum / 0x1_0000_0000;
    let left = sum % 0x1_0000_0000;
    assert(low + 128 * sum == 0x1_0000_0000 * (128 * turns) + (low + 128 * left));
    vstd::arithmetic::div_mod::lemma_mod_multiples_vanish(
        128 * turns,
        low + 128 * left,
        0x1_0000_0000,
    );
}

/// A byte before a number adds its low seven bits and shifts the number up by seven; of more than
/// eight bytes only the last eight count, and of the value thirty-two bits.
pub proof fn law_leb128_value_by_byte(first: u8, number: Seq<u8>)
    ensures
        leb128_value(Seq::empty()) == 0,
        number.len() < 8 ==> leb128_value(seq![first] + number) == (first as int % 128 + 128
            * leb128_value(number)) % 0x1_0000_0000,
        number.len() >= 8 ==> leb128_value(seq![first] + number) == leb128_value(number),
{
    let longer = seq![first] + number;
    assert(longer.drop_first() =~= number);
    if number.len() >= 8 {
        assert(longer.skip(longer.len() - 8) =~= number.skip(number.len() - 8));
        if number.len() == 8 {
            assert(number.skip(0) =~= number);
        }
    } else {
        lemma_shift_modulo(first as int % 128, leb128_sum(number));
    }
}

/// A complete OBU with a size may be followed by anything: what follows decides.
pub proof fn law_complete_obu_may_be_followed(
    header: u8,
    extension: Seq<u8>,
    number: Seq<u8>,
    payload: Seq<u8>,
    rest: Seq<u8>,
)
    requires
        header & 0x02 != 0,
        extension.len() == (if header & 0x04 != 0 {
            1int
        } else {
            0int
        }),
        is_leb128(number),
        leb128_value(number) == payload.len(),
    ensures
        obus_complete(Seq::empty()),
        obus_complete(seq![header] + extension + number + payload + rest) == obus_complete(rest),
{
    let head = seq![header] + extension;
    let data = head + number + payload + rest;
    let body = number + (payload + rest);
    assert(data[0] == header);
    assert(data.skip(head.len() as int) =~= body);
    law_leb128_ends_at_a_clear_top_bit(number, payload + rest);
    assert(body.take(number.len() as int) =~= number);
    assert(body.skip((number.len() + payload.len()) as int) =~= rest);
    lemma_leb128_length(body);
}

/// An OBU without a size takes all the rest, whatever that is.
pub proof fn law_obu_without_size_takes_the_rest(header: u8, extension: Seq<u8>, payload: Seq<u8>)
    requires
        header & 0x02 == 0,
        extension.len() == (if header & 0x04 != 0 {
            1int
        } else {
            0int
        }),
    ensures
        obus_complete(seq![header] + extension + payload),
{
    let data = seq![header] + extension + payload;
    assert(data[0] == header);
}

/// An OBU is cut short where its extension byte, its size or some of its payload is missing. A
/// size that does not end counts as none: its bytes are read as further OBUs.
pub proof fn law_cut_obus_are_incomplete(
    header: u8,
    extension: Seq<u8>,
    number: Seq<u8>,
    payload: Seq<u8>,
)
    requires
        extension.len() == (if header & 0x04 != 0 {
            1int
        } else {
            0int
        }),
    ensures
        header & 0x04 != 0 ==> !obus_complete(seq![header]),
        header & 0x02 != 0 ==> !obus_complete(seq![header] + extension),
        header & 0x02 != 0 && is_leb128(number) && payload.len() < leb128_value(number)
            ==> !obus_complete(seq![header] + extension + number + payload),
        header & 0x02 != 0 && number.len() > 0 && (forall|i: int|
            0 <= i < number.len() ==> #[trigger] number[i] >= 0x80) ==> (obus_complete(
            seq![header] + extension + number,
        ) <==> obus_complete(number)),
{
    let head = seq![header] + extension;
    assert(head[0] == header);
    assert(seq![header][0] == header);
    if header & 0x02 != 0 {
        let data = head + number + payload;
        let body = number + payload;
        assert(data[0] == header);
        assert(data.skip(head.len() as int) =~= body);
        law_leb128_ends_at_a_clear_top_bit(number, payload);
        lemma_leb128_length(body);
        if is_leb128(number) {
            assert(body.take(number.len() as int) =~= number);
        }
        let endless = head + number;
        assert(endless[0] == header);
        assert(endless.skip(head.len() as int) =~= number);
        assert(number.take(0) =~= Seq::<u8>::empty());
        assert(number.skip(0) =~= number);
        if number.len() > 0 && forall|i: int| 0 <= i < number.len() ==> #[trigger] number[i] >= 0x80 {
            assert(leb128_length(number) == 0);
            assert(leb128_value(Seq::<u8>::empty()) == 0);
        }
        assert(head.skip(head.len() as int) =~= Seq::<u8>::empty());
    }
}

} // verus!
