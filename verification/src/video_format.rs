//! Video formats and sets of them.
use vstd::prelude::*;

verus! {

/// A video codec together with its profile.
#[derive(Clone, Copy, Debug, PartialEq, Eq, Structural)]
pub enum VideoFormat {
    H264,
    H264High8_444,
    H265,
    H265Main10,
    H265Rext8_444,
    H265Rext10_444,
    Av1Main8,
    Av1Main10,
    Av1High8_444,
    Av1High10_444,
}

impl VideoFormat {
    /// The place of the format in [`VideoFormat::all`], by which tables are keyed.
    pub open spec fn ordinal(self) -> u8 {
        match self {
            VideoFormat::H264 => 0,
            VideoFormat::H264High8_444 => 1,
            VideoFormat::H265 => 2,
            VideoFormat::H265Main10 => 3,
            VideoFormat::H265Rext8_444 => 4,
            VideoFormat::H265Rext10_444 => 5,
            VideoFormat::Av1Main8 => 6,
            VideoFormat::Av1Main10 => 7,
            VideoFormat::Av1High8_444 => 8,
            VideoFormat::Av1High10_444 => 9,
        }
    }

    /// All formats, each once.
    pub open spec fn every() -> Seq<VideoFormat> {
        seq![
            VideoFormat::H264,
            VideoFormat::H264High8_444,
            VideoFormat::H265,
            VideoFormat::H265Main10,
            VideoFormat::H265Rext8_444,
            VideoFormat::H265Rext10_444,
            VideoFormat::Av1Main8,
            VideoFormat::Av1Main10,
            VideoFormat::Av1High8_444,
            VideoFormat::Av1High10_444,
        ]
    }

    /// The place of the format in [`VideoFormat::all`].
    pub fn index(self) -> (index: u8)
        ensures
            index == self.ordinal(),
            index < VideoFormat::every().len(),
            VideoFormat::every()[index as int] == self,
    {
        match self {
            VideoFormat::H264 => 0,
            VideoFormat::H264High8_444 => 1,
            VideoFormat::H265 => 2,
            VideoFormat::H265Main10 => 3,
            VideoFormat::H265Rext8_444 => 4,
            VideoFormat::H265Rext10_444 => 5,
            VideoFormat::Av1Main8 => 6,
            VideoFormat::Av1Main10 => 7,
            VideoFormat::Av1High8_444 => 8,
            VideoFormat::Av1High10_444 => 9,
        }
    }

    /// Every format once.
    pub fn all() -> (formats: Vec<VideoFormat>)
        ensures
            formats@ == VideoFormat::every(),
    {
        vec![
            VideoFormat::H264,
            VideoFormat::H264High8_444,
            VideoFormat::H265,
            VideoFormat::H265Main10,
            VideoFormat::H265Rext8_444,
            VideoFormat::H265Rext10_444,
            VideoFormat::Av1Main8,
            VideoFormat::Av1Main10,
            VideoFormat::Av1High8_444,
            VideoFormat::Av1High10_444,
        ]
    }

    /// The family that the format belongs to.
    pub fn family(self) -> (of: CodecFamily)
        ensures
            of == family(self),
    {
        if self.contained_in(VideoFormats::mask_h264()) {
            CodecFamily::H264
        } else if self.contained_in(VideoFormats::mask_h265()) {
            CodecFamily::H265
        } else {
            CodecFamily::Av1
        }
    }

    /// Tells whether the format is in a set.
    pub fn contained_in(self, formats: VideoFormats) -> (contained: bool)
        ensures
            contained == formats@.contains(self),
    {
        match self {
            VideoFormat::H264 => formats.h264,
            VideoFormat::H264High8_444 => formats.h264_high8_444,
            VideoFormat::H265 => formats.h265,
            VideoFormat::H265Main10 => formats.h265_main10,
            VideoFormat::H265Rext8_444 => formats.h265_rext8_444,
            VideoFormat::H265Rext10_444 => formats.h265_rext10_444,
            VideoFormat::Av1Main8 => formats.av1_main8,
            VideoFormat::Av1Main10 => formats.av1_main10,
            VideoFormat::Av1High8_444 => formats.av1_high8_444,
            VideoFormat::Av1High10_444 => formats.av1_high10_444,
        }
    }
}

/// No two formats share an ordinal, and each stands in the list of all formats under its own.
pub proof fn lemma_ordinal(a: VideoFormat, b: VideoFormat)
    ensures
        a.ordinal() == b.ordinal() ==> a == b,
        a.ordinal() < VideoFormat::every().len(),
        VideoFormat::every()[a.ordinal() as int] == a,
{
}

/// A set of video formats, one flag for each.
#[derive(Clone, Copy, Debug, PartialEq, Eq, Structural)]
pub struct VideoFormats {
    pub h264: bool,
    pub h264_high8_444: bool,
    pub h265: bool,
    pub h265_main10: bool,
    pub h265_rext8_444: bool,
    pub h265_rext10_444: bool,
    pub av1_main8: bool,
    pub av1_main10: bool,
    pub av1_high8_444: bool,
    pub av1_high10_444: bool,
}

impl View for VideoFormats {
    type V = Set<VideoFormat>;

    open spec fn view(&self) -> Set<VideoFormat> {
        Set::new(
            |format: VideoFormat|
                match format {
                    VideoFormat::H264 => self.h264,
                    VideoFormat::H264High8_444 => self.h264_high8_444,
                    VideoFormat::H265 => self.h265,
                    VideoFormat::H265Main10 => self.h265_main10,
                    VideoFormat::H265Rext8_444 => self.h265_rext8_444,
                    VideoFormat::H265Rext10_444 => self.h265_rext10_444,
                    VideoFormat::Av1Main8 => self.av1_main8,
                    VideoFormat::Av1Main10 => self.av1_main10,
                    VideoFormat::Av1High8_444 => self.av1_high8_444,
                    VideoFormat::Av1High10_444 => self.av1_high10_444,
                },
        )
    }
}

/// The three codec families.
#[derive(Clone, Copy, Debug, PartialEq, Eq, Structural)]
pub enum CodecFamily {
    H264,
    H265,
    Av1,
}

/// The family that a format belongs to.
pub open spec fn family(format: VideoFormat) -> CodecFamily {
    match format {
        VideoFormat::H264 | VideoFormat::H264High8_444 => CodecFamily::H264,
        VideoFormat::H265 | VideoFormat::H265Main10 | VideoFormat::H265Rext8_444
        | VideoFormat::H265Rext10_444 => CodecFamily::H265,
        VideoFormat::Av1Main8 | VideoFormat::Av1Main10 | VideoFormat::Av1High8_444
        | VideoFormat::Av1High10_444 => CodecFamily::Av1,
    }
}

/// Each flag says whether its format is in the set.
pub proof fn lemma_flags(formats: VideoFormats)
    ensures
        formats.h264 == formats@.contains(VideoFormat::H264),
        formats.h264_high8_444 == formats@.contains(VideoFormat::H264High8_444),
        formats.h265 == formats@.contains(VideoFormat::H265),
        formats.h265_main10 == formats@.contains(VideoFormat::H265Main10),
        formats.h265_rext8_444 == formats@.contains(VideoFormat::H265Rext8_444),
        formats.h265_rext10_444 == formats@.contains(VideoFormat::H265Rext10_444),
        formats.av1_main8 == formats@.contains(VideoFormat::Av1Main8),
        formats.av1_main10 == formats@.contains(VideoFormat::Av1Main10),
        formats.av1_high8_444 == formats@.contains(VideoFormat::Av1High8_444),
        formats.av1_high10_444 == formats@.contains(VideoFormat::Av1High10_444),
{
}

impl VideoFormats {
    /// The empty set.
    pub fn none() -> (formats: VideoFormats)
        ensures
            formats@ == Set::<VideoFormat>::empty(),
    {
        VideoFormats {
            h264: false,
            h264_high8_444: false,
            h265: false,
            h265_main10: false,
            h265_rext8_444: false,
            h265_rext10_444: false,
            av1_main8: false,
            av1_main10: false,
            av1_high8_444: false,
            av1_high10_444: false,
        }
    }

    /// All H.264 formats.
    pub fn mask_h264() -> (formats: VideoFormats)
        ensures
            forall|f: VideoFormat| #[trigger]
                formats@.contains(f) <==> family(f) == CodecFamily::H264,
    {
        let none = VideoFormats::none();
        proof {
            lemma_flags(none);
        }
        VideoFormats { h264: true, h264_high8_444: true, ..none }
    }

    /// All H.265 formats.
    pub fn mask_h265() -> (formats: VideoFormats)
        ensures
            forall|f: VideoFormat| #[trigger]
                formats@.contains(f) <==> family(f) == CodecFamily::H265,
    {
        let none = VideoFormats::none();
        proof {
            lemma_flags(none);
        }
        VideoFormats {
            h265: true,
            h265_main10: true,
            h265_rext8_444: true,
            h265_rext10_444: true,
            ..none
        }
    }
}

/// The formats of each family.
pub proof fn law_families(format: VideoFormat)
    ensures
        family(format) == CodecFamily::H264 <==> format == VideoFormat::H264 || format
            == VideoFormat::H264High8_444,
        family(format) == CodecFamily::H265 <==> format == VideoFormat::H265 || format
            == VideoFormat::H265Main10 || format == VideoFormat::H265Rext8_444 || format
            == VideoFormat::H265Rext10_444,
        family(format) == CodecFamily::Av1 <==> format == VideoFormat::Av1Main8 || format
            == VideoFormat::Av1Main10 || format == VideoFormat::Av1High8_444 || format
            == VideoFormat::Av1High10_444,
{
}

/// The list of all formats holds every format, and none twice.
pub proof fn law_every_format_is_listed_once(format: VideoFormat)
    ensures
        VideoFormat::every().contains(format),
        VideoFormat::every().no_duplicates(),
{
    lemma_ordinal(format, format);
    assert(VideoFormat::every().contains(VideoFormat::every()[format.ordinal() as int]));
    assert forall|i: int, j: int|
        0 <= i < VideoFormat::every().len() && 0 <= j < VideoFormat::every().len() && i
            != j implies VideoFormat::every()[i] != VideoFormat::every()[j] by {
        assert(VideoFormat::every()[i].ordinal() == i);
        assert(VideoFormat::every()[j].ordinal() == j);
    }
}

} // verus!
