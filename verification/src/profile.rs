//! ICC profiles as containers: the 128-byte header, the tag directory and
//! the raw bytes of each tag, read from and written to memory.
use vstd::prelude::*;
use crate::error::{CmsError, ErrorCode};
use crate::type_sig::{TagTypeSignature, tag_type_of};
use crate::sig::{
    ColorSpaceSignature, PlatformSignature, ProfileClassSignature, color_space_of, platform_of,
    profile_class_of, color_space_signature_value, platform_signature_value,
    profile_class_signature_value,
};

verus! {

/// Signature of a tag in an ICC profile.
#[derive(Debug, Clone, Copy, PartialEq, Eq, Structural)]
pub enum TagSignature {
    AToB0,
    AToB1,
    AToB2,
    BlueMatrixColumn,
    BlueTRC,
    BToA0,
    BToA1,
    BToA2,
    CalibrationDateTime,
    CharTarget,
    ChromaticAdaptation,
    Chromaticity,
    ColorantOrder,
    ColorantTable,
    ColorantTableOut,
    ColorimetricIntentImageState,
    Copyright,
    CrdInfo,
    Data,
    DateTime,
    DeviceMfgDesc,
    DeviceModelDesc,
    DeviceSettings,
    DToB0,
    DToB1,
    DToB2,
    DToB3,
    BToD0,
    BToD1,
    BToD2,
    BToD3,
    Gamut,
    GrayTRC,
    GreenMatrixColumn,
    GreenTRC,
    Luminance,
    Measurement,
    MediaBlackPoint,
    MediaWhitePoint,
    NamedColor,
    NamedColor2,
    OutputResponse,
    PerceptualRenderingIntentGamut,
    Preview0,
    Preview1,
    Preview2,
    ProfileDescription,
    ProfileDescriptionML,
    ProfileSequenceDesc,
    ProfileSequenceId,
    Ps2CRD0,
    Ps2CRD1,
    Ps2CRD2,
    Ps2CRD3,
    Ps2CSA,
    Ps2RenderingIntent,
    RedMatrixColumn,
    RedTRC,
    SaturationRenderingIntentGamut,
    ScreeningDesc,
    Screening,
    Technology,
    UcrBg,
    ViewingCondDesc,
    ViewingConditions,
    Vcgt,
    Meta,
    Cicp,
    ArgyllArts,
    Mhc2,
}

/// The four-byte ICC signature of each tag.
#[verifier::opaque]
pub open spec fn tag_signature_value(s: TagSignature) -> u32 {
    match s {
        TagSignature::AToB0 => 0x41324230,
        TagSignature::AToB1 => 0x41324231,
        TagSignature::AToB2 => 0x41324232,
        TagSignature::BlueMatrixColumn => 0x6258595A,
        TagSignature::BlueTRC => 0x62545243,
        TagSignature::BToA0 => 0x42324130,
        TagSignature::BToA1 => 0x42324131,
        TagSignature::BToA2 => 0x42324132,
        TagSignature::CalibrationDateTime => 0x63616C74,
        TagSignature::CharTarget => 0x74617267,
        TagSignature::ChromaticAdaptation => 0x63686164,
        TagSignature::Chromaticity => 0x6368726D,
        TagSignature::ColorantOrder => 0x636C726F,
        TagSignature::ColorantTable => 0x636C7274,
        TagSignature::ColorantTableOut => 0x636C6F74,
        TagSignature::ColorimetricIntentImageState => 0x63696973,
        TagSignature::Copyright => 0x63707274,
        TagSignature::CrdInfo => 0x63726469,
        TagSignature::Data => 0x64617461,
        TagSignature::DateTime => 0x6474696D,
        TagSignature::DeviceMfgDesc => 0x646D6E64,
        TagSignature::DeviceModelDesc => 0x646D6464,
        TagSignature::DeviceSettings => 0x64657673,
        TagSignature::DToB0 => 0x44324230,
        TagSignature::DToB1 => 0x44324231,
        TagSignature::DToB2 => 0x44324232,
        TagSignature::DToB3 => 0x44324233,
        TagSignature::BToD0 => 0x42324430,
        TagSignature::BToD1 => 0x42324431,
        TagSignature::BToD2 => 0x42324432,
        TagSignature::BToD3 => 0x42324433,
        TagSignature::Gamut => 0x67616D74,
        TagSignature::GrayTRC => 0x6B545243,
        TagSignature::GreenMatrixColumn => 0x6758595A,
        TagSignature::GreenTRC => 0x67545243,
        TagSignature::Luminance => 0x6C756D69,
        TagSignature::Measurement => 0x6D656173,
        TagSignature::MediaBlackPoint => 0x626B7074,
        TagSignature::MediaWhitePoint => 0x77747074,
        TagSignature::NamedColor => 0x6E636F6C,
        TagSignature::NamedColor2 => 0x6E636C32,
        TagSignature::OutputResponse => 0x72657370,
        TagSignature::PerceptualRenderingIntentGamut => 0x72696730,
        TagSignature::Preview0 => 0x70726530,
        TagSignature::Preview1 => 0x70726531,
        TagSignature::Preview2 => 0x70726532,
        TagSignature::ProfileDescription => 0x64657363,
        TagSignature::ProfileDescriptionML => 0x6473636D,
        TagSignature::ProfileSequenceDesc => 0x70736571,
        TagSignature::ProfileSequenceId => 0x70736964,
        TagSignature::Ps2CRD0 => 0x70736430,
        TagSignature::Ps2CRD1 => 0x70736431,
        TagSignature::Ps2CRD2 => 0x70736432,
        TagSignature::Ps2CRD3 => 0x70736433,
        TagSignature::Ps2CSA => 0x70733273,
        TagSignature::Ps2RenderingIntent => 0x70733269,
        TagSignature::RedMatrixColumn => 0x7258595A,
        TagSignature::RedTRC => 0x72545243,
        TagSignature::SaturationRenderingIntentGamut => 0x72696732,
        TagSignature::ScreeningDesc => 0x73637264,
        TagSignature::Screening => 0x7363726E,
        TagSignature::Technology => 0x74656368,
        TagSignature::UcrBg => 0x62666420,
        TagSignature::ViewingCondDesc => 0x76756564,
        TagSignature::ViewingConditions => 0x76696577,
        TagSignature::Vcgt => 0x76636774,
        TagSignature::Meta => 0x6D657461,
        TagSignature::Cicp => 0x63696370,
        TagSignature::ArgyllArts => 0x61727473,
        TagSignature::Mhc2 => 0x4D484332,
    }
}

/// The tag with signature `v`, if it is a known one.
#[verifier::opaque]
pub open spec fn tag_signature_of(v: u32) -> Option<TagSignature> {
    match v {
        0x41324230 => Some(TagSignature::AToB0),
        0x41324231 => Some(TagSignature::AToB1),
        0x41324232 => Some(TagSignature::AToB2),
        0x6258595A => Some(TagSignature::BlueMatrixColumn),
        0x62545243 => Some(TagSignature::BlueTRC),
        0x42324130 => Some(TagSignature::BToA0),
        0x42324131 => Some(TagSignature::BToA1),
        0x42324132 => Some(TagSignature::BToA2),
        0x63616C74 => Some(TagSignature::CalibrationDateTime),
        0x74617267 => Some(TagSignature::CharTarget),
        0x63686164 => Some(TagSignature::ChromaticAdaptation),
        0x6368726D => Some(TagSignature::Chromaticity),
        0x636C726F => Some(TagSignature::ColorantOrder),
        0x636C7274 => Some(TagSignature::ColorantTable),
        0x636C6F74 => Some(TagSignature::ColorantTableOut),
        0x63696973 => Some(TagSignature::ColorimetricIntentImageState),
        0x63707274 => Some(TagSignature::Copyright),
        0x63726469 => Some(TagSignature::CrdInfo),
        0x64617461 => Some(TagSignature::Data),
        0x6474696D => Some(TagSignature::DateTime),
        0x646D6E64 => Some(TagSignature::DeviceMfgDesc),
        0x646D6464 => Some(TagSignature::DeviceModelDesc),
        0x64657673 => Some(TagSignature::DeviceSettings),
        0x44324230 => Some(TagSignature::DToB0),
        0x44324231 => Some(TagSignature::DToB1),
        0x44324232 => Some(TagSignature::DToB2),
        0x44324233 => Some(TagSignature::DToB3),
        0x42324430 => Some(TagSignature::BToD0),
        0x42324431 => Some(TagSignature::BToD1),
        0x42324432 => Some(TagSignature::BToD2),
        0x42324433 => Some(TagSignature::BToD3),
        0x67616D74 => Some(TagSignature::Gamut),
        0x6B545243 => Some(TagSignature::GrayTRC),
        0x6758595A => Some(TagSignature::GreenMatrixColumn),
        0x67545243 => Some(TagSignature::GreenTRC),
        0x6C756D69 => Some(TagSignature::Luminance),
        0x6D656173 => Some(TagSignature::Measurement),
        0x626B7074 => Some(TagSignature::MediaBlackPoint),
        0x77747074 => Some(TagSignature::MediaWhitePoint),
        0x6E636F6C => Some(TagSignature::NamedColor),
        0x6E636C32 => Some(TagSignature::NamedColor2),
        0x72657370 => Some(TagSignature::OutputResponse),
        0x72696730 => Some(TagSignature::PerceptualRenderingIntentGamut),
        0x70726530 => Some(TagSignature::Preview0),
        0x70726531 => Some(TagSignature::Preview1),
        0x70726532 => Some(TagSignature::Preview2),
        0x64657363 => Some(TagSignature::ProfileDescription),
        0x6473636D => Some(TagSignature::ProfileDescriptionML),
        0x70736571 => Some(TagSignature::ProfileSequenceDesc),
        0x70736964 => Some(TagSignature::ProfileSequenceId),
        0x70736430 => Some(TagSignature::Ps2CRD0),
        0x70736431 => Some(TagSignature::Ps2CRD1),
        0x70736432 => Some(TagSignature::Ps2CRD2),
        0x70736433 => Some(TagSignature::Ps2CRD3),
        0x70733273 => Some(TagSignature::Ps2CSA),
        0x70733269 => Some(TagSignature::Ps2RenderingIntent),
        0x7258595A => Some(TagSignature::RedMatrixColumn),
        0x72545243 => Some(TagSignature::RedTRC),
        0x72696732 => Some(TagSignature::SaturationRenderingIntentGamut),
        0x73637264 => Some(TagSignature::ScreeningDesc),
        0x7363726E => Some(TagSignature::Screening),
        0x74656368 => Some(TagSignature::Technology),
        0x62666420 => Some(TagSignature::UcrBg),
        0x76756564 => Some(TagSignature::ViewingCondDesc),
        0x76696577 => Some(TagSignature::ViewingConditions),
        0x76636774 => Some(TagSignature::Vcgt),
        0x6D657461 => Some(TagSignature::Meta),
        0x63696370 => Some(TagSignature::Cicp),
        0x61727473 => Some(TagSignature::ArgyllArts),
        0x4D484332 => Some(TagSignature::Mhc2),
        _ => None,
    }
}

impl TagSignature {
    /// The four-byte ICC signature.
    pub fn to_u32(self) -> (r: u32)
        ensures
            r == tag_signature_value(self),
    {
        proof {
            reveal(tag_signature_value);
        }
        match self {
            TagSignature::AToB0 => 0x41324230,
            TagSignature::AToB1 => 0x41324231,
            TagSignature::AToB2 => 0x41324232,
            TagSignature::BlueMatrixColumn => 0x6258595A,
            TagSignature::BlueTRC => 0x62545243,
            TagSignature::BToA0 => 0x42324130,
            TagSignature::BToA1 => 0x42324131,
            TagSignature::BToA2 => 0x42324132,
            TagSignature::CalibrationDateTime => 0x63616C74,
            TagSignature::CharTarget => 0x74617267,
            TagSignature::ChromaticAdaptation => 0x63686164,
            TagSignature::Chromaticity => 0x6368726D,
            TagSignature::ColorantOrder => 0x636C726F,
            TagSignature::ColorantTable => 0x636C7274,
            TagSignature::ColorantTableOut => 0x636C6F74,
            TagSignature::ColorimetricIntentImageState => 0x63696973,
            TagSignature::Copyright => 0x63707274,
            TagSignature::CrdInfo => 0x63726469,
            TagSignature::Data => 0x64617461,
            TagSignature::DateTime => 0x6474696D,
            TagSignature::DeviceMfgDesc => 0x646D6E64,
            TagSignature::DeviceModelDesc => 0x646D6464,
            TagSignature::DeviceSettings => 0x64657673,
            TagSignature::DToB0 => 0x44324230,
            TagSignature::DToB1 => 0x44324231,
            TagSignature::DToB2 => 0x44324232,
            TagSignature::DToB3 => 0x44324233,
            TagSignature::BToD0 => 0x42324430,
            TagSignature::BToD1 => 0x42324431,
            TagSignature::BToD2 => 0x42324432,
            TagSignature::BToD3 => 0x42324433,
            TagSignature::Gamut => 0x67616D74,
            TagSignature::GrayTRC => 0x6B545243,
            TagSignature::GreenMatrixColumn => 0x6758595A,
            TagSignature::GreenTRC => 0x67545243,
            TagSignature::Luminance => 0x6C756D69,
            TagSignature::Measurement => 0x6D656173,
            TagSignature::MediaBlackPoint => 0x626B7074,
            TagSignature::MediaWhitePoint => 0x77747074,
            TagSignature::NamedColor => 0x6E636F6C,
            TagSignature::NamedColor2 => 0x6E636C32,
            TagSignature::OutputResponse => 0x72657370,
            TagSignature::PerceptualRenderingIntentGamut => 0x72696730,
            TagSignature::Preview0 => 0x70726530,
            TagSignature::Preview1 => 0x70726531,
            TagSignature::Preview2 => 0x70726532,
            TagSignature::ProfileDescription => 0x64657363,
            TagSignature::ProfileDescriptionML => 0x6473636D,
            TagSignature::ProfileSequenceDesc => 0x70736571,
            TagSignature::ProfileSequenceId => 0x70736964,
            TagSignature::Ps2CRD0 => 0x70736430,
            TagSignature::Ps2CRD1 => 0x70736431,
            TagSignature::Ps2CRD2 => 0x70736432,
            TagSignature::Ps2CRD3 => 0x70736433,
            TagSignature::Ps2CSA => 0x70733273,
            TagSignature::Ps2RenderingIntent => 0x70733269,
            TagSignature::RedMatrixColumn => 0x7258595A,
            TagSignature::RedTRC => 0x72545243,
            TagSignature::SaturationRenderingIntentGamut => 0x72696732,
            TagSignature::ScreeningDesc => 0x73637264,
            TagSignature::Screening => 0x7363726E,
            TagSignature::Technology => 0x74656368,
            TagSignature::UcrBg => 0x62666420,
            TagSignature::ViewingCondDesc => 0x76756564,
            TagSignature::ViewingConditions => 0x76696577,
            TagSignature::Vcgt => 0x76636774,
            TagSignature::Meta => 0x6D657461,
            TagSignature::Cicp => 0x63696370,
            TagSignature::ArgyllArts => 0x61727473,
            TagSignature::Mhc2 => 0x4D484332,
        }
    }

    /// The tag with signature `v`, if it is a known one.
    pub fn from_u32(v: u32) -> (r: Option<TagSignature>)
        ensures
            r == tag_signature_of(v),
    {
        proof {
            reveal(tag_signature_of);
        }
        match v {
            0x41324230 => Some(TagSignature::AToB0),
            0x41324231 => Some(TagSignature::AToB1),
            0x41324232 => Some(TagSignature::AToB2),
            0x6258595A => Some(TagSignature::BlueMatrixColumn),
            0x62545243 => Some(TagSignature::BlueTRC),
            0x42324130 => Some(TagSignature::BToA0),
            0x42324131 => Some(TagSignature::BToA1),
            0x42324132 => Some(TagSignature::BToA2),
            0x63616C74 => Some(TagSignature::CalibrationDateTime),
            0x74617267 => Some(TagSignature::CharTarget),
            0x63686164 => Some(TagSignature::ChromaticAdaptation),
            0x6368726D => Some(TagSignature::Chromaticity),
            0x636C726F => Some(TagSignature::ColorantOrder),
            0x636C7274 => Some(TagSignature::ColorantTable),
            0x636C6F74 => Some(TagSignature::ColorantTableOut),
            0x63696973 => Some(TagSignature::ColorimetricIntentImageState),
            0x63707274 => Some(TagSignature::Copyright),
            0x63726469 => Some(TagSignature::CrdInfo),
            0x64617461 => Some(TagSignature::Data),
            0x6474696D => Some(TagSignature::DateTime),
            0x646D6E64 => Some(TagSignature::DeviceMfgDesc),
            0x646D6464 => Some(TagSignature::DeviceModelDesc),
            0x64657673 => Some(TagSignature::DeviceSettings),
            0x44324230 => Some(TagSignature::DToB0),
            0x44324231 => Some(TagSignature::DToB1),
            0x44324232 => Some(TagSignature::DToB2),
            0x44324233 => Some(TagSignature::DToB3),
            0x42324430 => Some(TagSignature::BToD0),
            0x42324431 => Some(TagSignature::BToD1),
            0x42324432 => Some(TagSignature::BToD2),
            0x42324433 => Some(TagSignature::BToD3),
            0x67616D74 => Some(TagSignature::Gamut),
            0x6B545243 => Some(TagSignature::GrayTRC),
            0x6758595A => Some(TagSignature::GreenMatrixColumn),
            0x67545243 => Some(TagSignature::GreenTRC),
            0x6C756D69 => Some(TagSignature::Luminance),
            0x6D656173 => Some(TagSignature::Measurement),
            0x626B7074 => Some(TagSignature::MediaBlackPoint),
            0x77747074 => Some(TagSignature::MediaWhitePoint),
            0x6E636F6C => Some(TagSignature::NamedColor),
            0x6E636C32 => Some(TagSignature::NamedColor2),
            0x72657370 => Some(TagSignature::OutputResponse),
            0x72696730 => Some(TagSignature::PerceptualRenderingIntentGamut),
            0x70726530 => Some(TagSignature::Preview0),
            0x70726531 => Some(TagSignature::Preview1),
            0x70726532 => Some(TagSignature::Preview2),
            0x64657363 => Some(TagSignature::ProfileDescription),
            0x6473636D => Some(TagSignature::ProfileDescriptionML),
            0x70736571 => Some(TagSignature::ProfileSequenceDesc),
            0x70736964 => Some(TagSignature::ProfileSequenceId),
            0x70736430 => Some(TagSignature::Ps2CRD0),
            0x70736431 => Some(TagSignature::Ps2CRD1),
            0x70736432 => Some(TagSignature::Ps2CRD2),
            0x70736433 => Some(TagSignature::Ps2CRD3),
            0x70733273 => Some(TagSignature::Ps2CSA),
            0x70733269 => Some(TagSignature::Ps2RenderingIntent),
            0x7258595A => Some(TagSignature::RedMatrixColumn),
            0x72545243 => Some(TagSignature::RedTRC),
            0x72696732 => Some(TagSignature::SaturationRenderingIntentGamut),
            0x73637264 => Some(TagSignature::ScreeningDesc),
            0x7363726E => Some(TagSignature::Screening),
            0x74656368 => Some(TagSignature::Technology),
            0x62666420 => Some(TagSignature::UcrBg),
            0x76756564 => Some(TagSignature::ViewingCondDesc),
            0x76696577 => Some(TagSignature::ViewingConditions),
            0x76636774 => Some(TagSignature::Vcgt),
            0x6D657461 => Some(TagSignature::Meta),
            0x63696370 => Some(TagSignature::Cicp),
            0x61727473 => Some(TagSignature::ArgyllArts),
            0x4D484332 => Some(TagSignature::Mhc2),
            _ => None,
        }
    }
}

/// 'acsp', the signature every ICC profile header carries.
pub const ICC_MAGIC_NUMBER: u32 = 0x61637370;

/// 'lcms', the CMM and creator signature of profiles made here.
pub const LCMS_SIGNATURE: u32 = 0x6C636D73;

/// At most this many tags in a profile.
pub const MAX_TABLE_TAG: usize = 100;

/// Date and time as the ICC header stores them.
#[derive(Debug, Clone, Copy, PartialEq, Eq)]
pub struct DateTimeNumber {
    pub year: u16,
    pub month: u16,
    pub day: u16,
    pub hours: u16,
    pub minutes: u16,
    pub seconds: u16,
}

/// The fields of the 128-byte ICC header; the illuminant is kept as its
/// three s15Fixed16 numbers.
#[derive(Debug, Clone, Copy)]
pub struct IccHeader {
    pub size: u32,
    pub cmm_id: u32,
    pub version: u32,
    pub device_class: ProfileClassSignature,
    pub color_space: ColorSpaceSignature,
    pub pcs: ColorSpaceSignature,
    pub date: DateTimeNumber,
    pub magic: u32,
    pub platform: PlatformSignature,
    pub flags: u32,
    pub manufacturer: u32,
    pub model: u32,
    pub attributes: u64,
    pub rendering_intent: u32,
    pub illuminant: [i32; 3],
    pub creator: u32,
    pub profile_id: [u8; 16],
    pub reserved: [u8; 28],
}

// ---------------------------------------------------------------------------
// Big-endian numbers
// ---------------------------------------------------------------------------

/// The 16-bit big-endian value at `i`.
pub open spec fn be16(b: Seq<u8>, i: int) -> u16 {
    (b[i] * 256 + b[i + 1]) as u16
}

/// The 32-bit big-endian value at `i`.
pub open spec fn be32(b: Seq<u8>, i: int) -> u32 {
    (b[i] * 0x1000000 + b[i + 1] * 0x10000 + b[i + 2] * 0x100 + b[i + 3]) as u32
}

/// The 64-bit big-endian value at `i`.
pub open spec fn be64(b: Seq<u8>, i: int) -> u64 {
    (be32(b, i) * 0x1_0000_0000 + be32(b, i + 4)) as u64
}

/// The big-endian bytes of a 16-bit value.
pub open spec fn bytes16(v: u16) -> Seq<u8> {
    seq![(v / 256) as u8, (v % 256) as u8]
}

/// The big-endian bytes of a 32-bit value.
pub open spec fn bytes32(v: u32) -> Seq<u8> {
    seq![(v / 0x1000000) as u8, ((v / 0x10000) % 256) as u8, ((v / 0x100) % 256) as u8, (v % 256) as u8]
}

/// The big-endian bytes of a 64-bit value.
pub open spec fn bytes64(v: u64) -> Seq<u8> {
    bytes32((v / 0x1_0000_0000) as u32) + bytes32((v % 0x1_0000_0000) as u32)
}

pub(crate) fn read_be16(b: &[u8], i: usize) -> (r: u16)
    requires
        i + 2 <= b@.len(),
    ensures
        r == be16(b@, i as int),
{
    (b[i] as u16) * 256 + (b[i + 1] as u16)
}

pub(crate) fn read_be32(b: &[u8], i: usize) -> (r: u32)
    requires
        i + 4 <= b@.len(),
    ensures
        r == be32(b@, i as int),
{
    (b[i] as u32) * 0x1000000 + (b[i + 1] as u32) * 0x10000 + (b[i + 2] as u32) * 0x100 + (b[i + 3] as u32)
}

pub(crate) fn read_be64(b: &[u8], i: usize) -> (r: u64)
    requires
        i + 8 <= b@.len(),
    ensures
        r == be64(b@, i as int),
{
    let n = b.len();
    let hi = read_be32(b, i) as u64;
    let lo = read_be32(b, i + 4) as u64;
    hi * 0x1_0000_0000 + lo
}

pub(crate) fn push_be16(out: &mut Vec<u8>, v: u16)
    ensures
        final(out)@ == old(out)@ + bytes16(v),
{
    out.push((v / 256) as u8);
    out.push((v % 256) as u8);
    assert(final(out)@ =~= old(out)@ + bytes16(v));
}

pub(crate) fn push_be32(out: &mut Vec<u8>, v: u32)
    ensures
        final(out)@ == old(out)@ + bytes32(v),
{
    out.push((v / 0x1000000) as u8);
    out.push(((v / 0x10000) % 256) as u8);
    out.push(((v / 0x100) % 256) as u8);
    out.push((v % 256) as u8);
    assert(final(out)@ =~= old(out)@ + bytes32(v));
}

pub(crate) fn push_be64(out: &mut Vec<u8>, v: u64)
    ensures
        final(out)@ == old(out)@ + bytes64(v),
{
    push_be32(out, (v / 0x1_0000_0000) as u32);
    push_be32(out, (v % 0x1_0000_0000) as u32);
    assert(final(out)@ =~= old(out)@ + bytes64(v));
}

/// A 32-bit value's bytes read back as the value.
pub proof fn lemma_be32_bytes(v: u32)
    ensures
        be32(bytes32(v), 0) == v,
{
    let b = bytes32(v);
    assert(b[0] * 0x1000000 + b[1] * 0x10000 + b[2] * 0x100 + b[3] == v) by (nonlinear_arith)
        requires
            b[0] == v / 0x1000000,
            b[1] == (v / 0x10000) % 256,
            b[2] == (v / 0x100) % 256,
            b[3] == v % 256,
            v <= 0xffff_ffff,
    ;
}

/// A 16-bit value's bytes read back as the value.
pub proof fn lemma_be16_bytes(v: u16)
    ensures
        be16(bytes16(v), 0) == v,
{
}

// ---------------------------------------------------------------------------
// Versions
// ---------------------------------------------------------------------------

/// The version with its major digit and its two minor digits each capped at 9,
/// and its low half cleared.
pub open spec fn spec_validated_version(raw: u32) -> u32 {
    let b0 = raw / 0x1000000;
    let b1 = (raw / 0x10000) % 256;
    let hi = b1 / 16;
    let lo = b1 % 16;
    let b0c = if b0 > 9 { 9 } else { b0 };
    let hic = if hi > 9 { 9 } else { hi };
    let loc = if lo > 9 { 9 } else { lo };
    (b0c * 0x1000000 + (hic * 16 + loc) * 0x10000) as u32
}

/// A version field cleaned to BCD digits (see `spec_validated_version`).
pub fn validated_version(raw: u32) -> (r: u32)
    ensures
        r == spec_validated_version(raw),
{
    let b0 = raw / 0x1000000;
    let b1 = (raw / 0x10000) % 256;
    let hi = b1 / 16;
    let lo = b1 % 16;
    let b0c = if b0 > 9 { 9 } else { b0 };
    let hic = if hi > 9 { 9 } else { hi };
    let loc = if lo > 9 { 9 } else { lo };
    b0c * 0x1000000 + (hic * 16 + loc) * 0x10000
}

/// The digits of `n` in base `base_in` read as a number in base `base_out`.
pub open spec fn spec_base_to_base(n: nat, base_in: nat, base_out: nat) -> nat
    decreases n,
{
    if n == 0 || base_in < 2 {
        0
    } else {
        proof {
            assert(n / base_in < n) by (nonlinear_arith)
                requires
                    base_in >= 2,
                    n > 0,
            ;
        }
        spec_base_to_base(n / base_in, base_in, base_out) * base_out + n % base_in
    }
}


/// `n`'s digits in base `base_in` read in base `base_out`; the profile
/// version is kept as BCD digits.
pub fn base_to_base(n: u32, base_in: u32, base_out: u32) -> (r: u32)
    requires
        n == 0 || base_in >= 2,
        spec_base_to_base(n as nat, base_in as nat, base_out as nat) <= u32::MAX,
    ensures
        r == spec_base_to_base(n as nat, base_in as nat, base_out as nat),
    decreases n,
{
    if n == 0 {
        return 0;
    }
    let q = n / base_in;
    let d = n % base_in;
    proof {
        assert(q < n) by (nonlinear_arith)
            requires
                base_in >= 2,
                n > 0,
                q == n / base_in,
        ;
        let pq = spec_base_to_base(q as nat, base_in as nat, base_out as nat);
        assert(spec_base_to_base(n as nat, base_in as nat, base_out as nat) == pq * base_out + d);
        if base_out == 0 {
            if q > 0 {
                assert(pq == spec_base_to_base((q / base_in) as nat, base_in as nat, base_out as nat) * 0 + q % base_in);
                assert(pq < base_in);
            }
        } else {
            assert(pq <= pq * base_out) by (nonlinear_arith)
                requires
                    base_out >= 1,
            ;
        }
    }
    let prefix = base_to_base(q, base_in, base_out);
    prefix * base_out + d
}

// ---------------------------------------------------------------------------
// The profile
// ---------------------------------------------------------------------------

/// A tag of a profile, as seen from outside.
pub struct TagView {
    pub sig: TagSignature,
    /// Where its bytes lie in the bytes the profile was read from.
    pub offset: u32,
    pub size: u32,
    /// The tag it shares its bytes with.
    pub linked: Option<TagSignature>,
    /// Its bytes, once loaded or written.
    pub data: Option<Seq<u8>>,
    pub save_as_raw: bool,
}

/// A profile as seen from outside: header, tags in directory order, and the
/// bytes it was read from.
pub struct ProfileView {
    pub header: IccHeader,
    pub tags: Seq<TagView>,
    pub source: Option<Seq<u8>>,
}

struct TagEntry {
    sig: TagSignature,
    offset: u32,
    size: u32,
    linked: Option<TagSignature>,
    data: Option<Vec<u8>>,
    save_as_raw: bool,
}

impl TagEntry {
    spec fn view(&self) -> TagView {
        TagView {
            sig: self.sig,
            offset: self.offset,
            size: self.size,
            linked: self.linked,
            data: match self.data {
                Some(d) => Some(d@),
                None => None,
            },
            save_as_raw: self.save_as_raw,
        }
    }
}

/// An ICC profile: its header, its tag directory with the tags' raw bytes,
/// and the bytes it was read from.
pub struct Profile {
    pub header: IccHeader,
    tags: Vec<TagEntry>,
    source: Option<Vec<u8>>,
}

impl View for Profile {
    type V = ProfileView;

    closed spec fn view(&self) -> ProfileView {
        ProfileView {
            header: self.header,
            tags: Seq::new(self.tags@.len(), |i: int| self.tags@[i].view()),
            source: match self.source {
                Some(b) => Some(b@),
                None => None,
            },
        }
    }
}

/// Index of the first tag with signature `sig` from `i` on.
pub open spec fn find_tag_from(tags: Seq<TagView>, sig: TagSignature, i: int) -> Option<int>
    decreases tags.len() - i,
{
    if i < 0 || i >= tags.len() {
        None
    } else if tags[i].sig == sig {
        Some(i)
    } else {
        find_tag_from(tags, sig, i + 1)
    }
}

/// What a search from `i` finds: the first tag from `i` on with the signature.
pub proof fn lemma_find_tag_from(tags: Seq<TagView>, sig: TagSignature, i: int)
    requires
        0 <= i,
    ensures
        find_tag_from(tags, sig, i) matches Some(k) ==> i <= k < tags.len() && tags[k].sig == sig
            && forall|j: int| i <= j < k ==> tags[j].sig != sig,
        find_tag_from(tags, sig, i) is None ==> forall|j: int| i <= j < tags.len() ==> tags[j].sig != sig,
    decreases tags.len() - i,
{
    if i < tags.len() && tags[i].sig != sig {
        lemma_find_tag_from(tags, sig, i + 1);
    }
}

/// Index of the first tag with signature `sig`.
pub open spec fn find_tag(tags: Seq<TagView>, sig: TagSignature) -> Option<int> {
    find_tag_from(tags, sig, 0)
}

/// The tag that `sig` stands for once links are followed, at most `k` of them.
pub open spec fn follow_links(tags: Seq<TagView>, sig: TagSignature, k: nat) -> Option<int>
    decreases k,
{
    if k == 0 {
        None
    } else {
        match find_tag(tags, sig) {
            None => None,
            Some(i) => match tags[i].linked {
                Some(l) => follow_links(tags, l, (k - 1) as nat),
                None => Some(i),
            },
        }
    }
}

/// No two tags share a signature.
pub open spec fn sigs_unique(tags: Seq<TagView>) -> bool {
    forall|i: int, j: int| 0 <= i < j < tags.len() ==> tags[i].sig != tags[j].sig
}

/// Every loaded tag holds as many bytes as its size says.
pub open spec fn sizes_match(tags: Seq<TagView>) -> bool {
    forall|i: int| 0 <= i < tags.len() ==> (#[trigger] tags[i].data matches Some(d) ==> d.len() == tags[i].size)
}

/// At most `MAX_TABLE_TAG` tags, no signature twice, loaded sizes right.
pub open spec fn profile_ok(v: ProfileView) -> bool {
    &&& v.tags.len() <= 100
    &&& sigs_unique(v.tags)
    &&& sizes_match(v.tags)
}

/// The header of a new profile: version 2.1, display class, RGB data, XYZ
/// connection space, D50 illuminant, made by this library, all else zero.
pub open spec fn is_placeholder_header(h: IccHeader) -> bool {
    &&& h.size == 0
    &&& h.cmm_id == LCMS_SIGNATURE
    &&& h.version == 0x02100000
    &&& h.device_class == ProfileClassSignature::Display
    &&& h.color_space == ColorSpaceSignature::RgbData
    &&& h.pcs == ColorSpaceSignature::XyzData
    &&& h.date == DateTimeNumber { year: 0, month: 0, day: 0, hours: 0, minutes: 0, seconds: 0 }
    &&& h.magic == ICC_MAGIC_NUMBER
    &&& h.platform == PlatformSignature::Unices
    &&& h.flags == 0
    &&& h.manufacturer == 0
    &&& h.model == 0
    &&& h.attributes == 0
    &&& h.rendering_intent == 0
    &&& h.illuminant@ == seq![0xF6D6i32, 0x10000i32, 0xD32Di32]
    &&& h.creator == LCMS_SIGNATURE
    &&& h.profile_id@ == Seq::new(16, |i: int| 0u8)
    &&& h.reserved@ == Seq::new(28, |i: int| 0u8)
}

impl Profile {
    pub closed spec fn wf(&self) -> bool {
        &&& profile_ok(self@)
    }

    /// An empty profile with the placeholder header (see `placeholder_header`).
    pub fn new_placeholder() -> (r: Profile)
        ensures
            r.wf(),
            is_placeholder_header(r@.header),
            r@.tags == Seq::<TagView>::empty(),
            r@.source is None,
    {
        let header = IccHeader {
            size: 0,
            cmm_id: LCMS_SIGNATURE,
            version: 0x02100000,
            device_class: ProfileClassSignature::Display,
            color_space: ColorSpaceSignature::RgbData,
            pcs: ColorSpaceSignature::XyzData,
            date: DateTimeNumber { year: 0, month: 0, day: 0, hours: 0, minutes: 0, seconds: 0 },
            magic: ICC_MAGIC_NUMBER,
            platform: PlatformSignature::Unices,
            flags: 0,
            manufacturer: 0,
            model: 0,
            attributes: 0,
            rendering_intent: 0,
            illuminant: [0xF6D6i32, 0x10000i32, 0xD32Di32],
            creator: LCMS_SIGNATURE,
            profile_id: [0u8; 16],
            reserved: [0u8; 28],
        };
        let r = Profile { header, tags: Vec::new(), source: None };
        assert(r@.tags =~= Seq::<TagView>::empty());
        assert(r@.header.profile_id@ =~= Seq::new(16, |i: int| 0u8));
        assert(r@.header.reserved@ =~= Seq::new(28, |i: int| 0u8));
        assert(r@.header.illuminant@ =~= seq![0xF6D6i32, 0x10000i32, 0xD32Di32]);
        r
    }

    /// The encoded version from the header.
    pub(crate) fn header_version(&self) -> (r: u32)
        ensures
            r == self@.header.version,
    {
        self.header.version
    }

    /// Number of tags.
    pub fn tag_count(&self) -> (r: usize)
        ensures
            r == self@.tags.len(),
    {
        self.tags.len()
    }

    /// Signature of tag `n`, if there is one.
    pub fn tag_signature(&self, n: usize) -> (r: Option<TagSignature>)
        ensures
            r == (if n < self@.tags.len() {
                Some(self@.tags[n as int].sig)
            } else {
                None
            }),
    {
        if n < self.tags.len() {
            Some(self.tags[n].sig)
        } else {
            None
        }
    }

    fn search_tag(&self, sig: TagSignature) -> (r: Option<usize>)
        ensures
            match r {
                Some(i) => find_tag(self@.tags, sig) == Some(i as int),
                None => find_tag(self@.tags, sig) is None,
            },
            r matches Some(i) ==> i < self@.tags.len() && self@.tags[i as int].sig == sig,
            r is None ==> forall|j: int| 0 <= j < self@.tags.len() ==> self@.tags[j].sig != sig,
    {
        proof {
            lemma_find_tag_from(self@.tags, sig, 0);
        }
        let mut i: usize = 0;
        while i < self.tags.len()
            invariant
                i <= self.tags@.len(),
                find_tag(self@.tags, sig) == find_tag_from(self@.tags, sig, i as int),
            decreases self.tags@.len() - i,
        {
            assert(self@.tags[i as int] == self.tags@[i as int].view());
            if self.tags[i].sig == sig {
                return Some(i);
            }
            i = i + 1;
        }
        None
    }

    /// Whether a tag with signature `sig` is present.
    pub fn has_tag(&self, sig: TagSignature) -> (r: bool)
        ensures
            r == find_tag(self@.tags, sig) is Some,
    {
        self.search_tag(sig).is_some()
    }

    /// The tag that `sig` is linked to, if `sig` is present and linked.
    pub fn tag_linked_to(&self, sig: TagSignature) -> (r: Option<TagSignature>)
        ensures
            r == match find_tag(self@.tags, sig) {
                Some(i) => self@.tags[i].linked,
                None => None,
            },
    {
        match self.search_tag(sig) {
            Some(i) => {
                assert(self@.tags[i as int] == self.tags@[i as int].view());
                self.tags[i].linked
            },
            None => None,
        }
    }

    fn search_tag_follow_links(&self, sig: TagSignature) -> (r: Option<usize>)
        ensures
            match r {
                Some(i) => follow_links(self@.tags, sig, 100) == Some(i as int),
                None => follow_links(self@.tags, sig, 100) is None,
            },
    {
        let mut cur = sig;
        let mut k: usize = 0;
        while k < MAX_TABLE_TAG
            invariant
                k <= 100,
                follow_links(self@.tags, sig, 100) == follow_links(self@.tags, cur, (100 - k) as nat),
            decreases 100 - k,
        {
            let idx = match self.search_tag(cur) {
                Some(i) => i,
                None => return None,
            };
            assert(self@.tags[idx as int] == self.tags@[idx as int].view());
            match self.tags[idx].linked {
                Some(l) => {
                    cur = l;
                },
                None => return Some(idx),
            }
            k = k + 1;
        }
        None
    }
}

/// The tags after `write_raw_tag(sig, d)`: an existing tag takes the bytes
/// and loses its link; otherwise a new tag is added, unless the directory is full.
pub open spec fn tags_after_write(tags: Seq<TagView>, sig: TagSignature, d: Seq<u8>) -> Result<
    Seq<TagView>,
    ErrorCode,
> {
    match find_tag(tags, sig) {
        Some(i) => Ok(
            tags.update(
                i,
                TagView { data: Some(d), save_as_raw: true, linked: None, size: d.len() as u32, ..tags[i] },
            ),
        ),
        None => if tags.len() >= 100 {
            Err(ErrorCode::Range)
        } else {
            Ok(
                tags.push(
                    TagView {
                        sig,
                        offset: 0,
                        size: d.len() as u32,
                        linked: None,
                        data: Some(d),
                        save_as_raw: true,
                    },
                ),
            )
        },
    }
}

/// The tags after `link_tag(sig, dest)`: `dest` must be present; an
/// existing `sig` is linked to it, otherwise a linked tag is added, unless
/// the directory is full.
pub open spec fn tags_after_link(tags: Seq<TagView>, sig: TagSignature, dest: TagSignature) -> Result<
    Seq<TagView>,
    ErrorCode,
> {
    if find_tag(tags, dest) is None {
        Err(ErrorCode::Internal)
    } else {
        match find_tag(tags, sig) {
            Some(i) => Ok(tags.update(i, TagView { linked: Some(dest), ..tags[i] })),
            None => if tags.len() >= 100 {
                Err(ErrorCode::Range)
            } else {
                Ok(
                    tags.push(
                        TagView {
                            sig,
                            offset: 0,
                            size: 0,
                            linked: Some(dest),
                            data: None,
                            save_as_raw: false,
                        },
                    ),
                )
            },
        }
    }
}

/// What reading the raw bytes of `sig` gives, and the tags afterwards: the
/// tag is found through its links; bytes already held are returned, other
/// bytes are taken from the source and kept.
pub open spec fn raw_tag_read(v: ProfileView, sig: TagSignature) -> (Result<Seq<u8>, ErrorCode>, Seq<TagView>) {
    let tags = v.tags;
    match follow_links(tags, sig, 100) {
        None => (Err(ErrorCode::Internal), tags),
        Some(i) => match tags[i].data {
            Some(d) => (Ok(d), tags),
            None => match v.source {
                None => (Err(ErrorCode::Read), tags),
                Some(b) => {
                    let off = tags[i].offset as int;
                    let sz = tags[i].size as int;
                    if off > b.len() {
                        (Err(ErrorCode::Seek), tags)
                    } else if sz > b.len() || off > b.len() - sz {
                        (Err(ErrorCode::Read), tags)
                    } else {
                        let d = b.subrange(off, off + sz);
                        (Ok(d), tags.update(i, TagView { data: Some(d), ..tags[i] }))
                    }
                },
            },
        },
    }
}

impl Profile {
    /// The raw bytes of a tag never exceed what a 32-bit size can count.
    pub proof fn lemma_raw_tag_len(&self, sig: TagSignature)
        requires
            self.wf(),
        ensures
            raw_tag_read(self@, sig).0 matches Ok(d) ==> d.len() <= u32::MAX,
    {
        lemma_follow_in_range(self@.tags, sig, 100);
    }
}

proof fn lemma_follow_in_range(tags: Seq<TagView>, sig: TagSignature, k: nat)
    ensures
        follow_links(tags, sig, k) matches Some(i) ==> 0 <= i < tags.len() && tags[i].linked is None,
    decreases k,
{
    if k > 0 {
        lemma_find_tag_from(tags, sig, 0);
        if let Some(i) = find_tag(tags, sig) {
            if let Some(l) = tags[i].linked {
                lemma_follow_in_range(tags, l, (k - 1) as nat);
            }
        }
    }
}

pub(crate) fn err(code: ErrorCode, message: &str) -> (r: CmsError)
    ensures
        r.code == code,
{
    CmsError { code, message: message.to_owned() }
}

impl Profile {
    proof fn lemma_view_tag(&self, i: int)
        requires
            0 <= i < self.tags@.len(),
        ensures
            self@.tags[i] == self.tags@[i].view(),
            self@.tags.len() == self.tags@.len(),
    {
    }

    /// Stores `data` as the raw bytes of tag `sig` (see `tags_after_write`).
    pub fn write_raw_tag(&mut self, sig: TagSignature, data: &[u8]) -> (r: Result<(), CmsError>)
        requires
            old(self).wf(),
            data@.len() <= u32::MAX,
        ensures
            final(self).wf(),
            final(self)@.header == old(self)@.header,
            final(self)@.source == old(self)@.source,
            match r {
                Ok(_) => tags_after_write(old(self)@.tags, sig, data@) == Ok::<Seq<TagView>, ErrorCode>(
                    final(self)@.tags,
                ),
                Err(e) => tags_after_write(old(self)@.tags, sig, data@) == Err::<Seq<TagView>, ErrorCode>(
                    e.code,
                ) && final(self)@ == old(self)@,
            },
    {
        let ghost before = self@;
        let d = copy_range(data, 0, data.len());
        assert(data@.subrange(0, data@.len() as int) =~= data@);
        match self.search_tag(sig) {
            Some(i) => {
                proof {
                    self.lemma_view_tag(i as int);
                }
                let len = d.len() as u32;
                self.tags[i].data = Some(d);
                self.tags[i].save_as_raw = true;
                self.tags[i].linked = None;
                self.tags[i].size = len;
                proof {
                    assert(self@.tags =~= before.tags.update(
                        i as int,
                        TagView { data: Some(data@), save_as_raw: true, linked: None, size: data@.len() as u32, ..before.tags[i as int] },
                    ));
                    assert forall|a: int, b: int| 0 <= a < b < self@.tags.len() implies self@.tags[a].sig
                        != self@.tags[b].sig by {
                        assert(self@.tags[a].sig == before.tags[a].sig);
                        assert(self@.tags[b].sig == before.tags[b].sig);
                    }
                    assert(sizes_match(self@.tags));
                }
                Ok(())
            },
            None => {
                if self.tags.len() >= MAX_TABLE_TAG {
                    return Err(err(ErrorCode::Range, "Too many tags"));
                }
                let len = d.len() as u32;
                self.tags.push(
                    TagEntry { sig, offset: 0, size: len, linked: None, data: Some(d), save_as_raw: true },
                );
                proof {
                    assert(self@.tags =~= before.tags.push(
                        TagView { sig, offset: 0, size: data@.len() as u32, linked: None, data: Some(data@), save_as_raw: true },
                    ));
                    assert forall|a: int, b: int| 0 <= a < b < self@.tags.len() implies self@.tags[a].sig
                        != self@.tags[b].sig by {
                        if b == before.tags.len() {
                            assert(before.tags[a].sig != sig);
                        }
                    }
                    assert(sizes_match(self@.tags));
                }
                Ok(())
            },
        }
    }

    /// Makes tag `sig` share the bytes of tag `dest` (see `tags_after_link`).
    pub fn link_tag(&mut self, sig: TagSignature, dest: TagSignature) -> (r: Result<(), CmsError>)
        requires
            old(self).wf(),
        ensures
            final(self).wf(),
            final(self)@.header == old(self)@.header,
            final(self)@.source == old(self)@.source,
            match r {
                Ok(_) => tags_after_link(old(self)@.tags, sig, dest) == Ok::<Seq<TagView>, ErrorCode>(
                    final(self)@.tags,
                ),
                Err(e) => tags_after_link(old(self)@.tags, sig, dest) == Err::<Seq<TagView>, ErrorCode>(
                    e.code,
                ) && final(self)@ == old(self)@,
            },
    {
        let ghost before = self@;
        if !self.has_tag(dest) {
            return Err(err(ErrorCode::Internal, "Link destination not found"));
        }
        match self.search_tag(sig) {
            Some(i) => {
                proof {
                    self.lemma_view_tag(i as int);
                }
                self.tags[i].linked = Some(dest);
                proof {
                    assert(self@.tags =~= before.tags.update(i as int, TagView { linked: Some(dest), ..before.tags[i as int] }));
                    assert forall|a: int, b: int| 0 <= a < b < self@.tags.len() implies self@.tags[a].sig
                        != self@.tags[b].sig by {
                        assert(self@.tags[a].sig == before.tags[a].sig);
                        assert(self@.tags[b].sig == before.tags[b].sig);
                    }
                    assert(sizes_match(self@.tags));
                }
                Ok(())
            },
            None => {
                if self.tags.len() >= MAX_TABLE_TAG {
                    return Err(err(ErrorCode::Range, "Too many tags"));
                }
                self.tags.push(
                    TagEntry { sig, offset: 0, size: 0, linked: Some(dest), data: None, save_as_raw: false },
                );
                proof {
                    assert(self@.tags =~= before.tags.push(
                        TagView { sig, offset: 0, size: 0, linked: Some(dest), data: None, save_as_raw: false },
                    ));
                    assert forall|a: int, b: int| 0 <= a < b < self@.tags.len() implies self@.tags[a].sig
                        != self@.tags[b].sig by {
                        if b == before.tags.len() {
                            assert(before.tags[a].sig != sig);
                        }
                    }
                    assert(sizes_match(self@.tags));
                }
                Ok(())
            },
        }
    }

    /// The raw bytes of tag `sig` (see `raw_tag_read`); bytes taken from the
    /// source are kept in the tag.
    pub fn read_raw_tag(&mut self, sig: TagSignature) -> (r: Result<Vec<u8>, CmsError>)
        requires
            old(self).wf(),
        ensures
            final(self).wf(),
            final(self)@.header == old(self)@.header,
            final(self)@.source == old(self)@.source,
            final(self)@.tags == raw_tag_read(old(self)@, sig).1,
            match r {
                Ok(d) => raw_tag_read(old(self)@, sig).0 == Ok::<Seq<u8>, ErrorCode>(d@),
                Err(e) => raw_tag_read(old(self)@, sig).0 == Err::<Seq<u8>, ErrorCode>(e.code),
            },
    {
        let ghost before = self@;
        proof {
            lemma_follow_in_range(before.tags, sig, 100);
        }
        let idx = match self.search_tag_follow_links(sig) {
            Some(i) => i,
            None => return Err(err(ErrorCode::Internal, "Tag not found")),
        };
        proof {
            self.lemma_view_tag(idx as int);
        }
        match &self.tags[idx].data {
            Some(d) => {
                return Ok(d.clone());
            },
            None => {},
        }
        let offset = self.tags[idx].offset;
        let size = self.tags[idx].size;
        let buf = match &self.source {
            None => return Err(err(ErrorCode::Read, "No IO handler")),
            Some(b) => {
                let len = b.len();
                if offset as usize > len {
                    return Err(err(ErrorCode::Seek, "Seek error reading tag"));
                }
                if size as usize > len || offset as usize > len - size as usize {
                    return Err(err(ErrorCode::Read, "Read error reading tag"));
                }
                copy_range(b.as_slice(), offset as usize, size as usize)
            },
        };
        self.tags[idx].data = Some(buf.clone());
        proof {
            assert(self@.tags =~= raw_tag_read(before, sig).1);
            assert forall|a: int, b: int| 0 <= a < b < self@.tags.len() implies self@.tags[a].sig
                != self@.tags[b].sig by {
                assert(self@.tags[a].sig == before.tags[a].sig);
                assert(self@.tags[b].sig == before.tags[b].sig);
            }
            assert(sizes_match(self@.tags));
        }
        Ok(buf)
    }
}

/// Bytes `from .. from + n` of `b`.
pub(crate) fn copy_range(b: &[u8], from: usize, n: usize) -> (r: Vec<u8>)
    requires
        from + n <= b@.len(),
    ensures
        r@ == b@.subrange(from as int, from + n),
{
    let mut out: Vec<u8> = Vec::new();
    let bl = b.len();
    let mut i: usize = 0;
    while i < n
        invariant
            i <= n,
            bl == b@.len(),
            from + n <= b@.len(),
            out@ == b@.subrange(from as int, from + i),
        decreases n - i,
    {
        out.push(b[from + i]);
        i = i + 1;
        assert(out@ =~= b@.subrange(from as int, from + i));
    }
    out
}

// ---------------------------------------------------------------------------
// Reading a profile from memory
// ---------------------------------------------------------------------------

/// Whether `h` holds the header fields stored in `b` (128 bytes at least):
/// the version cleaned to BCD digits, unknown signatures replaced by
/// display class, RGB data, XYZ connection space and UNIX platform.
pub open spec fn header_matches(h: IccHeader, b: Seq<u8>) -> bool {
    &&& h.size == be32(b, 0)
    &&& h.cmm_id == be32(b, 4)
    &&& h.version == spec_validated_version(be32(b, 8))
    &&& h.device_class == match profile_class_of(be32(b, 12)) {
        Some(c) => c,
        None => ProfileClassSignature::Display,
    }
    &&& h.color_space == match color_space_of(be32(b, 16)) {
        Some(c) => c,
        None => ColorSpaceSignature::RgbData,
    }
    &&& h.pcs == match color_space_of(be32(b, 20)) {
        Some(c) => c,
        None => ColorSpaceSignature::XyzData,
    }
    &&& h.date == DateTimeNumber {
        year: be16(b, 24),
        month: be16(b, 26),
        day: be16(b, 28),
        hours: be16(b, 30),
        minutes: be16(b, 32),
        seconds: be16(b, 34),
    }
    &&& h.magic == be32(b, 36)
    &&& h.platform == match platform_of(be32(b, 40)) {
        Some(c) => c,
        None => PlatformSignature::Unices,
    }
    &&& h.flags == be32(b, 44)
    &&& h.manufacturer == be32(b, 48)
    &&& h.model == be32(b, 52)
    &&& h.attributes == be64(b, 56)
    &&& h.rendering_intent == be32(b, 64)
    &&& h.illuminant@ == seq![be32(b, 68) as i32, be32(b, 72) as i32, be32(b, 76) as i32]
    &&& h.creator == be32(b, 80)
    &&& h.profile_id@ == b.subrange(84, 100)
    &&& h.reserved@ == b.subrange(100, 128)
}

/// Number of tag directory entries.
pub open spec fn dir_count(b: Seq<u8>) -> u32 {
    be32(b, 128)
}

/// The tags that directory entries `i ..` add to `acc`: entries with a
/// zero offset or size, reaching past the header's size or of unknown
/// signature are skipped; an entry with the offset and size of an earlier
/// tag is linked to the first such tag.
pub open spec fn dir_tags_from(b: Seq<u8>, i: int, acc: Seq<TagView>) -> Seq<TagView>
    decreases dir_count(b) - i,
{
    if i < 0 || i >= dir_count(b) {
        acc
    } else {
        let e = 132 + 12 * i;
        let sig_raw = be32(b, e);
        let off = be32(b, e + 4);
        let size = be32(b, e + 8);
        if size == 0 || off == 0 || off + size > be32(b, 0) {
            dir_tags_from(b, i + 1, acc)
        } else {
            match tag_signature_of(sig_raw) {
                None => dir_tags_from(b, i + 1, acc),
                Some(sig) => {
                    let linked = match first_same_place(acc, off, size, 0) {
                        Some(j) => Some(acc[j].sig),
                        None => None,
                    };
                    dir_tags_from(
                        b,
                        i + 1,
                        acc.push(
                            TagView { sig, offset: off, size, linked, data: None, save_as_raw: false },
                        ),
                    )
                },
            }
        }
    }
}

/// First tag from `j` on stored at `off` with size `size`.
pub open spec fn first_same_place(acc: Seq<TagView>, off: u32, size: u32, j: int) -> Option<int>
    decreases acc.len() - j,
{
    if j < 0 || j >= acc.len() {
        None
    } else if acc[j].offset == off && acc[j].size == size {
        Some(j)
    } else {
        first_same_place(acc, off, size, j + 1)
    }
}

/// The tags of the directory of `b`.
pub open spec fn dir_tags(b: Seq<u8>) -> Seq<TagView> {
    dir_tags_from(b, 0, Seq::empty())
}

/// Why `b` is no profile, if it is not: too short (`Read`), without the
/// 'acsp' signature (`BadSignature`), of a version above 5.0
/// (`UnknownExtension`), with more than 100 tags or a tag twice (`Range`).
pub open spec fn open_error(b: Seq<u8>) -> Option<ErrorCode> {
    if b.len() < 40 {
        Some(ErrorCode::Read)
    } else if be32(b, 36) != ICC_MAGIC_NUMBER {
        Some(ErrorCode::BadSignature)
    } else if b.len() < 128 {
        Some(ErrorCode::Read)
    } else if spec_validated_version(be32(b, 8)) > 0x05000000 {
        Some(ErrorCode::UnknownExtension)
    } else if b.len() < 132 {
        Some(ErrorCode::Read)
    } else if dir_count(b) > 100 {
        Some(ErrorCode::Range)
    } else if b.len() < 132 + 12 * dir_count(b) {
        Some(ErrorCode::Read)
    } else if !sigs_unique(dir_tags(b)) {
        Some(ErrorCode::Range)
    } else {
        None
    }
}

proof fn lemma_dir_tags_from(b: Seq<u8>, i: int, acc: Seq<TagView>)
    requires
        0 <= i,
        sizes_match(acc),
        forall|k: int| 0 <= k < acc.len() ==> (#[trigger] acc[k]).data is None,
    ensures
        dir_tags_from(b, i, acc).len() <= acc.len() + (if i < dir_count(b) { dir_count(b) - i } else { 0 }),
        sizes_match(dir_tags_from(b, i, acc)),
        forall|k: int| 0 <= k < acc.len() ==> dir_tags_from(b, i, acc)[k] == acc[k],
    decreases dir_count(b) - i,
{
    if i < dir_count(b) {
        let e = 132 + 12 * i;
        let sig_raw = be32(b, e);
        let off = be32(b, e + 4);
        let size = be32(b, e + 8);
        if size == 0 || off == 0 || off + size > be32(b, 0) {
            lemma_dir_tags_from(b, i + 1, acc);
        } else {
            match tag_signature_of(sig_raw) {
                None => lemma_dir_tags_from(b, i + 1, acc),
                Some(sig) => {
                    let linked = match first_same_place(acc, off, size, 0) {
                        Some(j) => Some(acc[j].sig),
                        None => None,
                    };
                    let acc2 = acc.push(TagView { sig, offset: off, size, linked, data: None, save_as_raw: false });
                    assert forall|k: int| 0 <= k < acc.len() implies acc2[k] == acc[k] by {}
                    lemma_dir_tags_from(b, i + 1, acc2);
                    assert forall|k: int| 0 <= k < acc.len() implies dir_tags_from(b, i, acc)[k] == acc[k] by {
                        assert(dir_tags_from(b, i, acc) == dir_tags_from(b, i + 1, acc2));
                        assert(dir_tags_from(b, i + 1, acc2)[k] == acc2[k]);
                    }
                },
            }
        }
    }
}

spec fn entries_view(v: Seq<TagEntry>) -> Seq<TagView> {
    Seq::new(v.len(), |i: int| v[i].view())
}

fn first_same_place_x(tags: &Vec<TagEntry>, off: u32, size: u32) -> (r: Option<usize>)
    ensures
        match r {
            Some(j) => first_same_place(entries_view(tags@), off, size, 0) == Some(j as int) && j
                < tags@.len(),
            None => first_same_place(entries_view(tags@), off, size, 0) is None,
        },
{
    let ghost acc = entries_view(tags@);
    let mut j: usize = 0;
    while j < tags.len()
        invariant
            j <= tags@.len(),
            acc == entries_view(tags@),
            first_same_place(acc, off, size, 0) == first_same_place(acc, off, size, j as int),
        decreases tags@.len() - j,
    {
        if tags[j].offset == off && tags[j].size == size {
            return Some(j);
        }
        j = j + 1;
    }
    None
}

fn sigs_distinct(tags: &Vec<TagEntry>) -> (r: bool)
    ensures
        r == sigs_unique(entries_view(tags@)),
{
    let ghost v = entries_view(tags@);
    let n = tags.len();
    let mut i: usize = 0;
    while i < n
        invariant
            n == tags@.len(),
            v == entries_view(tags@),
            i <= n,
            forall|a: int, b: int| 0 <= a < i && a < b < n ==> v[a].sig != v[b].sig,
        decreases n - i,
    {
        let mut j: usize = i + 1;
        while j < n
            invariant
                n == tags@.len(),
                v == entries_view(tags@),
                i < n,
                i + 1 <= j <= n,
                forall|a: int, b: int| 0 <= a < i && a < b < n ==> v[a].sig != v[b].sig,
                forall|b: int| i < b < j ==> v[i as int].sig != v[b].sig,
            decreases n - j,
        {
            if tags[i].sig == tags[j].sig {
                assert(v[i as int].sig == v[j as int].sig);
                return false;
            }
            j = j + 1;
        }
        i = i + 1;
    }
    true
}

fn copy_array16(b: &[u8], from: usize) -> (r: [u8; 16])
    requires
        from + 16 <= b@.len(),
    ensures
        r@ == b@.subrange(from as int, from + 16),
{
    let mut a = [0u8; 16];
    let bl = b.len();
    let mut k: usize = 0;
    while k < 16
        invariant
            k <= 16,
            bl == b@.len(),
            from + 16 <= b@.len(),
            a@.len() == 16,
            forall|m: int| 0 <= m < k ==> a@[m] == b@[from + m],
        decreases 16 - k,
    {
        a[k] = b[from + k];
        k = k + 1;
    }
    assert(a@ =~= b@.subrange(from as int, from + 16));
    a
}

fn copy_array28(b: &[u8], from: usize) -> (r: [u8; 28])
    requires
        from + 28 <= b@.len(),
    ensures
        r@ == b@.subrange(from as int, from + 28),
{
    let mut a = [0u8; 28];
    let bl = b.len();
    let mut k: usize = 0;
    while k < 28
        invariant
            k <= 28,
            bl == b@.len(),
            from + 28 <= b@.len(),
            a@.len() == 28,
            forall|m: int| 0 <= m < k ==> a@[m] == b@[from + m],
        decreases 28 - k,
    {
        a[k] = b[from + k];
        k = k + 1;
    }
    assert(a@ =~= b@.subrange(from as int, from + 28));
    a
}

/// The header fields of `b` (see `header_matches`).
fn parse_header(b: &[u8]) -> (h: IccHeader)
    requires
        b@.len() >= 128,
    ensures
        header_matches(h, b@),
{
    let class = match ProfileClassSignature::from_u32(read_be32(b, 12)) {
        Some(c) => c,
        None => ProfileClassSignature::Display,
    };
    let space = match ColorSpaceSignature::from_u32(read_be32(b, 16)) {
        Some(c) => c,
        None => ColorSpaceSignature::RgbData,
    };
    let pcs = match ColorSpaceSignature::from_u32(read_be32(b, 20)) {
        Some(c) => c,
        None => ColorSpaceSignature::XyzData,
    };
    let platform = match PlatformSignature::from_u32(read_be32(b, 40)) {
        Some(c) => c,
        None => PlatformSignature::Unices,
    };
    let h = IccHeader {
        size: read_be32(b, 0),
        cmm_id: read_be32(b, 4),
        version: validated_version(read_be32(b, 8)),
        device_class: class,
        color_space: space,
        pcs,
        date: DateTimeNumber {
            year: read_be16(b, 24),
            month: read_be16(b, 26),
            day: read_be16(b, 28),
            hours: read_be16(b, 30),
            minutes: read_be16(b, 32),
            seconds: read_be16(b, 34),
        },
        magic: read_be32(b, 36),
        platform,
        flags: read_be32(b, 44),
        manufacturer: read_be32(b, 48),
        model: read_be32(b, 52),
        attributes: read_be64(b, 56),
        rendering_intent: read_be32(b, 64),
        illuminant: [read_be32(b, 68) as i32, read_be32(b, 72) as i32, read_be32(b, 76) as i32],
        creator: read_be32(b, 80),
        profile_id: copy_array16(b, 84),
        reserved: copy_array28(b, 100),
    };
    assert(h.illuminant@ =~= seq![be32(b@, 68) as i32, be32(b@, 72) as i32, be32(b@, 76) as i32]);
    h
}

impl Profile {
    /// Reads a profile from memory: fails exactly as `open_error` says,
    /// otherwise holds the header and the directory's tags of `data`, whose
    /// bytes are read from `data` when asked for.
    pub fn open_mem(data: &[u8]) -> (r: Result<Profile, CmsError>)
        requires
            data@.len() <= u32::MAX,
        ensures
            match r {
                Ok(p) => {
                    &&& open_error(data@) is None
                    &&& header_matches(p@.header, data@)
                    &&& p@.tags == dir_tags(data@)
                    &&& p@.source == Some(data@)
                    &&& p.wf()
                },
                Err(e) => open_error(data@) == Some(e.code),
            },
    {
        let len = data.len();
        if len < 40 {
            return Err(err(ErrorCode::Read, "Read error"));
        }
        if read_be32(data, 36) != ICC_MAGIC_NUMBER {
            return Err(err(ErrorCode::BadSignature, "not an ICC profile, invalid signature"));
        }
        if len < 128 {
            return Err(err(ErrorCode::Read, "Read error"));
        }
        let header = parse_header(data);
        if header.version > 0x05000000 {
            return Err(err(ErrorCode::UnknownExtension, "Unsupported profile version"));
        }
        if len < 132 {
            return Err(err(ErrorCode::Read, "Read error"));
        }
        let count = read_be32(data, 128);
        if count as usize > MAX_TABLE_TAG {
            return Err(err(ErrorCode::Range, "Too many tags"));
        }
        if len < 132 + 12 * count as usize {
            return Err(err(ErrorCode::Read, "Read error"));
        }
        let ghost b = data@;
        let hsize = header.size;
        let mut tags: Vec<TagEntry> = Vec::new();
        let mut i: u32 = 0;
        assert(entries_view(tags@) =~= Seq::<TagView>::empty());
        while i < count
            invariant
                i <= count <= 100,
                count == dir_count(b),
                hsize == be32(b, 0),
                b == data@,
                132 + 12 * count <= b.len(),
                tags@.len() <= i,
                dir_tags(b) == dir_tags_from(b, i as int, entries_view(tags@)),
                forall|k: int| 0 <= k < tags@.len() ==> (#[trigger] tags@[k]).data is None,
            decreases count - i,
        {
            let e = 132 + 12 * (i as usize);
            let sig_raw = read_be32(data, e);
            let off = read_be32(data, e + 4);
            let size = read_be32(data, e + 8);
            let skip = size == 0 || off == 0 || off as u64 + size as u64 > hsize as u64;
            if !skip {
                match TagSignature::from_u32(sig_raw) {
                    None => {},
                    Some(sig) => {
                        let linked = match first_same_place_x(&tags, off, size) {
                            Some(j) => Some(tags[j].sig),
                            None => None,
                        };
                        let ghost before = entries_view(tags@);
                        tags.push(TagEntry { sig, offset: off, size, linked, data: None, save_as_raw: false });
                        assert(entries_view(tags@) =~= before.push(
                            TagView { sig, offset: off, size, linked, data: None, save_as_raw: false },
                        ));
                    },
                }
            }
            i = i + 1;
        }
        if !sigs_distinct(&tags) {
            return Err(err(ErrorCode::Range, "Duplicate tag found"));
        }
        let src = copy_range(data, 0, len);
        assert(data@.subrange(0, len as int) =~= data@);
        let p = Profile { header, tags, source: Some(src) };
        proof {
            assert(p@.tags =~= entries_view(p.tags@));
            lemma_dir_tags_from(b, 0, Seq::empty());
        }
        Ok(p)
    }
}

// ---------------------------------------------------------------------------
// Writing a profile to memory
// ---------------------------------------------------------------------------

/// The tags after loading, from tag `i` on, the bytes of every unlinked
/// tag that has none yet from the source, and the error that stopped it.
pub open spec fn load_from(tags: Seq<TagView>, source: Option<Seq<u8>>, i: int) -> (Seq<TagView>, Option<ErrorCode>)
    decreases tags.len() - i,
{
    if i < 0 || i >= tags.len() {
        (tags, None)
    } else if tags[i].linked is Some || tags[i].data is Some || source is None {
        load_from(tags, source, i + 1)
    } else {
        let b = source.unwrap();
        let off = tags[i].offset as int;
        let sz = tags[i].size as int;
        if off > b.len() {
            (tags, Some(ErrorCode::Seek))
        } else if sz > b.len() || off > b.len() - sz {
            (tags, Some(ErrorCode::Read))
        } else {
            load_from(tags.update(i, TagView { data: Some(b.subrange(off, off + sz)), ..tags[i] }), source, i + 1)
        }
    }
}

/// `x` rounded up to a multiple of 4.
pub open spec fn align4(x: int) -> int {
    (x + 3) / 4 * 4
}

/// Offsets and sizes of the first `k` tags and the end of their data, in
/// a profile of `n` tags: unlinked tags follow the directory one after the
/// other, each at a multiple of 4; linked ones get zeros for now.
pub open spec fn layout_upto(tags: Seq<TagView>, k: int) -> (Seq<int>, Seq<int>, int)
    decreases k,
{
    if k <= 0 {
        (Seq::empty(), Seq::empty(), 132 + 12 * tags.len() as int)
    } else {
        let (o, s, c) = layout_upto(tags, k - 1);
        if tags[k - 1].linked is Some {
            (o.push(0), s.push(0), c)
        } else {
            let a = align4(c);
            (o.push(a), s.push(tags[k - 1].size as int), a + tags[k - 1].size)
        }
    }
}

/// The offsets and sizes with linked tags, in order, given those of the tag
/// they are linked to as they stand at that point.
pub open spec fn resolve_upto(tags: Seq<TagView>, o: Seq<int>, s: Seq<int>, k: int) -> (Seq<int>, Seq<int>)
    decreases k,
{
    if k <= 0 {
        (o, s)
    } else {
        let (o1, s1) = resolve_upto(tags, o, s, k - 1);
        match tags[k - 1].linked {
            Some(dest) => match find_tag(tags, dest) {
                Some(j) => (o1.update(k - 1, o1[j]), s1.update(k - 1, s1[j])),
                None => (o1, s1),
            },
            None => (o1, s1),
        }
    }
}

/// The directory entries of the first `k` tags.
pub open spec fn dir_bytes(tags: Seq<TagView>, o: Seq<int>, s: Seq<int>, k: int) -> Seq<u8>
    decreases k,
{
    if k <= 0 {
        Seq::empty()
    } else {
        dir_bytes(tags, o, s, k - 1) + bytes32(tag_signature_value(tags[k - 1].sig)) + bytes32(
            o[k - 1] as u32,
        ) + bytes32(s[k - 1] as u32)
    }
}

/// `n` zero bytes.
pub open spec fn zeros(n: int) -> Seq<u8> {
    Seq::new(n as nat, |i: int| 0u8)
}

/// The data of the first `k` tags and the position after it: each unlinked
/// tag's bytes at its offset, zeros before it.
pub open spec fn data_upto(tags: Seq<TagView>, o: Seq<int>, k: int) -> (Seq<u8>, int)
    decreases k,
{
    if k <= 0 {
        (Seq::empty(), 132 + 12 * tags.len() as int)
    } else {
        let (d, p) = data_upto(tags, o, k - 1);
        if tags[k - 1].linked is Some {
            (d, p)
        } else {
            let pad = if p < o[k - 1] {
                o[k - 1] - p
            } else {
                0
            };
            let bytes = match tags[k - 1].data {
                Some(x) => x,
                None => Seq::empty(),
            };
            (d + zeros(pad) + bytes, p + pad + bytes.len())
        }
    }
}

/// Header bytes 0..24: size, CMM, version, class, data space, connection space.
pub open spec fn header_part1(h: IccHeader, total: u32) -> Seq<u8> {
    bytes32(total) + bytes32(h.cmm_id) + bytes32(h.version) + bytes32(
        profile_class_signature_value(h.device_class),
    ) + bytes32(color_space_signature_value(h.color_space)) + bytes32(
        color_space_signature_value(h.pcs),
    )
}

/// Header bytes 24..36: the date.
pub open spec fn header_part2(h: IccHeader) -> Seq<u8> {
    bytes16(h.date.year) + bytes16(h.date.month) + bytes16(h.date.day) + bytes16(h.date.hours)
        + bytes16(h.date.minutes) + bytes16(h.date.seconds)
}

/// Header bytes 36..68: signature, platform, flags, maker, model, attributes, intent.
pub open spec fn header_part3(h: IccHeader) -> Seq<u8> {
    bytes32(h.magic) + bytes32(platform_signature_value(h.platform)) + bytes32(h.flags) + bytes32(
        h.manufacturer,
    ) + bytes32(h.model) + bytes64(h.attributes) + bytes32(h.rendering_intent)
}

/// Header bytes 68..84: illuminant and creator.
pub open spec fn header_part4(h: IccHeader) -> Seq<u8> {
    bytes32(h.illuminant[0] as u32) + bytes32(h.illuminant[1] as u32) + bytes32(h.illuminant[2] as u32)
        + bytes32(h.creator)
}

/// The 128 header bytes with the given total size.
pub open spec fn header_bytes(h: IccHeader, total: u32) -> Seq<u8> {
    header_part1(h, total) + header_part2(h) + header_part3(h) + header_part4(h) + h.profile_id@ + h.reserved@
}

/// The bytes of a profile whose tags are as given: header (with the total
/// size, data padded to a multiple of 4), tag count, directory, tag data.
pub open spec fn profile_bytes(h: IccHeader, tags: Seq<TagView>) -> Seq<u8> {
    let n = tags.len() as int;
    let (o, s, end) = layout_upto(tags, n);
    let (ro, rs) = resolve_upto(tags, o, s, n);
    header_bytes(h, align4(end) as u32) + bytes32(n as u32) + dir_bytes(tags, ro, rs, n) + data_upto(tags, o, n).0
}

/// Whether the total size of the written profile fits in 32 bits.
pub open spec fn save_fits(tags: Seq<TagView>) -> bool {
    align4(layout_upto(tags, tags.len() as int).2) <= u32::MAX
}

/// Two tag lists that agree on signatures, links and sizes.
pub open spec fn same_shape(a: Seq<TagView>, b: Seq<TagView>) -> bool {
    &&& a.len() == b.len()
    &&& forall|k: int|
        0 <= k < a.len() ==> (#[trigger] a[k]).sig == b[k].sig && a[k].linked == b[k].linked && a[k].size
            == b[k].size
}

proof fn lemma_load_shape(tags: Seq<TagView>, source: Option<Seq<u8>>, i: int)
    requires
        0 <= i,
        sizes_match(tags),
    ensures
        same_shape(load_from(tags, source, i).0, tags),
        sizes_match(load_from(tags, source, i).0),
    decreases tags.len() - i,
{
    if i < tags.len() && !(tags[i].linked is Some || tags[i].data is Some || source is None) {
        let b = source.unwrap();
        let off = tags[i].offset as int;
        let sz = tags[i].size as int;
        if !(off > b.len()) && !(sz > b.len() || off > b.len() - sz) {
            let t2 = tags.update(i, TagView { data: Some(b.subrange(off, off + sz)), ..tags[i] });
            lemma_load_shape(t2, source, i + 1);
        }
    } else if i < tags.len() {
        lemma_load_shape(tags, source, i + 1);
    }
}

proof fn lemma_layout_shape(a: Seq<TagView>, b: Seq<TagView>, k: int)
    requires
        same_shape(a, b),
        0 <= k <= a.len(),
    ensures
        layout_upto(a, k) == layout_upto(b, k),
    decreases k,
{
    if k > 0 {
        lemma_layout_shape(a, b, k - 1);
        assert(a[k - 1].linked == b[k - 1].linked && a[k - 1].size == b[k - 1].size);
    }
}

proof fn lemma_layout_len(tags: Seq<TagView>, k: int)
    requires
        0 <= k <= tags.len(),
    ensures
        layout_upto(tags, k).0.len() == k,
        layout_upto(tags, k).1.len() == k,
        132 + 12 * tags.len() <= layout_upto(tags, k).2,
        forall|m: int| 0 <= m < k ==> 0 <= #[trigger] layout_upto(tags, k).0[m] <= layout_upto(tags, k).2,
        forall|m: int| 0 <= m < k ==> 0 <= #[trigger] layout_upto(tags, k).1[m] <= u32::MAX,
    decreases k,
{
    if k > 0 {
        lemma_layout_len(tags, k - 1);
        let (o, s, c) = layout_upto(tags, k - 1);
        assert(c <= align4(c)) by (nonlinear_arith)
            requires
                c >= 0,
        ;
        if tags[k - 1].linked is None {
            assert forall|m: int| 0 <= m < k implies 0 <= #[trigger] layout_upto(tags, k).0[m] <= layout_upto(tags, k).2 by {
                if m < k - 1 {
                    assert(layout_upto(tags, k).0[m] == o[m]);
                }
            }
            assert forall|m: int| 0 <= m < k implies 0 <= #[trigger] layout_upto(tags, k).1[m] <= u32::MAX by {
                if m < k - 1 {
                    assert(layout_upto(tags, k).1[m] == s[m]);
                }
            }
        } else {
            assert forall|m: int| 0 <= m < k implies 0 <= #[trigger] layout_upto(tags, k).0[m] <= layout_upto(tags, k).2 by {
                if m < k - 1 {
                    assert(layout_upto(tags, k).0[m] == o[m]);
                }
            }
            assert forall|m: int| 0 <= m < k implies 0 <= #[trigger] layout_upto(tags, k).1[m] <= u32::MAX by {
                if m < k - 1 {
                    assert(layout_upto(tags, k).1[m] == s[m]);
                }
            }
        }
    }
}

proof fn lemma_layout_mono(tags: Seq<TagView>, k: int, n: int)
    requires
        0 <= k <= n <= tags.len(),
    ensures
        layout_upto(tags, k).2 <= layout_upto(tags, n).2,
    decreases n - k,
{
    if k < n {
        lemma_layout_mono(tags, k, n - 1);
        lemma_layout_len(tags, n - 1);
        let c = layout_upto(tags, n - 1).2;
        assert(c <= align4(c)) by (nonlinear_arith)
            requires
                c >= 0,
        ;
    }
}

proof fn lemma_resolve_len(tags: Seq<TagView>, o: Seq<int>, s: Seq<int>, k: int, bound: int)
    requires
        0 <= k <= o.len(),
        o.len() == s.len() == tags.len(),
        forall|m: int| 0 <= m < o.len() ==> 0 <= #[trigger] o[m] <= bound,
        forall|m: int| 0 <= m < s.len() ==> 0 <= #[trigger] s[m] <= u32::MAX,
    ensures
        resolve_upto(tags, o, s, k).0.len() == o.len(),
        resolve_upto(tags, o, s, k).1.len() == s.len(),
        forall|m: int| 0 <= m < o.len() ==> 0 <= #[trigger] resolve_upto(tags, o, s, k).0[m] <= bound,
        forall|m: int| 0 <= m < s.len() ==> 0 <= #[trigger] resolve_upto(tags, o, s, k).1[m] <= u32::MAX,
    decreases k,
{
    if k > 0 {
        lemma_resolve_len(tags, o, s, k - 1, bound);
        let (o1, s1) = resolve_upto(tags, o, s, k - 1);
        if let Some(dest) = tags[k - 1].linked {
            lemma_find_tag_from(tags, dest, 0);
            if let Some(j) = find_tag(tags, dest) {
                assert(0 <= o1[j] <= bound);
                assert(0 <= s1[j] <= u32::MAX);
            }
        }
    }
}

impl Profile {
    /// Loads the bytes of every unlinked tag that has none from the source
    /// (see `load_from`).
    fn load_all_tags_for_save(&mut self) -> (r: Result<(), CmsError>)
        requires
            old(self).wf(),
        ensures
            final(self).wf(),
            final(self)@.header == old(self)@.header,
            final(self)@.source == old(self)@.source,
            final(self)@.tags == load_from(old(self)@.tags, old(self)@.source, 0).0,
            match r {
                Ok(_) => load_from(old(self)@.tags, old(self)@.source, 0).1 is None,
                Err(e) => load_from(old(self)@.tags, old(self)@.source, 0).1 == Some(e.code),
            },
    {
        let ghost start = self@;
        let mut i: usize = 0;
        while i < self.tags.len()
            invariant
                self.wf(),
                start == old(self)@,
                self@.header == start.header,
                self@.source == start.source,
                i <= self.tags@.len(),
                load_from(start.tags, start.source, 0) == load_from(self@.tags, self@.source, i as int),
            decreases self.tags@.len() - i,
        {
            proof {
                self.lemma_view_tag(i as int);
            }
            let needs = self.tags[i].linked.is_none() && self.tags[i].data.is_none();
            if needs {
                let offset = self.tags[i].offset;
                let size = self.tags[i].size;
                let ghost before = self@;
                let loaded = match &self.source {
                    None => None,
                    Some(b) => {
                        let len = b.len();
                        if offset as usize > len {
                            return Err(err(ErrorCode::Seek, "Seek error loading tag for save"));
                        }
                        if size as usize > len || offset as usize > len - size as usize {
                            return Err(err(ErrorCode::Read, "Read error"));
                        }
                        Some(copy_range(b.as_slice(), offset as usize, size as usize))
                    },
                };
                match loaded {
                    None => {},
                    Some(buf) => {
                        self.tags[i].data = Some(buf);
                        proof {
                            let b = before.source.unwrap();
                            assert(self@.tags =~= before.tags.update(
                                i as int,
                                TagView { data: Some(b.subrange(offset as int, offset + size)), ..before.tags[i as int] },
                            ));
                            assert forall|a: int, c: int| 0 <= a < c < self@.tags.len() implies self@.tags[a].sig
                                != self@.tags[c].sig by {
                                assert(self@.tags[a].sig == before.tags[a].sig);
                                assert(self@.tags[c].sig == before.tags[c].sig);
                            }
                            assert(sizes_match(self@.tags));
                        }
                    },
                }
            }
            i = i + 1;
        }
        Ok(())
    }
}

fn append_bytes(out: &mut Vec<u8>, b: &[u8])
    ensures
        final(out)@ == old(out)@ + b@,
{
    let ghost start = out@;
    let mut i: usize = 0;
    while i < b.len()
        invariant
            i <= b@.len(),
            out@ == start + b@.subrange(0, i as int),
        decreases b@.len() - i,
    {
        out.push(b[i]);
        i = i + 1;
        assert(out@ =~= start + b@.subrange(0, i as int));
    }
    assert(b@.subrange(0, b@.len() as int) =~= b@);
}

fn write_header_part1(out: &mut Vec<u8>, h: &IccHeader, total: u32)
    ensures
        final(out)@ == old(out)@ + header_part1(*h, total),
{
    let ghost start = out@;
    push_be32(out, total);
    push_be32(out, h.cmm_id);
    push_be32(out, h.version);
    push_be32(out, h.device_class.to_u32());
    push_be32(out, h.color_space.to_u32());
    push_be32(out, h.pcs.to_u32());
    assert(out@ =~= start + header_part1(*h, total));
}

fn write_header_part2(out: &mut Vec<u8>, h: &IccHeader)
    ensures
        final(out)@ == old(out)@ + header_part2(*h),
{
    let ghost start = out@;
    push_be16(out, h.date.year);
    push_be16(out, h.date.month);
    push_be16(out, h.date.day);
    push_be16(out, h.date.hours);
    push_be16(out, h.date.minutes);
    push_be16(out, h.date.seconds);
    assert(out@ =~= start + header_part2(*h));
}

fn write_header_part3(out: &mut Vec<u8>, h: &IccHeader)
    ensures
        final(out)@ == old(out)@ + header_part3(*h),
{
    let ghost start = out@;
    push_be32(out, h.magic);
    push_be32(out, h.platform.to_u32());
    push_be32(out, h.flags);
    push_be32(out, h.manufacturer);
    push_be32(out, h.model);
    push_be64(out, h.attributes);
    push_be32(out, h.rendering_intent);
    assert(out@ =~= start + header_part3(*h));
}

fn write_header_part4(out: &mut Vec<u8>, h: &IccHeader)
    ensures
        final(out)@ == old(out)@ + header_part4(*h),
{
    let ghost start = out@;
    push_be32(out, h.illuminant[0] as u32);
    push_be32(out, h.illuminant[1] as u32);
    push_be32(out, h.illuminant[2] as u32);
    push_be32(out, h.creator);
    assert(out@ =~= start + header_part4(*h));
}

fn write_header_bytes(out: &mut Vec<u8>, h: &IccHeader, total: u32)
    ensures
        final(out)@ == old(out)@ + header_bytes(*h, total),
{
    let ghost start = out@;
    write_header_part1(out, h, total);
    write_header_part2(out, h);
    write_header_part3(out, h);
    write_header_part4(out, h);
    append_bytes(out, &h.profile_id);
    append_bytes(out, &h.reserved);
    assert(out@ =~= start + header_bytes(*h, total));
}

/// The values as integers.
pub open spec fn ints(v: Seq<u32>) -> Seq<int> {
    Seq::new(v.len(), |i: int| v[i] as int)
}

impl Profile {
    /// Offsets and sizes of the tags and the end of their data (see `layout_upto`).
    fn compute_layout(&self) -> (r: (Vec<u32>, Vec<u32>, u32))
        requires
            self.wf(),
            save_fits(self@.tags),
        ensures
            ints(r.0@) == layout_upto(self@.tags, self@.tags.len() as int).0,
            ints(r.1@) == layout_upto(self@.tags, self@.tags.len() as int).1,
            r.2 == layout_upto(self@.tags, self@.tags.len() as int).2,
    {
        let ghost tags = self@.tags;
        let n = self.tags.len();
        proof {
            lemma_layout_len(tags, n as int);
        }
        let mut offs: Vec<u32> = Vec::new();
        let mut sizes: Vec<u32> = Vec::new();
        let mut cur: u32 = (132 + 12 * n) as u32;
        let mut i: usize = 0;
        assert(ints(offs@) =~= Seq::<int>::empty());
        assert(ints(sizes@) =~= Seq::<int>::empty());
        while i < n
            invariant
                n == self.tags@.len() == tags.len() <= 100,
                tags == self@.tags,
                save_fits(tags),
                i <= n,
                ints(offs@) == layout_upto(tags, i as int).0,
                ints(sizes@) == layout_upto(tags, i as int).1,
                cur == layout_upto(tags, i as int).2,
            decreases n - i,
        {
            proof {
                self.lemma_view_tag(i as int);
                lemma_layout_mono(tags, i + 1, n as int);
                lemma_layout_len(tags, i as int);
            }
            if self.tags[i].linked.is_some() {
                offs.push(0);
                sizes.push(0);
            } else {
                let a = (cur + 3) / 4 * 4;
                let sz = self.tags[i].size;
                offs.push(a);
                sizes.push(sz);
                cur = a + sz;
            }
            i = i + 1;
            assert(ints(offs@) =~= layout_upto(tags, i as int).0);
            assert(ints(sizes@) =~= layout_upto(tags, i as int).1);
        }
        (offs, sizes, cur)
    }

    /// The offsets and sizes with links resolved (see `resolve_upto`).
    fn resolve_links(&self, offs: &Vec<u32>, sizes: &Vec<u32>) -> (r: (Vec<u32>, Vec<u32>))
        requires
            offs@.len() == self@.tags.len(),
            sizes@.len() == self@.tags.len(),
        ensures
            r.0@.len() == offs@.len(),
            r.1@.len() == sizes@.len(),
            ints(r.0@) == resolve_upto(self@.tags, ints(offs@), ints(sizes@), self@.tags.len() as int).0,
            ints(r.1@) == resolve_upto(self@.tags, ints(offs@), ints(sizes@), self@.tags.len() as int).1,
    {
        let ghost tags = self@.tags;
        let ghost o0 = ints(offs@);
        let ghost s0 = ints(sizes@);
        let n = self.tags.len();
        let mut ro = offs.clone();
        let mut rs = sizes.clone();
        assert(ro@ =~= offs@);
        assert(rs@ =~= sizes@);
        let mut k: usize = 0;
        while k < n
            invariant
                n == self.tags@.len() == tags.len(),
                tags == self@.tags,
                o0 == ints(offs@),
                s0 == ints(sizes@),
                o0.len() == n,
                s0.len() == n,
                k <= n,
                ro@.len() == n,
                rs@.len() == n,
                ints(ro@) == resolve_upto(tags, o0, s0, k as int).0,
                ints(rs@) == resolve_upto(tags, o0, s0, k as int).1,
            decreases n - k,
        {
            proof {
                self.lemma_view_tag(k as int);
            }
            match self.tags[k].linked {
                Some(dest) => match self.search_tag(dest) {
                    Some(j) => {
                        let v = ro[j];
                        let w = rs[j];
                        ro.set(k, v);
                        rs.set(k, w);
                    },
                    None => {},
                },
                None => {},
            }
            k = k + 1;
            assert(ints(ro@) =~= resolve_upto(tags, o0, s0, k as int).0);
            assert(ints(rs@) =~= resolve_upto(tags, o0, s0, k as int).1);
        }
        (ro, rs)
    }

    /// Appends the directory entries.
    fn write_dir(&self, out: &mut Vec<u8>, ro: &Vec<u32>, rs: &Vec<u32>)
        requires
            ro@.len() == self@.tags.len(),
            rs@.len() == self@.tags.len(),
        ensures
            final(out)@ == old(out)@ + dir_bytes(self@.tags, ints(ro@), ints(rs@), self@.tags.len() as int),
    {
        let ghost tags = self@.tags;
        let ghost head = out@;
        let n = self.tags.len();
        let mut d: usize = 0;
        while d < n
            invariant
                n == self.tags@.len() == tags.len(),
                tags == self@.tags,
                d <= n,
                ro@.len() == n,
                rs@.len() == n,
                out@ == head + dir_bytes(tags, ints(ro@), ints(rs@), d as int),
            decreases n - d,
        {
            proof {
                self.lemma_view_tag(d as int);
            }
            push_be32(out, self.tags[d].sig.to_u32());
            push_be32(out, ro[d]);
            push_be32(out, rs[d]);
            d = d + 1;
            assert(out@ =~= head + dir_bytes(tags, ints(ro@), ints(rs@), d as int));
        }
    }

    /// Appends the tags' data, each at its offset (see `data_upto`).
    fn write_data(&self, out: &mut Vec<u8>, offs: &Vec<u32>)
        requires
            offs@.len() == self@.tags.len(),
            old(out)@.len() == 132 + 12 * self@.tags.len(),
        ensures
            final(out)@ == old(out)@ + data_upto(self@.tags, ints(offs@), self@.tags.len() as int).0,
    {
        let ghost tags = self@.tags;
        let ghost o0 = ints(offs@);
        let ghost front = out@;
        let n = self.tags.len();
        let mut t: usize = 0;
        assert(front + data_upto(tags, o0, 0).0 =~= front);
        while t < n
            invariant
                n == self.tags@.len() == tags.len(),
                tags == self@.tags,
                o0 == ints(offs@),
                offs@.len() == n,
                t <= n,
                front.len() == 132 + 12 * n,
                out@ == front + data_upto(tags, o0, t as int).0,
                out@.len() == data_upto(tags, o0, t as int).1,
            decreases n - t,
        {
            proof {
                self.lemma_view_tag(t as int);
            }
            if self.tags[t].linked.is_none() {
                let target = offs[t] as usize;
                let ghost before = out@;
                let ghost p = out@.len() as int;
                let pad_start = out.len();
                while out.len() < target
                    invariant
                        pad_start <= out@.len() <= target || (pad_start >= target && out@.len() == pad_start),
                        out@ == before + zeros(out@.len() - pad_start),
                        pad_start == before.len(),
                    decreases target - out@.len(),
                {
                    out.push(0u8);
                    assert(out@ =~= before + zeros(out@.len() - pad_start));
                }
                let ghost padded = out@;
                match &self.tags[t].data {
                    Some(bytes) => append_bytes(out, bytes.as_slice()),
                    None => {},
                }
                proof {
                    let pad = if p < o0[t as int] {
                        o0[t as int] - p
                    } else {
                        0
                    };
                    assert(padded.len() == p + pad);
                    assert(padded =~= before + zeros(pad));
                }
            }
            t = t + 1;
            assert(out@ =~= front + data_upto(tags, o0, t as int).0);
        }
    }

    /// The bytes of the profile after loading its tags' bytes (see
    /// `load_from` and `profile_bytes`); fails when a tag cannot be loaded.
    pub fn save_to_mem(&mut self) -> (r: Result<Vec<u8>, CmsError>)
        requires
            old(self).wf(),
            save_fits(old(self)@.tags),
        ensures
            final(self).wf(),
            final(self)@.header == old(self)@.header,
            final(self)@.source == old(self)@.source,
            final(self)@.tags == load_from(old(self)@.tags, old(self)@.source, 0).0,
            match r {
                Ok(bytes) => load_from(old(self)@.tags, old(self)@.source, 0).1 is None && bytes@
                    == profile_bytes(final(self)@.header, final(self)@.tags),
                Err(e) => load_from(old(self)@.tags, old(self)@.source, 0).1 == Some(e.code),
            },
    {
        let ghost start = self@;
        match self.load_all_tags_for_save() {
            Ok(_) => {},
            Err(e) => return Err(e),
        }
        proof {
            lemma_load_shape(start.tags, start.source, 0);
            lemma_layout_shape(self@.tags, start.tags, self@.tags.len() as int);
        }
        let ghost tags = self@.tags;
        let n = self.tags.len();
        let (offs, sizes, cur) = self.compute_layout();
        proof {
            lemma_layout_len(tags, n as int);
        }
        assert(offs@.len() == n && sizes@.len() == n);
        let total = (cur + 3) / 4 * 4;
        let (ro, rs) = self.resolve_links(&offs, &sizes);
        let mut out: Vec<u8> = Vec::new();
        write_header_bytes(&mut out, &self.header, total);
        let ghost hb = out@;
        push_be32(&mut out, n as u32);
        let ghost hc = out@;
        self.write_dir(&mut out, &ro, &rs);
        let ghost hd = out@;
        proof {
            lemma_dir_len(tags, ints(ro@), ints(rs@), n as int);
            lemma_header_len(self@.header, total);
        }
        self.write_data(&mut out, &offs);
        proof {
            let l = layout_upto(tags, n as int);
            let rsv = resolve_upto(tags, l.0, l.1, n as int);
            assert(hb == header_bytes(self@.header, align4(l.2) as u32));
            assert(hc == hb + bytes32(n as u32));
            assert(hd == hc + dir_bytes(tags, rsv.0, rsv.1, n as int));
            assert(out@ == hd + data_upto(tags, l.0, n as int).0);
            assert(profile_bytes(self@.header, tags) == hb + bytes32(n as u32) + dir_bytes(tags, rsv.0, rsv.1, n as int)
                + data_upto(tags, l.0, n as int).0);
        }
        Ok(out)
    }
}

#[verifier::spinoff_prover]
proof fn lemma_header_len(h: IccHeader, total: u32)
    ensures
        header_bytes(h, total).len() == 128,
{
    assert(header_part1(h, total).len() == 24);
    assert(header_part2(h).len() == 12);
    assert(bytes64(h.attributes).len() == 8);
    assert(header_part3(h).len() == 32);
    assert(header_part4(h).len() == 16);
    assert(h.profile_id@.len() == 16);
    assert(h.reserved@.len() == 28);
}

/// The first `k` directory entries take 12 bytes each.
pub proof fn lemma_dir_len_pub(tags: Seq<TagView>, o: Seq<int>, s: Seq<int>, k: int)
    requires
        0 <= k,
    ensures
        dir_bytes(tags, o, s, k).len() == 12 * k,
{
    lemma_dir_len(tags, o, s, k);
}

proof fn lemma_dir_len(tags: Seq<TagView>, o: Seq<int>, s: Seq<int>, k: int)
    requires
        0 <= k,
    ensures
        dir_bytes(tags, o, s, k).len() == 12 * k,
    decreases k,
{
    if k > 0 {
        lemma_dir_len(tags, o, s, k - 1);
    }
}

proof fn lemma_find_same_sigs(a: Seq<TagView>, b: Seq<TagView>, sig: TagSignature, i: int)
    requires
        a.len() == b.len(),
        forall|k: int| 0 <= k < a.len() ==> (#[trigger] a[k]).sig == b[k].sig,
    ensures
        find_tag_from(a, sig, i) == find_tag_from(b, sig, i),
    decreases a.len() - i,
{
    if 0 <= i < a.len() {
        assert(a[i].sig == b[i].sig);
        lemma_find_same_sigs(a, b, sig, i + 1);
    }
}

/// Reading a tag back right after writing it gives the bytes written.
pub proof fn law_write_then_read_raw(v: ProfileView, sig: TagSignature, d: Seq<u8>)
    requires
        tags_after_write(v.tags, sig, d) is Ok,
    ensures
        raw_tag_read(ProfileView { tags: tags_after_write(v.tags, sig, d).unwrap(), ..v }, sig).0 == Ok::<
            Seq<u8>,
            ErrorCode,
        >(d),
{
    let t2 = tags_after_write(v.tags, sig, d).unwrap();
    lemma_find_tag_from(v.tags, sig, 0);
    match find_tag(v.tags, sig) {
        Some(i) => {
            lemma_find_same_sigs(v.tags, t2, sig, 0);
            assert(find_tag(t2, sig) == Some(i));
        },
        None => {
            lemma_find_tag_from(t2, sig, 0);
            assert(t2[v.tags.len() as int].sig == sig);
            assert(find_tag(t2, sig) == Some(v.tags.len() as int)) by {
                lemma_find_prefix_none(t2, sig, 0, v.tags.len() as int);
            }
        },
    }
    assert(follow_links(t2, sig, 100) == follow_links(t2, sig, 100));
}

proof fn lemma_find_prefix_none(t: Seq<TagView>, sig: TagSignature, i: int, n: int)
    requires
        0 <= i <= n < t.len(),
        t[n].sig == sig,
        forall|j: int| i <= j < n ==> t[j].sig != sig,
    ensures
        find_tag_from(t, sig, i) == Some(n),
    decreases n - i,
{
    if i < n {
        lemma_find_prefix_none(t, sig, i + 1, n);
    }
}

/// Every known tag signature reads back as the same tag.
pub proof fn law_tag_signature_round_trip(s: TagSignature)
    ensures
        tag_signature_of(tag_signature_value(s)) == Some(s),
{
    reveal(tag_signature_of);
    reveal(tag_signature_value);
}


/// `base_to_base(n, base_in, base_out)` when its value fits in 32 bits.
pub fn base_to_base_checked(n: u32, base_in: u32, base_out: u32) -> (r: Option<u32>)
    requires
        n == 0 || base_in >= 2,
    ensures
        match r {
            Some(v) => v == spec_base_to_base(n as nat, base_in as nat, base_out as nat),
            None => spec_base_to_base(n as nat, base_in as nat, base_out as nat) > u32::MAX,
        },
    decreases n,
{
    if n == 0 {
        return Some(0);
    }
    let q = n / base_in;
    let d = n % base_in;
    proof {
        assert(q < n) by (nonlinear_arith)
            requires
                base_in >= 2,
                n > 0,
                q == n / base_in,
        ;
    }
    match base_to_base_checked(q, base_in, base_out) {
        None => {
            proof {
                let pq = spec_base_to_base(q as nat, base_in as nat, base_out as nat);
                if base_out == 0 {
                    if q > 0 {
                        assert(pq == spec_base_to_base((q / base_in) as nat, base_in as nat, base_out as nat) * 0 + q % base_in);
                    }
                    assert(pq <= u32::MAX);
                } else {
                    assert(pq <= pq * base_out) by (nonlinear_arith)
                        requires
                            base_out >= 1,
                    ;
                }
            }
            None
        },
        Some(prefix) => match prefix.checked_mul(base_out) {
            None => None,
            Some(m) => m.checked_add(d),
        },
    }
}

impl Profile {
    /// Whether the written profile's total size fits in 32 bits (see `save_fits`).
    pub fn can_save(&self) -> (r: bool)
        requires
            self.wf(),
        ensures
            r == save_fits(self@.tags),
    {
        let ghost tags = self@.tags;
        let n = self.tags.len();
        proof {
            lemma_layout_len(tags, n as int);
        }
        let mut cur: u64 = (132 + 12 * n) as u64;
        let mut i: usize = 0;
        while i < n
            invariant
                n == self.tags@.len() == tags.len() <= 100,
                tags == self@.tags,
                i <= n,
                cur == layout_upto(tags, i as int).2,
                cur <= 132 + 12 * n + i * 0x1_0000_0003,
            decreases n - i,
        {
            proof {
                self.lemma_view_tag(i as int);
            }
            if self.tags[i].linked.is_none() {
                let a = (cur + 3) / 4 * 4;
                cur = a + self.tags[i].size as u64;
            }
            i = i + 1;
        }
        (cur + 3) / 4 * 4 <= 0xffff_ffff
    }
}

// ---------------------------------------------------------------------------
// What a profile implements
// ---------------------------------------------------------------------------

/// How a profile is to be used in a transform.
#[derive(Debug, Clone, Copy, PartialEq, Eq)]
pub enum UsedDirection {
    AsInput,
    AsOutput,
    AsProof,
}

/// The profile has a tag with signature `s`.
pub open spec fn has_sig(p: ProfileView, s: TagSignature) -> bool {
    find_tag(p.tags, s) is Some
}

/// Gray profiles with a gray curve, and RGB profiles with the three matrix
/// columns and the three curves, are matrix-shapers.
pub open spec fn spec_is_matrix_shaper(p: ProfileView) -> bool {
    match p.header.color_space {
        ColorSpaceSignature::GrayData => has_sig(p, TagSignature::GrayTRC),
        ColorSpaceSignature::RgbData => {
            &&& has_sig(p, TagSignature::RedMatrixColumn)
            &&& has_sig(p, TagSignature::GreenMatrixColumn)
            &&& has_sig(p, TagSignature::BlueMatrixColumn)
            &&& has_sig(p, TagSignature::RedTRC)
            &&& has_sig(p, TagSignature::GreenTRC)
            &&& has_sig(p, TagSignature::BlueTRC)
        },
        _ => false,
    }
}

/// The device-to-PCS table of a rendering intent (absolute colorimetric
/// shares the relative one's).
pub open spec fn device2pcs16(intent: int) -> TagSignature {
    if intent == 0 {
        TagSignature::AToB0
    } else if intent == 2 {
        TagSignature::AToB2
    } else {
        TagSignature::AToB1
    }
}

/// The PCS-to-device table of a rendering intent.
pub open spec fn pcs2device16(intent: int) -> TagSignature {
    if intent == 0 {
        TagSignature::BToA0
    } else if intent == 2 {
        TagSignature::BToA2
    } else {
        TagSignature::BToA1
    }
}

/// The table for `intent` (0 to 3) in the given direction is present.
pub open spec fn clut_for(p: ProfileView, intent: int, input: bool) -> bool {
    0 <= intent <= 3 && has_sig(
        p,
        if input {
            device2pcs16(intent)
        } else {
            pcs2device16(intent)
        },
    )
}

/// Whether `intent` is implemented as a table: a device link implements
/// exactly its own intent; otherwise the intent's table in that direction
/// must be present, and as a proof the intent must be supported as input
/// and relative colorimetric as output.
pub open spec fn spec_is_clut(p: ProfileView, intent: u32, d: UsedDirection) -> bool {
    if p.header.device_class == ProfileClassSignature::Link {
        p.header.rendering_intent == intent
    } else {
        match d {
            UsedDirection::AsInput => clut_for(p, intent as int, true),
            UsedDirection::AsOutput => clut_for(p, intent as int, false),
            UsedDirection::AsProof => (clut_for(p, intent as int, true) || spec_is_matrix_shaper(p))
                && (clut_for(p, 1, false) || spec_is_matrix_shaper(p)),
        }
    }
}

/// Whether `intent` is supported: as a table or by a matrix-shaper.
pub open spec fn spec_is_intent_supported(p: ProfileView, intent: u32, d: UsedDirection) -> bool {
    spec_is_clut(p, intent, d) || spec_is_matrix_shaper(p)
}

impl Profile {
    /// Whether the profile is a matrix-shaper (see `spec_is_matrix_shaper`).
    pub fn is_matrix_shaper(&self) -> (r: bool)
        ensures
            r == spec_is_matrix_shaper(self@),
    {
        match self.header.color_space {
            ColorSpaceSignature::GrayData => self.has_tag(TagSignature::GrayTRC),
            ColorSpaceSignature::RgbData => {
                self.has_tag(TagSignature::RedMatrixColumn) && self.has_tag(
                    TagSignature::GreenMatrixColumn,
                ) && self.has_tag(TagSignature::BlueMatrixColumn) && self.has_tag(
                    TagSignature::RedTRC,
                ) && self.has_tag(TagSignature::GreenTRC) && self.has_tag(TagSignature::BlueTRC)
            },
            _ => false,
        }
    }

    /// Whether the table for `intent` in a direction is present.
    fn clut_present(&self, intent: u32, input: bool) -> (r: bool)
        ensures
            r == clut_for(self@, intent as int, input),
    {
        if intent > 3 {
            return false;
        }
        let sig = if input {
            if intent == 0 {
                TagSignature::AToB0
            } else if intent == 2 {
                TagSignature::AToB2
            } else {
                TagSignature::AToB1
            }
        } else {
            if intent == 0 {
                TagSignature::BToA0
            } else if intent == 2 {
                TagSignature::BToA2
            } else {
                TagSignature::BToA1
            }
        };
        self.has_tag(sig)
    }

    /// Whether a rendering intent is implemented as a table (see
    /// `spec_is_clut`).
    pub fn is_clut(&self, intent: u32, direction: UsedDirection) -> (r: bool)
        ensures
            r == spec_is_clut(self@, intent, direction),
    {
        match self.header.device_class {
            ProfileClassSignature::Link => {
                return self.header.rendering_intent == intent;
            },
            _ => {},
        }
        match direction {
            UsedDirection::AsInput => self.clut_present(intent, true),
            UsedDirection::AsOutput => self.clut_present(intent, false),
            UsedDirection::AsProof => {
                (self.clut_present(intent, true) || self.is_matrix_shaper()) && (self.clut_present(
                    1,
                    false,
                ) || self.is_matrix_shaper())
            },
        }
    }

    /// Whether a rendering intent is supported, as a table or by a
    /// matrix-shaper.
    pub fn is_intent_supported(&self, intent: u32, direction: UsedDirection) -> (r: bool)
        ensures
            r == spec_is_intent_supported(self@, intent, direction),
    {
        if self.is_clut(intent, direction) {
            return true;
        }
        self.is_matrix_shaper()
    }
}

/// The type a tag's data declares: its first four bytes, when there are
/// four and they name a known type.
pub open spec fn declared_type(d: Seq<u8>) -> Option<TagTypeSignature> {
    if d.len() >= 4 {
        tag_type_of(be32(d, 0))
    } else {
        None
    }
}

impl Profile {
    /// The type tag `sig` declares, reading its raw bytes (and keeping them,
    /// as `read_raw_tag` does): `None` when it cannot be read, is shorter
    /// than four bytes, or names no known type.
    pub fn tag_true_type(&mut self, sig: TagSignature) -> (r: Option<TagTypeSignature>)
        requires
            old(self).wf(),
        ensures
            final(self).wf(),
            final(self)@.header == old(self)@.header,
            final(self)@.source == old(self)@.source,
            final(self)@.tags == raw_tag_read(old(self)@, sig).1,
            r == match raw_tag_read(old(self)@, sig).0 {
                Ok(d) => declared_type(d),
                Err(_) => None,
            },
    {
        match self.read_raw_tag(sig) {
            Ok(d) => {
                if d.len() < 4 {
                    None
                } else {
                    TagTypeSignature::from_u32(read_be32(d.as_slice(), 0))
                }
            },
            Err(_) => None,
        }
    }
}

} // verus!
