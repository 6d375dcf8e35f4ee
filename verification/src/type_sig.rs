//! Signatures of the tag types: the four bytes that open each tag's data.
use vstd::prelude::*;

verus! {

/// The type of a tag's data, named by its four-byte signature.
#[derive(Debug, Clone, Copy, PartialEq, Eq)]
pub enum TagTypeSignature {
    Chromaticity,
    Cicp,
    ColorantOrder,
    ColorantTable,
    CrdInfo,
    Curve,
    Data,
    Dict,
    DateTime,
    DeviceSettings,
    Lut16,
    Lut8,
    LutAtoB,
    LutBtoA,
    Measurement,
    MultiLocalizedUnicode,
    MultiProcessElement,
    NamedColor,
    NamedColor2,
    ParametricCurve,
    ProfileSequenceDesc,
    ProfileSequenceId,
    ResponseCurveSet16,
    S15Fixed16Array,
    Screening,
    Signature,
    Text,
    TextDescription,
    U16Fixed16Array,
    UcrBg,
    UInt16Array,
    UInt32Array,
    UInt64Array,
    UInt8Array,
    Vcgt,
    ViewingConditions,
    Xyz,
    Mhc2,
}

/// The four-byte signature of each tag type.
#[verifier::opaque]
pub open spec fn tag_type_value(t: TagTypeSignature) -> u32 {
    match t {
        TagTypeSignature::Chromaticity => 0x6368726D,
        TagTypeSignature::Cicp => 0x63696370,
        TagTypeSignature::ColorantOrder => 0x636C726F,
        TagTypeSignature::ColorantTable => 0x636C7274,
        TagTypeSignature::CrdInfo => 0x63726469,
        TagTypeSignature::Curve => 0x63757276,
        TagTypeSignature::Data => 0x64617461,
        TagTypeSignature::Dict => 0x64696374,
        TagTypeSignature::DateTime => 0x6474696D,
        TagTypeSignature::DeviceSettings => 0x64657673,
        TagTypeSignature::Lut16 => 0x6D667432,
        TagTypeSignature::Lut8 => 0x6D667431,
        TagTypeSignature::LutAtoB => 0x6D414220,
        TagTypeSignature::LutBtoA => 0x6D424120,
        TagTypeSignature::Measurement => 0x6D656173,
        TagTypeSignature::MultiLocalizedUnicode => 0x6D6C7563,
        TagTypeSignature::MultiProcessElement => 0x6D706574,
        TagTypeSignature::NamedColor => 0x6E636F6C,
        TagTypeSignature::NamedColor2 => 0x6E636C32,
        TagTypeSignature::ParametricCurve => 0x70617261,
        TagTypeSignature::ProfileSequenceDesc => 0x70736571,
        TagTypeSignature::ProfileSequenceId => 0x70736964,
        TagTypeSignature::ResponseCurveSet16 => 0x72637332,
        TagTypeSignature::S15Fixed16Array => 0x73663332,
        TagTypeSignature::Screening => 0x7363726E,
        TagTypeSignature::Signature => 0x73696720,
        TagTypeSignature::Text => 0x74657874,
        TagTypeSignature::TextDescription => 0x64657363,
        TagTypeSignature::U16Fixed16Array => 0x75663332,
        TagTypeSignature::UcrBg => 0x62666420,
        TagTypeSignature::UInt16Array => 0x75693136,
        TagTypeSignature::UInt32Array => 0x75693332,
        TagTypeSignature::UInt64Array => 0x75693634,
        TagTypeSignature::UInt8Array => 0x75693038,
        TagTypeSignature::Vcgt => 0x76636774,
        TagTypeSignature::ViewingConditions => 0x76696577,
        TagTypeSignature::Xyz => 0x58595A20,
        TagTypeSignature::Mhc2 => 0x4D484332,
    }
}

/// The tag type with signature `v`, if it is a known one.
#[verifier::opaque]
pub open spec fn tag_type_of(v: u32) -> Option<TagTypeSignature> {
    match v {
        0x6368726D => Some(TagTypeSignature::Chromaticity),
        0x63696370 => Some(TagTypeSignature::Cicp),
        0x636C726F => Some(TagTypeSignature::ColorantOrder),
        0x636C7274 => Some(TagTypeSignature::ColorantTable),
        0x63726469 => Some(TagTypeSignature::CrdInfo),
        0x63757276 => Some(TagTypeSignature::Curve),
        0x64617461 => Some(TagTypeSignature::Data),
        0x64696374 => Some(TagTypeSignature::Dict),
        0x6474696D => Some(TagTypeSignature::DateTime),
        0x64657673 => Some(TagTypeSignature::DeviceSettings),
        0x6D667432 => Some(TagTypeSignature::Lut16),
        0x6D667431 => Some(TagTypeSignature::Lut8),
        0x6D414220 => Some(TagTypeSignature::LutAtoB),
        0x6D424120 => Some(TagTypeSignature::LutBtoA),
        0x6D656173 => Some(TagTypeSignature::Measurement),
        0x6D6C7563 => Some(TagTypeSignature::MultiLocalizedUnicode),
        0x6D706574 => Some(TagTypeSignature::MultiProcessElement),
        0x6E636F6C => Some(TagTypeSignature::NamedColor),
        0x6E636C32 => Some(TagTypeSignature::NamedColor2),
        0x70617261 => Some(TagTypeSignature::ParametricCurve),
        0x70736571 => Some(TagTypeSignature::ProfileSequenceDesc),
        0x70736964 => Some(TagTypeSignature::ProfileSequenceId),
        0x72637332 => Some(TagTypeSignature::ResponseCurveSet16),
        0x73663332 => Some(TagTypeSignature::S15Fixed16Array),
        0x7363726E => Some(TagTypeSignature::Screening),
        0x73696720 => Some(TagTypeSignature::Signature),
        0x74657874 => Some(TagTypeSignature::Text),
        0x64657363 => Some(TagTypeSignature::TextDescription),
        0x75663332 => Some(TagTypeSignature::U16Fixed16Array),
        0x62666420 => Some(TagTypeSignature::UcrBg),
        0x75693136 => Some(TagTypeSignature::UInt16Array),
        0x75693332 => Some(TagTypeSignature::UInt32Array),
        0x75693634 => Some(TagTypeSignature::UInt64Array),
        0x75693038 => Some(TagTypeSignature::UInt8Array),
        0x76636774 => Some(TagTypeSignature::Vcgt),
        0x76696577 => Some(TagTypeSignature::ViewingConditions),
        0x58595A20 => Some(TagTypeSignature::Xyz),
        0x4D484332 => Some(TagTypeSignature::Mhc2),
        _ => None,
    }
}

impl TagTypeSignature {
    /// The four-byte signature.
    pub fn to_u32(self) -> (r: u32)
        ensures
            r == tag_type_value(self),
    {
        proof {
            reveal(tag_type_value);
        }
        match self {
            TagTypeSignature::Chromaticity => 0x6368726D,
            TagTypeSignature::Cicp => 0x63696370,
            TagTypeSignature::ColorantOrder => 0x636C726F,
            TagTypeSignature::ColorantTable => 0x636C7274,
            TagTypeSignature::CrdInfo => 0x63726469,
            TagTypeSignature::Curve => 0x63757276,
            TagTypeSignature::Data => 0x64617461,
            TagTypeSignature::Dict => 0x64696374,
            TagTypeSignature::DateTime => 0x6474696D,
            TagTypeSignature::DeviceSettings => 0x64657673,
            TagTypeSignature::Lut16 => 0x6D667432,
            TagTypeSignature::Lut8 => 0x6D667431,
            TagTypeSignature::LutAtoB => 0x6D414220,
            TagTypeSignature::LutBtoA => 0x6D424120,
            TagTypeSignature::Measurement => 0x6D656173,
            TagTypeSignature::MultiLocalizedUnicode => 0x6D6C7563,
            TagTypeSignature::MultiProcessElement => 0x6D706574,
            TagTypeSignature::NamedColor => 0x6E636F6C,
            TagTypeSignature::NamedColor2 => 0x6E636C32,
            TagTypeSignature::ParametricCurve => 0x70617261,
            TagTypeSignature::ProfileSequenceDesc => 0x70736571,
            TagTypeSignature::ProfileSequenceId => 0x70736964,
            TagTypeSignature::ResponseCurveSet16 => 0x72637332,
            TagTypeSignature::S15Fixed16Array => 0x73663332,
            TagTypeSignature::Screening => 0x7363726E,
            TagTypeSignature::Signature => 0x73696720,
            TagTypeSignature::Text => 0x74657874,
            TagTypeSignature::TextDescription => 0x64657363,
            TagTypeSignature::U16Fixed16Array => 0x75663332,
            TagTypeSignature::UcrBg => 0x62666420,
            TagTypeSignature::UInt16Array => 0x75693136,
            TagTypeSignature::UInt32Array => 0x75693332,
            TagTypeSignature::UInt64Array => 0x75693634,
            TagTypeSignature::UInt8Array => 0x75693038,
            TagTypeSignature::Vcgt => 0x76636774,
            TagTypeSignature::ViewingConditions => 0x76696577,
            TagTypeSignature::Xyz => 0x58595A20,
            TagTypeSignature::Mhc2 => 0x4D484332,
        }
    }

    /// The tag type with signature `v`, if it is a known one.
    pub fn from_u32(v: u32) -> (r: Option<TagTypeSignature>)
        ensures
            r == tag_type_of(v),
    {
        proof {
            reveal(tag_type_of);
        }
        match v {
            0x6368726D => Some(TagTypeSignature::Chromaticity),
            0x63696370 => Some(TagTypeSignature::Cicp),
            0x636C726F => Some(TagTypeSignature::ColorantOrder),
            0x636C7274 => Some(TagTypeSignature::ColorantTable),
            0x63726469 => Some(TagTypeSignature::CrdInfo),
            0x63757276 => Some(TagTypeSignature::Curve),
            0x64617461 => Some(TagTypeSignature::Data),
            0x64696374 => Some(TagTypeSignature::Dict),
            0x6474696D => Some(TagTypeSignature::DateTime),
            0x64657673 => Some(TagTypeSignature::DeviceSettings),
            0x6D667432 => Some(TagTypeSignature::Lut16),
            0x6D667431 => Some(TagTypeSignature::Lut8),
            0x6D414220 => Some(TagTypeSignature::LutAtoB),
            0x6D424120 => Some(TagTypeSignature::LutBtoA),
            0x6D656173 => Some(TagTypeSignature::Measurement),
            0x6D6C7563 => Some(TagTypeSignature::MultiLocalizedUnicode),
            0x6D706574 => Some(TagTypeSignature::MultiProcessElement),
            0x6E636F6C => Some(TagTypeSignature::NamedColor),
            0x6E636C32 => Some(TagTypeSignature::NamedColor2),
            0x70617261 => Some(TagTypeSignature::ParametricCurve),
            0x70736571 => Some(TagTypeSignature::ProfileSequenceDesc),
            0x70736964 => Some(TagTypeSignature::ProfileSequenceId),
            0x72637332 => Some(TagTypeSignature::ResponseCurveSet16),
            0x73663332 => Some(TagTypeSignature::S15Fixed16Array),
            0x7363726E => Some(TagTypeSignature::Screening),
            0x73696720 => Some(TagTypeSignature::Signature),
            0x74657874 => Some(TagTypeSignature::Text),
            0x64657363 => Some(TagTypeSignature::TextDescription),
            0x75663332 => Some(TagTypeSignature::U16Fixed16Array),
            0x62666420 => Some(TagTypeSignature::UcrBg),
            0x75693136 => Some(TagTypeSignature::UInt16Array),
            0x75693332 => Some(TagTypeSignature::UInt32Array),
            0x75693634 => Some(TagTypeSignature::UInt64Array),
            0x75693038 => Some(TagTypeSignature::UInt8Array),
            0x76636774 => Some(TagTypeSignature::Vcgt),
            0x76696577 => Some(TagTypeSignature::ViewingConditions),
            0x58595A20 => Some(TagTypeSignature::Xyz),
            0x4D484332 => Some(TagTypeSignature::Mhc2),
            _ => None,
        }
    }
}

/// Each tag type's signature reads back as that tag type.
pub proof fn law_tag_type_round_trip(t: TagTypeSignature)
    ensures
        tag_type_of(tag_type_value(t)) == Some(t),
{
    reveal(tag_type_value);
    reveal(tag_type_of);
}

} // verus!
