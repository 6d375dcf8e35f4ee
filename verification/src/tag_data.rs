//! A tag's data of any kind that the library writes, and the writer that
//! picks the tag type to store it as.
use vstd::prelude::*;
use crate::error::{CmsError, ErrorCode};
use crate::lut::{Lut, lut16_bytes, lut8_bytes, write_lut16_type, write_lut8_type};
use crate::named::{Dict, Mlu};
use crate::profile::{DateTimeNumber, Profile, TagSignature, bytes32, err, push_be32, tags_after_write};
use crate::tag_arrays::{
    IccData, MAX_CHANNELS, VideoSignalType, bytes16_all, bytes32_all, bytes64_all, datetime_bytes,
    write_colorant_order_type, write_data_type, write_datetime_type, write_signature_type,
    write_uint16_type, write_uint32_type, write_uint64_type, write_uint8_type,
    write_video_signal_type,
};
use crate::tag_types::{dict_type_bytes, mlu_type_bytes, write_dict_type, write_mlu_type};
use crate::type_sig::{TagTypeSignature, tag_type_value};
use crate::vcgt::{Vcgt, vcgt_bytes, write_vcgt_type};
use crate::lut_atob::LutAtoB;
use crate::named_color::{NamedColorList, ncl2_bytes, write_named_color_type};
use crate::pseq::{SeqEntry, entries_view, entries_writable, pseq_bytes, write_profile_sequence_desc_type};
use crate::lut_v4_write::{
    atob_bytes, btoa_bytes, lut_as_v4, lut_v4_view, write_lut_atob_type, write_lut_btoa_type,
};

verus! {

/// A tag's data.
pub enum TagData {
    Mlu(Mlu),
    Signature(u32),
    DateTime(DateTimeNumber),
    ColorantOrder(Vec<u8>),
    Data(IccData),
    VideoSignal(VideoSignalType),
    Vcgt(Vcgt),
    Dict(Dict),
    /// A lookup table, with whether it is to be stored with 8-bit samples.
    Pipeline(Lut, bool),
    /// A lookup table of the version 4 kind: curves, lookup table, matrix.
    LutV4(LutAtoB),
    NamedColor(NamedColorList),
    ProfileSequenceDesc(Vec<SeqEntry>),
    UInt8Array(Vec<u8>),
    UInt16Array(Vec<u16>),
    UInt32Array(Vec<u32>),
    UInt64Array(Vec<u64>),
    /// Bytes of no known type.
    Raw(Vec<u8>),
}

/// The version from which lookup tables of the device-to-PCS and PCS-to-device
/// tags are stored as lutAtoB and lutBtoA.
pub open spec fn is_v4(icc_version: u32) -> bool {
    icc_version >= 0x0400_0000
}

/// The tags that hold a device-to-PCS table.
pub open spec fn is_atob(sig: TagSignature) -> bool {
    sig == TagSignature::AToB0 || sig == TagSignature::AToB1 || sig == TagSignature::AToB2
}

/// The tags that hold a PCS-to-device table.
pub open spec fn is_btoa(sig: TagSignature) -> bool {
    sig == TagSignature::BToA0 || sig == TagSignature::BToA1 || sig == TagSignature::BToA2
}

/// The type a lookup table is stored as, in tag `sig` of a profile of
/// version `icc_version`.
pub open spec fn lut_type_for(icc_version: u32, sig: TagSignature, eight_bits: bool) -> TagTypeSignature {
    if is_v4(icc_version) && is_atob(sig) {
        TagTypeSignature::LutAtoB
    } else if is_v4(icc_version) && is_btoa(sig) {
        TagTypeSignature::LutBtoA
    } else if eight_bits {
        TagTypeSignature::Lut8
    } else {
        TagTypeSignature::Lut16
    }
}

fn tag_is_atob(sig: TagSignature) -> (r: bool)
    ensures
        r == is_atob(sig),
{
    match sig {
        TagSignature::AToB0 | TagSignature::AToB1 | TagSignature::AToB2 => true,
        _ => false,
    }
}

fn tag_is_btoa(sig: TagSignature) -> (r: bool)
    ensures
        r == is_btoa(sig),
{
    match sig {
        TagSignature::BToA0 | TagSignature::BToA1 | TagSignature::BToA2 => true,
        _ => false,
    }
}

/// Append `data` as the payload of tag `sig` in a profile of version
/// `icc_version`, and give the type it was stored as. A colorant order of
/// more than 16 channels is a range error and writes nothing. A lookup table
/// goes as lutAtoB or lutBtoA in the device-to-PCS and PCS-to-device tags of
/// a version 4 profile, as lut8 or lut16 elsewhere; a version 4 table goes
/// as lutBtoA in the PCS-to-device tags and as lutAtoB elsewhere. A named
/// colour list goes as namedColor2, a profile sequence description as
/// profileSequenceDesc. Raw bytes
/// are written, and then refused as not suitable, since they carry no type.
pub fn write_tag_type(out: &mut Vec<u8>, data: &TagData, icc_version: u32, sig: TagSignature) -> (r:
    Result<TagTypeSignature, CmsError>)
    requires
        data matches TagData::Mlu(m) ==> m.wf() && mlu_type_bytes(m@).len() <= u32::MAX,
        data matches TagData::Pipeline(l, e) ==> (is_v4(icc_version) && (is_atob(sig) || is_btoa(
            sig,
        ))) ==> {
            &&& l.input_tables@.len() >= l.input_channels * l.input_entries
            &&& l.output_tables@.len() >= l.output_channels * l.output_entries
            &&& is_atob(sig) ==> atob_bytes(lut_v4_view(l@, false)).len() + 8 <= u32::MAX
            &&& is_btoa(sig) ==> btoa_bytes(lut_v4_view(l@, true)).len() + 8 <= u32::MAX
        },
        data matches TagData::Dict(d) ==> d.wf() && old(out)@.len() + dict_type_bytes(
            d@,
            old(out)@.len() as int,
        ).len() <= u32::MAX,
        data matches TagData::NamedColor(l) ==> l.colors@.len() <= u32::MAX && forall|i: int|
            0 <= i < l.colors@.len() ==> #[trigger] l.colors@[i].colorant@.len() >= l.colorant_count,
        data matches TagData::ProfileSequenceDesc(v) ==> entries_writable(v@),
        data matches TagData::LutV4(l) ==> if is_btoa(sig) {
            btoa_bytes(l@).len() + 8 <= u32::MAX
        } else {
            atob_bytes(l@).len() + 8 <= u32::MAX
        },
    ensures
        match data {
            TagData::Mlu(m) => r == Ok::<TagTypeSignature, CmsError>(
                TagTypeSignature::MultiLocalizedUnicode,
            ) && final(out)@ == old(out)@ + mlu_type_bytes(m@),
            TagData::Signature(s) => r == Ok::<TagTypeSignature, CmsError>(
                TagTypeSignature::Signature,
            ) && final(out)@ == old(out)@ + bytes32(*s),
            TagData::DateTime(dt) => r == Ok::<TagTypeSignature, CmsError>(
                TagTypeSignature::DateTime,
            ) && final(out)@ == old(out)@ + datetime_bytes(*dt),
            TagData::ColorantOrder(o) => if o@.len() > MAX_CHANNELS {
                r matches Err(e) && e.code == ErrorCode::Range && final(out)@ == old(out)@
            } else {
                r == Ok::<TagTypeSignature, CmsError>(TagTypeSignature::ColorantOrder) && final(out)@ == old(out)@ + bytes32(o@.len() as u32) + o@
            },
            TagData::Data(d) => r == Ok::<TagTypeSignature, CmsError>(TagTypeSignature::Data)
                && final(out)@ == old(out)@ + bytes32(d.flags) + d.data@,
            TagData::VideoSignal(vs) => r == Ok::<TagTypeSignature, CmsError>(
                TagTypeSignature::Cicp,
            ) && final(out)@ == old(out)@ + seq![
                vs.colour_primaries,
                vs.transfer_characteristics,
                vs.matrix_coefficients,
                vs.video_full_range_flag,
            ],
            TagData::Vcgt(v) => r == Ok::<TagTypeSignature, CmsError>(TagTypeSignature::Vcgt)
                && final(out)@ == old(out)@ + vcgt_bytes(v@),
            TagData::Dict(d) => r == Ok::<TagTypeSignature, CmsError>(TagTypeSignature::Dict)
                && final(out)@ == old(out)@ + dict_type_bytes(d@, old(out)@.len() as int),
            TagData::Pipeline(l, eight) => {
                let t = lut_type_for(icc_version, sig, *eight);
                if t == TagTypeSignature::Lut8 {
                    r == Ok::<TagTypeSignature, CmsError>(t) && final(out)@ == old(out)@
                        + lut8_bytes(l@)
                } else if t == TagTypeSignature::Lut16 {
                    r == Ok::<TagTypeSignature, CmsError>(t) && final(out)@ == old(out)@
                        + lut16_bytes(l@)
                } else if t == TagTypeSignature::LutAtoB {
                    r == Ok::<TagTypeSignature, CmsError>(t) && final(out)@ == old(out)@
                        + atob_bytes(lut_v4_view(l@, false))
                } else {
                    r == Ok::<TagTypeSignature, CmsError>(t) && final(out)@ == old(out)@
                        + btoa_bytes(lut_v4_view(l@, true))
                }
            },
            TagData::LutV4(l) => if is_btoa(sig) {
                r == Ok::<TagTypeSignature, CmsError>(TagTypeSignature::LutBtoA) && final(out)@
                    == old(out)@ + btoa_bytes(l@)
            } else {
                r == Ok::<TagTypeSignature, CmsError>(TagTypeSignature::LutAtoB) && final(out)@
                    == old(out)@ + atob_bytes(l@)
            },
            TagData::NamedColor(l) => r == Ok::<TagTypeSignature, CmsError>(
                TagTypeSignature::NamedColor2,
            ) && final(out)@ == old(out)@ + ncl2_bytes(l@),
            TagData::ProfileSequenceDesc(v) => r == Ok::<TagTypeSignature, CmsError>(
                TagTypeSignature::ProfileSequenceDesc,
            ) && final(out)@ == old(out)@ + pseq_bytes(entries_view(v@)),
            TagData::UInt8Array(a) => r == Ok::<TagTypeSignature, CmsError>(
                TagTypeSignature::UInt8Array,
            ) && final(out)@ == old(out)@ + a@,
            TagData::UInt16Array(a) => r == Ok::<TagTypeSignature, CmsError>(
                TagTypeSignature::UInt16Array,
            ) && final(out)@ == old(out)@ + bytes16_all(a@),
            TagData::UInt32Array(a) => r == Ok::<TagTypeSignature, CmsError>(
                TagTypeSignature::UInt32Array,
            ) && final(out)@ == old(out)@ + bytes32_all(a@),
            TagData::UInt64Array(a) => r == Ok::<TagTypeSignature, CmsError>(
                TagTypeSignature::UInt64Array,
            ) && final(out)@ == old(out)@ + bytes64_all(a@),
            TagData::Raw(b) => r matches Err(e) && e.code == ErrorCode::NotSuitable && final(out)@
                == old(out)@ + b@,
        },
{
    match data {
        TagData::Mlu(m) => {
            write_mlu_type(out, m);
            Ok(TagTypeSignature::MultiLocalizedUnicode)
        },
        TagData::Signature(s) => {
            write_signature_type(out, *s);
            Ok(TagTypeSignature::Signature)
        },
        TagData::DateTime(dt) => {
            write_datetime_type(out, dt);
            Ok(TagTypeSignature::DateTime)
        },
        TagData::ColorantOrder(o) => {
            match write_colorant_order_type(out, o.as_slice()) {
                Ok(()) => Ok(TagTypeSignature::ColorantOrder),
                Err(e) => Err(e),
            }
        },
        TagData::Data(d) => {
            write_data_type(out, d);
            Ok(TagTypeSignature::Data)
        },
        TagData::VideoSignal(vs) => {
            write_video_signal_type(out, vs);
            Ok(TagTypeSignature::Cicp)
        },
        TagData::Vcgt(v) => {
            write_vcgt_type(out, v);
            Ok(TagTypeSignature::Vcgt)
        },
        TagData::Dict(d) => {
            write_dict_type(out, d);
            Ok(TagTypeSignature::Dict)
        },
        TagData::Pipeline(l, eight) => {
            let v4 = icc_version >= 0x0400_0000;
            if v4 && tag_is_atob(sig) {
                let t = lut_as_v4(l, false);
                write_lut_atob_type(out, &t);
                Ok(TagTypeSignature::LutAtoB)
            } else if v4 && tag_is_btoa(sig) {
                let t = lut_as_v4(l, true);
                write_lut_btoa_type(out, &t);
                Ok(TagTypeSignature::LutBtoA)
            } else if *eight {
                write_lut8_type(out, l);
                Ok(TagTypeSignature::Lut8)
            } else {
                write_lut16_type(out, l);
                Ok(TagTypeSignature::Lut16)
            }
        },
        TagData::LutV4(l) => {
            if tag_is_btoa(sig) {
                write_lut_btoa_type(out, l);
                Ok(TagTypeSignature::LutBtoA)
            } else {
                write_lut_atob_type(out, l);
                Ok(TagTypeSignature::LutAtoB)
            }
        },
        TagData::NamedColor(l) => {
            write_named_color_type(out, l);
            Ok(TagTypeSignature::NamedColor2)
        },
        TagData::ProfileSequenceDesc(v) => {
            let entries = v.as_slice();
            assert(entries@ == v@);
            write_profile_sequence_desc_type(out, entries);
            Ok(TagTypeSignature::ProfileSequenceDesc)
        },
        TagData::UInt8Array(a) => {
            write_uint8_type(out, a.as_slice());
            Ok(TagTypeSignature::UInt8Array)
        },
        TagData::UInt16Array(a) => {
            write_uint16_type(out, a.as_slice());
            Ok(TagTypeSignature::UInt16Array)
        },
        TagData::UInt32Array(a) => {
            write_uint32_type(out, a.as_slice());
            Ok(TagTypeSignature::UInt32Array)
        },
        TagData::UInt64Array(a) => {
            write_uint64_type(out, a.as_slice());
            Ok(TagTypeSignature::UInt64Array)
        },
        TagData::Raw(b) => {
            write_uint8_type(out, b.as_slice());
            Err(err(ErrorCode::NotSuitable, "Cannot determine type signature for raw data"))
        },
    }
}

/// What `write_tag_type` makes of `data` when what it appends to starts
/// `at` bytes in: the type and the payload, or the error code.
pub open spec fn tag_payload(data: TagData, icc_version: u32, sig: TagSignature, at: int) -> Result<
    (TagTypeSignature, Seq<u8>),
    ErrorCode,
> {
    match data {
        TagData::Mlu(m) => Ok((TagTypeSignature::MultiLocalizedUnicode, mlu_type_bytes(m@))),
        TagData::Signature(x) => Ok((TagTypeSignature::Signature, bytes32(x))),
        TagData::DateTime(dt) => Ok((TagTypeSignature::DateTime, datetime_bytes(dt))),
        TagData::ColorantOrder(o) => if o@.len() > MAX_CHANNELS {
            Err(ErrorCode::Range)
        } else {
            Ok((TagTypeSignature::ColorantOrder, bytes32(o@.len() as u32) + o@))
        },
        TagData::Data(d) => Ok((TagTypeSignature::Data, bytes32(d.flags) + d.data@)),
        TagData::VideoSignal(vs) => Ok(
            (
                TagTypeSignature::Cicp,
                seq![
                    vs.colour_primaries,
                    vs.transfer_characteristics,
                    vs.matrix_coefficients,
                    vs.video_full_range_flag,
                ],
            ),
        ),
        TagData::Vcgt(v) => Ok((TagTypeSignature::Vcgt, vcgt_bytes(v@))),
        TagData::Dict(d) => Ok((TagTypeSignature::Dict, dict_type_bytes(d@, at))),
        TagData::Pipeline(l, eight) => {
            let t = lut_type_for(icc_version, sig, eight);
            if t == TagTypeSignature::Lut8 {
                Ok((t, lut8_bytes(l@)))
            } else if t == TagTypeSignature::Lut16 {
                Ok((t, lut16_bytes(l@)))
            } else if t == TagTypeSignature::LutAtoB {
                Ok((t, atob_bytes(lut_v4_view(l@, false))))
            } else {
                Ok((t, btoa_bytes(lut_v4_view(l@, true))))
            }
        },
        TagData::LutV4(l) => if is_btoa(sig) {
            Ok((TagTypeSignature::LutBtoA, btoa_bytes(l@)))
        } else {
            Ok((TagTypeSignature::LutAtoB, atob_bytes(l@)))
        },
        TagData::NamedColor(l) => Ok((TagTypeSignature::NamedColor2, ncl2_bytes(l@))),
        TagData::ProfileSequenceDesc(v) => Ok(
            (TagTypeSignature::ProfileSequenceDesc, pseq_bytes(entries_view(v@))),
        ),
        TagData::UInt8Array(a) => Ok((TagTypeSignature::UInt8Array, a@)),
        TagData::UInt16Array(a) => Ok((TagTypeSignature::UInt16Array, bytes16_all(a@))),
        TagData::UInt32Array(a) => Ok((TagTypeSignature::UInt32Array, bytes32_all(a@))),
        TagData::UInt64Array(a) => Ok((TagTypeSignature::UInt64Array, bytes64_all(a@))),
        TagData::Raw(_) => Err(ErrorCode::NotSuitable),
    }
}

/// A tag's stored bytes: the type signature, four reserved zero bytes and
/// the payload.
pub open spec fn typed_tag_bytes(t: TagTypeSignature, payload: Seq<u8>) -> Seq<u8> {
    bytes32(tag_type_value(t)) + bytes32(0) + payload
}

impl Profile {
    /// Stores `data` in tag `sig`, typed as `write_tag_type` picks for this
    /// profile's version: the type base and the payload become the tag's raw
    /// bytes (see `write_raw_tag`). When no type can be written the profile
    /// is left as it was.
    pub fn write_tag(&mut self, sig: TagSignature, data: &TagData) -> (r: Result<(), CmsError>)
        requires
            old(self).wf(),
            data matches TagData::Mlu(m) ==> m.wf() && mlu_type_bytes(m@).len() <= u32::MAX,
            data matches TagData::Pipeline(l, e) ==> (is_v4(old(self)@.header.version) && (is_atob(sig)
                || is_btoa(sig))) ==> {
                &&& l.input_tables@.len() >= l.input_channels * l.input_entries
                &&& l.output_tables@.len() >= l.output_channels * l.output_entries
            },
            data matches TagData::Dict(d) ==> d.wf(),
            data matches TagData::NamedColor(l) ==> l.colors@.len() <= u32::MAX && forall|i: int|
                0 <= i < l.colors@.len() ==> #[trigger] l.colors@[i].colorant@.len() >= l.colorant_count,
            data matches TagData::ProfileSequenceDesc(v) ==> entries_writable(v@),
            tag_payload(*data, old(self)@.header.version, sig, 0) matches Ok((t, p)) ==> p.len() + 8
                <= u32::MAX,
        ensures
            final(self).wf(),
            final(self)@.header == old(self)@.header,
            final(self)@.source == old(self)@.source,
            match tag_payload(*data, old(self)@.header.version, sig, 0) {
                Err(c) => r matches Err(e) && e.code == c && final(self)@ == old(self)@,
                Ok((t, p)) => match r {
                    Ok(_) => tags_after_write(old(self)@.tags, sig, typed_tag_bytes(t, p)) == Ok::<
                        Seq<crate::profile::TagView>,
                        ErrorCode,
                    >(final(self)@.tags),
                    Err(e) => tags_after_write(old(self)@.tags, sig, typed_tag_bytes(t, p)) == Err::<
                        Seq<crate::profile::TagView>,
                        ErrorCode,
                    >(e.code) && final(self)@ == old(self)@,
                },
            },
    {
        let mut payload: Vec<u8> = Vec::new();
        let version = self.header_version();
        let t = match write_tag_type(&mut payload, data, version, sig) {
            Ok(t) => t,
            Err(e) => {
                return Err(e);
            },
        };
        assert(tag_payload(*data, version, sig, 0) == Ok::<(TagTypeSignature, Seq<u8>), ErrorCode>(
            (t, payload@),
        ));
        let mut raw: Vec<u8> = Vec::new();
        push_be32(&mut raw, t.to_u32());
        push_be32(&mut raw, 0);
        raw.append(&mut payload);
        assert(raw@ =~= typed_tag_bytes(t, tag_payload(*data, version, sig, 0)->Ok_0.1));
        self.write_raw_tag(sig, raw.as_slice())
    }
}

} // verus!
