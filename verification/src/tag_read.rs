//! Reading a tag's data by its type: the payload after the type base goes to
//! the reader of that type.
use vstd::prelude::*;
use crate::error::{CmsError, ErrorCode};
use crate::lut::{LutView, lut16_read, lut8_read, read_lut16_type, read_lut8_type};
use crate::lut_atob::{LutAtoBView, atob_offsets_ok, atob_read, btoa_read, read_lut_atob_type, read_lut_btoa_type};
use crate::named::{DictItem, MluItem};
use crate::named_color::{NamedColorListView, ncl2_read, read_named_color_type};
use crate::profile::{DateTimeNumber, Profile, TagSignature, TagView, be32, copy_range, err, raw_tag_read, read_be32};
use crate::pseq::{SeqEntryView, entries_view, pseq_read, read_profile_sequence_desc_type};
use crate::tag_arrays::{
    MAX_CHANNELS, VideoSignalType, be16_seq, be32_seq, be64_seq, datetime_at, read_colorant_order_type,
    read_data_type, read_datetime_type, read_signature_type, read_uint16_type, read_uint32_type,
    read_uint64_type, read_uint8_type, read_video_signal_type,
};
use crate::tag_data::TagData;
use crate::tag_types::{
    ascii_text_mlu, dict_type_read, fits, mlu_type_read, read_dict_type, read_mlu_type, read_text_description_type,
    read_text_type,
};
use crate::type_sig::{TagTypeSignature, tag_type_of};
use crate::vcgt::{VcgtView, read_vcgt_type, vcgt_read};

verus! {

/// A tag's data as seen from outside.
pub enum TagDataView {
    Mlu(Seq<MluItem>),
    Signature(u32),
    DateTime(DateTimeNumber),
    ColorantOrder(Seq<u8>),
    Data(u32, Seq<u8>),
    VideoSignal(VideoSignalType),
    Vcgt(VcgtView),
    Dict(Seq<DictItem>),
    Pipeline(LutView, bool),
    LutV4(LutAtoBView),
    NamedColor(NamedColorListView),
    ProfileSequenceDesc(Seq<SeqEntryView>),
    UInt8Array(Seq<u8>),
    UInt16Array(Seq<u16>),
    UInt32Array(Seq<u32>),
    UInt64Array(Seq<u64>),
    Raw(Seq<u8>),
}

impl View for TagData {
    type V = TagDataView;

    open spec fn view(&self) -> TagDataView {
        match self {
            TagData::Mlu(m) => TagDataView::Mlu(m@),
            TagData::Signature(s) => TagDataView::Signature(*s),
            TagData::DateTime(dt) => TagDataView::DateTime(*dt),
            TagData::ColorantOrder(o) => TagDataView::ColorantOrder(o@),
            TagData::Data(d) => TagDataView::Data(d.flags, d.data@),
            TagData::VideoSignal(vs) => TagDataView::VideoSignal(*vs),
            TagData::Vcgt(v) => TagDataView::Vcgt(v@),
            TagData::Dict(d) => TagDataView::Dict(d@),
            TagData::Pipeline(l, e) => TagDataView::Pipeline(l@, *e),
            TagData::LutV4(l) => TagDataView::LutV4(l@),
            TagData::NamedColor(l) => TagDataView::NamedColor(l@),
            TagData::ProfileSequenceDesc(v) => TagDataView::ProfileSequenceDesc(entries_view(v@)),
            TagData::UInt8Array(a) => TagDataView::UInt8Array(a@),
            TagData::UInt16Array(a) => TagDataView::UInt16Array(a@),
            TagData::UInt32Array(a) => TagDataView::UInt32Array(a@),
            TagData::UInt64Array(a) => TagDataView::UInt64Array(a@),
            TagData::Raw(b) => TagDataView::Raw(b@),
        }
    }
}

/// The texts and dictionaries a reader gives are well formed.
pub open spec fn tag_data_wf(d: TagData) -> bool {
    match d {
        TagData::Mlu(m) => m.wf(),
        TagData::Dict(x) => x.wf(),
        TagData::ProfileSequenceDesc(v) => forall|i: int| 0 <= i < v@.len() ==> #[trigger] v@[i].wf(),
        _ => true,
    }
}

/// Wraps what a reader gave in a variant of the view.
pub open spec fn read_as<T>(r: Result<T, ErrorCode>, f: spec_fn(T) -> TagDataView) -> Result<TagDataView, ErrorCode> {
    match r {
        Ok(v) => Ok(f(v)),
        Err(e) => Err(e),
    }
}

/// What reading a payload `b` of type `t` gives. The types whose values are
/// floating point, and the types with no reader, come back as the raw
/// payload.
#[verifier::opaque]
pub open spec fn tag_type_read(b: Seq<u8>, t: TagTypeSignature) -> Result<TagDataView, ErrorCode> {
    let size = b.len() as int;
    match t {
        TagTypeSignature::Signature => if fits(b, 0, 4) {
            Ok(TagDataView::Signature(be32(b, 0)))
        } else {
            Err(ErrorCode::Read)
        },
        TagTypeSignature::DateTime => if fits(b, 0, 12) {
            Ok(TagDataView::DateTime(datetime_at(b, 0)))
        } else {
            Err(ErrorCode::Read)
        },
        TagTypeSignature::UInt8Array => Ok(TagDataView::UInt8Array(b)),
        TagTypeSignature::UInt16Array => Ok(TagDataView::UInt16Array(be16_seq(b, 0, size / 2))),
        TagTypeSignature::UInt32Array => Ok(TagDataView::UInt32Array(be32_seq(b, 0, size / 4))),
        TagTypeSignature::UInt64Array => Ok(TagDataView::UInt64Array(be64_seq(b, 0, size / 8))),
        TagTypeSignature::Text => Ok(TagDataView::Mlu(ascii_text_mlu(b))),
        TagTypeSignature::TextDescription => if !fits(b, 0, 4) || !fits(b, 4, be32(b, 0) as int) {
            Err(ErrorCode::Read)
        } else {
            Ok(TagDataView::Mlu(ascii_text_mlu(b.subrange(4, 4 + be32(b, 0)))))
        },
        TagTypeSignature::MultiLocalizedUnicode => read_as(
            mlu_type_read(b, 0, size).0,
            |v: Seq<MluItem>| TagDataView::Mlu(v),
        ),
        TagTypeSignature::ColorantOrder => if !fits(b, 0, 4) {
            Err(ErrorCode::Read)
        } else {
            let n = if be32(b, 0) > MAX_CHANNELS {
                MAX_CHANNELS as int
            } else {
                be32(b, 0) as int
            };
            if !fits(b, 4, n) {
                Err(ErrorCode::Read)
            } else {
                Ok(TagDataView::ColorantOrder(b.subrange(4, 4 + n)))
            }
        },
        TagTypeSignature::NamedColor2 => read_as(
            ncl2_read(b, 0),
            |v: NamedColorListView| TagDataView::NamedColor(v),
        ),
        TagTypeSignature::Data => if size >= 4 {
            Ok(TagDataView::Data(be32(b, 0), b.subrange(4, size)))
        } else {
            Err(ErrorCode::Read)
        },
        TagTypeSignature::Cicp => if size != 4 {
            Err(ErrorCode::Range)
        } else {
            Ok(
                TagDataView::VideoSignal(
                    VideoSignalType {
                        colour_primaries: b[0],
                        transfer_characteristics: b[1],
                        matrix_coefficients: b[2],
                        video_full_range_flag: b[3],
                    },
                ),
            )
        },
        TagTypeSignature::ProfileSequenceDesc => read_as(
            pseq_read(b, 0),
            |v: Seq<SeqEntryView>| TagDataView::ProfileSequenceDesc(v),
        ),
        TagTypeSignature::Vcgt => read_as(vcgt_read(b, 0, size as u32), |v: VcgtView| TagDataView::Vcgt(v)),
        TagTypeSignature::Dict => read_as(dict_type_read(b, 0), |v: Seq<DictItem>| TagDataView::Dict(v)),
        TagTypeSignature::Lut8 => read_as(lut8_read(b, 0), |v: LutView| TagDataView::Pipeline(v, true)),
        TagTypeSignature::Lut16 => read_as(lut16_read(b, 0), |v: LutView| TagDataView::Pipeline(v, false)),
        TagTypeSignature::LutAtoB => read_as(atob_read(b), |v: LutAtoBView| TagDataView::LutV4(v)),
        TagTypeSignature::LutBtoA => read_as(btoa_read(b), |v: LutAtoBView| TagDataView::LutV4(v)),
        _ => Ok(TagDataView::Raw(b)),
    }
}

/// The types whose reader needs the offsets of a lookup table of the
/// version 4 kind to lie past the type base.
pub open spec fn needs_atob_offsets(t: TagTypeSignature) -> bool {
    t == TagTypeSignature::LutAtoB || t == TagTypeSignature::LutBtoA
}

/// What reading `payload` as type `t` gave agrees with `tag_type_read`.
pub open spec fn read_agrees(payload: Seq<u8>, t: TagTypeSignature, r: Result<TagData, CmsError>) -> bool {
    match tag_type_read(payload, t) {
        Ok(v) => r matches Ok(d) && d@ == v && tag_data_wf(d),
        Err(c) => r matches Err(e) && e.code == c,
    }
}

/// Read a payload whose type is one of the numbers and plain byte arrays.
fn read_numbers(payload: &[u8], t: TagTypeSignature) -> (r: Result<TagData, CmsError>)
    requires
        payload@.len() + 3 <= u32::MAX,
        needs_atob_offsets(t) ==> atob_offsets_ok(payload@),
        t == TagTypeSignature::Signature || t == TagTypeSignature::DateTime || t == TagTypeSignature::UInt8Array || t == TagTypeSignature::UInt16Array || t == TagTypeSignature::UInt32Array || t == TagTypeSignature::UInt64Array || t == TagTypeSignature::Data || t == TagTypeSignature::Cicp || t == TagTypeSignature::ColorantOrder,
    ensures
        read_agrees(payload@, t, r),
{
    reveal(tag_type_read);
    let size = payload.len() as u32;
    assert(payload@.subrange(0, size as int) =~= payload@);
    match t {
        TagTypeSignature::Signature => match read_signature_type(payload, 0) {
            Ok(v) => Ok(TagData::Signature(v)),
            Err(e) => Err(e),
        },
        TagTypeSignature::DateTime => match read_datetime_type(payload, 0) {
            Ok(v) => Ok(TagData::DateTime(v)),
            Err(e) => Err(e),
        },
        TagTypeSignature::UInt8Array => match read_uint8_type(payload, 0, size) {
            Ok(v) => Ok(TagData::UInt8Array(v)),
            Err(e) => Err(e),
        },
        TagTypeSignature::UInt16Array => match read_uint16_type(payload, 0, size) {
            Ok(v) => Ok(TagData::UInt16Array(v)),
            Err(e) => Err(e),
        },
        TagTypeSignature::UInt32Array => match read_uint32_type(payload, 0, size) {
            Ok(v) => Ok(TagData::UInt32Array(v)),
            Err(e) => Err(e),
        },
        TagTypeSignature::UInt64Array => match read_uint64_type(payload, 0, size) {
            Ok(v) => Ok(TagData::UInt64Array(v)),
            Err(e) => Err(e),
        },
        TagTypeSignature::Data => match read_data_type(payload, 0, size) {
            Ok(v) => Ok(TagData::Data(v)),
            Err(e) => Err(e),
        },
        TagTypeSignature::Cicp => match read_video_signal_type(payload, 0, size) {
            Ok(v) => Ok(TagData::VideoSignal(v)),
            Err(e) => Err(e),
        },
        TagTypeSignature::ColorantOrder => match read_colorant_order_type(payload, 0) {
            Ok(v) => Ok(TagData::ColorantOrder(v)),
            Err(e) => Err(e),
        },
        _ => Err(err(ErrorCode::Internal, "Unexpected tag type")),
    }
}

/// Read a payload whose type is one of the texts, dictionaries, named colours and sequence descriptions.
fn read_texts(payload: &[u8], t: TagTypeSignature) -> (r: Result<TagData, CmsError>)
    requires
        payload@.len() + 3 <= u32::MAX,
        needs_atob_offsets(t) ==> atob_offsets_ok(payload@),
        t == TagTypeSignature::Text || t == TagTypeSignature::TextDescription || t == TagTypeSignature::MultiLocalizedUnicode || t == TagTypeSignature::Dict || t == TagTypeSignature::NamedColor2 || t == TagTypeSignature::ProfileSequenceDesc,
    ensures
        read_agrees(payload@, t, r),
{
    reveal(tag_type_read);
    let size = payload.len() as u32;
    assert(payload@.subrange(0, size as int) =~= payload@);
    match t {
        TagTypeSignature::Text => match read_text_type(payload, 0, size) {
            Ok(v) => Ok(TagData::Mlu(v)),
            Err(e) => Err(e),
        },
        TagTypeSignature::TextDescription => match read_text_description_type(payload, 0) {
            Ok(v) => Ok(TagData::Mlu(v)),
            Err(e) => Err(e),
        },
        TagTypeSignature::MultiLocalizedUnicode => match read_mlu_type(payload, 0, size) {
            Ok(v) => Ok(TagData::Mlu(v)),
            Err(e) => Err(e),
        },
        TagTypeSignature::Dict => match read_dict_type(payload, 0) {
            Ok(v) => Ok(TagData::Dict(v)),
            Err(e) => Err(e),
        },
        TagTypeSignature::NamedColor2 => match read_named_color_type(payload, 0) {
            Ok(v) => Ok(TagData::NamedColor(v)),
            Err(e) => Err(e),
        },
        TagTypeSignature::ProfileSequenceDesc => match read_profile_sequence_desc_type(payload, 0) {
            Ok(v) => Ok(TagData::ProfileSequenceDesc(v)),
            Err(e) => Err(e),
        },
        _ => Err(err(ErrorCode::Internal, "Unexpected tag type")),
    }
}

/// Read a payload whose type is one of the lookup tables and video card gamma.
fn read_tables(payload: &[u8], t: TagTypeSignature) -> (r: Result<TagData, CmsError>)
    requires
        payload@.len() + 3 <= u32::MAX,
        needs_atob_offsets(t) ==> atob_offsets_ok(payload@),
        t == TagTypeSignature::Vcgt || t == TagTypeSignature::Lut8 || t == TagTypeSignature::Lut16 || t == TagTypeSignature::LutAtoB || t == TagTypeSignature::LutBtoA,
    ensures
        read_agrees(payload@, t, r),
{
    reveal(tag_type_read);
    let size = payload.len() as u32;
    assert(payload@.subrange(0, size as int) =~= payload@);
    match t {
        TagTypeSignature::Vcgt => match read_vcgt_type(payload, 0, size) {
            Ok(v) => Ok(TagData::Vcgt(v)),
            Err(e) => Err(e),
        },
        TagTypeSignature::Lut8 => match read_lut8_type(payload, 0) {
            Ok(v) => Ok(TagData::Pipeline(v, true)),
            Err(e) => Err(e),
        },
        TagTypeSignature::Lut16 => match read_lut16_type(payload, 0) {
            Ok(v) => Ok(TagData::Pipeline(v, false)),
            Err(e) => Err(e),
        },
        TagTypeSignature::LutAtoB => match read_lut_atob_type(payload) {
            Ok(v) => Ok(TagData::LutV4(v)),
            Err(e) => Err(e),
        },
        TagTypeSignature::LutBtoA => match read_lut_btoa_type(payload) {
            Ok(v) => Ok(TagData::LutV4(v)),
            Err(e) => Err(e),
        },
        _ => Err(err(ErrorCode::Internal, "Unexpected tag type")),
    }
}

/// Read `payload`, the data of a tag of type `t` after its type base (see
/// `tag_type_read`).
pub fn read_tag_type(payload: &[u8], t: TagTypeSignature) -> (r: Result<TagData, CmsError>)
    requires
        payload@.len() + 3 <= u32::MAX,
        needs_atob_offsets(t) ==> atob_offsets_ok(payload@),
    ensures
        read_agrees(payload@, t, r),
{
    match t {
        TagTypeSignature::Signature | TagTypeSignature::DateTime | TagTypeSignature::UInt8Array | TagTypeSignature::UInt16Array | TagTypeSignature::UInt32Array | TagTypeSignature::UInt64Array | TagTypeSignature::Data | TagTypeSignature::Cicp | TagTypeSignature::ColorantOrder => read_numbers(payload, t),
        TagTypeSignature::Text | TagTypeSignature::TextDescription | TagTypeSignature::MultiLocalizedUnicode | TagTypeSignature::Dict | TagTypeSignature::NamedColor2 | TagTypeSignature::ProfileSequenceDesc => read_texts(payload, t),
        TagTypeSignature::Vcgt | TagTypeSignature::Lut8 | TagTypeSignature::Lut16 | TagTypeSignature::LutAtoB | TagTypeSignature::LutBtoA => read_tables(payload, t),
        _ => {
            proof {
                reveal(tag_type_read);
            }
            let raw = copy_range(payload, 0, payload.len());
            assert(raw@ =~= payload@);
            Ok(TagData::Raw(raw))
        },
    }
}

/// What reading tag `sig` of a profile gives: its raw bytes (see
/// `raw_tag_read`) are the type signature, four reserved bytes and the
/// payload; bytes under eight are a read error, an unknown type signature
/// gives the raw bytes whole, and a known one its payload read by type
/// (see `tag_type_read`). Also gives the tags after the read.
pub open spec fn tag_read(v: crate::profile::ProfileView, sig: TagSignature) -> (Result<TagDataView, ErrorCode>, Seq<TagView>) {
    let (raw, tags) = raw_tag_read(v, sig);
    match raw {
        Err(c) => (Err(c), tags),
        Ok(d) => if d.len() < 8 {
            (Err(ErrorCode::Read), tags)
        } else {
            match tag_type_of(be32(d, 0)) {
                None => (Ok(TagDataView::Raw(d)), tags),
                Some(t) => (tag_type_read(d.subrange(8, d.len() as int), t), tags),
            }
        },
    }
}

/// The raw bytes of tag `sig`, when they hold a lookup table of the version
/// 4 kind, have its offsets past the type base.
pub open spec fn tag_offsets_ok(v: crate::profile::ProfileView, sig: TagSignature) -> bool {
    match raw_tag_read(v, sig).0 {
        Ok(d) => d.len() >= 8 ==> match tag_type_of(be32(d, 0)) {
            Some(t) => needs_atob_offsets(t) ==> atob_offsets_ok(d.subrange(8, d.len() as int)),
            None => true,
        },
        Err(_) => true,
    }
}

impl Profile {
    /// The data of tag `sig`, read by its type (see `tag_read`).
    pub fn read_tag(&mut self, sig: TagSignature) -> (r: Result<TagData, CmsError>)
        requires
            old(self).wf(),
            tag_offsets_ok(old(self)@, sig),
        ensures
            final(self).wf(),
            final(self)@.header == old(self)@.header,
            final(self)@.source == old(self)@.source,
            final(self)@.tags == tag_read(old(self)@, sig).1,
            match tag_read(old(self)@, sig).0 {
                Ok(v) => r matches Ok(d) && d@ == v && tag_data_wf(d),
                Err(c) => r matches Err(e) && e.code == c,
            },
    {
        proof {
            self.lemma_raw_tag_len(sig);
        }
        let raw = match self.read_raw_tag(sig) {
            Ok(d) => d,
            Err(e) => {
                return Err(e);
            },
        };
        if raw.len() < 8 {
            return Err(err(ErrorCode::Read, "Tag too small for type base"));
        }
        let ts = read_be32(raw.as_slice(), 0);
        match TagTypeSignature::from_u32(ts) {
            None => Ok(TagData::Raw(raw)),
            Some(t) => {
                let payload = vstd::slice::slice_subrange(raw.as_slice(), 8, raw.len());
                read_tag_type(payload, t)
            },
        }
    }
}

} // verus!
