//! Laws of typed tags: what `write_tag` stores, `read_tag` reads back.
use vstd::prelude::*;
use crate::error::ErrorCode;
use crate::named_color::{law_named_color_round_trip, ncl2_wf};
use crate::profile::{DateTimeNumber, ProfileView, TagSignature, bytes32, tags_after_write};
use crate::profile_laws::law_write_raw_then_read;
use crate::pseq::{MAX_SEQUENCE, entries_view, entry_round_trips, law_pseq_round_trip, pseq_bytes};
use crate::tag_arrays::MAX_CHANNELS;
use crate::tag_data::{TagData, is_btoa, lut_type_for, tag_payload, typed_tag_bytes};
use crate::lut_atob::LutAtoBView;
use crate::lut_v4_laws::{atob_wf, btoa_wf, law_atob_round_trip, law_btoa_round_trip, v4_stored};
use crate::lut_v4_write::{atob_bytes, btoa_bytes};
use crate::tag_laws::{
    dict_round_trips, distinct_codes, holds_bytes, law_colorant_order_round_trip, law_data_type_round_trip,
    law_datetime_type_round_trip, law_dict_type_round_trip, law_mlu_type_round_trip,
    law_signature_type_round_trip, law_uint16_type_round_trip, law_uint32_type_round_trip,
    law_uint64_type_round_trip, lemma_be32_held, lemma_holds_split, readable_codes,
};
use crate::tag_read::{TagDataView, tag_read, tag_type_read};
use crate::tag_types::{dict_type_bytes, mlu_type_bytes};
use crate::tag_arrays::{bytes16_all, bytes32_all, bytes64_all, datetime_bytes};
use crate::named::{DictItem, MluItem};
use crate::named_color::{NamedColorListView, ncl2_bytes};
use crate::pseq::SeqEntryView;
use crate::lut::{LutView, lut16_bytes, lut8_bytes};
use crate::lut_laws::{law_lut16_round_trip, law_lut8_round_trip, law_vcgt_round_trip, lut16_wf, lut8_stored, lut8_wf, vcgt_wf};
use crate::vcgt::{VcgtView, vcgt_bytes};
use crate::type_sig::{TagTypeSignature, law_tag_type_round_trip, tag_type_value};

verus! {

/// Storing a typed payload in a tag and reading the tag back reads that
/// payload by its type: whatever `tag_type_read` makes of it is what
/// `read_tag` gives.
pub proof fn law_write_tag_then_read_tag(v: ProfileView, sig: TagSignature, t: TagTypeSignature, p: Seq<u8>)
    requires
        tags_after_write(v.tags, sig, typed_tag_bytes(t, p)) is Ok,
    ensures
        tag_read(
            ProfileView { tags: tags_after_write(v.tags, sig, typed_tag_bytes(t, p))->Ok_0, ..v },
            sig,
        ).0 == tag_type_read(p, t),
{
    let d = typed_tag_bytes(t, p);
    law_write_raw_then_read(v, sig, d);
    let head = bytes32(tag_type_value(t)) + bytes32(0);
    assert(d.subrange(0, d.len() as int) =~= d);
    lemma_holds_split(d, 0, head, p);
    lemma_holds_split(d, 0, bytes32(tag_type_value(t)), bytes32(0));
    lemma_be32_held(d, 0, tag_type_value(t));
    law_tag_type_round_trip(t);
    assert(d.subrange(8, d.len() as int) =~= p);
}

/// The data whose payload reads back as itself: signatures, dates, colorant
/// orders of at most 16 channels, data, video signals, integer arrays, and
/// texts, dictionaries, named colour lists, sequence descriptions, video
/// card gamma and lookup tables stored as lut16 or lut8 whose contents read
/// back (for lut8, samples that 8 bits hold exactly; for the version 4
/// kind, a lookup table of two-byte samples).
pub open spec fn typed_round_trips(d: TagData, icc_version: u32, sig: TagSignature) -> bool {
    match d {
        TagData::Signature(_) => true,
        TagData::DateTime(_) => true,
        TagData::ColorantOrder(o) => o@.len() <= MAX_CHANNELS,
        TagData::Data(_) => true,
        TagData::VideoSignal(_) => true,
        TagData::UInt8Array(a) => a@.len() + 3 <= u32::MAX,
        TagData::UInt16Array(a) => 2 * a@.len() + 3 <= u32::MAX,
        TagData::UInt32Array(a) => 4 * a@.len() + 3 <= u32::MAX,
        TagData::UInt64Array(a) => 8 * a@.len() + 3 <= u32::MAX,
        TagData::Mlu(m) => distinct_codes(m@) && readable_codes(m@) && mlu_type_bytes(m@).len() <= u32::MAX,
        TagData::Dict(x) => dict_round_trips(x@) && dict_type_bytes(x@, 0).len() <= u32::MAX,
        TagData::NamedColor(l) => ncl2_wf(l@),
        TagData::Vcgt(x) => vcgt_wf(x@) && vcgt_bytes(x@).len() <= u32::MAX,
        TagData::LutV4(l) => v4_stored(l@) == l@ && if is_btoa(sig) {
            btoa_wf(l@) && btoa_bytes(l@).len() + 8 <= u32::MAX
        } else {
            atob_wf(l@) && atob_bytes(l@).len() + 8 <= u32::MAX
        },
        TagData::Pipeline(l, eight) => {
            let t = lut_type_for(icc_version, sig, eight);
            ||| t == TagTypeSignature::Lut16 && lut16_wf(l@)
            ||| t == TagTypeSignature::Lut8 && lut8_wf(l@) && lut8_stored(l@) == l@
        },
        TagData::ProfileSequenceDesc(v) => {
            let es = entries_view(v@);
            &&& es.len() <= MAX_SEQUENCE
            &&& pseq_bytes(es).len() <= u32::MAX
            &&& forall|i: int| 0 <= i < es.len() ==> #[trigger] entry_round_trips(es[i])
        },
        _ => false,
    }
}

proof fn lemma_signature_back(x: u32)
    ensures
        tag_type_read(bytes32(x), TagTypeSignature::Signature) == Ok::<TagDataView, ErrorCode>(TagDataView::Signature(x)),
{
    reveal(tag_type_read);
    let p = bytes32(x);
    assert(p.subrange(0, p.len() as int) =~= p);
    assert(holds_bytes(p, 0, p));
    law_signature_type_round_trip(x, p, 0);
}

proof fn lemma_datetime_back(dt: DateTimeNumber)
    ensures
        tag_type_read(datetime_bytes(dt), TagTypeSignature::DateTime) == Ok::<TagDataView, ErrorCode>(TagDataView::DateTime(dt)),
{
    reveal(tag_type_read);
    let p = datetime_bytes(dt);
    assert(p.subrange(0, p.len() as int) =~= p);
    assert(holds_bytes(p, 0, p));
    law_datetime_type_round_trip(dt, p, 0);
}

proof fn lemma_colorant_order_back(o: Seq<u8>)
    requires
        o.len() <= MAX_CHANNELS,
    ensures
        tag_type_read(bytes32(o.len() as u32) + o, TagTypeSignature::ColorantOrder) == Ok::<TagDataView, ErrorCode>(TagDataView::ColorantOrder(o)),
{
    reveal(tag_type_read);
    let p = bytes32(o.len() as u32) + o;
    assert(p.subrange(0, p.len() as int) =~= p);
    assert(holds_bytes(p, 0, p));
    law_colorant_order_round_trip(o, p, 0);
}

proof fn lemma_data_back(flags: u32, x: Seq<u8>)
    ensures
        tag_type_read(bytes32(flags) + x, TagTypeSignature::Data) == Ok::<TagDataView, ErrorCode>(TagDataView::Data(flags, x)),
{
    let p = bytes32(flags) + x;
    assert(p.subrange(0, p.len() as int) =~= p);
    law_data_type_round_trip(flags, x, p, 0);
    let size = p.len() as int;
    assert(size >= 4);
    assert(p.subrange(4, size) =~= x);
    assert(tag_type_read(p, TagTypeSignature::Data) == Ok::<TagDataView, ErrorCode>(TagDataView::Data(flags, x))) by {
        reveal(tag_type_read);
    }
}

proof fn lemma_uint8_back(a: Seq<u8>)
    ensures
        tag_type_read(a, TagTypeSignature::UInt8Array) == Ok::<TagDataView, ErrorCode>(TagDataView::UInt8Array(a)),
{
    reveal(tag_type_read);
    let p = a;
    assert(p.subrange(0, p.len() as int) =~= p);
    assert(holds_bytes(p, 0, p));
    
}

proof fn lemma_uint16_back(a: Seq<u16>)
    ensures
        tag_type_read(bytes16_all(a), TagTypeSignature::UInt16Array) == Ok::<TagDataView, ErrorCode>(TagDataView::UInt16Array(a)),
{
    reveal(tag_type_read);
    let p = bytes16_all(a);
    assert(p.subrange(0, p.len() as int) =~= p);
    assert(holds_bytes(p, 0, p));
    law_uint16_type_round_trip(a, p, 0);
}

proof fn lemma_uint32_back(a: Seq<u32>)
    ensures
        tag_type_read(bytes32_all(a), TagTypeSignature::UInt32Array) == Ok::<TagDataView, ErrorCode>(TagDataView::UInt32Array(a)),
{
    reveal(tag_type_read);
    let p = bytes32_all(a);
    assert(p.subrange(0, p.len() as int) =~= p);
    assert(holds_bytes(p, 0, p));
    law_uint32_type_round_trip(a, p, 0);
}

proof fn lemma_uint64_back(a: Seq<u64>)
    ensures
        tag_type_read(bytes64_all(a), TagTypeSignature::UInt64Array) == Ok::<TagDataView, ErrorCode>(TagDataView::UInt64Array(a)),
{
    reveal(tag_type_read);
    let p = bytes64_all(a);
    assert(p.subrange(0, p.len() as int) =~= p);
    assert(holds_bytes(p, 0, p));
    law_uint64_type_round_trip(a, p, 0);
}

proof fn lemma_mlu_back(m: Seq<MluItem>)
    requires
        distinct_codes(m),
        readable_codes(m),
        mlu_type_bytes(m).len() <= u32::MAX,
    ensures
        tag_type_read(mlu_type_bytes(m), TagTypeSignature::MultiLocalizedUnicode) == Ok::<TagDataView, ErrorCode>(TagDataView::Mlu(m)),
{
    reveal(tag_type_read);
    let p = mlu_type_bytes(m);
    assert(p.subrange(0, p.len() as int) =~= p);
    assert(holds_bytes(p, 0, p));
    law_mlu_type_round_trip(m, p, 0);
}

proof fn lemma_dict_back(x: Seq<DictItem>)
    requires
        dict_round_trips(x),
        dict_type_bytes(x, 0).len() <= u32::MAX,
    ensures
        tag_type_read(dict_type_bytes(x, 0), TagTypeSignature::Dict) == Ok::<TagDataView, ErrorCode>(TagDataView::Dict(x)),
{
    reveal(tag_type_read);
    let p = dict_type_bytes(x, 0);
    assert(p.subrange(0, p.len() as int) =~= p);
    assert(holds_bytes(p, 0, p));
    law_dict_type_round_trip(x, p, 0);
}

proof fn lemma_named_color_back(l: NamedColorListView)
    requires
        ncl2_wf(l),
    ensures
        tag_type_read(ncl2_bytes(l), TagTypeSignature::NamedColor2) == Ok::<TagDataView, ErrorCode>(TagDataView::NamedColor(l)),
{
    reveal(tag_type_read);
    let p = ncl2_bytes(l);
    assert(p.subrange(0, p.len() as int) =~= p);
    assert(holds_bytes(p, 0, p));
    law_named_color_round_trip(l, p, 0);
}

proof fn lemma_pseq_back(es: Seq<SeqEntryView>)
    requires
        es.len() <= MAX_SEQUENCE,
        pseq_bytes(es).len() <= u32::MAX,
        forall|i: int| 0 <= i < es.len() ==> #[trigger] entry_round_trips(es[i]),
    ensures
        tag_type_read(pseq_bytes(es), TagTypeSignature::ProfileSequenceDesc) == Ok::<TagDataView, ErrorCode>(TagDataView::ProfileSequenceDesc(es)),
{
    reveal(tag_type_read);
    let p = pseq_bytes(es);
    assert(p.subrange(0, p.len() as int) =~= p);
    assert(holds_bytes(p, 0, p));
    law_pseq_round_trip(es, p, 0);
}

proof fn lemma_vcgt_back(x: VcgtView)
    requires
        vcgt_wf(x),
        vcgt_bytes(x).len() <= u32::MAX,
    ensures
        tag_type_read(vcgt_bytes(x), TagTypeSignature::Vcgt) == Ok::<TagDataView, ErrorCode>(TagDataView::Vcgt(x)),
{
    let p = vcgt_bytes(x);
    assert(p.subrange(0, p.len() as int) =~= p);
    law_vcgt_round_trip(x, p, 0, p.len() as u32);
    assert(tag_type_read(p, TagTypeSignature::Vcgt) == Ok::<TagDataView, ErrorCode>(TagDataView::Vcgt(x))) by {
        reveal(tag_type_read);
    }
}

proof fn lemma_lut16_back(l: LutView)
    requires
        lut16_wf(l),
    ensures
        tag_type_read(lut16_bytes(l), TagTypeSignature::Lut16) == Ok::<TagDataView, ErrorCode>(TagDataView::Pipeline(l, false)),
{
    let p = lut16_bytes(l);
    assert(p.subrange(0, p.len() as int) =~= p);
    law_lut16_round_trip(l, p, 0);
    assert(tag_type_read(p, TagTypeSignature::Lut16) == Ok::<TagDataView, ErrorCode>(TagDataView::Pipeline(l, false))) by {
        reveal(tag_type_read);
    }
}

proof fn lemma_lut8_back(l: LutView)
    requires
        lut8_wf(l),
        lut8_stored(l) == l,
    ensures
        tag_type_read(lut8_bytes(l), TagTypeSignature::Lut8) == Ok::<TagDataView, ErrorCode>(TagDataView::Pipeline(l, true)),
{
    let p = lut8_bytes(l);
    assert(p.subrange(0, p.len() as int) =~= p);
    law_lut8_round_trip(l, p, 0);
    assert(tag_type_read(p, TagTypeSignature::Lut8) == Ok::<TagDataView, ErrorCode>(TagDataView::Pipeline(l, true))) by {
        reveal(tag_type_read);
    }
}

proof fn lemma_atob_back(l: LutAtoBView)
    requires
        atob_wf(l),
        atob_bytes(l).len() + 8 <= u32::MAX,
        v4_stored(l) == l,
    ensures
        tag_type_read(atob_bytes(l), TagTypeSignature::LutAtoB) == Ok::<TagDataView, ErrorCode>(TagDataView::LutV4(l)),
{
    let p = atob_bytes(l);
    assert(p.subrange(0, p.len() as int) =~= p);
    law_atob_round_trip(l, p);
    assert(tag_type_read(p, TagTypeSignature::LutAtoB) == Ok::<TagDataView, ErrorCode>(TagDataView::LutV4(l))) by {
        reveal(tag_type_read);
    }
}

proof fn lemma_btoa_back(l: LutAtoBView)
    requires
        btoa_wf(l),
        btoa_bytes(l).len() + 8 <= u32::MAX,
        v4_stored(l) == l,
    ensures
        tag_type_read(btoa_bytes(l), TagTypeSignature::LutBtoA) == Ok::<TagDataView, ErrorCode>(TagDataView::LutV4(l)),
{
    let p = btoa_bytes(l);
    assert(p.subrange(0, p.len() as int) =~= p);
    law_btoa_round_trip(l, p);
    assert(tag_type_read(p, TagTypeSignature::LutBtoA) == Ok::<TagDataView, ErrorCode>(TagDataView::LutV4(l))) by {
        reveal(tag_type_read);
    }
}

/// A payload as `write_tag_type` writes it for data that reads back (see
/// `typed_round_trips`), read by the type it was written as, gives the data.
#[verifier::spinoff_prover]
#[verifier::rlimit(80)]
pub proof fn law_typed_payload_round_trip(d: TagData, icc_version: u32, sig: TagSignature)
    requires
        typed_round_trips(d, icc_version, sig),
    ensures
        tag_payload(d, icc_version, sig, 0) matches Ok((t, p)) && tag_type_read(p, t) == Ok::<
            TagDataView,
            ErrorCode,
        >(d@),
{
    match d {
        TagData::Signature(x) => lemma_signature_back(x),
        TagData::DateTime(dt) => lemma_datetime_back(dt),
        TagData::ColorantOrder(o) => lemma_colorant_order_back(o@),
        TagData::Data(x) => lemma_data_back(x.flags, x.data@),
        TagData::VideoSignal(vs) => {
            reveal(tag_type_read);
        },
        TagData::UInt8Array(a) => lemma_uint8_back(a@),
        TagData::UInt16Array(a) => lemma_uint16_back(a@),
        TagData::UInt32Array(a) => lemma_uint32_back(a@),
        TagData::UInt64Array(a) => lemma_uint64_back(a@),
        TagData::Mlu(m) => lemma_mlu_back(m@),
        TagData::Dict(x) => lemma_dict_back(x@),
        TagData::NamedColor(l) => lemma_named_color_back(l@),
        TagData::ProfileSequenceDesc(v) => lemma_pseq_back(entries_view(v@)),
        TagData::Vcgt(x) => lemma_vcgt_back(x@),
        TagData::LutV4(l) => {
            if is_btoa(sig) {
                lemma_btoa_back(l@);
            } else {
                lemma_atob_back(l@);
            }
        },
        TagData::Pipeline(l, eight) => {
            if lut_type_for(icc_version, sig, eight) == TagTypeSignature::Lut16 {
                lemma_lut16_back(l@);
            } else {
                lemma_lut8_back(l@);
            }
        },
        _ => {},
    }
}

/// Data written to a tag with `write_tag` reads back with `read_tag` as
/// itself, for data whose payload reads back (see `typed_round_trips`),
/// whenever the write took place.
pub proof fn law_write_tag_read_tag(v: ProfileView, sig: TagSignature, d: TagData)
    requires
        typed_round_trips(d, v.header.version, sig),
        tag_payload(d, v.header.version, sig, 0) matches Ok((t, p)) && tags_after_write(
            v.tags,
            sig,
            typed_tag_bytes(t, p),
        ) is Ok,
    ensures
        ({
            let (t, p) = tag_payload(d, v.header.version, sig, 0)->Ok_0;
            let after = ProfileView { tags: tags_after_write(v.tags, sig, typed_tag_bytes(t, p))->Ok_0, ..v };
            tag_read(after, sig).0 == Ok::<TagDataView, ErrorCode>(d@)
        }),
{
    law_typed_payload_round_trip(d, v.header.version, sig);
    let (t, p) = tag_payload(d, v.header.version, sig, 0)->Ok_0;
    law_write_tag_then_read_tag(v, sig, t, p);
}

} // verus!
