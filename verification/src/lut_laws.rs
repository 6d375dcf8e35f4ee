//! Reading back what was written: lookup table and video card gamma
//! payloads read as the values they were written from.
use vstd::prelude::*;
use crate::lut::{
    LutView, grid_entries, lut16_bytes, lut16_read, lut8_bytes, lut8_read, matrix_at, matrix_words,
    narrow_all, widen_all,
};
use crate::error::ErrorCode;
use crate::profile::{be32, bytes16, bytes32};
use crate::tag_arrays::{be32_seq, bytes16_all, bytes32_all};
use crate::tag_laws::{
    holds_bytes, law_uint16_type_round_trip, law_uint32_type_round_trip, lemma_be16_held,
    lemma_be32_held, lemma_holds_byte, lemma_holds_split,
};
use crate::tag_types::fits;
use crate::vcgt::{
    VCGT_FORMULA_TYPE, VCGT_TABLE_TYPE, VcgtView, formula_fault, vcgt_bytes, vcgt_read,
};

verus! {

/// A table that a 16-bit lookup table payload can carry: at least one
/// channel each way, no grid of a single point, curves of at most 0x7fff
/// entries, and tables as long as the header says.
pub open spec fn lut16_wf(l: LutView) -> bool {
    &&& l.input_channels >= 1
    &&& l.output_channels >= 1
    &&& l.clut_points != 1
    &&& l.input_entries <= 0x7fff
    &&& l.output_entries <= 0x7fff
    &&& l.matrix.len() == 9
    &&& l.input_tables.len() == l.input_channels * l.input_entries
    &&& l.output_tables.len() == l.output_channels * l.output_entries
    &&& grid_entries(l) matches Some(n) && l.clut.len() == n
}

/// A table that an 8-bit lookup table payload can carry: as for 16 bits,
/// with curves of 256 entries.
pub open spec fn lut8_wf(l: LutView) -> bool {
    &&& lut16_wf(l)
    &&& l.input_entries == 256
    &&& l.output_entries == 256
}

/// The table with each sample rounded to 8 bits and widened back.
pub open spec fn lut8_stored(l: LutView) -> LutView {
    LutView {
        input_channels: l.input_channels,
        output_channels: l.output_channels,
        clut_points: l.clut_points,
        matrix: l.matrix,
        input_entries: l.input_entries,
        output_entries: l.output_entries,
        input_tables: widen_all(narrow_all(l.input_tables)),
        clut: widen_all(narrow_all(l.clut)),
        output_tables: widen_all(narrow_all(l.output_tables)),
    }
}

proof fn lemma_matrix_held(m: Seq<i32>, b: Seq<u8>, o: int)
    requires
        m.len() == 9,
        holds_bytes(b, o, bytes32_all(matrix_words(m))),
    ensures
        bytes32_all(matrix_words(m)).len() == 36,
        fits(b, o, 36),
        matrix_at(b, o) == m,
{
    law_uint32_type_round_trip(matrix_words(m), b, o);
    assert forall|k: int| 0 <= k < 9 implies #[trigger] matrix_at(b, o)[k] == m[k] by {
        assert(be32_seq(b, o, 9)[k] == matrix_words(m)[k]);
        let v = m[k];
        assert(((v as u32) as i32) == v) by (bit_vector);
    }
    assert(matrix_at(b, o) =~= m);
}

proof fn lemma_narrowed_held(t: Seq<u16>, b: Seq<u8>, o: int)
    requires
        holds_bytes(b, o, narrow_all(t)),
    ensures
        fits(b, o, t.len() as int),
        widen_all(b.subrange(o, o + t.len())) == widen_all(narrow_all(t)),
{
}

/// A 16-bit lookup table payload reads back as the table it was written
/// from, for every table such a payload can carry.
pub proof fn law_lut16_round_trip(l: LutView, b: Seq<u8>, p: int)
    requires
        lut16_wf(l),
        holds_bytes(b, p, lut16_bytes(l)),
    ensures
        lut16_read(b, p) == Ok::<LutView, ErrorCode>(l),
{
    let h = seq![l.input_channels, l.output_channels, l.clut_points, 0u8];
    let w = bytes32_all(matrix_words(l.matrix));
    let a1 = h + bytes16(l.input_entries);
    let a2 = a1 + bytes16(l.output_entries);
    let a3 = a2 + w;
    let a4 = a3 + bytes16_all(l.input_tables);
    let a5 = a4 + bytes16_all(l.clut);
    assert(lut16_bytes(l) == a5 + bytes16_all(l.output_tables));
    lemma_holds_split(b, p, a5, bytes16_all(l.output_tables));
    lemma_holds_split(b, p, a4, bytes16_all(l.clut));
    lemma_holds_split(b, p, a3, bytes16_all(l.input_tables));
    lemma_holds_split(b, p, a2, w);
    lemma_holds_split(b, p, a1, bytes16(l.output_entries));
    lemma_holds_split(b, p, h, bytes16(l.input_entries));
    lemma_holds_byte(b, p, h, 0);
    lemma_holds_byte(b, p, h, 1);
    lemma_holds_byte(b, p, h, 2);
    lemma_be16_held(b, p + 4, l.input_entries);
    lemma_be16_held(b, p + 6, l.output_entries);
    lemma_matrix_held(l.matrix, b, p + 8);
    law_uint16_type_round_trip(l.input_tables, b, p + 44);
    let ni = l.input_tables.len() as int;
    law_uint16_type_round_trip(l.clut, b, p + 44 + 2 * ni);
    let n = l.clut.len() as int;
    law_uint16_type_round_trip(l.output_tables, b, p + 44 + 2 * ni + 2 * n);
}

/// An 8-bit lookup table payload reads back as the table it was written
/// from, each sample rounded to 8 bits and widened back, for every table
/// such a payload can carry.
pub proof fn law_lut8_round_trip(l: LutView, b: Seq<u8>, p: int)
    requires
        lut8_wf(l),
        holds_bytes(b, p, lut8_bytes(l)),
    ensures
        lut8_read(b, p) == Ok::<LutView, ErrorCode>(lut8_stored(l)),
{
    let h = seq![l.input_channels, l.output_channels, l.clut_points, 0u8];
    let w = bytes32_all(matrix_words(l.matrix));
    let a3 = h + w;
    let a4 = a3 + narrow_all(l.input_tables);
    let a5 = a4 + narrow_all(l.clut);
    assert(lut8_bytes(l) == a5 + narrow_all(l.output_tables));
    lemma_holds_split(b, p, a5, narrow_all(l.output_tables));
    lemma_holds_split(b, p, a4, narrow_all(l.clut));
    lemma_holds_split(b, p, a3, narrow_all(l.input_tables));
    lemma_holds_split(b, p, h, w);
    lemma_holds_byte(b, p, h, 0);
    lemma_holds_byte(b, p, h, 1);
    lemma_holds_byte(b, p, h, 2);
    lemma_matrix_held(l.matrix, b, p + 4);
    lemma_narrowed_held(l.input_tables, b, p + 40);
    let ni = l.input_tables.len() as int;
    lemma_narrowed_held(l.clut, b, p + 40 + ni);
    let n = l.clut.len() as int;
    lemma_narrowed_held(l.output_tables, b, p + 40 + ni + n);
}

/// A video card gamma payload that reads back: a table of three curves of
/// the stated length, or for each channel a gamma above zero and a maximum
/// not below the minimum.
pub open spec fn vcgt_wf(v: VcgtView) -> bool {
    match v {
        VcgtView::Table { entries, samples } => samples.len() == 3 * entries,
        VcgtView::Formula { params } => {
            &&& params.len() == 9
            &&& forall|k: int| 0 <= k < 3 ==> #[trigger] params[3 * k] > 0 && params[3 * k + 2] >= params[3 * k + 1]
        },
    }
}

proof fn lemma_vcgt_table_back(entries: u16, samples: Seq<u16>, b: Seq<u8>, p: int, size: u32)
    requires
        samples.len() == 3 * entries,
        holds_bytes(b, p, vcgt_bytes(VcgtView::Table { entries, samples })),
        size >= vcgt_bytes(VcgtView::Table { entries, samples }).len(),
    ensures
        vcgt_read(b, p, size) == Ok::<VcgtView, ErrorCode>(VcgtView::Table { entries, samples }),
{
    let v = VcgtView::Table { entries, samples };
    let h1 = bytes32(VCGT_TABLE_TYPE);
    let a1 = h1 + bytes16(3);
    let a2 = a1 + bytes16(entries);
    let a3 = a2 + bytes16(2);
    assert(vcgt_bytes(v) == a3 + bytes16_all(samples));
    lemma_holds_split(b, p, a3, bytes16_all(samples));
    lemma_holds_split(b, p, a2, bytes16(2));
    lemma_holds_split(b, p, a1, bytes16(entries));
    lemma_holds_split(b, p, h1, bytes16(3));
    lemma_be32_held(b, p, VCGT_TABLE_TYPE);
    lemma_be16_held(b, p + 4, 3);
    lemma_be16_held(b, p + 6, entries);
    lemma_be16_held(b, p + 8, 2);
    law_uint16_type_round_trip(samples, b, p + 10);
    assert(3 * entries * 2 == 2 * samples.len());
    assert(vcgt_bytes(v).len() == 10 + 2 * samples.len());
    assert(fits(b, p, 4) && fits(b, p + 4, 6));
    assert(be32(b, p) == VCGT_TABLE_TYPE);
}

proof fn lemma_vcgt_formula_back(params: Seq<i32>, b: Seq<u8>, p: int)
    requires
        vcgt_wf(VcgtView::Formula { params }),
        holds_bytes(b, p, vcgt_bytes(VcgtView::Formula { params })),
    ensures
        vcgt_read(b, p, 0) == Ok::<VcgtView, ErrorCode>(VcgtView::Formula { params }),
        fits(b, p, 4),
        be32(b, p) == VCGT_FORMULA_TYPE,
{
    let v = VcgtView::Formula { params };
    let h1 = bytes32(VCGT_FORMULA_TYPE);
    assert(vcgt_bytes(v) == h1 + bytes32_all(matrix_words(params)));
    lemma_holds_split(b, p, h1, bytes32_all(matrix_words(params)));
    lemma_be32_held(b, p, VCGT_FORMULA_TYPE);
    lemma_matrix_held(params, b, p + 4);
    let q = p + 4;
    let m = matrix_at(b, q);
    assert forall|k: int| 0 <= k < 3 implies #[trigger] formula_fault(b, q, k) == formula_fault(
        b,
        q,
        k + 1,
    ) by {
        assert(m[3 * k] == params[3 * k]);
        assert(m[3 * k + 1] == params[3 * k + 1]);
        assert(m[3 * k + 2] == params[3 * k + 2]);
        assert(q + 12 * k == q + 4 * (3 * k));
        assert(q + 12 * k + 4 == q + 4 * (3 * k + 1));
        assert(q + 12 * k + 8 == q + 4 * (3 * k + 2));
    }
    assert(formula_fault(b, q, 0) == formula_fault(b, q, 1));
    assert(formula_fault(b, q, 1) == formula_fault(b, q, 2));
    assert(formula_fault(b, q, 2) == formula_fault(b, q, 3));
}

/// A video card gamma payload reads back as the value it was written from,
/// from a tag at least as large as the payload.
pub proof fn law_vcgt_round_trip(v: VcgtView, b: Seq<u8>, p: int, size: u32)
    requires
        vcgt_wf(v),
        holds_bytes(b, p, vcgt_bytes(v)),
        size >= vcgt_bytes(v).len(),
    ensures
        vcgt_read(b, p, size) == Ok::<VcgtView, ErrorCode>(v),
{
    match v {
        VcgtView::Table { entries, samples } => {
            lemma_vcgt_table_back(entries, samples, b, p, size);
        },
        VcgtView::Formula { params } => {
            lemma_vcgt_formula_back(params, b, p);
        },
    }
}

} // verus!
