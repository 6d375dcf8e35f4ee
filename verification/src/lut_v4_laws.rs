//! Reading back what was written: the lookup table payloads of version 4
//! profiles read as the tables they were written from.
use vstd::prelude::*;
use crate::error::ErrorCode;
use crate::lut::matrix_words;
use crate::lut_atob::{
    CURVE_SIGNATURE, ClutView, CurveView, LutAtoBView, PARAMETRIC_SIGNATURE, atob_offsets_ok,
    atob_read, btoa_read, clut_read, curve_read, curve_set_read, grid_samples, has_single_point,
    matrix_read, offset_ok, param_count, s15_seq, seek_in,
};
use crate::lut_v4_write::{
    atob_bytes, atob_header, atob_parts, btoa_bytes, btoa_header, btoa_parts, clut_bytes,
    curve_bytes, curve_set_bytes, opt_clut_bytes, opt_curves_bytes, opt_matrix_bytes, pad4,
    part_offset, v4_header,
};
use crate::profile::{align4, be16, be32, bytes16, bytes32, zeros};
use crate::tag_arrays::{be32_seq, bytes16_all, bytes32_all};
use crate::tag_laws::{
    holds_bytes, law_uint16_type_round_trip, law_uint32_type_round_trip, lemma_be16_held,
    lemma_be32_held, lemma_holds_byte, lemma_holds_split,
};
use crate::tag_types::fits;

verus! {

/// A curve that reads back as itself: a table of 2 to 0x7fff entries, or a
/// formula of a known kind with its number of parameters.
pub open spec fn curve_wf(c: CurveView) -> bool {
    match c {
        CurveView::Table(t) => 2 <= t.len() <= 0x7fff,
        CurveView::Parametric(k, p) => k <= 4 && p.len() == param_count(k),
        _ => true,
    }
}

/// An optional list of `n` curves that read back.
pub open spec fn curves_wf(o: Option<Seq<CurveView>>, n: int) -> bool {
    o matches Some(cs) ==> cs.len() == n && forall|i: int| 0 <= i < cs.len() ==> #[trigger] curve_wf(cs[i])
}

/// An optional lookup table that reads back: fifteen grid sizes, none of a
/// single point among the inputs, at most fifteen inputs, and as many
/// samples as the grid holds.
pub open spec fn clut_wf(o: Option<ClutView>, inp: int, out: int) -> bool {
    o matches Some(c) ==> {
        &&& inp <= 15
        &&& c.grid.len() == 15
        &&& !has_single_point(c.grid, inp)
        &&& grid_samples(c.grid, inp, out) matches Some(n) && c.table.len() == n
    }
}

/// A device-to-PCS table that reads back: A curves one per input, M and B
/// curves one per output, and a matrix of nine numbers and three offsets.
pub open spec fn atob_wf(v: LutAtoBView) -> bool {
    &&& curves_wf(v.a_curves, v.input_channels as int)
    &&& curves_wf(v.m_curves, v.output_channels as int)
    &&& curves_wf(v.b_curves, v.output_channels as int)
    &&& clut_wf(v.clut, v.input_channels as int, v.output_channels as int)
    &&& v.matrix matches Some(m) ==> m.len() == 12
}

/// A PCS-to-device table that reads back: B and M curves one per input, A
/// curves one per output.
pub open spec fn btoa_wf(v: LutAtoBView) -> bool {
    &&& curves_wf(v.b_curves, v.input_channels as int)
    &&& curves_wf(v.m_curves, v.input_channels as int)
    &&& curves_wf(v.a_curves, v.output_channels as int)
    &&& clut_wf(v.clut, v.input_channels as int, v.output_channels as int)
    &&& v.matrix matches Some(m) ==> m.len() == 12
}

/// The table as it is stored: a lookup table's samples always take two
/// bytes.
pub open spec fn v4_stored(v: LutAtoBView) -> LutAtoBView {
    LutAtoBView {
        clut: match v.clut {
            Some(c) => Some(ClutView { grid: c.grid, precision: 2, table: c.table }),
            None => None,
        },
        ..v
    }
}

proof fn lemma_align4(x: int)
    requires
        0 <= x,
    ensures
        align4(x) == x + pad4(x),
{
}

proof fn lemma_s15_held(p: Seq<i32>, b: Seq<u8>, o: int)
    requires
        holds_bytes(b, o, bytes32_all(matrix_words(p))),
    ensures
        bytes32_all(matrix_words(p)).len() == 4 * p.len(),
        fits(b, o, 4 * p.len() as int),
        s15_seq(b, o, p.len() as int) == p,
{
    law_uint32_type_round_trip(matrix_words(p), b, o);
    assert forall|k: int| 0 <= k < p.len() implies #[trigger] s15_seq(b, o, p.len() as int)[k] == p[k] by {
        assert(be32_seq(b, o, p.len() as int)[k] == matrix_words(p)[k]);
        let v = p[k];
        assert(((v as u32) as i32) == v) by (bit_vector);
    }
    assert(s15_seq(b, o, p.len() as int) =~= p);
}

proof fn lemma_curve_back(s: Seq<u8>, p: int, c: CurveView)
    requires
        curve_wf(c),
        holds_bytes(s, p, curve_bytes(c)),
    ensures
        curve_read(s, p) == Ok::<(CurveView, int), ErrorCode>((c, p + curve_bytes(c).len())),
{
    reveal(curve_read);
    reveal(curve_bytes);
    match c {
        CurveView::Identity => {
            let h = bytes32(CURVE_SIGNATURE) + bytes32(0);
            lemma_holds_split(s, p, h, bytes32(0));
            lemma_holds_split(s, p, bytes32(CURVE_SIGNATURE), bytes32(0));
            lemma_be32_held(s, p, CURVE_SIGNATURE);
            lemma_be32_held(s, p + 8, 0);
        },
        CurveView::Gamma(g) => {
            let h = bytes32(CURVE_SIGNATURE) + bytes32(0);
            lemma_holds_split(s, p, h + bytes32(1), bytes16(g));
            lemma_holds_split(s, p, h, bytes32(1));
            lemma_holds_split(s, p, bytes32(CURVE_SIGNATURE), bytes32(0));
            lemma_be32_held(s, p, CURVE_SIGNATURE);
            lemma_be32_held(s, p + 8, 1);
            lemma_be16_held(s, p + 12, g);
        },
        CurveView::Table(t) => {
            let h = bytes32(CURVE_SIGNATURE) + bytes32(0);
            lemma_holds_split(s, p, h + bytes32(t.len() as u32), bytes16_all(t));
            lemma_holds_split(s, p, h, bytes32(t.len() as u32));
            lemma_holds_split(s, p, bytes32(CURVE_SIGNATURE), bytes32(0));
            lemma_be32_held(s, p, CURVE_SIGNATURE);
            lemma_be32_held(s, p + 8, t.len() as u32);
            law_uint16_type_round_trip(t, s, p + 12);
        },
        CurveView::Parametric(k, q) => {
            let h = bytes32(PARAMETRIC_SIGNATURE) + bytes32(0);
            let w = bytes32_all(matrix_words(q));
            lemma_holds_split(s, p, h + bytes16(k) + bytes16(0), w);
            lemma_holds_split(s, p, h + bytes16(k), bytes16(0));
            lemma_holds_split(s, p, h, bytes16(k));
            lemma_holds_split(s, p, bytes32(PARAMETRIC_SIGNATURE), bytes32(0));
            lemma_be32_held(s, p, PARAMETRIC_SIGNATURE);
            lemma_be16_held(s, p + 8, k);
            lemma_s15_held(q, s, p + 12);
        },
    }
}

proof fn lemma_curve_set_back(s: Seq<u8>, p: int, cs: Seq<CurveView>)
    requires
        0 <= p,
        forall|i: int| 0 <= i < cs.len() ==> #[trigger] curve_wf(cs[i]),
        holds_bytes(s, p, curve_set_bytes(cs, p)),
    ensures
        curve_set_read(s, p, cs.len()) == Ok::<(Seq<CurveView>, int), ErrorCode>(
            (cs, p + curve_set_bytes(cs, p).len()),
        ),
    decreases cs.len(),
{
    reveal(curve_set_bytes);
    if cs.len() > 0 {
        let pre = curve_set_bytes(cs.drop_last(), p);
        let cb = curve_bytes(cs.last());
        let r = p + pre.len() + cb.len();
        lemma_holds_split(s, p, pre + cb, zeros(pad4(r)));
        lemma_holds_split(s, p, pre, cb);
        assert(curve_wf(cs[cs.len() - 1]));
        lemma_curve_set_back(s, p, cs.drop_last());
        assert(cs.drop_last().len() == (cs.len() - 1) as nat);
        lemma_curve_back(s, p + pre.len(), cs.last());
        lemma_align4(r);
        assert(cs.drop_last().push(cs.last()) =~= cs);
    } else {
        assert(cs =~= Seq::<CurveView>::empty());
    }
}

proof fn lemma_opt_curves_back(s: Seq<u8>, p: int, o: Option<Seq<CurveView>>, n: int)
    requires
        0 <= p,
        0 <= n,
        curves_wf(o, n),
        o is Some,
        holds_bytes(s, p, opt_curves_bytes(o, p)),
    ensures
        curve_set_read(s, p, n as nat) == Ok::<(Seq<CurveView>, int), ErrorCode>(
            (o->0, p + opt_curves_bytes(o, p).len()),
        ),
{
    let cs = o->0;
    lemma_curve_set_back(s, p, cs);
}

proof fn lemma_clut_back(s: Seq<u8>, p: int, c: ClutView, inp: int, out: int)
    requires
        0 <= p,
        clut_wf(Some(c), inp, out),
        holds_bytes(s, p, clut_bytes(c)),
    ensures
        clut_read(s, p, inp, out) == Ok::<(ClutView, int), ErrorCode>(
            (ClutView { grid: c.grid, precision: 2, table: c.table }, p + clut_bytes(c).len()),
        ),
{
    reveal(clut_read);
    let h = seq![2u8, 0u8, 0u8, 0u8];
    lemma_holds_split(s, p, c.grid + h, bytes16_all(c.table));
    lemma_holds_split(s, p, c.grid, h);
    lemma_holds_byte(s, p + 15, h, 0);
    law_uint16_type_round_trip(c.table, s, p + 19);
}

proof fn lemma_header_back(s: Seq<u8>, v: LutAtoBView, ob: u32, ox: u32, om: u32, oc: u32, oa: u32)
    requires
        holds_bytes(s, 0, v4_header(v, ob, ox, om, oc, oa)),
    ensures
        v4_header(v, ob, ox, om, oc, oa).len() == 24,
        fits(s, 0, 24),
        s[0] == v.input_channels,
        s[1] == v.output_channels,
        be32(s, 4) == ob,
        be32(s, 8) == ox,
        be32(s, 12) == om,
        be32(s, 16) == oc,
        be32(s, 20) == oa,
{
    reveal(v4_header);
    let h = seq![v.input_channels, v.output_channels, 0u8, 0u8];
    let h1 = h + bytes32(ob);
    let h2 = h1 + bytes32(ox);
    let h3 = h2 + bytes32(om);
    let h4 = h3 + bytes32(oc);
    lemma_holds_split(s, 0, h4, bytes32(oa));
    lemma_holds_split(s, 0, h3, bytes32(oc));
    lemma_holds_split(s, 0, h2, bytes32(om));
    lemma_holds_split(s, 0, h1, bytes32(ox));
    lemma_holds_split(s, 0, h, bytes32(ob));
    lemma_holds_byte(s, 0, h, 0);
    lemma_holds_byte(s, 0, h, 1);
    lemma_be32_held(s, 4, ob);
    lemma_be32_held(s, 8, ox);
    lemma_be32_held(s, 12, om);
    lemma_be32_held(s, 16, oc);
    lemma_be32_held(s, 20, oa);
}

proof fn lemma_matrix_back(s: Seq<u8>, p: int, m: Seq<i32>)
    requires
        m.len() == 12,
        holds_bytes(s, p, bytes32_all(matrix_words(m))),
    ensures
        matrix_read(s, p) == Ok::<(Seq<i32>, int), ErrorCode>((m, p + 48)),
        bytes32_all(matrix_words(m)).len() == 48,
{
    lemma_s15_held(m, s, p);
}

/// Splits `x` held at `o` into its five parts.
proof fn lemma_parts_held(s: Seq<u8>, o: int, a: Seq<u8>, c: Seq<u8>, m: Seq<u8>, x: Seq<u8>, b: Seq<u8>)
    requires
        holds_bytes(s, o, a + c + m + x + b),
    ensures
        holds_bytes(s, o, a),
        holds_bytes(s, o + a.len(), c),
        holds_bytes(s, o + a.len() + c.len(), m),
        holds_bytes(s, o + a.len() + c.len() + m.len(), x),
        holds_bytes(s, o + a.len() + c.len() + m.len() + x.len(), b),
{
    lemma_holds_split(s, o, a + c + m + x, b);
    lemma_holds_split(s, o, a + c + m, x);
    lemma_holds_split(s, o, a + c, m);
    lemma_holds_split(s, o, a, c);
}

/// A device-to-PCS payload reads back as the table it was written from, its
/// lookup table stored with two bytes per sample, for every table it can
/// carry; its offsets meet what the reader asks of them.
pub proof fn law_atob_round_trip(v: LutAtoBView, s: Seq<u8>)
    requires
        atob_wf(v),
        holds_bytes(s, 0, atob_bytes(v)),
        atob_bytes(v).len() + 8 <= u32::MAX,
    ensures
        atob_offsets_ok(s),
        atob_read(s) == Ok::<LutAtoBView, ErrorCode>(v4_stored(v)),
{
    let (a, c, m, x, b) = atob_parts(v);
    let p1: int = 24int + a.len();
    let p2: int = p1 + c.len();
    let p3: int = p2 + m.len();
    let p4: int = p3 + x.len();
    let hdr = atob_header(v);
    lemma_holds_split(s, 0, hdr, a + c + m + x + b);
    lemma_header_back(
        s,
        v,
        part_offset(v.b_curves is Some, p4),
        part_offset(v.matrix is Some, p3),
        part_offset(v.m_curves is Some, p2),
        part_offset(v.clut is Some, p1),
        part_offset(v.a_curves is Some, 24),
    );
    lemma_parts_held(s, 24, a, c, m, x, b);
    let inp = v.input_channels;
    let out = v.output_channels;
    assert(offset_ok(be32(s, 4)) && offset_ok(be32(s, 8)) && offset_ok(be32(s, 12)) && offset_ok(
        be32(s, 16),
    ) && offset_ok(be32(s, 20)));
    if v.a_curves is Some {
        lemma_opt_curves_back(s, 24, v.a_curves, inp as int);
        assert(seek_in(s, 24, 24) == 24);
    }
    if v.clut is Some {
        lemma_clut_back(s, p1, v.clut->0, inp as int, out as int);
    }
    if v.m_curves is Some {
        lemma_opt_curves_back(s, p2, v.m_curves, out as int);
    }
    if v.matrix is Some {
        lemma_matrix_back(s, p3, v.matrix->0);
    }
    if v.b_curves is Some {
        lemma_opt_curves_back(s, p4, v.b_curves, out as int);
    }
}

/// A PCS-to-device payload reads back as the table it was written from, its
/// lookup table stored with two bytes per sample, for every table it can
/// carry; its offsets meet what the reader asks of them.
pub proof fn law_btoa_round_trip(v: LutAtoBView, s: Seq<u8>)
    requires
        btoa_wf(v),
        holds_bytes(s, 0, btoa_bytes(v)),
        btoa_bytes(v).len() + 8 <= u32::MAX,
    ensures
        atob_offsets_ok(s),
        btoa_read(s) == Ok::<LutAtoBView, ErrorCode>(v4_stored(v)),
{
    let (b, x, m, c, a) = btoa_parts(v);
    let p1: int = 24int + b.len();
    let p2: int = p1 + x.len();
    let p3: int = p2 + m.len();
    let p4: int = p3 + c.len();
    let hdr = btoa_header(v);
    lemma_holds_split(s, 0, hdr, b + x + m + c + a);
    lemma_header_back(
        s,
        v,
        part_offset(v.b_curves is Some, 24),
        part_offset(v.matrix is Some, p1),
        part_offset(v.m_curves is Some, p2),
        part_offset(v.clut is Some, p3),
        part_offset(v.a_curves is Some, p4),
    );
    lemma_parts_held(s, 24, b, x, m, c, a);
    let inp = v.input_channels;
    let out = v.output_channels;
    if v.b_curves is Some {
        lemma_opt_curves_back(s, 24, v.b_curves, inp as int);
    }
    if v.matrix is Some {
        lemma_matrix_back(s, p1, v.matrix->0);
    }
    if v.m_curves is Some {
        lemma_opt_curves_back(s, p2, v.m_curves, inp as int);
    }
    if v.clut is Some {
        lemma_clut_back(s, p3, v.clut->0, inp as int, out as int);
    }
    if v.a_curves is Some {
        lemma_opt_curves_back(s, p4, v.a_curves, out as int);
    }
}

} // verus!
