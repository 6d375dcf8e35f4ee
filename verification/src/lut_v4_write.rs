//! Writing the lookup table payloads of version 4 profiles: the header with
//! the five offsets, then each part present, curves padded to four bytes.
use vstd::prelude::*;
use crate::lut::{Lut, LutView, matrix_words};
use crate::lut_atob::{
    CURVE_SIGNATURE, Clut, ClutView, Curve, CurveView, LutAtoB, LutAtoBView, PARAMETRIC_SIGNATURE,
    TAG_BASE_SIZE, curves_view,
};
use crate::profile::{bytes16, bytes32, push_be16, push_be32, zeros};
use crate::tag_arrays::{bytes16_all, bytes32_all, write_uint16_type, write_uint8_type};

verus! {

/// The zero bytes that bring position `x` up to a multiple of four.
pub open spec fn pad4(x: int) -> int {
    (4 - x % 4) % 4
}

/// The bytes of an embedded curve: its type base, then a table with its
/// count (none for the identity, one for a gamma), or a formula's kind and
/// parameters.
#[verifier::opaque]
pub open spec fn curve_bytes(c: CurveView) -> Seq<u8> {
    match c {
        CurveView::Identity => bytes32(CURVE_SIGNATURE) + bytes32(0) + bytes32(0),
        CurveView::Gamma(g) => bytes32(CURVE_SIGNATURE) + bytes32(0) + bytes32(1) + bytes16(g),
        CurveView::Table(t) => bytes32(CURVE_SIGNATURE) + bytes32(0) + bytes32(t.len() as u32)
            + bytes16_all(t),
        CurveView::Parametric(k, p) => bytes32(PARAMETRIC_SIGNATURE) + bytes32(0) + bytes16(k)
            + bytes16(0) + bytes32_all(matrix_words(p)),
    }
}

/// The bytes of a list of curves written from payload position `p` on:
/// each curve is followed by zeros up to a multiple of four.
#[verifier::opaque]
pub open spec fn curve_set_bytes(cs: Seq<CurveView>, p: int) -> Seq<u8>
    decreases cs.len(),
{
    if cs.len() == 0 {
        Seq::empty()
    } else {
        let pre = curve_set_bytes(cs.drop_last(), p);
        let cb = curve_bytes(cs.last());
        pre + cb + zeros(pad4(p + pre.len() + cb.len()))
    }
}

/// The bytes of a colour lookup table: its fifteen grid sizes, precision
/// two, three reserved bytes and its 16-bit samples.
pub open spec fn clut_bytes(c: ClutView) -> Seq<u8> {
    c.grid + seq![2u8, 0u8, 0u8, 0u8] + bytes16_all(c.table)
}

/// The bytes of an optional list of curves at `p`.
pub open spec fn opt_curves_bytes(o: Option<Seq<CurveView>>, p: int) -> Seq<u8> {
    match o {
        Some(cs) => curve_set_bytes(cs, p),
        None => Seq::empty(),
    }
}

/// The bytes of an optional colour lookup table.
pub open spec fn opt_clut_bytes(o: Option<ClutView>) -> Seq<u8> {
    match o {
        Some(c) => clut_bytes(c),
        None => Seq::empty(),
    }
}

/// The bytes of an optional matrix with offsets.
pub open spec fn opt_matrix_bytes(o: Option<Seq<i32>>) -> Seq<u8> {
    match o {
        Some(m) => bytes32_all(matrix_words(m)),
        None => Seq::empty(),
    }
}

/// The offset of a part at payload position `p`, counted from the start of
/// the type base; zero for a part that is absent.
pub open spec fn part_offset(present: bool, p: int) -> u32 {
    if present {
        (p + TAG_BASE_SIZE) as u32
    } else {
        0
    }
}

/// The header of a payload: channel counts, two reserved bytes, then the
/// offsets of the B curves, matrix, M curves, lookup table and A curves.
#[verifier::opaque]
pub open spec fn v4_header(v: LutAtoBView, ob: u32, ox: u32, om: u32, oc: u32, oa: u32) -> Seq<u8> {
    seq![v.input_channels, v.output_channels, 0u8, 0u8] + bytes32(ob) + bytes32(ox) + bytes32(om)
        + bytes32(oc) + bytes32(oa)
}

/// The parts of a device-to-PCS payload after its header, in the order
/// written: A curves, lookup table, M curves, matrix, B curves (each empty
/// when absent), the curves padded from where they fall in the payload.
pub open spec fn atob_parts(v: LutAtoBView) -> (Seq<u8>, Seq<u8>, Seq<u8>, Seq<u8>, Seq<u8>) {
    let a = opt_curves_bytes(v.a_curves, 24);
    let c = opt_clut_bytes(v.clut);
    let m = opt_curves_bytes(v.m_curves, 24int + a.len() + c.len());
    let x = opt_matrix_bytes(v.matrix);
    let b = opt_curves_bytes(v.b_curves, 24int + a.len() + c.len() + m.len() + x.len());
    (a, c, m, x, b)
}

/// The parts of a PCS-to-device payload after its header, in the order
/// written: B curves, matrix, M curves, lookup table, A curves.
pub open spec fn btoa_parts(v: LutAtoBView) -> (Seq<u8>, Seq<u8>, Seq<u8>, Seq<u8>, Seq<u8>) {
    let b = opt_curves_bytes(v.b_curves, 24);
    let x = opt_matrix_bytes(v.matrix);
    let m = opt_curves_bytes(v.m_curves, 24int + b.len() + x.len());
    let c = opt_clut_bytes(v.clut);
    let a = opt_curves_bytes(v.a_curves, 24int + b.len() + x.len() + m.len() + c.len());
    (b, x, m, c, a)
}

/// The header of a device-to-PCS payload: each offset points at where its
/// part starts.
pub open spec fn atob_header(v: LutAtoBView) -> Seq<u8> {
    let (a, c, m, x, b) = atob_parts(v);
    v4_header(
        v,
        part_offset(v.b_curves is Some, 24int + a.len() + c.len() + m.len() + x.len()),
        part_offset(v.matrix is Some, 24int + a.len() + c.len() + m.len()),
        part_offset(v.m_curves is Some, 24int + a.len() + c.len()),
        part_offset(v.clut is Some, 24int + a.len()),
        part_offset(v.a_curves is Some, 24),
    )
}

/// The header of a PCS-to-device payload.
pub open spec fn btoa_header(v: LutAtoBView) -> Seq<u8> {
    let (b, x, m, c, a) = btoa_parts(v);
    v4_header(
        v,
        part_offset(v.b_curves is Some, 24),
        part_offset(v.matrix is Some, 24int + b.len()),
        part_offset(v.m_curves is Some, 24int + b.len() + x.len()),
        part_offset(v.clut is Some, 24int + b.len() + x.len() + m.len()),
        part_offset(v.a_curves is Some, 24int + b.len() + x.len() + m.len() + c.len()),
    )
}

/// The bytes of a device-to-PCS payload: the header, then the A curves,
/// lookup table, M curves, matrix and B curves that are present, in that
/// order.
pub open spec fn atob_bytes(v: LutAtoBView) -> Seq<u8> {
    let (a, c, m, x, b) = atob_parts(v);
    atob_header(v) + (a + c + m + x + b)
}

/// The bytes of a PCS-to-device payload: the header, then the B curves,
/// matrix, M curves, lookup table and A curves that are present, in that
/// order.
pub open spec fn btoa_bytes(v: LutAtoBView) -> Seq<u8> {
    let (b, x, m, c, a) = btoa_parts(v);
    btoa_header(v) + (b + x + m + c + a)
}

/// Append an embedded curve.
fn push_curve(out: &mut Vec<u8>, c: &Curve)
    ensures
        final(out)@ == old(out)@ + curve_bytes(c@),
{
    reveal(curve_bytes);
    match c {
        Curve::Identity => {
            push_be32(out, CURVE_SIGNATURE);
            push_be32(out, 0);
            push_be32(out, 0);
        },
        Curve::Gamma(g) => {
            push_be32(out, CURVE_SIGNATURE);
            push_be32(out, 0);
            push_be32(out, 1);
            push_be16(out, *g);
        },
        Curve::Table(t) => {
            push_be32(out, CURVE_SIGNATURE);
            push_be32(out, 0);
            push_be32(out, #[verifier::truncate] (t.len() as u32));
            write_uint16_type(out, t.as_slice());
        },
        Curve::Parametric(k, p) => {
            push_be32(out, PARAMETRIC_SIGNATURE);
            push_be32(out, 0);
            push_be16(out, *k);
            push_be16(out, 0);
            push_s15s(out, p.as_slice());
        },
    }
    assert(final(out)@ =~= old(out)@ + curve_bytes(c@));
}

/// Append s15Fixed16 numbers.
fn push_s15s(out: &mut Vec<u8>, p: &[i32])
    ensures
        final(out)@ == old(out)@ + bytes32_all(matrix_words(p@)),
{
    let mut k: usize = 0;
    while k < p.len()
        invariant
            k <= p@.len(),
            out@ == old(out)@ + bytes32_all(matrix_words(p@.take(k as int))),
        decreases p@.len() - k,
    {
        push_be32(out, #[verifier::truncate] (p[k] as u32));
        assert(matrix_words(p@.take(k + 1)).drop_last() =~= matrix_words(p@.take(k as int)));
        k = k + 1;
        assert(out@ =~= old(out)@ + bytes32_all(matrix_words(p@.take(k as int))));
    }
    assert(p@.take(p@.len() as int) =~= p@);
}

/// Append `n` zero bytes.
fn push_zeros(out: &mut Vec<u8>, n: usize)
    ensures
        final(out)@ == old(out)@ + zeros(n as int),
{
    let mut k: usize = 0;
    while k < n
        invariant
            k <= n,
            out@ == old(out)@ + zeros(k as int),
        decreases n - k,
    {
        out.push(0);
        k = k + 1;
        assert(out@ =~= old(out)@ + zeros(k as int));
    }
}

proof fn lemma_curve_set_prefix(cs: Seq<CurveView>, p: int, k: int)
    requires
        0 <= k <= cs.len(),
    ensures
        curve_set_bytes(cs.take(k), p).len() <= curve_set_bytes(cs, p).len(),
    decreases cs.len(),
{
    reveal(curve_set_bytes);
    if k < cs.len() {
        assert(cs.drop_last().take(k) =~= cs.take(k));
        lemma_curve_set_prefix(cs.drop_last(), p, k);
    } else {
        assert(cs.take(k) =~= cs);
    }
}

/// Append a list of curves; `shift` plus the length of `out` is the payload
/// position reached.
fn push_curve_set(out: &mut Vec<u8>, cs: &Vec<Curve>, shift: usize)
    requires
        shift + old(out)@.len() + curve_set_bytes(curves_view(cs@), shift + old(out)@.len()).len()
            <= u32::MAX,
    ensures
        final(out)@ == old(out)@ + curve_set_bytes(curves_view(cs@), shift + old(out)@.len()),
{
    let ghost p0 = shift + old(out)@.len();
    let ghost all = curves_view(cs@);
    let mut k: usize = 0;
    assert(curves_view(cs@.take(0)) =~= Seq::<CurveView>::empty());
    proof {
        reveal(curve_set_bytes);
    }
    assert(out@ =~= old(out)@ + curve_set_bytes(curves_view(cs@.take(0)), p0));
    while k < cs.len()
        invariant
            k <= cs@.len(),
            p0 == shift + old(out)@.len(),
            all == curves_view(cs@),
            p0 + curve_set_bytes(all, p0).len() <= u32::MAX,
            out@ == old(out)@ + curve_set_bytes(curves_view(cs@.take(k as int)), p0),
        decreases cs@.len() - k,
    {
        let ghost pre = curves_view(cs@.take(k as int));
        let ghost nxt = curves_view(cs@.take(k + 1));
        assert(nxt.drop_last() =~= pre);
        assert(nxt.last() == cs@[k as int]@);
        assert(curves_view(cs@.take(k + 1)) =~= all.take(k + 1));
        proof {
            lemma_curve_set_prefix(all, p0, k + 1);
        }
        push_curve(out, &cs[k]);
        proof {
            reveal(curve_set_bytes);
        }
        let x = shift + out.len();
        let pad = (4 - x % 4) % 4;
        push_zeros(out, pad);
        k = k + 1;
        assert(out@ =~= old(out)@ + curve_set_bytes(curves_view(cs@.take(k as int)), p0)) by {
            reveal(curve_set_bytes);
        }
    }
    assert(cs@.take(cs@.len() as int) =~= cs@);
}

/// Append a colour lookup table, with 16-bit samples.
fn push_clut(out: &mut Vec<u8>, c: &Clut)
    ensures
        final(out)@ == old(out)@ + clut_bytes(c@),
{
    write_uint8_type(out, c.grid.as_slice());
    out.push(2);
    out.push(0);
    out.push(0);
    out.push(0);
    write_uint16_type(out, c.table.as_slice());
    assert(final(out)@ =~= old(out)@ + clut_bytes(c@));
}

/// Append an optional list of curves at payload position `24 + body.len()`.
fn push_opt_curves(body: &mut Vec<u8>, o: &Option<Vec<Curve>>)
    requires
        24 + old(body)@.len() + opt_curves_bytes(
            match o {
                Some(v) => Some(curves_view(v@)),
                None => None,
            },
            24 + old(body)@.len() as int,
        ).len() <= u32::MAX,
    ensures
        final(body)@ == old(body)@ + opt_curves_bytes(
            match o {
                Some(v) => Some(curves_view(v@)),
                None => None,
            },
            24 + old(body)@.len() as int,
        ),
{
    match o {
        Some(cs) => push_curve_set(body, cs, 24),
        None => {
            assert(body@ =~= old(body)@ + Seq::<u8>::empty());
        },
    }
}

/// Append an optional colour lookup table.
fn push_opt_clut(body: &mut Vec<u8>, o: &Option<Clut>)
    ensures
        final(body)@ == old(body)@ + opt_clut_bytes(
            match o {
                Some(c) => Some(c@),
                None => None,
            },
        ),
{
    match o {
        Some(c) => push_clut(body, c),
        None => {
            assert(body@ =~= old(body)@ + Seq::<u8>::empty());
        },
    }
}

/// Append an optional matrix with offsets.
fn push_opt_matrix(body: &mut Vec<u8>, o: &Option<Vec<i32>>)
    ensures
        final(body)@ == old(body)@ + opt_matrix_bytes(
            match o {
                Some(m) => Some(m@),
                None => None,
            },
        ),
{
    match o {
        Some(m) => push_s15s(body, m.as_slice()),
        None => {
            assert(body@ =~= old(body)@ + Seq::<u8>::empty());
        },
    }
}

/// The offset of a part at payload position `p`, or zero when it is absent.
fn offset_of(present: bool, p: usize) -> (r: u32)
    requires
        p + TAG_BASE_SIZE <= u32::MAX,
    ensures
        r == part_offset(present, p as int),
{
    if present {
        (p as u32) + TAG_BASE_SIZE
    } else {
        0
    }
}

/// Append the header of a payload.
fn push_v4_header(out: &mut Vec<u8>, l: &LutAtoB, ob: u32, ox: u32, om: u32, oc: u32, oa: u32)
    ensures
        final(out)@ == old(out)@ + v4_header(l@, ob, ox, om, oc, oa),
{
    reveal(v4_header);
    out.push(l.input_channels);
    out.push(l.output_channels);
    out.push(0);
    out.push(0);
    push_be32(out, ob);
    push_be32(out, ox);
    push_be32(out, om);
    push_be32(out, oc);
    push_be32(out, oa);
    assert(final(out)@ =~= old(out)@ + v4_header(l@, ob, ox, om, oc, oa));
}

/// The bytes after the header of a device-to-PCS payload.
fn atob_body(l: &LutAtoB) -> (r: (Vec<u8>, usize, usize, usize, usize))
    requires
        atob_bytes(l@).len() + TAG_BASE_SIZE <= u32::MAX,
    ensures
        ({
            let (a, c, m, x, b) = atob_parts(l@);
            &&& r.0@ == a + c + m + x + b
            &&& r.1 == 24 + a.len()
            &&& r.2 == 24 + a.len() + c.len()
            &&& r.3 == 24 + a.len() + c.len() + m.len()
            &&& r.4 == 24 + a.len() + c.len() + m.len() + x.len()
        }),
{
    let ghost (a, c, m, x, b) = atob_parts(l@);
    assert(atob_header(l@).len() == 24) by {
        reveal(v4_header);
    }
    let mut body: Vec<u8> = Vec::new();
    push_opt_curves(&mut body, &l.a_curves);
    assert(body@ == a);
    let p1 = 24 + body.len();
    push_opt_clut(&mut body, &l.clut);
    assert(body@ == a + c);
    let p2 = 24 + body.len();
    push_opt_curves(&mut body, &l.m_curves);
    assert(body@ == a + c + m);
    let p3 = 24 + body.len();
    push_opt_matrix(&mut body, &l.matrix);
    assert(body@ == a + c + m + x);
    let p4 = 24 + body.len();
    push_opt_curves(&mut body, &l.b_curves);
    (body, p1, p2, p3, p4)
}

/// The bytes after the header of a PCS-to-device payload.
fn btoa_body(l: &LutAtoB) -> (r: (Vec<u8>, usize, usize, usize, usize))
    requires
        btoa_bytes(l@).len() + TAG_BASE_SIZE <= u32::MAX,
    ensures
        ({
            let (b, x, m, c, a) = btoa_parts(l@);
            &&& r.0@ == b + x + m + c + a
            &&& r.1 == 24 + b.len()
            &&& r.2 == 24 + b.len() + x.len()
            &&& r.3 == 24 + b.len() + x.len() + m.len()
            &&& r.4 == 24 + b.len() + x.len() + m.len() + c.len()
        }),
{
    let ghost (b, x, m, c, a) = btoa_parts(l@);
    assert(btoa_header(l@).len() == 24) by {
        reveal(v4_header);
    }
    let mut body: Vec<u8> = Vec::new();
    push_opt_curves(&mut body, &l.b_curves);
    assert(body@ == b);
    let p1 = 24 + body.len();
    push_opt_matrix(&mut body, &l.matrix);
    assert(body@ == b + x);
    let p2 = 24 + body.len();
    push_opt_curves(&mut body, &l.m_curves);
    assert(body@ == b + x + m);
    let p3 = 24 + body.len();
    push_opt_clut(&mut body, &l.clut);
    assert(body@ == b + x + m + c);
    let p4 = 24 + body.len();
    push_opt_curves(&mut body, &l.a_curves);
    (body, p1, p2, p3, p4)
}

/// Append the header of a device-to-PCS payload whose parts start at
/// payload positions 24, `p1`, `p2`, `p3` and `p4`.
fn push_atob_header(out: &mut Vec<u8>, l: &LutAtoB, p1: usize, p2: usize, p3: usize, p4: usize)
    requires
        ({
            let (a, c, m, x, b) = atob_parts(l@);
            &&& p1 == 24 + a.len()
            &&& p2 == 24 + a.len() + c.len()
            &&& p3 == 24 + a.len() + c.len() + m.len()
            &&& p4 == 24 + a.len() + c.len() + m.len() + x.len()
        }),
        p4 + TAG_BASE_SIZE <= u32::MAX,
    ensures
        final(out)@ == old(out)@ + atob_header(l@),
{
    let ob = offset_of(l.b_curves.is_some(), p4);
    let ox = offset_of(l.matrix.is_some(), p3);
    let om = offset_of(l.m_curves.is_some(), p2);
    let oc = offset_of(l.clut.is_some(), p1);
    let oa = offset_of(l.a_curves.is_some(), 24);
    push_v4_header(out, l, ob, ox, om, oc, oa);
}

/// Append the header of a PCS-to-device payload whose parts start at
/// payload positions 24, `p1`, `p2`, `p3` and `p4`.
fn push_btoa_header(out: &mut Vec<u8>, l: &LutAtoB, p1: usize, p2: usize, p3: usize, p4: usize)
    requires
        ({
            let (b, x, m, c, a) = btoa_parts(l@);
            &&& p1 == 24 + b.len()
            &&& p2 == 24 + b.len() + x.len()
            &&& p3 == 24 + b.len() + x.len() + m.len()
            &&& p4 == 24 + b.len() + x.len() + m.len() + c.len()
        }),
        p4 + TAG_BASE_SIZE <= u32::MAX,
    ensures
        final(out)@ == old(out)@ + btoa_header(l@),
{
    let ob = offset_of(l.b_curves.is_some(), 24);
    let ox = offset_of(l.matrix.is_some(), p1);
    let om = offset_of(l.m_curves.is_some(), p2);
    let oc = offset_of(l.clut.is_some(), p3);
    let oa = offset_of(l.a_curves.is_some(), p4);
    push_v4_header(out, l, ob, ox, om, oc, oa);
}

/// Append a device-to-PCS lookup table payload (what follows the type
/// base): the header with the offsets, then the A curves, lookup table, M
/// curves, matrix and B curves that are present. The offsets must fit in
/// 32 bits.
pub fn write_lut_atob_type(out: &mut Vec<u8>, l: &LutAtoB)
    requires
        atob_bytes(l@).len() + TAG_BASE_SIZE <= u32::MAX,
    ensures
        final(out)@ == old(out)@ + atob_bytes(l@),
{
    let (body, p1, p2, p3, p4) = atob_body(l);
    assert(atob_header(l@).len() == 24) by {
        reveal(v4_header);
    }
    push_atob_header(out, l, p1, p2, p3, p4);
    write_uint8_type(out, body.as_slice());
    assert(final(out)@ =~= old(out)@ + atob_bytes(l@));
}

/// Append a PCS-to-device lookup table payload (what follows the type
/// base): the header with the offsets, then the B curves, matrix, M curves,
/// lookup table and A curves that are present. The offsets must fit in 32
/// bits.
pub fn write_lut_btoa_type(out: &mut Vec<u8>, l: &LutAtoB)
    requires
        btoa_bytes(l@).len() + TAG_BASE_SIZE <= u32::MAX,
    ensures
        final(out)@ == old(out)@ + btoa_bytes(l@),
{
    let (body, p1, p2, p3, p4) = btoa_body(l);
    assert(btoa_header(l@).len() == 24) by {
        reveal(v4_header);
    }
    push_btoa_header(out, l, p1, p2, p3, p4);
    write_uint8_type(out, body.as_slice());
    assert(final(out)@ =~= old(out)@ + btoa_bytes(l@));
}

/// The nine s15Fixed16 numbers of the identity matrix.
pub open spec fn identity_matrix() -> Seq<i32> {
    seq![0x10000i32, 0, 0, 0, 0x10000, 0, 0, 0, 0x10000]
}

/// The `n` curves of `e` samples each that a table holds one after the
/// other.
pub open spec fn split_curves(t: Seq<u16>, n: int, e: int) -> Seq<CurveView> {
    Seq::new(n as nat, |k: int| CurveView::Table(t.subrange(k * e, k * e + e)))
}

/// A lookup table of the 8-bit and 16-bit kinds as a version 4 table: its
/// input curves go first and its output curves last (A and B curves of a
/// device-to-PCS table, B and A curves of a PCS-to-device one), its grid
/// has its points along each input, and its matrix is kept when it has
/// three inputs and is not the identity, with zero offsets.
pub open spec fn lut_v4_view(l: LutView, pcs_to_device: bool) -> LutAtoBView {
    let first = Some(split_curves(l.input_tables, l.input_channels as int, l.input_entries as int));
    let last = Some(split_curves(l.output_tables, l.output_channels as int, l.output_entries as int));
    LutAtoBView {
        input_channels: l.input_channels,
        output_channels: l.output_channels,
        a_curves: if pcs_to_device {
            last
        } else {
            first
        },
        clut: if l.clut_points == 0 {
            None
        } else {
            Some(
                ClutView {
                    grid: Seq::new(15, |i: int| if i < l.input_channels { l.clut_points } else { 0u8 }),
                    precision: 2,
                    table: l.clut,
                },
            )
        },
        m_curves: None,
        matrix: if l.input_channels == 3 && l.matrix != identity_matrix() {
            Some(l.matrix + seq![0i32, 0i32, 0i32])
        } else {
            None
        },
        b_curves: if pcs_to_device {
            first
        } else {
            last
        },
    }
}

/// The samples from `a` up to `b`.
fn copy_range(t: &Vec<u16>, a: usize, b: usize) -> (r: Vec<u16>)
    requires
        a <= b <= t@.len(),
    ensures
        r@ == t@.subrange(a as int, b as int),
{
    let mut r: Vec<u16> = Vec::new();
    let mut k = a;
    while k < b
        invariant
            a <= k <= b <= t@.len(),
            r@ == t@.subrange(a as int, k as int),
        decreases b - k,
    {
        r.push(t[k]);
        k = k + 1;
        assert(r@ =~= t@.subrange(a as int, k as int));
    }
    r
}

/// The curves of `n` channels of `e` samples each.
fn split_tables(t: &Vec<u16>, n: u8, e: u16) -> (r: Vec<Curve>)
    requires
        t@.len() >= n * e,
    ensures
        curves_view(r@) == split_curves(t@, n as int, e as int),
{
    let len = t.len();
    let mut r: Vec<Curve> = Vec::new();
    let mut k: u8 = 0;
    while k < n
        invariant
            k <= n,
            len == t@.len(),
            t@.len() >= n * e,
            r@.len() == k,
            curves_view(r@) == split_curves(t@, k as int, e as int),
        decreases n - k,
    {
        assert((k + 1) * e <= n * e) by (nonlinear_arith)
            requires
                k + 1 <= n,
        ;
        assert(k * e + e == (k + 1) * e) by (nonlinear_arith);
        assert(0 <= k * e) by (nonlinear_arith)
            requires
                0 <= k,
                0 <= e,
        ;
        let lo = (k as usize) * (e as usize);
        let c = copy_range(t, lo, lo + (e as usize));
        let ghost before = curves_view(r@);
        let ghost old_r = r@;
        r.push(Curve::Table(c));
        assert(r@ == old_r.push(Curve::Table(c)));
        k = k + 1;
        assert(curves_view(r@) =~= split_curves(t@, k as int, e as int)) by {
            assert forall|i: int| 0 <= i < k implies #[trigger] curves_view(r@)[i] == split_curves(
                t@,
                k as int,
                e as int,
            )[i] by {
                if i < k - 1 {
                    assert(r@[i] == old_r[i]);
                    assert(curves_view(r@)[i] == before[i]);
                } else {
                    assert(r@[i] == Curve::Table(c));
                }
            }
        }
    }
    r
}

/// A lookup table of the 8-bit and 16-bit kinds as a version 4 table, to be
/// stored as a PCS-to-device table when `pcs_to_device` holds and as a
/// device-to-PCS table otherwise.
pub fn lut_as_v4(l: &Lut, pcs_to_device: bool) -> (r: LutAtoB)
    requires
        l.input_tables@.len() >= l.input_channels * l.input_entries,
        l.output_tables@.len() >= l.output_channels * l.output_entries,
    ensures
        r@ == lut_v4_view(l@, pcs_to_device),
{
    let first = split_tables(&l.input_tables, l.input_channels, l.input_entries);
    let last = split_tables(&l.output_tables, l.output_channels, l.output_entries);
    let clut = if l.clut_points == 0 {
        None
    } else {
        let mut grid: Vec<u8> = Vec::new();
        let mut i: usize = 0;
        while i < 15
            invariant
                i <= 15,
                grid@ == Seq::new(
                    i as nat,
                    |j: int| if j < l.input_channels { l.clut_points } else { 0u8 },
                ),
            decreases 15 - i,
        {
            grid.push(if i < l.input_channels as usize { l.clut_points } else { 0 });
            i = i + 1;
            assert(grid@ =~= Seq::new(
                i as nat,
                |j: int| if j < l.input_channels { l.clut_points } else { 0u8 },
            ));
        }
        let table = copy_range(&l.clut, 0, l.clut.len());
        assert(table@ =~= l.clut@);
        Some(Clut { grid, precision: 2, table })
    };
    let m = &l.matrix;
    let identity = m[0] == 0x10000 && m[1] == 0 && m[2] == 0 && m[3] == 0 && m[4] == 0x10000
        && m[5] == 0 && m[6] == 0 && m[7] == 0 && m[8] == 0x10000;
    assert(identity <==> m@ == identity_matrix()) by {
        if identity {
            assert(m@ =~= identity_matrix());
        }
    }
    let matrix = if l.input_channels == 3 && !identity {
        let mut v: Vec<i32> = Vec::new();
        let mut i: usize = 0;
        while i < 9
            invariant
                i <= 9,
                v@ == m@.take(i as int),
            decreases 9 - i,
        {
            v.push(m[i]);
            i = i + 1;
            assert(v@ =~= m@.take(i as int));
        }
        v.push(0);
        v.push(0);
        v.push(0);
        assert(v@ =~= m@ + seq![0i32, 0i32, 0i32]);
        Some(v)
    } else {
        None
    };
    if pcs_to_device {
        LutAtoB {
            input_channels: l.input_channels,
            output_channels: l.output_channels,
            a_curves: Some(last),
            clut,
            m_curves: None,
            matrix,
            b_curves: Some(first),
        }
    } else {
        LutAtoB {
            input_channels: l.input_channels,
            output_channels: l.output_channels,
            a_curves: Some(first),
            clut,
            m_curves: None,
            matrix,
            b_curves: Some(last),
        }
    }
}

} // verus!
