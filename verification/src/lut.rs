//! Lookup-table tag payloads of the 8-bit and 16-bit kinds: channel counts,
//! a 3x3 matrix of s15Fixed16 numbers, per-channel curve tables, and a
//! colour lookup table sized by its grid.
use vstd::prelude::*;
use crate::error::{CmsError, ErrorCode};
use crate::pack::{from_16_to_8, from_8_to_16, spec_16_to_8, spec_8_to_16};
use crate::profile::{be16, be32, bytes16, bytes32, err, push_be16, push_be32, read_be16, read_be32};
use crate::tag_arrays::{be16_seq, bytes16_all, bytes32_all, has_bytes, write_uint16_type};
use crate::tag_types::{fits, read_error};

verus! {

broadcast use vstd::array::group_array_axioms;

/// `b` raised to the power `e`.
pub open spec fn ipow(b: nat, e: nat) -> nat
    decreases e,
{
    if e == 0 {
        1
    } else {
        b * ipow(b, (e - 1) as nat)
    }
}

/// `n` times `base` to the power `exp`, when that fits in 32 bits; zero
/// when `n` or `base` is zero.
pub open spec fn clut_size(n: u32, base: u32, exp: u32) -> Option<u32> {
    if base == 0 || n == 0 {
        Some(0u32)
    } else if n * ipow(base as nat, exp as nat) <= u32::MAX {
        Some((n * ipow(base as nat, exp as nat)) as u32)
    } else {
        None
    }
}

proof fn lemma_ipow_positive(b: nat, e: nat)
    requires
        b >= 1,
    ensures
        ipow(b, e) >= 1,
    decreases e,
{
    if e > 0 {
        lemma_ipow_positive(b, (e - 1) as nat);
        let x = ipow(b, (e - 1) as nat);
        assert(b * x >= 1) by (nonlinear_arith)
            requires
                b >= 1,
                x >= 1,
        ;
    }
}

proof fn lemma_ipow_grows(b: nat, i: nat, j: nat)
    requires
        b >= 1,
        i <= j,
    ensures
        1 <= ipow(b, i) <= ipow(b, j),
    decreases j,
{
    lemma_ipow_positive(b, i);
    if j > i {
        lemma_ipow_grows(b, i, (j - 1) as nat);
        let x = ipow(b, (j - 1) as nat);
        assert(x <= b * x) by (nonlinear_arith)
            requires
                b >= 1,
                x >= 1,
        ;
    }
}

/// `n` times `base` to the power `exp`, or `None` when the product does not
/// fit in 32 bits.
pub fn uipow(n: u32, base: u32, exp: u32) -> (r: Option<u32>)
    ensures
        r == clut_size(n, base, exp),
{
    if base == 0 || n == 0 {
        return Some(0);
    }
    let mut rv: u64 = 1;
    let mut k: u32 = 0;
    while k < exp
        invariant
            k <= exp,
            base >= 1,
            n >= 1,
            rv == ipow(base as nat, k as nat),
            rv <= u32::MAX,
        decreases exp - k,
    {
        assert(rv * base <= 0xffff_ffff * 0xffff_ffff) by (nonlinear_arith)
            requires
                rv <= 0xffff_ffff,
                base <= 0xffff_ffff,
        ;
        let next = rv * (base as u64);
        assert(next == ipow(base as nat, (k + 1) as nat)) by {
            assert(ipow(base as nat, (k + 1) as nat) == base * ipow(base as nat, k as nat));
            assert(rv * base == base * rv) by (nonlinear_arith);
        }
        if next > u32::MAX as u64 {
            proof {
                lemma_ipow_grows(base as nat, (k + 1) as nat, exp as nat);
                let p = ipow(base as nat, exp as nat);
                assert(n * p >= p) by (nonlinear_arith)
                    requires
                        n >= 1,
                        p >= 0,
                ;
            }
            return None;
        }
        rv = next;
        k = k + 1;
    }
    assert(rv * n <= 0xffff_ffff * 0xffff_ffff) by (nonlinear_arith)
        requires
            rv <= 0xffff_ffff,
            n <= 0xffff_ffff,
    ;
    let result = rv * (n as u64);
    assert(result == n * ipow(base as nat, exp as nat)) by (nonlinear_arith)
        requires
            result == rv * n,
            rv == ipow(base as nat, exp as nat),
    ;
    if result > u32::MAX as u64 {
        None
    } else {
        Some(result as u32)
    }
}

/// A lookup table as read from or written to a tag payload.
pub struct LutView {
    pub input_channels: u8,
    pub output_channels: u8,
    pub clut_points: u8,
    /// The 3x3 matrix, row by row, as raw s15Fixed16 numbers.
    pub matrix: Seq<i32>,
    /// Entries per input curve and per output curve.
    pub input_entries: u16,
    pub output_entries: u16,
    /// The input curves, one after the other.
    pub input_tables: Seq<u16>,
    /// The colour lookup table, grid node by grid node.
    pub clut: Seq<u16>,
    /// The output curves, one after the other.
    pub output_tables: Seq<u16>,
}

/// A lookup table: channel counts, the matrix as raw s15Fixed16 numbers,
/// the curve tables and the colour lookup table, all as 16-bit samples.
pub struct Lut {
    pub input_channels: u8,
    pub output_channels: u8,
    pub clut_points: u8,
    pub matrix: [i32; 9],
    pub input_entries: u16,
    pub output_entries: u16,
    pub input_tables: Vec<u16>,
    pub clut: Vec<u16>,
    pub output_tables: Vec<u16>,
}

impl View for Lut {
    type V = LutView;

    open spec fn view(&self) -> LutView {
        LutView {
            input_channels: self.input_channels,
            output_channels: self.output_channels,
            clut_points: self.clut_points,
            matrix: self.matrix@,
            input_entries: self.input_entries,
            output_entries: self.output_entries,
            input_tables: self.input_tables@,
            clut: self.clut@,
            output_tables: self.output_tables@,
        }
    }
}

/// The number of colour lookup table entries for `l`'s grid, or `None` when
/// it does not fit in 32 bits.
pub open spec fn grid_entries(l: LutView) -> Option<u32> {
    if l.clut_points == 0 {
        Some(0u32)
    } else {
        clut_size(l.output_channels as u32, l.clut_points as u32, l.input_channels as u32)
    }
}

/// The nine s15Fixed16 numbers stored from `p` on.
pub open spec fn matrix_at(b: Seq<u8>, p: int) -> Seq<i32> {
    Seq::new(9, |k: int| be32(b, p + 4 * k) as i32)
}

/// The 32-bit words of the matrix entries.
pub open spec fn matrix_words(m: Seq<i32>) -> Seq<u32> {
    m.map_values(|v: i32| v as u32)
}

/// What reading a 16-bit lookup table payload at `p` gives: the table, or
/// the error code.
pub open spec fn lut16_read(b: Seq<u8>, p: int) -> Result<LutView, ErrorCode> {
    if !fits(b, p, 8) {
        Err(ErrorCode::Read)
    } else {
        let i = b[p];
        let o = b[p + 1];
        let g = b[p + 2];
        let ie = be16(b, p + 4);
        let oe = be16(b, p + 6);
        if i == 0 || o == 0 || g == 1 || ie > 0x7fff || oe > 0x7fff {
            Err(ErrorCode::Range)
        } else if !fits(b, p + 8, 36) {
            Err(ErrorCode::Read)
        } else {
            let q = p + 44;
            let ni = i * ie;
            let n = if g == 0 {
                Some(0u32)
            } else {
                clut_size(o as u32, g as u32, i as u32)
            };
            if !fits(b, q, 2 * ni) {
                Err(ErrorCode::Read)
            } else if n is None {
                Err(ErrorCode::Range)
            } else if !fits(b, q + 2 * ni, 2 * n->0) {
                Err(ErrorCode::Read)
            } else if !fits(b, q + 2 * ni + 2 * n->0, 2 * (o * oe)) {
                Err(ErrorCode::Read)
            } else {
                Ok(
                    LutView {
                        input_channels: i,
                        output_channels: o,
                        clut_points: g,
                        matrix: matrix_at(b, p + 8),
                        input_entries: ie,
                        output_entries: oe,
                        input_tables: be16_seq(b, q, ni),
                        clut: be16_seq(b, q + 2 * ni, n->0 as int),
                        output_tables: be16_seq(b, q + 2 * ni + 2 * n->0, o * oe),
                    },
                )
            }
        }
    }
}

/// The `n` 16-bit values stored from `start` on.
pub(crate) fn read_u16s(data: &[u8], start: usize, n: usize) -> (v: Vec<u16>)
    requires
        start + 2 * n <= data.len(),
    ensures
        v@ == be16_seq(data@, start as int, n as int),
{
    let mut v: Vec<u16> = Vec::new();
    let mut k: usize = 0;
    while k < n
        invariant
            k <= n,
            start + 2 * n <= data.len(),
            v@ == be16_seq(data@, start as int, k as int),
        decreases n - k,
    {
        v.push(read_be16(data, start + 2 * k));
        k = k + 1;
        assert(v@ =~= be16_seq(data@, start as int, k as int));
    }
    v
}

/// The nine s15Fixed16 numbers stored from `start` on.
pub(crate) fn read_matrix(data: &[u8], start: usize) -> (m: [i32; 9])
    requires
        start + 36 <= data.len(),
    ensures
        m@ == matrix_at(data@, start as int),
{
    let m = [
        #[verifier::truncate] (read_be32(data, start) as i32),
        #[verifier::truncate] (read_be32(data, start + 4) as i32),
        #[verifier::truncate] (read_be32(data, start + 8) as i32),
        #[verifier::truncate] (read_be32(data, start + 12) as i32),
        #[verifier::truncate] (read_be32(data, start + 16) as i32),
        #[verifier::truncate] (read_be32(data, start + 20) as i32),
        #[verifier::truncate] (read_be32(data, start + 24) as i32),
        #[verifier::truncate] (read_be32(data, start + 28) as i32),
        #[verifier::truncate] (read_be32(data, start + 32) as i32),
    ];
    assert(m@ =~= matrix_at(data@, start as int));
    m
}

/// Read a 16-bit lookup table payload at `start`: a header of channel
/// counts, grid points and curve lengths, the matrix, the input curves, the
/// colour lookup table and the output curves.
pub fn read_lut16_type(data: &[u8], start: usize) -> (r: Result<Lut, CmsError>)
    ensures
        match lut16_read(data@, start as int) {
            Ok(l) => r matches Ok(x) && x@ == l,
            Err(c) => r matches Err(e) && e.code == c,
        },
{
    if !has_bytes(data, start, 8) {
        return Err(read_error());
    }
    let i = data[start];
    let o = data[start + 1];
    let g = data[start + 2];
    let ie = read_be16(data, start + 4);
    let oe = read_be16(data, start + 6);
    if i == 0 || o == 0 {
        return Err(err(ErrorCode::Range, "Lut16: zero channels"));
    }
    if g == 1 || ie > 0x7fff || oe > 0x7fff {
        return Err(err(ErrorCode::Range, "Lut16: invalid parameters"));
    }
    if !has_bytes(data, start + 8, 36) {
        return Err(read_error());
    }
    let matrix = read_matrix(data, start + 8);
    let q = start + 44;
    assert(i * ie <= 255 * 0x7fff) by (nonlinear_arith)
        requires
            i <= 255,
            ie <= 0x7fff,
    ;
    let ni = (i as usize) * (ie as usize);
    if !has_bytes(data, q, 2 * ni as u64) {
        return Err(read_error());
    }
    let input_tables = read_u16s(data, q, ni);
    let r = q + 2 * ni;
    let n: u32 = if g == 0 {
        0
    } else {
        match uipow(o as u32, g as u32, i as u32) {
            Some(n) => n,
            None => {
                return Err(err(ErrorCode::Range, "Lut16: CLUT size overflow"));
            },
        }
    };
    if !has_bytes(data, r, 2 * n as u64) {
        return Err(read_error());
    }
    let clut = read_u16s(data, r, n as usize);
    let s = r + 2 * (n as usize);
    assert(o * oe <= 255 * 0x7fff) by (nonlinear_arith)
        requires
            o <= 255,
            oe <= 0x7fff,
    ;
    let no = (o as usize) * (oe as usize);
    if !has_bytes(data, s, 2 * no as u64) {
        return Err(read_error());
    }
    let output_tables = read_u16s(data, s, no);
    Ok(
        Lut {
            input_channels: i,
            output_channels: o,
            clut_points: g,
            matrix,
            input_entries: ie,
            output_entries: oe,
            input_tables,
            clut,
            output_tables,
        },
    )
}

/// 8-bit samples widened to 16 bits.
pub open spec fn widen_all(s: Seq<u8>) -> Seq<u16> {
    s.map_values(|v: u8| spec_8_to_16(v))
}

/// 16-bit samples rounded to 8 bits.
pub open spec fn narrow_all(s: Seq<u16>) -> Seq<u8> {
    s.map_values(|v: u16| spec_16_to_8(v))
}

/// What reading an 8-bit lookup table payload at `p` gives: the table, its
/// 8-bit samples widened to 16 bits and its curves of 256 entries, or the
/// error code.
pub open spec fn lut8_read(b: Seq<u8>, p: int) -> Result<LutView, ErrorCode> {
    if !fits(b, p, 4) {
        Err(ErrorCode::Read)
    } else {
        let i = b[p];
        let o = b[p + 1];
        let g = b[p + 2];
        if i == 0 || o == 0 || g == 1 {
            Err(ErrorCode::Range)
        } else if !fits(b, p + 4, 36) {
            Err(ErrorCode::Read)
        } else {
            let q = p + 40;
            let ni = i * 256;
            let n = if g == 0 {
                Some(0u32)
            } else {
                clut_size(o as u32, g as u32, i as u32)
            };
            if !fits(b, q, ni) {
                Err(ErrorCode::Read)
            } else if n is None {
                Err(ErrorCode::Range)
            } else if !fits(b, q + ni, n->0 as int) {
                Err(ErrorCode::Read)
            } else if !fits(b, q + ni + n->0, o * 256) {
                Err(ErrorCode::Read)
            } else {
                Ok(
                    LutView {
                        input_channels: i,
                        output_channels: o,
                        clut_points: g,
                        matrix: matrix_at(b, p + 4),
                        input_entries: 256,
                        output_entries: 256,
                        input_tables: widen_all(b.subrange(q, q + ni)),
                        clut: widen_all(b.subrange(q + ni, q + ni + n->0)),
                        output_tables: widen_all(b.subrange(q + ni + n->0, q + ni + n->0 + o * 256)),
                    },
                )
            }
        }
    }
}

/// The `n` 8-bit samples stored from `start` on, widened to 16 bits.
pub(crate) fn read_widened(data: &[u8], start: usize, n: usize) -> (v: Vec<u16>)
    requires
        start + n <= data.len(),
    ensures
        v@ == widen_all(data@.subrange(start as int, start + n)),
{
    let mut v: Vec<u16> = Vec::new();
    let mut k: usize = 0;
    while k < n
        invariant
            k <= n,
            start + n <= data.len(),
            v@ == widen_all(data@.subrange(start as int, start + k)),
        decreases n - k,
    {
        v.push(from_8_to_16(data[start + k]));
        k = k + 1;
        assert(v@ =~= widen_all(data@.subrange(start as int, start + k)));
    }
    v
}

/// Read an 8-bit lookup table payload at `start`: a header of channel counts
/// and grid points, the matrix, input curves of 256 samples each, the colour
/// lookup table and output curves of 256 samples each; every sample is
/// widened to 16 bits.
pub fn read_lut8_type(data: &[u8], start: usize) -> (r: Result<Lut, CmsError>)
    ensures
        match lut8_read(data@, start as int) {
            Ok(l) => r matches Ok(x) && x@ == l,
            Err(c) => r matches Err(e) && e.code == c,
        },
{
    if !has_bytes(data, start, 4) {
        return Err(read_error());
    }
    let i = data[start];
    let o = data[start + 1];
    let g = data[start + 2];
    if i == 0 || o == 0 {
        return Err(err(ErrorCode::Range, "Lut8: zero channels"));
    }
    if g == 1 {
        return Err(err(ErrorCode::Range, "Lut8: clut_points == 1 is invalid"));
    }
    if !has_bytes(data, start + 4, 36) {
        return Err(read_error());
    }
    let matrix = read_matrix(data, start + 4);
    let q = start + 40;
    let ni = (i as usize) * 256;
    if !has_bytes(data, q, ni as u64) {
        return Err(read_error());
    }
    let input_tables = read_widened(data, q, ni);
    let r = q + ni;
    let n: u32 = if g == 0 {
        0
    } else {
        match uipow(o as u32, g as u32, i as u32) {
            Some(n) => n,
            None => {
                return Err(err(ErrorCode::Range, "Lut8: CLUT size overflow"));
            },
        }
    };
    if !has_bytes(data, r, n as u64) {
        return Err(read_error());
    }
    let clut = read_widened(data, r, n as usize);
    let s = r + (n as usize);
    let no = (o as usize) * 256;
    if !has_bytes(data, s, no as u64) {
        return Err(read_error());
    }
    let output_tables = read_widened(data, s, no);
    Ok(
        Lut {
            input_channels: i,
            output_channels: o,
            clut_points: g,
            matrix,
            input_entries: 256,
            output_entries: 256,
            input_tables,
            clut,
            output_tables,
        },
    )
}

/// The bytes of a 16-bit lookup table payload.
pub open spec fn lut16_bytes(l: LutView) -> Seq<u8> {
    seq![l.input_channels, l.output_channels, l.clut_points, 0u8] + bytes16(l.input_entries)
        + bytes16(l.output_entries) + bytes32_all(matrix_words(l.matrix)) + bytes16_all(
        l.input_tables,
    ) + bytes16_all(l.clut) + bytes16_all(l.output_tables)
}

/// The bytes of an 8-bit lookup table payload: its samples rounded to 8 bits.
pub open spec fn lut8_bytes(l: LutView) -> Seq<u8> {
    seq![l.input_channels, l.output_channels, l.clut_points, 0u8] + bytes32_all(
        matrix_words(l.matrix),
    ) + narrow_all(l.input_tables) + narrow_all(l.clut) + narrow_all(l.output_tables)
}

/// Append the matrix as nine s15Fixed16 numbers.
pub(crate) fn push_matrix(out: &mut Vec<u8>, m: &[i32; 9])
    ensures
        final(out)@ == old(out)@ + bytes32_all(matrix_words(m@)),
{
    let mut k: usize = 0;
    while k < 9
        invariant
            k <= 9,
            out@ == old(out)@ + bytes32_all(matrix_words(m@.take(k as int))),
        decreases 9 - k,
    {
        push_be32(out, #[verifier::truncate] (m[k] as u32));
        assert(matrix_words(m@.take(k + 1)).drop_last() =~= matrix_words(m@.take(k as int)));
        k = k + 1;
        assert(out@ =~= old(out)@ + bytes32_all(matrix_words(m@.take(k as int))));
    }
    assert(m@.take(9) =~= m@);
}

/// Append 16-bit samples rounded to 8 bits.
fn push_narrowed(out: &mut Vec<u8>, s: &[u16])
    ensures
        final(out)@ == old(out)@ + narrow_all(s@),
{
    let mut k: usize = 0;
    while k < s.len()
        invariant
            k <= s@.len(),
            out@ == old(out)@ + narrow_all(s@.take(k as int)),
        decreases s@.len() - k,
    {
        out.push(from_16_to_8(s[k]));
        k = k + 1;
        assert(out@ =~= old(out)@ + narrow_all(s@.take(k as int)));
    }
    assert(s@.take(s@.len() as int) =~= s@);
}

/// Append a 16-bit lookup table payload: header, matrix, input curves,
/// colour lookup table and output curves.
pub fn write_lut16_type(out: &mut Vec<u8>, lut: &Lut)
    ensures
        final(out)@ == old(out)@ + lut16_bytes(lut@),
{
    out.push(lut.input_channels);
    out.push(lut.output_channels);
    out.push(lut.clut_points);
    out.push(0);
    push_be16(out, lut.input_entries);
    push_be16(out, lut.output_entries);
    push_matrix(out, &lut.matrix);
    write_uint16_type(out, lut.input_tables.as_slice());
    write_uint16_type(out, lut.clut.as_slice());
    write_uint16_type(out, lut.output_tables.as_slice());
    assert(final(out)@ =~= old(out)@ + lut16_bytes(lut@));
}

/// Append an 8-bit lookup table payload: header, matrix, then the input
/// curves, colour lookup table and output curves rounded to 8 bits.
pub fn write_lut8_type(out: &mut Vec<u8>, lut: &Lut)
    ensures
        final(out)@ == old(out)@ + lut8_bytes(lut@),
{
    out.push(lut.input_channels);
    out.push(lut.output_channels);
    out.push(lut.clut_points);
    out.push(0);
    push_matrix(out, &lut.matrix);
    push_narrowed(out, lut.input_tables.as_slice());
    push_narrowed(out, lut.clut.as_slice());
    push_narrowed(out, lut.output_tables.as_slice());
    assert(final(out)@ =~= old(out)@ + lut8_bytes(lut@));
}

} // verus!
