//! The video card gamma payload: either three tabulated curves, or a
//! gamma, minimum and maximum per channel.
use vstd::prelude::*;
use crate::error::{CmsError, ErrorCode};
use crate::lut::{
    matrix_at, matrix_words, push_matrix, read_matrix, read_u16s, read_widened, widen_all,
};
use crate::profile::{be16, be32, bytes16, bytes32, err, push_be16, push_be32, read_be16, read_be32};
use crate::tag_arrays::{be16_seq, bytes16_all, bytes32_all, has_bytes, write_uint16_type};
use crate::tag_types::{fits, read_error};

verus! {

broadcast use vstd::array::group_array_axioms;

/// The kind word of a tabulated payload.
pub const VCGT_TABLE_TYPE: u32 = 0;

/// The kind word of a formula payload.
pub const VCGT_FORMULA_TYPE: u32 = 1;

/// A video card gamma payload as seen from outside.
pub enum VcgtView {
    /// Three curves of `entries` samples each, red, green, then blue.
    Table { entries: u16, samples: Seq<u16> },
    /// Gamma, minimum and maximum of red, green, then blue, as raw
    /// s15Fixed16 numbers.
    Formula { params: Seq<i32> },
}

/// A video card gamma payload.
pub enum Vcgt {
    /// Three curves of `entries` 16-bit samples each, red, green, then blue.
    Table { entries: u16, samples: Vec<u16> },
    /// Gamma, minimum and maximum of red, green, then blue, as raw
    /// s15Fixed16 numbers.
    Formula { params: [i32; 9] },
}

impl View for Vcgt {
    type V = VcgtView;

    open spec fn view(&self) -> VcgtView {
        match self {
            Vcgt::Table { entries, samples } => VcgtView::Table { entries: *entries, samples: samples@ },
            Vcgt::Formula { params } => VcgtView::Formula { params: params@ },
        }
    }
}

/// The first fault among the formula channels `k` and on, stored as three
/// s15Fixed16 numbers each from `q` on: a short read, a gamma that is not
/// above zero, or a maximum below the minimum.
pub open spec fn formula_fault(b: Seq<u8>, q: int, k: int) -> Option<ErrorCode>
    decreases 3 - k,
{
    if k >= 3 {
        None
    } else if !fits(b, q + 12 * k, 12) {
        Some(ErrorCode::Read)
    } else if be32(b, q + 12 * k) as i32 <= 0 {
        Some(ErrorCode::Range)
    } else if (be32(b, q + 12 * k + 8) as i32) < (be32(b, q + 12 * k + 4) as i32) {
        Some(ErrorCode::Range)
    } else {
        formula_fault(b, q, k + 1)
    }
}

/// The bytes per sample of a tabulated payload: as its header says, but two
/// for a table of 256 one-byte entries in a payload of 1576 bytes, whose
/// header is known to be wrong.
pub open spec fn sample_width(entries: u16, width: u16, size: u32) -> int {
    if entries == 256 && width == 1 && size == 1576 {
        2
    } else {
        width as int
    }
}

/// What reading a tabulated payload whose kind word stands at `p` gives.
pub open spec fn vcgt_table_read(b: Seq<u8>, p: int, size: u32) -> Result<VcgtView, ErrorCode> {
    if !fits(b, p + 4, 6) {
        Err(ErrorCode::Read)
    } else {
        let channels = be16(b, p + 4);
        let entries = be16(b, p + 6);
        let width = be16(b, p + 8);
        let w = sample_width(entries, width, size);
        if channels != 3 || (width != 1 && width != 2) {
            Err(ErrorCode::Range)
        } else if 3 * entries * w + 10 > size {
            Err(ErrorCode::Range)
        } else if !fits(b, p + 10, 3 * entries * w) {
            Err(ErrorCode::Read)
        } else if w == 1 {
            Ok(
                VcgtView::Table {
                    entries,
                    samples: widen_all(b.subrange(p + 10, p + 10 + 3 * entries)),
                },
            )
        } else {
            Ok(VcgtView::Table { entries, samples: be16_seq(b, p + 10, 3 * entries) })
        }
    }
}

/// What reading a formula payload whose kind word stands at `p` gives.
pub open spec fn vcgt_formula_read(b: Seq<u8>, p: int) -> Result<VcgtView, ErrorCode> {
    match formula_fault(b, p + 4, 0) {
        Some(c) => Err(c),
        None => Ok(VcgtView::Formula { params: matrix_at(b, p + 4) }),
    }
}

/// What reading a video card gamma payload of `size` bytes at `p` gives: the
/// payload, or the error code.
pub open spec fn vcgt_read(b: Seq<u8>, p: int, size: u32) -> Result<VcgtView, ErrorCode> {
    if !fits(b, p, 4) {
        Err(ErrorCode::Read)
    } else if be32(b, p) == VCGT_TABLE_TYPE {
        vcgt_table_read(b, p, size)
    } else if be32(b, p) == VCGT_FORMULA_TYPE {
        vcgt_formula_read(b, p)
    } else {
        Err(ErrorCode::UnknownExtension)
    }
}

fn read_vcgt_table(data: &[u8], start: usize, size: u32) -> (r: Result<Vcgt, CmsError>)
    requires
        fits(data@, start as int, 4),
    ensures
        match vcgt_table_read(data@, start as int, size) {
            Ok(v) => r matches Ok(x) && x@ == v,
            Err(c) => r matches Err(e) && e.code == c,
        },
{
    let len = data.len();
    if !has_bytes(data, start + 4, 6) {
        return Err(read_error());
    }
    let channels = read_be16(data, start + 4);
    let entries = read_be16(data, start + 6);
    let width = read_be16(data, start + 8);
    if channels != 3 {
        return Err(err(ErrorCode::Range, "vcgt table must have 3 channels"));
    }
    if width != 1 && width != 2 {
        return Err(err(ErrorCode::Range, "vcgt: n_bytes must be 1 or 2"));
    }
    let w: u64 = if entries == 256 && width == 1 && size == 1576 {
        2
    } else {
        width as u64
    };
    assert(w == sample_width(entries, width, size));
    assert(3 * entries * w <= 3 * 0xffff * 2) by (nonlinear_arith)
        requires
            entries <= 0xffff,
            w <= 2,
    ;
    let data_size: u64 = 3 * (entries as u64) * w;
    if data_size + 10 > size as u64 {
        return Err(err(ErrorCode::Range, "vcgt table data exceeds tag size"));
    }
    if !has_bytes(data, start + 10, data_size) {
        return Err(read_error());
    }
    let n = 3 * (entries as usize);
    if w == 1 {
        assert(data_size == n) by (nonlinear_arith)
            requires
                data_size == 3 * entries * w,
                n == 3 * entries,
                w == 1,
        ;
        let samples = read_widened(data, start + 10, n);
        Ok(Vcgt::Table { entries, samples })
    } else {
        assert(data_size == 2 * n) by (nonlinear_arith)
            requires
                data_size == 3 * entries * w,
                n == 3 * entries,
                w == 2,
        ;
        let samples = read_u16s(data, start + 10, n);
        Ok(Vcgt::Table { entries, samples })
    }
}

fn read_vcgt_formula(data: &[u8], start: usize) -> (r: Result<Vcgt, CmsError>)
    requires
        fits(data@, start as int, 4),
    ensures
        match vcgt_formula_read(data@, start as int) {
            Ok(v) => r matches Ok(x) && x@ == v,
            Err(c) => r matches Err(e) && e.code == c,
        },
{
    let len = data.len();
    let q = start + 4;
    let mut k: usize = 0;
    while k < 3
        invariant
            k <= 3,
            q == start + 4,
            q <= len,
            len == data@.len(),
            formula_fault(data@, q as int, 0) == formula_fault(data@, q as int, k as int),
            fits(data@, q as int, 12 * k),
        decreases 3 - k,
    {
        if !has_bytes(data, q + 12 * k, 12) {
            assert(formula_fault(data@, q as int, k as int) == Some(ErrorCode::Read));
            return Err(read_error());
        }
        let gamma = #[verifier::truncate] (read_be32(data, q + 12 * k) as i32);
        let min = #[verifier::truncate] (read_be32(data, q + 12 * k + 4) as i32);
        let max = #[verifier::truncate] (read_be32(data, q + 12 * k + 8) as i32);
        if gamma <= 0 {
            assert(formula_fault(data@, q as int, k as int) == Some(ErrorCode::Range));
            return Err(err(ErrorCode::Range, "vcgt formula: gamma must be > 0"));
        }
        if max < min {
            assert(formula_fault(data@, q as int, k as int) == Some(ErrorCode::Range));
            return Err(err(ErrorCode::Range, "vcgt formula: max < min"));
        }
        assert(formula_fault(data@, q as int, k as int) == formula_fault(data@, q as int, k + 1));
        k = k + 1;
    }
    let params = read_matrix(data, q);
    Ok(Vcgt::Formula { params })
}

/// Read a video card gamma payload of `size` bytes at `start`: a kind word,
/// then either three curves, of one or two bytes per sample, or a gamma, a
/// minimum and a maximum per channel.
pub fn read_vcgt_type(data: &[u8], start: usize, size: u32) -> (r: Result<Vcgt, CmsError>)
    ensures
        match vcgt_read(data@, start as int, size) {
            Ok(v) => r matches Ok(x) && x@ == v,
            Err(c) => r matches Err(e) && e.code == c,
        },
{
    if !has_bytes(data, start, 4) {
        return Err(read_error());
    }
    let kind = read_be32(data, start);
    if kind == VCGT_TABLE_TYPE {
        read_vcgt_table(data, start, size)
    } else if kind == VCGT_FORMULA_TYPE {
        read_vcgt_formula(data, start)
    } else {
        Err(err(ErrorCode::UnknownExtension, "Unknown vcgt type"))
    }
}

/// The bytes of a video card gamma payload: a table is written with two
/// bytes per sample.
pub open spec fn vcgt_bytes(v: VcgtView) -> Seq<u8> {
    match v {
        VcgtView::Table { entries, samples } => bytes32(VCGT_TABLE_TYPE) + bytes16(3) + bytes16(
            entries,
        ) + bytes16(2) + bytes16_all(samples),
        VcgtView::Formula { params } => bytes32(VCGT_FORMULA_TYPE) + bytes32_all(
            matrix_words(params),
        ),
    }
}

/// Append a video card gamma payload: a table with two bytes per sample,
/// or the nine formula numbers.
pub fn write_vcgt_type(out: &mut Vec<u8>, v: &Vcgt)
    ensures
        final(out)@ == old(out)@ + vcgt_bytes(v@),
{
    match v {
        Vcgt::Table { entries, samples } => {
            push_be32(out, VCGT_TABLE_TYPE);
            push_be16(out, 3);
            push_be16(out, *entries);
            push_be16(out, 2);
            write_uint16_type(out, samples.as_slice());
        },
        Vcgt::Formula { params } => {
            push_be32(out, VCGT_FORMULA_TYPE);
            push_matrix(out, params);
        },
    }
    assert(final(out)@ =~= old(out)@ + vcgt_bytes(v@));
}

} // verus!
