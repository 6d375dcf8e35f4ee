//! The lookup table payloads of version 4 profiles, device-to-PCS and
//! PCS-to-device: A curves, a colour lookup table, M curves, a matrix with
//! offsets and B curves, each found through an offset and each optional.
use vstd::prelude::*;
use crate::error::{CmsError, ErrorCode};
use crate::lut::{read_u16s, read_widened, widen_all};
use crate::profile::{align4, be16, be32, err, read_be16, read_be32};
use crate::tag_arrays::{be16_seq, has_bytes};
use crate::tag_types::{fits, read_error};

verus! {

/// The type signature of a curve given by a table.
pub const CURVE_SIGNATURE: u32 = 0x6375_7276;

/// The type signature of a curve given by a formula.
pub const PARAMETRIC_SIGNATURE: u32 = 0x7061_7261;

/// The size of a tag's type base: its signature and four reserved bytes.
/// Offsets within the payload count from the start of the base.
pub const TAG_BASE_SIZE: u32 = 8;

/// A curve as seen from outside.
pub enum CurveView {
    /// A table of no entries: the identity.
    Identity,
    /// A table of one entry: a gamma as an unsigned 8.8 fixed-point number.
    Gamma(u16),
    /// A table of samples.
    Table(Seq<u16>),
    /// A formula of the given kind (0 to 4), with its s15Fixed16 parameters.
    Parametric(u16, Seq<i32>),
}

/// A curve embedded in a lookup table.
pub enum Curve {
    Identity,
    Gamma(u16),
    Table(Vec<u16>),
    Parametric(u16, Vec<i32>),
}

impl View for Curve {
    type V = CurveView;

    open spec fn view(&self) -> CurveView {
        match self {
            Curve::Identity => CurveView::Identity,
            Curve::Gamma(g) => CurveView::Gamma(*g),
            Curve::Table(t) => CurveView::Table(t@),
            Curve::Parametric(k, p) => CurveView::Parametric(*k, p@),
        }
    }
}

/// A colour lookup table as seen from outside.
pub struct ClutView {
    /// Grid points along each of the fifteen possible inputs.
    pub grid: Seq<u8>,
    /// Bytes per stored sample: 1 or 2.
    pub precision: u8,
    /// The samples, widened to 16 bits.
    pub table: Seq<u16>,
}

/// A colour lookup table with a grid of its own size along each input.
pub struct Clut {
    pub grid: Vec<u8>,
    pub precision: u8,
    pub table: Vec<u16>,
}

impl View for Clut {
    type V = ClutView;

    open spec fn view(&self) -> ClutView {
        ClutView { grid: self.grid@, precision: self.precision, table: self.table@ }
    }
}

/// A device-to-PCS table as seen from outside.
pub struct LutAtoBView {
    pub input_channels: u8,
    pub output_channels: u8,
    pub a_curves: Option<Seq<CurveView>>,
    pub clut: Option<ClutView>,
    pub m_curves: Option<Seq<CurveView>>,
    /// The 3x3 matrix row by row, then the three offsets, as raw
    /// s15Fixed16 numbers.
    pub matrix: Option<Seq<i32>>,
    pub b_curves: Option<Seq<CurveView>>,
}

/// A device-to-PCS or PCS-to-device table: each of its parts is present
/// when its offset is not zero.
pub struct LutAtoB {
    pub input_channels: u8,
    pub output_channels: u8,
    pub a_curves: Option<Vec<Curve>>,
    pub clut: Option<Clut>,
    pub m_curves: Option<Vec<Curve>>,
    pub matrix: Option<Vec<i32>>,
    pub b_curves: Option<Vec<Curve>>,
}

/// The views of a list of curves.
pub open spec fn curves_view(v: Seq<Curve>) -> Seq<CurveView> {
    Seq::new(v.len(), |i: int| v[i]@)
}

impl View for LutAtoB {
    type V = LutAtoBView;

    open spec fn view(&self) -> LutAtoBView {
        LutAtoBView {
            input_channels: self.input_channels,
            output_channels: self.output_channels,
            a_curves: match self.a_curves {
                Some(v) => Some(curves_view(v@)),
                None => None,
            },
            clut: match self.clut {
                Some(c) => Some(c@),
                None => None,
            },
            m_curves: match self.m_curves {
                Some(v) => Some(curves_view(v@)),
                None => None,
            },
            matrix: match self.matrix {
                Some(m) => Some(m@),
                None => None,
            },
            b_curves: match self.b_curves {
                Some(v) => Some(curves_view(v@)),
                None => None,
            },
        }
    }
}

/// The `n` s15Fixed16 numbers stored from `p` on.
pub open spec fn s15_seq(s: Seq<u8>, p: int, n: int) -> Seq<i32> {
    Seq::new(n as nat, |k: int| be32(s, p + 4 * k) as i32)
}

/// The number of parameters of each kind of formula.
pub open spec fn param_count(kind: u16) -> int {
    if kind == 0 {
        1
    } else if kind == 1 {
        3
    } else if kind == 2 {
        4
    } else if kind == 3 {
        5
    } else {
        7
    }
}

/// Where the stream stands after a seek to `target` from `cur`: a seek past
/// the end of the payload fails and leaves the stream where it was.
pub open spec fn seek_in(s: Seq<u8>, cur: int, target: int) -> int {
    if target > s.len() {
        cur
    } else {
        target
    }
}

/// What reading an embedded curve at `p` gives: the curve and the position
/// after it, or the error code.
#[verifier::opaque]
pub open spec fn curve_read(s: Seq<u8>, p: int) -> Result<(CurveView, int), ErrorCode> {
    if !fits(s, p, 8) {
        Err(ErrorCode::Read)
    } else if be32(s, p) == CURVE_SIGNATURE {
        let q = p + 8;
        if !fits(s, q, 4) {
            Err(ErrorCode::Read)
        } else {
            let n = be32(s, q) as int;
            if n == 0 {
                Ok((CurveView::Identity, q + 4))
            } else if n == 1 {
                if !fits(s, q + 4, 2) {
                    Err(ErrorCode::Read)
                } else {
                    Ok((CurveView::Gamma(be16(s, q + 4)), q + 6))
                }
            } else if n > 0x7fff {
                Err(ErrorCode::Range)
            } else if !fits(s, q + 4, 2 * n) {
                Err(ErrorCode::Read)
            } else {
                Ok((CurveView::Table(be16_seq(s, q + 4, n)), q + 4 + 2 * n))
            }
        }
    } else if be32(s, p) == PARAMETRIC_SIGNATURE {
        let q = p + 8;
        if !fits(s, q, 4) {
            Err(ErrorCode::Read)
        } else {
            let kind = be16(s, q);
            if kind > 4 {
                Err(ErrorCode::UnknownExtension)
            } else if !fits(s, q + 4, 4 * param_count(kind)) {
                Err(ErrorCode::Read)
            } else {
                Ok(
                    (
                        CurveView::Parametric(kind, s15_seq(s, q + 4, param_count(kind))),
                        q + 4 + 4 * param_count(kind),
                    ),
                )
            }
        }
    } else {
        Err(ErrorCode::UnknownExtension)
    }
}

/// What reading `n` embedded curves from `p` on gives: each curve starts at
/// a multiple of four bytes, where that lies within the payload.
pub open spec fn curve_set_read(s: Seq<u8>, p: int, n: nat) -> Result<(Seq<CurveView>, int), ErrorCode>
    decreases n,
{
    if n == 0 {
        Ok((Seq::empty(), p))
    } else {
        match curve_set_read(s, p, (n - 1) as nat) {
            Err(e) => Err(e),
            Ok((cs, q)) => match curve_read(s, q) {
                Err(e) => Err(e),
                Ok((c, r)) => Ok((cs.push(c), seek_in(s, r, align4(r)))),
            },
        }
    }
}

/// Whether one of the first `n` inputs has a grid of a single point.
pub open spec fn has_single_point(grid: Seq<u8>, n: int) -> bool {
    exists|i: int| 0 <= i < n && grid[i] == 1
}

/// The number of samples of a table with `out` outputs on the grid's first
/// `n` inputs, when it fits in 32 bits.
pub open spec fn grid_samples(grid: Seq<u8>, n: int, out: int) -> Option<u32>
    decreases n,
{
    if n <= 0 {
        if out <= u32::MAX {
            Some(out as u32)
        } else {
            None
        }
    } else {
        match grid_samples(grid, n - 1, out) {
            None => None,
            Some(m) => if m * grid[n - 1] <= u32::MAX {
                Some((m * grid[n - 1]) as u32)
            } else {
                None
            },
        }
    }
}

/// What reading a colour lookup table at `p` gives: the table and the
/// position after it, or the error code.
#[verifier::opaque]
pub open spec fn clut_read(s: Seq<u8>, p: int, inp: int, out: int) -> Result<(ClutView, int), ErrorCode> {
    if !fits(s, p, 15) {
        Err(ErrorCode::Read)
    } else {
        let grid = s.subrange(p, p + 15);
        if has_single_point(grid, inp) {
            Err(ErrorCode::Range)
        } else if !fits(s, p + 15, 4) {
            Err(ErrorCode::Read)
        } else {
            let precision = s[p + 15];
            let q = p + 19;
            if precision != 1 && precision != 2 {
                Err(ErrorCode::UnknownExtension)
            } else {
                match grid_samples(grid, inp, out) {
                    None => Err(ErrorCode::Range),
                    Some(n) => if !fits(s, q, precision * n) {
                        Err(ErrorCode::Read)
                    } else if precision == 1 {
                        Ok(
                            (
                                ClutView {
                                    grid,
                                    precision,
                                    table: widen_all(s.subrange(q, q + n)),
                                },
                                q + n,
                            ),
                        )
                    } else {
                        Ok((ClutView { grid, precision, table: be16_seq(s, q, n as int) }, q + 2 * n))
                    },
                }
            }
        }
    }
}

/// What reading the matrix and its offsets at `p` gives.
pub open spec fn matrix_read(s: Seq<u8>, p: int) -> Result<(Seq<i32>, int), ErrorCode> {
    if !fits(s, p, 48) {
        Err(ErrorCode::Read)
    } else {
        Ok((s15_seq(s, p, 12), p + 48))
    }
}

/// An offset that is absent or refers past the type base.
pub open spec fn offset_ok(o: u32) -> bool {
    o == 0 || o >= TAG_BASE_SIZE
}

/// The offsets of the payload `s` that lead anywhere refer past the type
/// base, and a payload with a colour lookup table has at most fifteen
/// inputs.
pub open spec fn atob_offsets_ok(s: Seq<u8>) -> bool {
    fits(s, 0, 24) ==> {
        &&& offset_ok(be32(s, 4))
        &&& offset_ok(be32(s, 8))
        &&& offset_ok(be32(s, 12))
        &&& offset_ok(be32(s, 16))
        &&& offset_ok(be32(s, 20))
        &&& be32(s, 16) != 0 ==> s[0] <= 15
    }
}

/// What reading a device-to-PCS lookup table payload gives: the channel
/// counts, then A curves (one per input), colour lookup table, M curves,
/// matrix and B curves (one per output), each absent for offset zero and
/// otherwise read from where the seek to it leaves the stream.
pub open spec fn atob_read(s: Seq<u8>) -> Result<LutAtoBView, ErrorCode> {
    if !fits(s, 0, 24) {
        Err(ErrorCode::Read)
    } else {
        let inp = s[0];
        let out = s[1];
        let off_b = be32(s, 4) as int;
        let off_mat = be32(s, 8) as int;
        let off_m = be32(s, 12) as int;
        let off_clut = be32(s, 16) as int;
        let off_a = be32(s, 20) as int;
        let p0 = 24int;
        let ra = if off_a == 0 {
            Ok((None::<Seq<CurveView>>, p0))
        } else {
            match curve_set_read(s, seek_in(s, p0, off_a - 8), inp as nat) {
                Ok((c, q)) => Ok((Some(c), q)),
                Err(e) => Err(e),
            }
        };
        match ra {
            Err(e) => Err(e),
            Ok((a, p1)) => {
                let rc = if off_clut == 0 {
                    Ok((None::<ClutView>, p1))
                } else {
                    match clut_read(s, seek_in(s, p1, off_clut - 8), inp as int, out as int) {
                        Ok((c, q)) => Ok((Some(c), q)),
                        Err(e) => Err(e),
                    }
                };
                match rc {
                    Err(e) => Err(e),
                    Ok((c, p2)) => {
                        let rm = if off_m == 0 {
                            Ok((None::<Seq<CurveView>>, p2))
                        } else {
                            match curve_set_read(s, seek_in(s, p2, off_m - 8), out as nat) {
                                Ok((v, q)) => Ok((Some(v), q)),
                                Err(e) => Err(e),
                            }
                        };
                        match rm {
                            Err(e) => Err(e),
                            Ok((m, p3)) => {
                                let rx = if off_mat == 0 {
                                    Ok((None::<Seq<i32>>, p3))
                                } else {
                                    match matrix_read(s, seek_in(s, p3, off_mat - 8)) {
                                        Ok((x, q)) => Ok((Some(x), q)),
                                        Err(e) => Err(e),
                                    }
                                };
                                match rx {
                                    Err(e) => Err(e),
                                    Ok((x, p4)) => {
                                        let rb = if off_b == 0 {
                                            Ok(None::<Seq<CurveView>>)
                                        } else {
                                            match curve_set_read(
                                                s,
                                                seek_in(s, p4, off_b - 8),
                                                out as nat,
                                            ) {
                                                Ok((v, q)) => Ok(Some(v)),
                                                Err(e) => Err(e),
                                            }
                                        };
                                        match rb {
                                            Err(e) => Err(e),
                                            Ok(b) => Ok(
                                                LutAtoBView {
                                                    input_channels: inp,
                                                    output_channels: out,
                                                    a_curves: a,
                                                    clut: c,
                                                    m_curves: m,
                                                    matrix: x,
                                                    b_curves: b,
                                                },
                                            ),
                                        }
                                    },
                                }
                            },
                        }
                    },
                }
            },
        }
    }
}

/// What reading a PCS-to-device lookup table payload gives: the same parts
/// as the device-to-PCS payload, read in the order B curves, matrix, M
/// curves, colour lookup table, A curves; the B and M curves have one curve
/// per input and the A curves one per output.
pub open spec fn btoa_read(s: Seq<u8>) -> Result<LutAtoBView, ErrorCode> {
    if !fits(s, 0, 24) {
        Err(ErrorCode::Read)
    } else {
        let inp = s[0];
        let out = s[1];
        let off_b = be32(s, 4) as int;
        let off_mat = be32(s, 8) as int;
        let off_m = be32(s, 12) as int;
        let off_clut = be32(s, 16) as int;
        let off_a = be32(s, 20) as int;
        let rb = if off_b == 0 {
            Ok((None::<Seq<CurveView>>, 24int))
        } else {
            match curve_set_read(s, seek_in(s, 24, off_b - 8), inp as nat) {
                Ok((v, q)) => Ok((Some(v), q)),
                Err(e) => Err(e),
            }
        };
        match rb {
            Err(e) => Err(e),
            Ok((b, p1)) => {
                let rx = if off_mat == 0 {
                    Ok((None::<Seq<i32>>, p1))
                } else {
                    match matrix_read(s, seek_in(s, p1, off_mat - 8)) {
                        Ok((x, q)) => Ok((Some(x), q)),
                        Err(e) => Err(e),
                    }
                };
                match rx {
                    Err(e) => Err(e),
                    Ok((x, p2)) => {
                        let rm = if off_m == 0 {
                            Ok((None::<Seq<CurveView>>, p2))
                        } else {
                            match curve_set_read(s, seek_in(s, p2, off_m - 8), inp as nat) {
                                Ok((v, q)) => Ok((Some(v), q)),
                                Err(e) => Err(e),
                            }
                        };
                        match rm {
                            Err(e) => Err(e),
                            Ok((m, p3)) => {
                                let rc = if off_clut == 0 {
                                    Ok((None::<ClutView>, p3))
                                } else {
                                    match clut_read(s, seek_in(s, p3, off_clut - 8), inp as int, out as int) {
                                        Ok((c, q)) => Ok((Some(c), q)),
                                        Err(e) => Err(e),
                                    }
                                };
                                match rc {
                                    Err(e) => Err(e),
                                    Ok((c, p4)) => {
                                        let ra = if off_a == 0 {
                                            Ok(None::<Seq<CurveView>>)
                                        } else {
                                            match curve_set_read(
                                                s,
                                                seek_in(s, p4, off_a - 8),
                                                out as nat,
                                            ) {
                                                Ok((v, q)) => Ok(Some(v)),
                                                Err(e) => Err(e),
                                            }
                                        };
                                        match ra {
                                            Err(e) => Err(e),
                                            Ok(a) => Ok(
                                                LutAtoBView {
                                                    input_channels: inp,
                                                    output_channels: out,
                                                    a_curves: a,
                                                    clut: c,
                                                    m_curves: m,
                                                    matrix: x,
                                                    b_curves: b,
                                                },
                                            ),
                                        }
                                    },
                                }
                            },
                        }
                    },
                }
            },
        }
    }
}

/// The `n` s15Fixed16 numbers stored from `p` on.
fn read_s15s(data: &[u8], p: usize, n: usize) -> (v: Vec<i32>)
    requires
        p + 4 * n <= data.len(),
    ensures
        v@ == s15_seq(data@, p as int, n as int),
{
    let mut v: Vec<i32> = Vec::new();
    let mut k: usize = 0;
    while k < n
        invariant
            k <= n,
            p + 4 * n <= data.len(),
            v@ == s15_seq(data@, p as int, k as int),
        decreases n - k,
    {
        v.push(#[verifier::truncate] (read_be32(data, p + 4 * k) as i32));
        k = k + 1;
        assert(v@ =~= s15_seq(data@, p as int, k as int));
    }
    v
}

/// Where a seek to `target` from `cur` leaves the stream.
fn seek_from(data: &[u8], cur: usize, target: u64) -> (r: usize)
    requires
        cur <= data.len(),
    ensures
        r == seek_in(data@, cur as int, target as int),
        r <= data.len(),
{
    if target > data.len() as u64 {
        cur
    } else {
        target as usize
    }
}

/// Read one embedded curve at `p`.
fn read_curve(data: &[u8], p: usize) -> (r: Result<(Curve, usize), CmsError>)
    ensures
        match curve_read(data@, p as int) {
            Ok((c, q)) => r matches Ok((x, y)) && x@ == c && y == q,
            Err(e) => r matches Err(x) && x.code == e,
        },
{
    reveal(curve_read);
    let len = data.len();
    if !has_bytes(data, p, 8) {
        return Err(read_error());
    }
    let sig = read_be32(data, p);
    let q = p + 8;
    if sig == CURVE_SIGNATURE {
        if !has_bytes(data, q, 4) {
            return Err(read_error());
        }
        let n = read_be32(data, q);
        if n == 0 {
            Ok((Curve::Identity, q + 4))
        } else if n == 1 {
            if !has_bytes(data, q + 4, 2) {
                return Err(read_error());
            }
            Ok((Curve::Gamma(read_be16(data, q + 4)), q + 6))
        } else if n > 0x7fff {
            Err(err(ErrorCode::Range, "Curve table too large"))
        } else {
            if !has_bytes(data, q + 4, 2 * (n as u64)) {
                return Err(read_error());
            }
            let t = read_u16s(data, q + 4, n as usize);
            Ok((Curve::Table(t), q + 4 + 2 * (n as usize)))
        }
    } else if sig == PARAMETRIC_SIGNATURE {
        if !has_bytes(data, q, 4) {
            return Err(read_error());
        }
        let kind = read_be16(data, q);
        if kind > 4 {
            return Err(err(ErrorCode::UnknownExtension, "Unknown parametric curve type"));
        }
        let k: usize = if kind == 0 {
            1
        } else if kind == 1 {
            3
        } else if kind == 2 {
            4
        } else if kind == 3 {
            5
        } else {
            7
        };
        if !has_bytes(data, q + 4, 4 * (k as u64)) {
            return Err(read_error());
        }
        let params = read_s15s(data, q + 4, k);
        Ok((Curve::Parametric(kind, params), q + 4 + 4 * k))
    } else {
        Err(err(ErrorCode::UnknownExtension, "Unknown curve type in V4 LUT"))
    }
}

proof fn lemma_curve_set_err(s: Seq<u8>, p: int, k: nat, m: nat)
    requires
        k <= m,
        curve_set_read(s, p, k) is Err,
    ensures
        curve_set_read(s, p, m) == curve_set_read(s, p, k),
    decreases m,
{
    if m > k {
        lemma_curve_set_err(s, p, k, (m - 1) as nat);
    }
}

proof fn lemma_curve_read_ends(s: Seq<u8>, p: int)
    requires
        0 <= p,
    ensures
        curve_read(s, p) matches Ok((c, q)) ==> p < q <= s.len(),
{
    reveal(curve_read);
}

proof fn lemma_curve_set_step(s: Seq<u8>, p: int, k: nat, cs: Seq<CurveView>, q: int)
    requires
        curve_set_read(s, p, k) == Ok::<(Seq<CurveView>, int), ErrorCode>((cs, q)),
    ensures
        curve_set_read(s, p, k + 1) == match curve_read(s, q) {
            Err(e) => Err(e),
            Ok((c, r)) => Ok::<(Seq<CurveView>, int), ErrorCode>((cs.push(c), seek_in(s, r, align4(r)))),
        },
{
}

proof fn lemma_curve_set_ends(s: Seq<u8>, p: int, n: nat)
    requires
        0 <= p <= s.len(),
    ensures
        curve_set_read(s, p, n) matches Ok((cs, q)) ==> p <= q <= s.len(),
    decreases n,
{
    if n > 0 {
        lemma_curve_set_ends(s, p, (n - 1) as nat);
        if let Ok((cs, q)) = curve_set_read(s, p, (n - 1) as nat) {
            lemma_curve_read_ends(s, q);
        }
    }
}

/// Read `n` embedded curves from `p` on.
fn read_curve_set(data: &[u8], p: usize, n: u8) -> (r: Result<(Vec<Curve>, usize), CmsError>)
    requires
        p <= data.len(),
        data.len() + 3 <= u32::MAX,
    ensures
        match curve_set_read(data@, p as int, n as nat) {
            Ok((cs, q)) => r matches Ok((x, y)) && curves_view(x@) == cs && y == q,
            Err(e) => r matches Err(x) && x.code == e,
        },
{
    let mut v: Vec<Curve> = Vec::new();
    let mut pos = p;
    let mut k: u8 = 0;
    assert(curves_view(v@) =~= Seq::<CurveView>::empty());
    while k < n
        invariant
            k <= n,
            pos <= data.len(),
            data.len() + 3 <= u32::MAX,
            curve_set_read(data@, p as int, k as nat) == Ok::<(Seq<CurveView>, int), ErrorCode>(
                (curves_view(v@), pos as int),
            ),
        decreases n - k,
    {
        proof {
            lemma_curve_read_ends(data@, pos as int);
            lemma_curve_set_step(data@, p as int, k as nat, curves_view(v@), pos as int);
        }
        match read_curve(data, pos) {
            Err(e) => {
                proof {
                    lemma_curve_set_err(data@, p as int, (k + 1) as nat, n as nat);
                }
                return Err(e);
            },
            Ok((c, q)) => {
                let aligned = (q + 3) / 4 * 4;
                let ghost old_v = v@;
                v.push(c);
                pos = if aligned > data.len() {
                    q
                } else {
                    aligned
                };
                k = k + 1;
                assert(curves_view(v@) =~= curves_view(old_v).push(v@[v@.len() - 1]@));
            },
        }
    }
    Ok((v, pos))
}

proof fn lemma_grid_samples_none(grid: Seq<u8>, k: int, m: int, out: int)
    requires
        0 <= k <= m,
        grid_samples(grid, k, out) is None,
    ensures
        grid_samples(grid, m, out) is None,
    decreases m,
{
    if m > k {
        lemma_grid_samples_none(grid, k, m - 1, out);
    }
}

/// Read a colour lookup table at `p`.
fn read_clut(data: &[u8], p: usize, inp: u8, out: u8) -> (r: Result<(Clut, usize), CmsError>)
    requires
        inp <= 15,
    ensures
        match clut_read(data@, p as int, inp as int, out as int) {
            Ok((c, q)) => r matches Ok((x, y)) && x@ == c && y == q,
            Err(e) => r matches Err(x) && x.code == e,
        },
{
    reveal(clut_read);
    let len = data.len();
    if !has_bytes(data, p, 15) {
        return Err(read_error());
    }
    let mut grid: Vec<u8> = Vec::new();
    let mut i: usize = 0;
    while i < 15
        invariant
            i <= 15,
            p + 15 <= data.len(),
            grid@ == data@.subrange(p as int, p + i),
        decreases 15 - i,
    {
        grid.push(data[p + i]);
        i = i + 1;
        assert(grid@ =~= data@.subrange(p as int, p + i));
    }
    let mut i: usize = 0;
    while i < inp as usize
        invariant
            i <= inp <= 15,
            grid@.len() == 15,
            p + 15 <= data@.len(),
            grid@ == data@.subrange(p as int, p + 15),
            forall|j: int| 0 <= j < i ==> grid@[j] != 1,
        decreases inp - i,
    {
        if grid[i] == 1 {
            assert(has_single_point(grid@, inp as int)) by {
                assert(0 <= i < inp && grid@[i as int] == 1);
            }
            proof {
                reveal(clut_read);
            }
            return Err(err(ErrorCode::Range, "V4 CLUT: grid point == 1 is invalid"));
        }
        i = i + 1;
    }
    if !has_bytes(data, p + 15, 4) {
        return Err(read_error());
    }
    let precision = data[p + 15];
    if precision != 1 && precision != 2 {
        return Err(err(ErrorCode::UnknownExtension, "V4 CLUT: unsupported precision"));
    }
    let mut m: u64 = out as u64;
    let mut i: usize = 0;
    while i < inp as usize
        invariant
            i <= inp <= 15,
            grid@.len() == 15,
            m <= u32::MAX,
            p + 19 <= data@.len(),
            precision == data@[p + 15],
            precision == 1 || precision == 2,
            p + 15 <= data@.len(),
            grid@ == data@.subrange(p as int, p + 15),
            grid_samples(grid@, i as int, out as int) == Some(m as u32),
        decreases inp - i,
    {
        assert(m * grid@[i as int] <= 0xffff_ffff * 255) by (nonlinear_arith)
            requires
                m <= 0xffff_ffff,
                grid@[i as int] <= 255,
        ;
        let t = m * (grid[i] as u64);
        if t > u32::MAX as u64 {
            assert(grid_samples(grid@, i + 1, out as int) is None);
            proof {
                reveal(clut_read);
                lemma_grid_samples_none(grid@, i + 1, inp as int, out as int);
            }
            return Err(err(ErrorCode::Range, "V4 CLUT: table too large"));
        }
        m = t;
        i = i + 1;
    }
    let q = p + 19;
    if !has_bytes(data, q, (precision as u64) * m) {
        return Err(read_error());
    }
    let n = m as usize;
    if precision == 1 {
        let table = read_widened(data, q, n);
        Ok((Clut { grid, precision, table }, q + n))
    } else {
        let table = read_u16s(data, q, n);
        Ok((Clut { grid, precision, table }, q + 2 * n))
    }
}

proof fn lemma_clut_ends(s: Seq<u8>, p: int, inp: int, out: int)
    requires
        0 <= p,
    ensures
        clut_read(s, p, inp, out) matches Ok((c, q)) ==> p <= q <= s.len(),
{
    reveal(clut_read);
}

/// Read the matrix and its offsets at `p`.
fn read_matrix_offsets(data: &[u8], p: usize) -> (r: Result<(Vec<i32>, usize), CmsError>)
    ensures
        match matrix_read(data@, p as int) {
            Ok((x, q)) => r matches Ok((v, y)) && v@ == x && y == q,
            Err(e) => r matches Err(v) && v.code == e,
        },
{
    let len = data.len();
    if !has_bytes(data, p, 48) {
        return Err(read_error());
    }
    Ok((read_s15s(data, p, 12), p + 48))
}

/// Read a device-to-PCS lookup table payload: `payload` holds the tag's
/// bytes after its type base, and the offsets in it count from the start of
/// the base. The parts are read in the order A curves, colour lookup table,
/// M curves, matrix, B curves; a seek past the end of the payload leaves the
/// stream where it was.
pub fn read_lut_atob_type(payload: &[u8]) -> (r: Result<LutAtoB, CmsError>)
    requires
        payload.len() + 3 <= u32::MAX,
        atob_offsets_ok(payload@),
    ensures
        match atob_read(payload@) {
            Ok(l) => r matches Ok(x) && x@ == l,
            Err(e) => r matches Err(x) && x.code == e,
        },
{
    let data = payload;
    if !has_bytes(data, 0, 24) {
        return Err(read_error());
    }
    let inp = data[0];
    let out = data[1];
    let off_b = read_be32(data, 4);
    let off_mat = read_be32(data, 8);
    let off_m = read_be32(data, 12);
    let off_clut = read_be32(data, 16);
    let off_a = read_be32(data, 20);
    let p0: usize = 24;
    let (a, p1) = if off_a == 0 {
        (None, p0)
    } else {
        let at = seek_from(data, p0, (off_a - TAG_BASE_SIZE) as u64);
        match read_curve_set(data, at, inp) {
            Ok((c, q)) => (Some(c), q),
            Err(e) => {
                return Err(e);
            },
        }
    };
    proof {
        if off_a != 0 {
            lemma_curve_set_ends(data@, seek_in(data@, 24, off_a - 8), inp as nat);
        }
    }
    let (c, p2) = if off_clut == 0 {
        (None, p1)
    } else {
        let at = seek_from(data, p1, (off_clut - TAG_BASE_SIZE) as u64);
        match read_clut(data, at, inp, out) {
            Ok((c, q)) => (Some(c), q),
            Err(e) => {
                return Err(e);
            },
        }
    };
    proof {
        if off_clut != 0 {
            lemma_clut_ends(data@, seek_in(data@, p1 as int, off_clut - 8), inp as int, out as int);
        }
    }
    let (m, p3) = if off_m == 0 {
        (None, p2)
    } else {
        let at = seek_from(data, p2, (off_m - TAG_BASE_SIZE) as u64);
        match read_curve_set(data, at, out) {
            Ok((c, q)) => (Some(c), q),
            Err(e) => {
                return Err(e);
            },
        }
    };
    proof {
        if off_m != 0 {
            lemma_curve_set_ends(data@, seek_in(data@, p2 as int, off_m - 8), out as nat);
        }
    }
    let (x, p4) = if off_mat == 0 {
        (None, p3)
    } else {
        let at = seek_from(data, p3, (off_mat - TAG_BASE_SIZE) as u64);
        match read_matrix_offsets(data, at) {
            Ok((v, q)) => (Some(v), q),
            Err(e) => {
                return Err(e);
            },
        }
    };
    let b = if off_b == 0 {
        None
    } else {
        let at = seek_from(data, p4, (off_b - TAG_BASE_SIZE) as u64);
        match read_curve_set(data, at, out) {
            Ok((c, q)) => Some(c),
            Err(e) => {
                return Err(e);
            },
        }
    };
    Ok(
        LutAtoB {
            input_channels: inp,
            output_channels: out,
            a_curves: a,
            clut: c,
            m_curves: m,
            matrix: x,
            b_curves: b,
        },
    )
}

/// Read a PCS-to-device lookup table payload: `payload` holds the tag's
/// bytes after its type base, and the offsets in it count from the start of
/// the base. The parts are read in the order B curves, matrix, M curves,
/// colour lookup table, A curves; a seek past the end of the payload leaves
/// the stream where it was.
pub fn read_lut_btoa_type(payload: &[u8]) -> (r: Result<LutAtoB, CmsError>)
    requires
        payload.len() + 3 <= u32::MAX,
        atob_offsets_ok(payload@),
    ensures
        match btoa_read(payload@) {
            Ok(l) => r matches Ok(x) && x@ == l,
            Err(e) => r matches Err(x) && x.code == e,
        },
{
    let data = payload;
    if !has_bytes(data, 0, 24) {
        return Err(read_error());
    }
    let inp = data[0];
    let out = data[1];
    let off_b = read_be32(data, 4);
    let off_mat = read_be32(data, 8);
    let off_m = read_be32(data, 12);
    let off_clut = read_be32(data, 16);
    let off_a = read_be32(data, 20);
    let p0: usize = 24;
    let (b, p1) = if off_b == 0 {
        (None, p0)
    } else {
        let at = seek_from(data, p0, (off_b - TAG_BASE_SIZE) as u64);
        match read_curve_set(data, at, inp) {
            Ok((c, q)) => (Some(c), q),
            Err(e) => {
                return Err(e);
            },
        }
    };
    proof {
        if off_b != 0 {
            lemma_curve_set_ends(data@, seek_in(data@, 24, off_b - 8), inp as nat);
        }
    }
    let (x, p2) = if off_mat == 0 {
        (None, p1)
    } else {
        let at = seek_from(data, p1, (off_mat - TAG_BASE_SIZE) as u64);
        match read_matrix_offsets(data, at) {
            Ok((v, q)) => (Some(v), q),
            Err(e) => {
                return Err(e);
            },
        }
    };
    let (m, p3) = if off_m == 0 {
        (None, p2)
    } else {
        let at = seek_from(data, p2, (off_m - TAG_BASE_SIZE) as u64);
        match read_curve_set(data, at, inp) {
            Ok((c, q)) => (Some(c), q),
            Err(e) => {
                return Err(e);
            },
        }
    };
    proof {
        if off_m != 0 {
            lemma_curve_set_ends(data@, seek_in(data@, p2 as int, off_m - 8), inp as nat);
        }
    }
    let (c, p4) = if off_clut == 0 {
        (None, p3)
    } else {
        let at = seek_from(data, p3, (off_clut - TAG_BASE_SIZE) as u64);
        match read_clut(data, at, inp, out) {
            Ok((c, q)) => (Some(c), q),
            Err(e) => {
                return Err(e);
            },
        }
    };
    proof {
        if off_clut != 0 {
            lemma_clut_ends(data@, seek_in(data@, p3 as int, off_clut - 8), inp as int, out as int);
        }
    }
    let a = if off_a == 0 {
        None
    } else {
        let at = seek_from(data, p4, (off_a - TAG_BASE_SIZE) as u64);
        match read_curve_set(data, at, out) {
            Ok((v, q)) => Some(v),
            Err(e) => {
                return Err(e);
            },
        }
    };
    Ok(
        LutAtoB {
            input_channels: inp,
            output_channels: out,
            a_curves: a,
            clut: c,
            m_curves: m,
            matrix: x,
            b_curves: b,
        },
    )
}

} // verus!
