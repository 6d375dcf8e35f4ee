//! LUT interpolation: grid metadata and 16-bit evaluation of 1-input tables.
use vstd::prelude::*;

verus! {

/// Maximum number of input dimensions for LUT interpolation.
pub const MAX_INPUT_DIMENSIONS: usize = 15;

/// Maximum number of output channels of a stage.
pub const MAX_STAGE_CHANNELS: usize = 128;

/// Interpolation flag: 16-bit tables.
pub const LERP_FLAGS_16BITS: u32 = 0x0000;

/// Interpolation flag: floating-point tables.
pub const LERP_FLAGS_FLOAT: u32 = 0x0001;

/// Interpolation flag: trilinear rather than tetrahedral.
pub const LERP_FLAGS_TRILINEAR: u32 = 0x0100;

/// Interpolation parameters: the metadata of a LUT table (grid sizes and
/// strides). The table itself is passed at evaluation time.
#[derive(Debug, Clone)]
pub struct InterpParams {
    pub n_inputs: u32,
    pub n_outputs: u32,
    pub n_samples: [u32; 15],
    pub domain: [u32; 15],
    pub opta: [u32; 15],
    pub flags: u32,
}

/// Stride of input dimension `i` in a table with the given grid sizes:
/// the number of outputs times the grid sizes of the dimensions
/// `n_inputs - 1` down to `n_inputs - i`.
pub open spec fn grid_stride(s: Seq<u32>, n_inputs: int, n_outputs: int, i: int) -> int
    decreases i,
{
    if i <= 0 {
        n_outputs
    } else {
        grid_stride(s, n_inputs, n_outputs, i - 1) * s[n_inputs - i]
    }
}

proof fn lemma_grid_stride_nonneg(s: Seq<u32>, n_inputs: int, n_outputs: int, i: int)
    requires
        n_outputs >= 0,
        i < n_inputs,
    ensures
        grid_stride(s, n_inputs, n_outputs, i) >= 0,
    decreases i,
{
    if i > 0 {
        lemma_grid_stride_nonneg(s, n_inputs, n_outputs, i - 1);
        let g = grid_stride(s, n_inputs, n_outputs, i - 1);
        let x = s[n_inputs - i] as int;
        assert(g * x >= 0) by (nonlinear_arith)
            requires
                g >= 0,
                x >= 0,
        ;
    }
}

/// What `compute` needs in order not to overflow or index out of bounds.
pub open spec fn grid_ok(s: Seq<u32>, n_inputs: int, n_outputs: int) -> bool {
    1 <= n_inputs <= 15 ==> {
        &&& s.len() >= n_inputs
        &&& forall|i: int| 0 <= i < n_inputs ==> #[trigger] s[i] >= 1
        &&& forall|i: int| 0 <= i < n_inputs ==> #[trigger] grid_stride(s, n_inputs, n_outputs, i)
            <= u32::MAX
    }
}

/// The parameters that `compute` builds for valid dimensions.
pub open spec fn params_match(p: InterpParams, s: Seq<u32>, n_inputs: u32, n_outputs: u32, flags: u32) -> bool {
    &&& p.n_inputs == n_inputs
    &&& p.n_outputs == n_outputs
    &&& p.flags == flags
    &&& forall|i: int|
        0 <= i < 15 ==> #[trigger] p.n_samples[i] == (if i < n_inputs {
            s[i]
        } else {
            0u32
        })
    &&& forall|i: int|
        0 <= i < 15 ==> #[trigger] p.domain[i] == (if i < n_inputs {
            (s[i] - 1) as u32
        } else {
            0u32
        })
    &&& forall|i: int|
        0 <= i < 15 ==> #[trigger] p.opta[i] == (if i < n_inputs {
            grid_stride(s, n_inputs as int, n_outputs as int, i) as u32
        } else if i == 0 {
            n_outputs
        } else {
            0u32
        })
}

/// `a` mapped from `0 .. 0xFFFF * domain` onto a 16.16 fixed-point grid position.
pub open spec fn fixed_domain(a: int) -> int {
    a + (a + 0x7fff) / 0xffff
}

/// Fixed-point linear interpolation between `l` and `h` with weight `a / 65536`.
pub open spec fn lerp16(a: int, l: int, h: int) -> u16 {
    ((((h - l) * a + 0x8000) / 65536) + l) as u16
}

/// The 32-bit signed arithmetic of `lerp16` stays in range.
pub open spec fn lerp_fits(a: int, l: int, h: int) -> bool {
    &&& i32::MIN <= (h - l) * a
    &&& (h - l) * a + 0x8000 <= i32::MAX
}

/// The grid position of input `v` on a grid with `d` intervals stays in range.
pub open spec fn position_fits(d: int, v: int) -> bool {
    &&& d * v + 0x7fff <= i32::MAX
    &&& fixed_domain(d * v) <= i32::MAX
}

/// Grid cell of input `v` on a grid with `d` intervals.
pub open spec fn cell_of(d: int, v: int) -> int {
    fixed_domain(d * v) / 65536
}

/// Weight of the upper grid point for input `v`.
pub open spec fn rest_of(d: int, v: int) -> int {
    fixed_domain(d * v) % 65536
}

/// Upper grid cell used by the multi-output evaluation.
pub open spec fn upper_cell(d: int, v: int) -> int {
    if v == 0xffff {
        cell_of(d, v)
    } else {
        cell_of(d, v) + 1
    }
}

/// Convert a value in `0 .. 0xFFFF * domain` to 16.16 fixed point.
pub fn to_fixed_domain(a: i32) -> (r: i32)
    requires
        0 <= a,
        a + 0x7fff <= i32::MAX,
        fixed_domain(a as int) <= i32::MAX,
    ensures
        r == fixed_domain(a as int),
{
    a + (a + 0x7fff) / 0xffff
}

/// Fixed-point linear interpolation: `a` is the weight (0..0xFFFF) of `h`.
pub fn linear_interp(a: i32, l: i32, h: i32) -> (r: u16)
    requires
        0 <= l <= 0xffff,
        0 <= h <= 0xffff,
        lerp_fits(a as int, l as int, h as int),
    ensures
        r == lerp16(a as int, l as int, h as int),
{
    let dif = (h - l) * a + 0x8000;
    let q = dif >> 16u32;
    assert(q == dif / 65536) by (bit_vector)
        requires
            q == dif >> 16u32,
    ;
    let res = q + l;
    res as u16
}

/// The output of the single-output evaluation.
pub open spec fn lin_lerp_1d_value(d: int, v: int, table: Seq<u16>) -> u16 {
    if v == 0xffff || d == 0 {
        table[d]
    } else {
        lerp16(rest_of(d, v), table[cell_of(d, v)] as int, table[cell_of(d, v) + 1] as int)
    }
}

/// The preconditions of the single-output evaluation.
pub open spec fn lin_lerp_1d_ok(d: int, v: int, table: Seq<u16>) -> bool {
    &&& table.len() > d
    &&& (v != 0xffff && d != 0) ==> {
        &&& position_fits(d, v)
        &&& lerp_fits(
            rest_of(d, v),
            table[cell_of(d, v)] as int,
            table[cell_of(d, v) + 1] as int,
        )
    }
}

/// Output channel `i` of the multi-output evaluation.
pub open spec fn eval_1_value(d: int, stride: int, v: int, table: Seq<u16>, i: int) -> u16 {
    lerp16(
        rest_of(d, v),
        table[stride * cell_of(d, v) + i] as int,
        table[stride * upper_cell(d, v) + i] as int,
    )
}

/// The preconditions of the multi-output evaluation.
pub open spec fn eval_1_ok(d: int, stride: int, n_out: int, v: int, table: Seq<u16>) -> bool {
    &&& position_fits(d, v)
    &&& n_out > 0 ==> stride * upper_cell(d, v) + n_out <= table.len()
    &&& forall|i: int|
        0 <= i < n_out ==> #[trigger] lerp_fits(
            rest_of(d, v),
            table[stride * cell_of(d, v) + i] as int,
            table[stride * upper_cell(d, v) + i] as int,
        )
}

/// `d * v` in 32-bit signed arithmetic.
fn grid_position(d: u32, v: u16) -> (r: i32)
    requires
        d * v + 0x7fff <= i32::MAX,
    ensures
        r == d * v,
        r >= 0,
{
    if v == 0 {
        0
    } else {
        assert(d <= d * v) by (nonlinear_arith)
            requires
                v >= 1,
        ;
        assert(0 <= d * v) by (nonlinear_arith);
        (d as i32) * (v as i32)
    }
}

/// Grid position facts for inputs below the top of the range.
proof fn lemma_cell_below(d: int, v: int)
    requires
        1 <= d,
        0 <= v < 0xffff,
    ensures
        0 <= cell_of(d, v) < d,
        0 <= rest_of(d, v) < 65536,
{
    assert(d * v <= d * 0xfffe) by (nonlinear_arith)
        requires
            1 <= d,
            0 <= v < 0xffff,
    ;
    assert(0 <= d * v) by (nonlinear_arith)
        requires
            1 <= d,
            0 <= v,
    ;
    assert((d * v + 0x7fff) / 0xffff <= d) by (nonlinear_arith)
        requires
            0 <= d * v <= d * 0xfffe,
            1 <= d,
    ;
    assert(fixed_domain(d * v) < 65536 * d);
}

/// Single input, single output.
fn lin_lerp_1d(input: &[u16], output: &mut [u16], p: &InterpParams, table: &[u16])
    requires
        input.len() >= 1,
        old(output).len() >= 1,
        lin_lerp_1d_ok(p.domain[0] as int, input[0] as int, table@),
    ensures
        final(output)@ == old(output)@.update(
            0,
            lin_lerp_1d_value(p.domain[0] as int, input[0] as int, table@),
        ),
{
    let value = input[0];
    if value == 0xffff || p.domain[0] == 0 {
        output[0] = table[p.domain[0] as usize];
        return;
    }
    let ghost d = p.domain[0] as int;
    proof {
        lemma_cell_below(d, value as int);
    }
    let val3 = grid_position(p.domain[0], value);
    let val3 = to_fixed_domain(val3);
    let cell0 = (val3 >> 16u32) as usize;
    let rest = val3 & 0xffff;
    assert(val3 >> 16u32 == val3 / 65536 && val3 & 0xffff == val3 % 65536) by (bit_vector)
        requires
            val3 >= 0,
    ;
    let y0 = table[cell0] as i32;
    let y1 = table[cell0 + 1] as i32;
    output[0] = linear_interp(rest, y0, y1);
}

/// Single input, several outputs.
fn eval_1_input(input: &[u16], output: &mut [u16], p: &InterpParams, table: &[u16])
    requires
        input.len() >= 1,
        old(output).len() >= p.n_outputs,
        eval_1_ok(
            p.domain[0] as int,
            p.opta[0] as int,
            p.n_outputs as int,
            input[0] as int,
            table@,
        ),
    ensures
        final(output)@.len() == old(output)@.len(),
        forall|i: int|
            0 <= i < final(output)@.len() ==> #[trigger] final(output)@[i] == (if i < p.n_outputs {
                eval_1_value(p.domain[0] as int, p.opta[0] as int, input[0] as int, table@, i)
            } else {
                old(output)@[i]
            }),
{
    let value = input[0];
    let ghost d = p.domain[0] as int;
    let ghost v = value as int;
    proof {
        assert(0 <= d * v) by (nonlinear_arith)
            requires
                0 <= d,
                0 <= v,
        ;
    }
    let val3 = grid_position(p.domain[0], value);
    let val3 = to_fixed_domain(val3);
    let cell0 = (val3 >> 16u32) as usize;
    let rest = val3 & 0xffff;
    assert(val3 >> 16u32 == val3 / 65536 && val3 & 0xffff == val3 % 65536) by (bit_vector)
        requires
            val3 >= 0,
    ;
    let cell1 = if value == 0xffff {
        cell0
    } else {
        cell0 + 1
    };
    let stride = p.opta[0] as usize;
    let n_out = p.n_outputs as usize;
    if n_out == 0 {
        assert(output@ =~= old(output)@);
        return;
    }
    proof {
        assert(0 <= stride * cell0 <= stride * cell1) by (nonlinear_arith)
            requires
                0 <= cell0 <= cell1,
                0 <= stride,
        ;
    }
    assert(cell0 == cell_of(d, v));
    assert(cell1 == upper_cell(d, v));
    assert(stride * cell1 + n_out <= table.len());
    let k0 = stride * cell0;
    let k1 = stride * cell1;
    let mut i: usize = 0;
    while i < n_out
        invariant
            i <= n_out,
            n_out == p.n_outputs,
            output@.len() == old(output)@.len(),
            old(output)@.len() >= n_out,
            k0 == stride * cell_of(d, v),
            k1 == stride * upper_cell(d, v),
            k0 <= k1,
            k1 + n_out <= table.len(),
            rest == rest_of(d, v),
            stride == p.opta[0],
            d == p.domain[0],
            input.len() >= 1,
            v == input[0],
            eval_1_ok(d, stride as int, n_out as int, v, table@),
            forall|j: int|
                0 <= j < output@.len() ==> #[trigger] output@[j] == (if j < i {
                    eval_1_value(d, stride as int, v, table@, j)
                } else {
                    old(output)@[j]
                }),
        decreases n_out - i,
    {
        assert(lerp_fits(rest as int, table@[k0 + i] as int, table@[k1 + i] as int));
        let r = linear_interp(rest, table[k0 + i] as i32, table[k1 + i] as i32);
        output[i] = r;
        i = i + 1;
    }
}

/// Output channel `i` of the evaluation over inputs `d` and on, in the
/// sub-grid whose first entry is at `base`: the value is interpolated
/// between the two neighbouring grid slices along input `d`, each evaluated
/// over the remaining inputs; along the last input it is interpolated
/// between two table entries.
pub open spec fn nd_value(p: InterpParams, input: Seq<u16>, table: Seq<u16>, d: int, base: int, i: int) -> u16
    decreases p.n_inputs - d,
{
    let dm = p.domain[d] as int;
    let v = input[d] as int;
    let stride = p.opta[p.n_inputs - 1 - d] as int;
    let k0 = base + stride * cell_of(dm, v);
    let k1 = base + stride * upper_cell(dm, v);
    if d < 0 || d + 1 >= p.n_inputs {
        lerp16(rest_of(dm, v), table[k0 + i] as int, table[k1 + i] as int)
    } else {
        lerp16(
            rest_of(dm, v),
            nd_value(p, input, table, d + 1, k0, i) as int,
            nd_value(p, input, table, d + 1, k1, i) as int,
        )
    }
}

/// The preconditions of `nd_value`: grid positions and interpolations stay
/// in 32-bit range, and every entry read lies in the table.
pub open spec fn nd_ok(p: InterpParams, input: Seq<u16>, table: Seq<u16>, d: int, base: int, i: int) -> bool
    decreases p.n_inputs - d,
{
    let dm = p.domain[d] as int;
    let v = input[d] as int;
    let stride = p.opta[p.n_inputs - 1 - d] as int;
    let k0 = base + stride * cell_of(dm, v);
    let k1 = base + stride * upper_cell(dm, v);
    &&& 0 <= d < p.n_inputs
    &&& 0 <= base
    &&& 0 <= i
    &&& position_fits(dm, v)
    &&& k1 <= table.len()
    &&& if d + 1 >= p.n_inputs {
        &&& k1 + i < table.len()
        &&& lerp_fits(rest_of(dm, v), table[k0 + i] as int, table[k1 + i] as int)
    } else {
        &&& nd_ok(p, input, table, d + 1, k0, i)
        &&& nd_ok(p, input, table, d + 1, k1, i)
        &&& lerp_fits(
            rest_of(dm, v),
            nd_value(p, input, table, d + 1, k0, i) as int,
            nd_value(p, input, table, d + 1, k1, i) as int,
        )
    }
}

/// Output channel `i` over inputs `d` and on, from the sub-grid at `base`.
fn nd_eval(p: &InterpParams, input: &[u16], table: &[u16], d: usize, base: usize, i: usize) -> (r: u16)
    requires
        p.n_inputs <= 15,
        input.len() >= p.n_inputs,
        nd_ok(*p, input@, table@, d as int, base as int, i as int),
    ensures
        r == nd_value(*p, input@, table@, d as int, base as int, i as int),
    decreases p.n_inputs - d,
{
    let v = input[d];
    let dm = p.domain[d];
    let ghost dg = dm as int;
    let ghost vg = v as int;
    proof {
        assert(0 <= dg * vg) by (nonlinear_arith)
            requires
                0 <= dg,
                0 <= vg,
        ;
    }
    let val3 = grid_position(dm, v);
    let val3 = to_fixed_domain(val3);
    let cell0 = (val3 >> 16u32) as usize;
    let rest = val3 & 0xffff;
    assert(val3 >> 16u32 == val3 / 65536 && val3 & 0xffff == val3 % 65536) by (bit_vector)
        requires
            val3 >= 0,
    ;
    let cell1 = if v == 0xffff {
        cell0
    } else {
        cell0 + 1
    };
    let stride = p.opta[(p.n_inputs as usize) - 1 - d] as usize;
    assert(cell0 == cell_of(dg, vg));
    assert(cell1 == upper_cell(dg, vg));
    proof {
        assert(0 <= stride * cell0 <= stride * cell1) by (nonlinear_arith)
            requires
                0 <= cell0 <= cell1,
                0 <= stride,
        ;
    }
    let len = table.len();
    assert(base + stride * cell1 <= len);
    let k0 = base + stride * cell0;
    let k1 = base + stride * cell1;
    if d + 1 >= p.n_inputs as usize {
        linear_interp(rest, table[k0 + i] as i32, table[k1 + i] as i32)
    } else {
        let a = nd_eval(p, input, table, d + 1, k0, i);
        let b = nd_eval(p, input, table, d + 1, k1, i);
        linear_interp(rest, a as i32, b as i32)
    }
}

/// Two or more inputs, every output channel.
fn eval_n_inputs(input: &[u16], output: &mut [u16], p: &InterpParams, table: &[u16])
    requires
        p.n_inputs <= 15,
        input.len() >= p.n_inputs,
        old(output).len() >= p.n_outputs,
        forall|i: int| 0 <= i < p.n_outputs ==> #[trigger] nd_ok(*p, input@, table@, 0, 0, i),
    ensures
        final(output)@.len() == old(output)@.len(),
        forall|i: int|
            0 <= i < final(output)@.len() ==> #[trigger] final(output)@[i] == (if i < p.n_outputs {
                nd_value(*p, input@, table@, 0, 0, i)
            } else {
                old(output)@[i]
            }),
{
    let n_out = p.n_outputs as usize;
    let mut i: usize = 0;
    while i < n_out
        invariant
            i <= n_out,
            n_out == p.n_outputs,
            p.n_inputs <= 15,
            input.len() >= p.n_inputs,
            output@.len() == old(output)@.len(),
            old(output)@.len() >= n_out,
            forall|j: int| 0 <= j < p.n_outputs ==> #[trigger] nd_ok(*p, input@, table@, 0, 0, j),
            forall|j: int|
                0 <= j < output@.len() ==> #[trigger] output@[j] == (if j < i {
                    nd_value(*p, input@, table@, 0, 0, j)
                } else {
                    old(output)@[j]
                }),
        decreases n_out - i,
    {
        assert(nd_ok(*p, input@, table@, 0, 0, i as int));
        let r = nd_eval(p, input, table, 0, 0, i);
        output[i] = r;
        i = i + 1;
    }
}

impl InterpParams {
    /// Parameters where every input dimension has the same grid size.
    pub fn compute_uniform(n_samples: u32, n_inputs: u32, n_outputs: u32, flags: u32) -> (r:
        Option<Self>)
        requires
            grid_ok(Seq::new(15, |i: int| n_samples), n_inputs as int, n_outputs as int),
        ensures
            r is None <==> (n_inputs == 0 || n_inputs > 15),
            r matches Some(p) ==> params_match(
                p,
                Seq::new(15, |i: int| n_samples),
                n_inputs,
                n_outputs,
                flags,
            ),
    {
        let samples = [n_samples;15];
        assert(samples@ =~= Seq::new(15, |i: int| n_samples));
        Self::compute(samples.as_slice(), n_inputs, n_outputs, flags)
    }

    /// Parameters with per-dimension grid sizes.
    pub fn compute(n_samples: &[u32], n_inputs: u32, n_outputs: u32, flags: u32) -> (r: Option<
        Self,
    >)
        requires
            grid_ok(n_samples@, n_inputs as int, n_outputs as int),
        ensures
            r is None <==> (n_inputs == 0 || n_inputs > 15),
            r matches Some(p) ==> params_match(p, n_samples@, n_inputs, n_outputs, flags),
    {
        if n_inputs == 0 || n_inputs as usize > MAX_INPUT_DIMENSIONS {
            return None;
        }
        let ghost s = n_samples@;
        let n = n_inputs as usize;
        let mut ns = [0u32;15];
        let mut dm = [0u32;15];
        let mut i: usize = 0;
        while i < n
            invariant
                i <= n,
                n == n_inputs,
                1 <= n <= 15,
                n_samples@.len() >= n,
                s == n_samples@,
                grid_ok(s, n_inputs as int, n_outputs as int),
                forall|j: int|
                    0 <= j < 15 ==> #[trigger] ns[j] == (if j < i {
                        s[j]
                    } else {
                        0u32
                    }),
                forall|j: int|
                    0 <= j < 15 ==> #[trigger] dm[j] == (if j < i {
                        (s[j] - 1) as u32
                    } else {
                        0u32
                    }),
            decreases n - i,
        {
            assert(s[i as int] >= 1);
            ns[i] = n_samples[i];
            dm[i] = n_samples[i] - 1;
            i = i + 1;
        }
        let mut opta = [0u32;15];
        opta[0] = n_outputs;
        let mut i: usize = 1;
        while i < n
            invariant
                1 <= i <= n,
                n == n_inputs,
                1 <= n <= 15,
                n_samples@.len() >= n,
                s == n_samples@,
                grid_ok(s, n_inputs as int, n_outputs as int),
                forall|j: int|
                    0 <= j < 15 ==> #[trigger] opta[j] == (if j < i {
                        grid_stride(s, n_inputs as int, n_outputs as int, j) as u32
                    } else {
                        0u32
                    }),
            decreases n - i,
        {
            assert(grid_stride(s, n_inputs as int, n_outputs as int, i as int) <= u32::MAX);
            assert(grid_stride(s, n_inputs as int, n_outputs as int, (i - 1) as int) <= u32::MAX);
            assert(grid_stride(s, n_inputs as int, n_outputs as int, i as int) == grid_stride(
                s,
                n_inputs as int,
                n_outputs as int,
                i - 1,
            ) * s[n_inputs - i]);
            proof {
                lemma_grid_stride_nonneg(s, n_inputs as int, n_outputs as int, i - 1);
                lemma_grid_stride_nonneg(s, n_inputs as int, n_outputs as int, i as int);
            }
            assert(opta[i - 1] == grid_stride(s, n_inputs as int, n_outputs as int, (i - 1) as int));
            let v = opta[i - 1] * n_samples[n - i];
            opta[i] = v;
            i = i + 1;
        }
        Some(InterpParams { n_inputs, n_outputs, n_samples: ns, domain: dm, opta, flags })
    }

    /// Evaluate the LUT with 16-bit values, for one to fifteen inputs. One
    /// input with one output interpolates between two neighbouring entries,
    /// taking the last grid entry at the top of the range; otherwise each
    /// output channel is interpolated input by input, see `nd_value`.
    pub fn eval_16(&self, input: &[u16], output: &mut [u16], table: &[u16])
        requires
            1 <= self.n_inputs <= 15,
            input.len() >= self.n_inputs,
            self.n_inputs == 1 && self.n_outputs == 1 ==> old(output).len() >= 1 && lin_lerp_1d_ok(
                self.domain[0] as int,
                input[0] as int,
                table@,
            ),
            self.n_inputs == 1 && self.n_outputs != 1 ==> old(output).len() >= self.n_outputs
                && eval_1_ok(
                self.domain[0] as int,
                self.opta[0] as int,
                self.n_outputs as int,
                input[0] as int,
                table@,
            ),
            self.n_inputs >= 2 ==> old(output).len() >= self.n_outputs && forall|i: int|
                0 <= i < self.n_outputs ==> #[trigger] nd_ok(*self, input@, table@, 0, 0, i),
        ensures
            final(output)@.len() == old(output)@.len(),
            self.n_inputs == 1 && self.n_outputs == 1 ==> final(output)@ == old(output)@.update(
                0,
                lin_lerp_1d_value(self.domain[0] as int, input[0] as int, table@),
            ),
            self.n_inputs == 1 && self.n_outputs != 1 ==> forall|i: int|
                0 <= i < final(output)@.len() ==> #[trigger] final(output)@[i] == (if i
                    < self.n_outputs {
                    eval_1_value(
                        self.domain[0] as int,
                        self.opta[0] as int,
                        input[0] as int,
                        table@,
                        i,
                    )
                } else {
                    old(output)@[i]
                }),
            self.n_inputs >= 2 ==> forall|i: int|
                0 <= i < final(output)@.len() ==> #[trigger] final(output)@[i] == (if i
                    < self.n_outputs {
                    nd_value(*self, input@, table@, 0, 0, i)
                } else {
                    old(output)@[i]
                }),
    {
        if self.n_inputs >= 2 {
            eval_n_inputs(input, output, self, table);
        } else if self.n_outputs == 1 {
            lin_lerp_1d(input, output, self, table);
        } else {
            eval_1_input(input, output, self, table);
        }
    }
}


/// The single-output evaluation gives the first table entry at input 0 and
/// the last grid entry at input 0xFFFF.
pub proof fn law_lin_lerp_endpoints(d: int, table: Seq<u16>)
    requires
        0 <= d < table.len(),
    ensures
        lin_lerp_1d_value(d, 0, table) == table[0],
        lin_lerp_1d_value(d, 0xffff, table) == table[d],
{
    assert(fixed_domain(d * 0) == 0);
    assert(cell_of(d, 0) == 0);
    assert(rest_of(d, 0) == 0);
}

/// The table position of the grid node below the inputs `d` and on, in
/// the sub-grid at `base`.
pub open spec fn node_index(p: InterpParams, input: Seq<u16>, d: int, base: int) -> int
    decreases p.n_inputs - d,
{
    let k0 = base + p.opta[p.n_inputs - 1 - d] as int * cell_of(p.domain[d] as int, input[d] as int);
    if d < 0 || d + 1 >= p.n_inputs {
        k0
    } else {
        node_index(p, input, d + 1, k0)
    }
}

/// Inputs that sit exactly on grid nodes give the table entries stored
/// there, whatever the number of inputs.
pub proof fn law_nd_grid_node(p: InterpParams, input: Seq<u16>, table: Seq<u16>, d: int, base: int, i: int)
    requires
        nd_ok(p, input, table, d, base, i),
        forall|e: int| d <= e < p.n_inputs ==> #[trigger] rest_of(p.domain[e] as int, input[e] as int) == 0,
    ensures
        nd_value(p, input, table, d, base, i) == table[node_index(p, input, d, base) + i],
    decreases p.n_inputs - d,
{
    let dm = p.domain[d] as int;
    let v = input[d] as int;
    assert(rest_of(dm, v) == 0);
    let k0 = base + p.opta[p.n_inputs - 1 - d] as int * cell_of(dm, v);
    if d + 1 < p.n_inputs {
        law_nd_grid_node(p, input, table, d + 1, k0, i);
    }
}

/// The grid position of input 0 is node 0, and of input 0xFFFF the last
/// node, both with no weight on the next node.
pub proof fn law_grid_ends(d: int)
    requires
        0 <= d,
    ensures
        cell_of(d, 0) == 0,
        rest_of(d, 0) == 0,
        cell_of(d, 0xffff) == d,
        rest_of(d, 0xffff) == 0,
{
    assert(fixed_domain(d * 0) == 0);
    assert(fixed_domain(d * 0xffff) == 65536 * d) by (nonlinear_arith)
        requires
            0 <= d,
    {
        assert((d * 0xffff + 0x7fff) / 0xffff == d);
    }
}

} // verus!
