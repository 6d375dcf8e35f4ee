use lcms::intrp::{linear_interp, to_fixed_domain, InterpParams, LERP_FLAGS_16BITS};

#[test]
fn identity_1d_16bit() {
    let n = 256u32;
    let table: Vec<u16> = (0..n).map(|i| (i * 0xFFFF / (n - 1)) as u16).collect();
    let params = InterpParams::compute_uniform(n, 1, 1, LERP_FLAGS_16BITS).unwrap();
    for input_val in [0u16, 1, 128, 255, 0x7FFF, 0xFFFE, 0xFFFF] {
        let mut output = [0u16];
        params.eval_16(&[input_val], &mut output, &table);
        let diff = (output[0] as i32 - input_val as i32).unsigned_abs();
        assert!(diff <= 1, "input={input_val}: output={}, diff={diff}", output[0]);
    }
}

#[test]
fn gamma_3_0_1d_16bit() {
    let n = 4096u32;
    let table: Vec<u16> = (0..n)
        .map(|i| {
            let x = i as f64 / (n - 1) as f64;
            (x.powi(3) * 65535.0 + 0.5) as u16
        })
        .collect();
    let params = InterpParams::compute_uniform(n, 1, 1, LERP_FLAGS_16BITS).unwrap();
    let test_inputs: Vec<u16> = [0.0f64, 0.25, 0.5, 0.75, 1.0].iter().map(|&x| (x * 65535.0) as u16).collect();
    let expected: Vec<u16> =
        [0.0f64, 0.25, 0.5, 0.75, 1.0].iter().map(|&x| (x.powi(3) * 65535.0 + 0.5) as u16).collect();
    for (input_val, exp) in test_inputs.iter().zip(expected.iter()) {
        let mut output = [0u16];
        params.eval_16(&[*input_val], &mut output, &table);
        let diff = (output[0] as i32 - *exp as i32).unsigned_abs();
        assert!(diff <= 2, "input={input_val}: output={}, expected={exp}", output[0]);
    }
}

#[test]
fn multi_output_1d_16bit() {
    let n = 256u32;
    let n_out = 3u32;
    let table: Vec<u16> = (0..n)
        .flat_map(|i| {
            let v = (i * 0xFFFF / (n - 1)) as u16;
            [v, v / 2, 0xFFFF - v]
        })
        .collect();
    let params = InterpParams::compute_uniform(n, 1, n_out, LERP_FLAGS_16BITS).unwrap();
    let mut output = [0u16; 3];
    params.eval_16(&[0x8000], &mut output, &table);
    assert!((output[0] as i32 - 0x8000).unsigned_abs() <= 2);
    assert!((output[1] as i32 - 0x4000).unsigned_abs() <= 2);
    assert!((output[2] as i32 - 0x7FFF).unsigned_abs() <= 2);
}

#[test]
fn boundary_1d_16bit_zero_and_max() {
    let n = 17u32;
    let table: Vec<u16> = (0..n).map(|i| (i * 0xFFFF / (n - 1)) as u16).collect();
    let params = InterpParams::compute_uniform(n, 1, 1, LERP_FLAGS_16BITS).unwrap();
    let mut output = [0u16];
    params.eval_16(&[0], &mut output, &table);
    assert_eq!(output[0], 0);
    params.eval_16(&[0xFFFF], &mut output, &table);
    assert_eq!(output[0], 0xFFFF);
}

#[test]
fn invalid_dimensions_returns_none() {
    assert!(InterpParams::compute_uniform(17, 0, 1, LERP_FLAGS_16BITS).is_none());
    assert!(InterpParams::compute_uniform(17, 16, 1, LERP_FLAGS_16BITS).is_none());
}

#[test]
fn to_fixed_domain_known_values() {
    assert_eq!(to_fixed_domain(0), 0);
    assert_eq!(to_fixed_domain(0xFFFF), 1 << 16);
    assert_eq!(to_fixed_domain(0xFFFF * 2), 2 << 16);
}

// ---- further cases ----

#[test]
fn compute_uniform_fills_strides() {
    let p = InterpParams::compute_uniform(17, 3, 2, LERP_FLAGS_16BITS).unwrap();
    assert_eq!(p.n_inputs, 3);
    assert_eq!(p.n_outputs, 2);
    assert_eq!(&p.n_samples[..3], &[17, 17, 17]);
    assert_eq!(&p.domain[..3], &[16, 16, 16]);
    // The last input varies fastest: strides 2, 2*17, 2*17*17.
    assert_eq!(p.opta[0], 2);
    assert_eq!(p.opta[1], 34);
    assert_eq!(p.opta[2], 578);
}

#[test]
fn compute_takes_per_input_sizes() {
    let p = InterpParams::compute(&[3, 5], 2, 1, LERP_FLAGS_16BITS).unwrap();
    assert_eq!(&p.domain[..2], &[2, 4]);
    assert_eq!(p.opta[0], 1);
    assert_eq!(p.opta[1], 5);
}

#[test]
fn linear_interp_exact_value() {
    // Half way (0x8000 of 0x10000) between 0 and 1000 rounds to 500.
    assert_eq!(linear_interp(0x8000, 0, 1000), 500);
    assert_eq!(linear_interp(0, 123, 456), 123);
}

#[test]
fn eval_16_endpoints_are_table_ends() {
    let table: Vec<u16> = vec![10, 500, 60000];
    let p = InterpParams::compute_uniform(3, 1, 1, LERP_FLAGS_16BITS).unwrap();
    let mut out = [0u16];
    p.eval_16(&[0], &mut out, &table);
    assert_eq!(out[0], 10);
    p.eval_16(&[0xFFFF], &mut out, &table);
    assert_eq!(out[0], 60000);
    // 0x8000 lies one step past the middle grid point: 500 + round(59500 / 65536).
    p.eval_16(&[0x8000], &mut out, &table);
    assert_eq!(out[0], 501);
}

#[test]
fn eval_16_bilinear_reproduces_grid_nodes() {
    let p = InterpParams::compute_uniform(2, 2, 1, LERP_FLAGS_16BITS).unwrap();
    assert_eq!(p.opta[0], 1);
    assert_eq!(p.opta[1], 2);
    let table = [10u16, 20, 30, 40];
    for (input, expected) in [
        ([0u16, 0u16], 10u16),
        ([0, 0xFFFF], 20),
        ([0xFFFF, 0], 30),
        ([0xFFFF, 0xFFFF], 40),
    ] {
        let mut out = [0u16; 1];
        p.eval_16(&input, &mut out, &table);
        assert_eq!(out[0], expected);
    }
}

#[test]
fn eval_16_bilinear_midpoint() {
    let p = InterpParams::compute_uniform(2, 2, 1, LERP_FLAGS_16BITS).unwrap();
    let table = [0u16, 0x1000, 0x2000, 0x3000];
    let mut out = [0u16; 1];
    // Halfway along both inputs: the mean of the four corners.
    p.eval_16(&[0x8000, 0x8000], &mut out, &table);
    assert_eq!(out[0], 0x1800);
    // Halfway along the first input only.
    p.eval_16(&[0x8000, 0], &mut out, &table);
    assert_eq!(out[0], 0x1000);
}

#[test]
fn eval_16_trilinear_several_outputs() {
    // 3 inputs, 2 outputs; output 0 is 0xFFFF at the far corner, output 1 mirrors it.
    let p = InterpParams::compute_uniform(2, 3, 2, LERP_FLAGS_16BITS).unwrap();
    let mut table = vec![0u16; 2 * 2 * 2 * 2];
    for node in 0..8usize {
        let v = if node == 7 { 0xFFFF } else { 0 };
        table[2 * node] = v;
        table[2 * node + 1] = 0xFFFF - v;
    }
    let mut out = [7u16; 3];
    p.eval_16(&[0xFFFF, 0xFFFF, 0xFFFF], &mut out, &table);
    assert_eq!(out, [0xFFFF, 0, 7]);
    p.eval_16(&[0, 0, 0], &mut out, &table);
    assert_eq!(out, [0, 0xFFFF, 7]);
    p.eval_16(&[0xFFFF, 0xFFFF, 0], &mut out, &table);
    assert_eq!(out, [0, 0xFFFF, 7]);
}
