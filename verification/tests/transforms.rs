//! Transforms: their plans are run on a device that is emulated here, and the results are
//! held against evaluations at every point of the domain.

use std::collections::HashMap;

use metal_backend::fft_schedule::{plan_fft_steps, FftStep};
use metal_backend::fields::BaseField;
use metal_backend::kernel::{Arg, Grid, Kernel, Plan, Source};
use metal_backend::poly::{
    assemble_polynomials, circle_twiddles_from_line_twiddles, evaluate_polynomials,
    interpolate_columns, metal_fft_batched_prepare, metal_fft_dispatch,
    metal_ifft_batched_dispatch, metal_ifft_dispatch, split_at_mid, CircleCoefficients,
    DomainTwiddles, EvaluationColumn,
};

const P: u64 = 0x7fff_ffff;

fn mul(a: u32, b: u32) -> u32 {
    (a as u64 * b as u64 % P) as u32
}

fn add(a: u32, b: u32) -> u32 {
    ((a as u64 + b as u64) % P) as u32
}

fn sub(a: u32, b: u32) -> u32 {
    ((P + a as u64 - b as u64) % P) as u32
}

fn inverse(a: u32) -> u32 {
    let (mut result, mut power, mut exponent) = (1, a, P as u32 - 2);
    while exponent > 0 {
        if exponent & 1 == 1 {
            result = mul(result, power);
        }
        power = mul(power, power);
        exponent >>= 1;
    }
    result
}

type Point = (u32, u32);

fn point_add(a: Point, b: Point) -> Point {
    (
        sub(mul(a.0, b.0), mul(a.1, b.1)),
        add(mul(a.0, b.1), mul(a.1, b.0)),
    )
}

/// A point of order `2^log`.
fn subgroup_gen(log: u32) -> Point {
    let mut point = (2, 1268011823);
    for _ in log..31 {
        point = point_add(point, point);
    }
    point
}

fn coset(initial: Point, log: u32) -> Vec<Point> {
    let step = subgroup_gen(log);
    let mut points = vec![initial];
    for _ in 1..1usize << log {
        points.push(point_add(*points.last().unwrap(), step));
    }
    points
}

fn bit_reversed(i: usize, log: u32) -> usize {
    (0..log).fold(0, |r, k| r | ((i >> k & 1) << (log - 1 - k)))
}

/// The points of the canonical domain, in bit-reversed order.
fn domain_points(log: u32) -> Vec<Point> {
    let half = coset(subgroup_gen(log + 1), log - 1);
    let mut natural = half.clone();
    natural.extend(half.iter().map(|p| (p.0, sub(0, p.1))));
    (0..natural.len()).map(|i| natural[bit_reversed(i, log)]).collect()
}

/// The doubled twiddle factors of each line layer, or their inverses.
fn line_twiddles(log: u32, inverted: bool) -> Vec<Vec<u32>> {
    let mut points = coset(subgroup_gen(log + 1), log - 1);
    let mut layers = vec![];
    for layer_log in (1..log).rev() {
        let half = points.len() / 2;
        let layer = (0..half)
            .map(|i| points[bit_reversed(i, layer_log - 1)].0)
            .map(|x| 2 * if inverted { inverse(x) } else { x })
            .collect();
        layers.push(layer);
        points = points[..half].iter().map(|p| point_add(*p, *p)).collect();
    }
    layers
}

fn slices(layers: &[Vec<u32>]) -> Vec<&[u32]> {
    layers.iter().map(|l| l.as_slice()).collect()
}

/// The value of a polynomial: bit 0 of a coefficient's index stands for `y`, bit 1 for `x`,
/// each further bit for the doubled previous one.
fn value_at(coeffs: &[u32], point: Point) -> u32 {
    let mut values = coeffs.to_vec();
    let mut factor = point.1;
    let mut x = point.0;
    while values.len() > 1 {
        values = values.chunks(2).map(|c| add(c[0], mul(c[1], factor))).collect();
        factor = x;
        x = sub(mul(2, mul(x, x)), 1);
    }
    values[0]
}

fn launched(grid: Grid) -> u64 {
    match grid {
        Grid::Groups { count, size } => {
            assert!((1..=256).contains(&size));
            count * size
        }
        Grid::Threads { total, .. } | Grid::Items { total } => total,
    }
}

/// Applies one layer: pairs that are `2^layer` apart, with one factor for each block.
fn apply_layer(data: &mut [u32], tw: &[u32], layer: u32, inverse: bool) {
    let half = 1usize << layer;
    for h in 0..data.len() / (2 * half) {
        assert_eq!(tw[h] % 2, 0);
        let t = tw[h] / 2;
        for l in 0..half {
            let i = (h << (layer + 1)) + l;
            let (a, b) = (data[i], data[i + half]);
            if inverse {
                data[i] = add(a, b);
                data[i + half] = mul(sub(a, b), t);
            } else {
                let bt = mul(b, t);
                data[i] = add(a, bt);
                data[i + half] = sub(a, bt);
            }
        }
    }
}

fn run(plan: &Plan, inputs: &[Vec<u32>]) -> Vec<Vec<u32>> {
    let mut buffers: Vec<Vec<u32>> = plan
        .buffers
        .iter()
        .map(|source| match source {
            Source::Input(i) => inputs[*i].clone(),
            Source::Words(words) | Source::CachedWords(words) => words.clone(),
            Source::FlatWords(layers) => layers.concat(),
            other => panic!("unexpected buffer {other:?}"),
        })
        .collect();
    for dispatch in &plan.dispatches {
        let args = &dispatch.args;
        let buffer = |i: usize| match args[i] {
            Arg::Buffer { slot, offset } => {
                assert_eq!(offset % 4, 0);
                (slot, offset as usize / 4)
            }
            other => panic!("unexpected argument {other:?}"),
        };
        let word = |i: usize| match args[i] {
            Arg::U32(value) => value,
            other => panic!("unexpected argument {other:?}"),
        };
        let (slot, start) = buffer(0);
        let factors = |buffers: &Vec<Vec<u32>>, i: usize, log: u32, layer: u32| -> Vec<u32> {
            let (slot, start) = buffer(i);
            buffers[slot][start..start + (1usize << (log - 1 - layer))].to_vec()
        };
        let threads = launched(dispatch.grid);
        match dispatch.kernel {
            Kernel::FftRadix2 | Kernel::IfftRadix2 => {
                let (log, layer) = (word(2), word(3));
                let tw = factors(&buffers, 1, log, layer);
                assert_eq!(threads, 1 << (log - 1));
                let data = &mut buffers[slot][start..start + (1usize << log)];
                apply_layer(data, &tw, layer, dispatch.kernel == Kernel::IfftRadix2);
            }
            Kernel::FftRadix8 => {
                let (log, layer) = (word(4), word(5));
                assert_eq!(threads, 1 << (log - 3));
                for k in (0..3).rev() {
                    let tw = factors(&buffers, 1 + k, log, layer + k as u32);
                    assert_eq!(word(6 + k) as usize, tw.len());
                    let data = &mut buffers[slot][start..start + (1usize << log)];
                    apply_layer(data, &tw, layer + k as u32, false);
                }
            }
            Kernel::FftVecwiseFused => {
                let log = word(5);
                assert_eq!(threads, 1 << (log - 1));
                for layer in (1..5).rev() {
                    let tw = factors(&buffers, layer, log, layer as u32);
                    let data = &mut buffers[slot][start..start + (1usize << log)];
                    apply_layer(data, &tw, layer as u32, false);
                }
            }
            Kernel::IfftNormalize => {
                let (factor, count) = (word(1), word(2) as usize);
                assert!(threads >= count as u64);
                for value in &mut buffers[slot][..count] {
                    *value = mul(*value, factor);
                }
            }
            other => panic!("unexpected kernel {other:?}"),
        }
    }
    buffers
}

fn coefficients(values: &[u32]) -> CircleCoefficients {
    CircleCoefficients::new(values.iter().map(|v| BaseField(*v)).collect())
}

/// The values on the domain.  A transform that is too small for a launch of its own is
/// added to a batch.
fn evaluate(coeffs: &[u32], domain_log: u32) -> Vec<u32> {
    let tw = line_twiddles(domain_log, false);
    match metal_fft_dispatch(&coefficients(coeffs), domain_log, &slices(&tw)) {
        Some(plan) => {
            assert!(coeffs.len() >= 1 << 12);
            run(&plan, &[]).swap_remove(0)
        }
        None => {
            assert!(coeffs.len() < 1 << 12);
            evaluate_on_device(coeffs, domain_log)
        }
    }
}

/// The coefficients of a polynomial with the given values.  A transform that is too small
/// for a launch of its own is added to a batch.
fn interpolate(values: &[u32], log: u32) -> Vec<u32> {
    let tw = line_twiddles(log, true);
    match metal_ifft_dispatch(log, values.len(), &slices(&tw)) {
        Some(plan) => {
            assert!(log >= 12);
            run(&plan, &[values.to_vec()]).swap_remove(0)
        }
        None => {
            assert!(log < 12);
            let mut plan = Plan::new();
            let slot = plan.add_buffer(Source::Input(0));
            metal_ifft_batched_dispatch(&mut plan, slot, log, values.len(), &slices(&tw));
            run(&plan, &[values.to_vec()]).swap_remove(slot)
        }
    }
}

/// The number of each value among the distinct ones, and these in order of appearance.
fn distinct(values: &[u32]) -> (Vec<usize>, Vec<u32>) {
    let mut numbers = HashMap::new();
    let mut kept = vec![];
    let indices = values
        .iter()
        .map(|value| {
            *numbers.entry(*value).or_insert_with(|| {
                kept.push(*value);
                kept.len() - 1
            })
        })
        .collect();
    (indices, kept)
}

/// A variable of a polynomial: its value at each place, and for each place the one that
/// stands for it among the places of the next variable.
type Level = (Vec<u32>, Vec<usize>);

fn values_from(coeffs: &[u32], levels: &[Level]) -> Vec<u32> {
    let (factors, next) = &levels[0];
    if coeffs.len() == 1 {
        return vec![coeffs[0]; factors.len()];
    }
    let even: Vec<u32> = coeffs.iter().step_by(2).copied().collect();
    let odd: Vec<u32> = coeffs.iter().skip(1).step_by(2).copied().collect();
    let (even, odd) = (values_from(&even, &levels[1..]), values_from(&odd, &levels[1..]));
    factors.iter().zip(next).map(|(f, n)| add(even[*n], mul(*f, odd[*n]))).collect()
}

/// The values of a polynomial at all points of a domain.  The even and the odd part of a
/// polynomial depend on the next variable alone, which takes half as many values.
fn values_on_domain(coeffs: &[u32], domain_log: u32) -> Vec<u32> {
    let points = domain_points(domain_log);
    let xs: Vec<u32> = points.iter().map(|p| p.0).collect();
    let (next, mut places) = distinct(&xs);
    let mut levels: Vec<Level> = vec![(points.iter().map(|p| p.1).collect(), next)];
    while 1 << levels.len() <= coeffs.len() {
        let doubled: Vec<u32> = places.iter().map(|x| sub(mul(2, mul(*x, *x)), 1)).collect();
        let (next, fewer) = distinct(&doubled);
        levels.push((places, next));
        places = fewer;
    }
    values_from(coeffs, &levels)
}

/// Holds values against those of a polynomial at every point of the domain.
fn check_values(coeffs: &[u32], values: &[u32], domain_log: u32) {
    let expected = values_on_domain(coeffs, domain_log);
    assert_eq!(expected.len(), values.len());
    for i in 0..expected.len() {
        assert_eq!(
            values[i], expected[i],
            "FFT results differ at index {i} for log_size {domain_log}"
        );
    }
}

/// Evaluates with the device whatever the size is.
fn evaluate_on_device(coeffs: &[u32], log: u32) -> Vec<u32> {
    let tw = line_twiddles(log, false);
    let mut plan = Plan::new();
    let output = metal_fft_batched_prepare(&mut plan, &coefficients(coeffs), log, &slices(&tw));
    assert_eq!(output, 0);
    run(&plan, &[]).swap_remove(output)
}

fn counting(log: u32) -> Vec<u32> {
    (0..1u32 << log).collect()
}

#[test]
fn test_radix8_intermediate_consistency() {
    let log_size = 9;
    let values = evaluate_on_device(&counting(log_size), log_size);
    let points = domain_points(log_size);
    for i in 0..1usize << log_size {
        assert_eq!(values[i], value_at(&counting(log_size), points[i]), "Mismatch at index {i}");
    }
}

#[test]
fn test_metal_radix8_intermediate() {
    let log_size = 9;
    let values = evaluate_on_device(&counting(log_size), log_size);
    check_values(&counting(log_size), &values, log_size);
}

#[test]
fn test_metal_mixed_radix8_vecwise() {
    let log_size = 9;
    let steps = plan_fft_steps(log_size - 1);
    assert_eq!(
        steps,
        vec![
            FftStep::Radix2 { layer: 8, cached: true },
            FftStep::Radix8 { layer: 5 },
            FftStep::VecwiseFused,
            FftStep::Circle,
        ]
    );
    let values = evaluate_on_device(&counting(log_size), log_size);
    check_values(&counting(log_size), &values, log_size);
}

#[test]
fn test_single_radix2_layer() {
    let mut data: Vec<u32> = (0..8).collect();
    // All factors are 1, doubled.
    apply_layer(&mut data, &[2, 2], 1, false);
    let p = P as u32;
    assert_eq!(data, vec![2, 4, p - 2, p - 2, 10, 12, p - 2, p - 2]);
}

#[test]
fn test_metal_vecwise_only() {
    let log_size = 6;
    let values = evaluate_on_device(&counting(log_size), log_size);
    check_values(&counting(log_size), &values, log_size);
}

#[test]
fn test_metal_fft_debug() {
    let log_size = 10;
    let tw = line_twiddles(log_size, false);
    assert_eq!(tw.len(), 9);
    for (i, layer) in tw.iter().enumerate() {
        assert_eq!(layer.len(), 1 << (8 - i));
    }
    assert!(
        metal_fft_dispatch(&coefficients(&counting(log_size)), log_size, &slices(&tw)).is_none()
    );
    let values = evaluate_on_device(&counting(log_size), log_size);
    check_values(&counting(log_size), &values, log_size);
}

#[test]
fn test_metal_fft_correctness() {
    for log_size in 6..=15 {
        let values = evaluate(&counting(log_size), log_size);
        assert_eq!(values.len(), 1 << log_size);
        check_values(&counting(log_size), &values, log_size);
    }
}

#[test]
fn test_metal_ifft_correctness() {
    for log_size in [6, 13] {
        let coeffs = counting(log_size);
        let values = evaluate(&coeffs, log_size);
        check_values(&coeffs, &values, log_size);
        let result = interpolate(&values, log_size);
        assert_eq!(coeffs, result, "IFFT results differ for log_size {log_size}");
    }
}

#[test]
fn test_metal_fft_ifft_roundtrip() {
    for log_size in [13, 16] {
        let original: Vec<u32> = (0..1u32 << log_size).map(|i| i % 1000).collect();
        let values = evaluate(&original, log_size);
        check_values(&original, &values, log_size);
        let result = interpolate(&values, log_size);
        assert_eq!(original, result, "Round-trip failed for log_size {log_size}");
    }
}

#[test]
fn test_metal_fallback_to_simd() {
    let log_size = 14;
    let coeffs = counting(log_size);
    let values = evaluate(&coeffs, log_size);
    assert_eq!(coeffs, interpolate(&values, log_size));
}

#[test]
fn test_fft_metal_vs_simd() {
    for log_size in 4..=16 {
        let values = evaluate(&counting(log_size), log_size);
        check_values(&counting(log_size), &values, log_size);
    }
}

#[test]
fn test_ifft_metal_vs_simd() {
    for log_size in 4..=16 {
        let values = counting(log_size);
        let coeffs = interpolate(&values, log_size);
        check_values(&coeffs, &values, log_size);
    }
}

#[test]
fn test_fft_ifft_roundtrip() {
    let log_size = 14;
    let original = counting(log_size);
    let values = evaluate(&original, log_size);
    let recovered = interpolate(&values, log_size);
    assert_eq!(original, recovered, "FFT/IFFT roundtrip failed");
}

#[test]
fn values_on_a_domain_are_values_at_its_points() {
    for (log_size, domain_log) in [(4, 4), (6, 6), (5, 8), (9, 9)] {
        let coeffs: Vec<u32> = (0..1u32 << log_size).map(|i| (31 * i + 5) % 997).collect();
        let values = values_on_domain(&coeffs, domain_log);
        let points = domain_points(domain_log);
        assert_eq!(values.len(), points.len());
        for i in 0..points.len() {
            assert_eq!(values[i], value_at(&coeffs, points[i]));
        }
    }
}

#[test]
fn larger_domains_are_evaluated_by_parts() {
    for blowup in 1..=2 {
        let coeffs = counting(12);
        let values = evaluate(&coeffs, 12 + blowup);
        check_values(&coeffs, &values, 12 + blowup);
    }
}

#[test]
fn batches_keep_the_order_of_polynomials() {
    let logs = [12u32, 5, 13, 4];
    let polys: Vec<CircleCoefficients> =
        logs.iter().map(|log| coefficients(&counting(*log))).collect();
    let tables: Vec<Vec<Vec<u32>>> =
        logs.iter().map(|log| line_twiddles(log + 1, false)).collect();
    let twiddles: Vec<DomainTwiddles> =
        tables.iter().map(|t| DomainTwiddles { layers: slices(t) }).collect();
    let batch = evaluate_polynomials(&polys, 1, &twiddles).unwrap();
    assert_eq!(batch.metal, vec![0, 2]);
    assert_eq!(batch.simd, vec![1, 3]);
    let buffers = run(&batch.plan, &[]);
    let metal: Vec<Vec<u32>> = batch.outputs.iter().map(|slot| buffers[*slot].clone()).collect();
    for (i, values) in batch.metal.iter().zip(&metal) {
        // Each comes out as it would alone.
        assert_eq!(values, &evaluate(&counting(logs[*i]), logs[*i] + 1));
    }
    let simd: Vec<Vec<u32>> =
        batch.simd.iter().map(|i| evaluate(&counting(logs[*i]), logs[*i] + 1)).collect();
    let results = assemble_polynomials(polys, metal, simd, true);
    assert_eq!(results.len(), 4);
    for (log, poly) in logs.iter().zip(&results) {
        check_values(&counting(*log), &poly.evals, log + 1);
        let kept: Vec<u32> = poly.coeffs.as_ref().unwrap().coeffs.iter().map(|c| c.0).collect();
        assert_eq!(kept, counting(*log));
    }
}

#[test]
fn coefficients_are_dropped_on_request() {
    let results =
        assemble_polynomials(vec![coefficients(&[1, 2])], Vec::<u32>::new(), vec![7], false);
    assert!(results[0].coeffs.is_none());
    assert_eq!(results[0].evals, 7);
}

#[test]
fn small_batches_stay_on_the_processor() {
    let tables = line_twiddles(5, false);
    let twiddles = DomainTwiddles { layers: slices(&tables) };
    assert!(evaluate_polynomials(&[coefficients(&counting(4))], 1, &[twiddles]).is_none());
    assert!(evaluate_polynomials(&[], 1, &[]).is_none());
    assert!(interpolate_columns(&[]).is_none());
}

#[test]
fn columns_are_interpolated_together() {
    let logs = [12u32, 6, 13];
    let tables: Vec<Vec<Vec<u32>>> = logs.iter().map(|log| line_twiddles(*log, true)).collect();
    let columns: Vec<EvaluationColumn> = logs
        .iter()
        .zip(&tables)
        .map(|(log, table)| EvaluationColumn {
            log_size: *log,
            len: 1 << log,
            itwiddles: DomainTwiddles { layers: slices(table) },
        })
        .collect();
    let batch = interpolate_columns(&columns).unwrap();
    assert_eq!(batch.metal, vec![0, 2]);
    assert_eq!(batch.simd, vec![1]);
    let inputs: Vec<Vec<u32>> = logs.iter().map(|log| evaluate(&counting(*log), *log)).collect();
    let buffers = run(&batch.plan, &inputs);
    let mut found = 0;
    for (source, buffer) in batch.plan.buffers.iter().zip(&buffers) {
        if let Source::Input(i) = source {
            assert_eq!(buffer, &counting(logs[*i]));
            // Each comes out as it would alone.
            assert_eq!(buffer, &interpolate(&inputs[*i], logs[*i]));
            found += 1;
        }
    }
    assert_eq!(found, 2);
}

#[test]
fn circle_factors_come_in_fours() {
    let p = P as u32;
    assert_eq!(
        circle_twiddles_from_line_twiddles(&[2, 6, 0, 4]),
        vec![6, 2 * p - 6, 2 * p - 2, 2, 4, 2 * p - 4, 0, 0]
    );
    // A factor without a partner is left out.
    assert_eq!(circle_twiddles_from_line_twiddles(&[2, 6, 8]).len(), 4);
    assert!(circle_twiddles_from_line_twiddles(&[2]).is_empty());
}

#[test]
fn layers_are_processed_from_the_top() {
    // Three layers at a time from eight layers on; what does not fill three comes first.
    assert_eq!(
        plan_fft_steps(11),
        vec![
            FftStep::Radix2 { layer: 11, cached: true },
            FftStep::Radix8 { layer: 8 },
            FftStep::Radix8 { layer: 5 },
            FftStep::VecwiseFused,
            FftStep::Circle,
        ]
    );
    assert_eq!(
        plan_fft_steps(2),
        vec![
            FftStep::Radix2 { layer: 2, cached: true },
            FftStep::Radix2 { layer: 1, cached: true },
            FftStep::Circle,
        ]
    );
    assert_eq!(plan_fft_steps(0), vec![]);
    // Below eight layers, the layers above the fused ones come first too.
    assert_eq!(plan_fft_steps(4), vec![FftStep::VecwiseFused, FftStep::Circle]);
    assert_eq!(
        plan_fft_steps(5),
        vec![
            FftStep::Radix2 { layer: 5, cached: false },
            FftStep::VecwiseFused,
            FftStep::Circle,
        ]
    );
    assert_eq!(
        plan_fft_steps(6),
        vec![
            FftStep::Radix2 { layer: 6, cached: false },
            FftStep::Radix2 { layer: 5, cached: false },
            FftStep::VecwiseFused,
            FftStep::Circle,
        ]
    );
}

#[test]
fn evaluation_gives_interpolated_values_back() {
    for log_size in [3, 6, 7, 8, 13] {
        let values: Vec<u32> = (0..1u32 << log_size).map(|i| (7 * i + 3) % 1013).collect();
        let coeffs = interpolate(&values, log_size);
        assert_ne!(coeffs, values);
        assert_eq!(evaluate(&coeffs, log_size), values, "log_size {log_size}");
    }
}

#[test]
fn polynomials_split_in_halves() {
    let (left, right) = split_at_mid(coefficients(&[1, 2, 3, 4]));
    assert_eq!((left.log_size(), right.log_size()), (1, 1));
    assert_eq!(left.coeffs, vec![BaseField(1), BaseField(2)]);
    assert_eq!(right.coeffs, vec![BaseField(3), BaseField(4)]);
}
