//! Accumulation, folding, quotients and constraint evaluation.

use metal_backend::accumulation::{accumulate, generate_secure_powers};
use metal_backend::columns::{felts_from_words, SecureColumnByCoords};
use metal_backend::component_prover::{
    evaluate_constraint_quotients_on_domain, need_to_extend, select_columns,
};
use metal_backend::constraint_eval_gpu::{
    clear_trace_cache, evaluate_constraints_batched_gpu, evaluate_constraints_gpu, hash_trace,
    plan_reshape, reshape_trace_columns_gpu, ReshapedTraceCache,
};
use metal_backend::fields::{BaseField, SecureField};
use metal_backend::fri::{
    decompose, decompose_lambda, fold_circle_into_line, fold_line, plan_decompose,
    plan_decompose_sum,
};
use metal_backend::kernel::{Arg, Grid, Kernel, Plan, Source};
use metal_backend::point_evaluation::CirclePoint;
use metal_backend::profiling::{init_profiling, is_profiling_enabled, Profiling, ScopedTimer};
use metal_backend::quotients::{
    accumulate_numerators, compute_quotients_and_combine, sum_linear_terms, ColumnSampleBatch,
    LineCoeffs, NumeratorAccumulation,
};
use rand::rngs::SmallRng;
use rand::{Rng, SeedableRng};

fn felt(a: u32, b: u32, c: u32, d: u32) -> SecureField {
    SecureField::from_m31_array([BaseField(a), BaseField(b), BaseField(c), BaseField(d)])
}

fn words_buffer(plan: &Plan, slot: usize) -> &Vec<u32> {
    match &plan.buffers[slot] {
        Source::Words(words) | Source::CachedWords(words) => words,
        other => panic!("unexpected buffer {other:?}"),
    }
}

fn whole(slot: usize) -> Arg {
    Arg::Buffer { slot, offset: 0 }
}

/// The coordinates of a column after the accumulation that a plan says.
fn run_accumulation(plan: &Plan, inputs: &[Vec<BaseField>]) -> Vec<Vec<BaseField>> {
    let mut buffers: Vec<Vec<BaseField>> = plan
        .buffers
        .iter()
        .map(|source| match source {
            Source::Input(i) => inputs[*i].clone(),
            other => panic!("unexpected buffer {other:?}"),
        })
        .collect();
    for dispatch in &plan.dispatches {
        assert_eq!(dispatch.kernel, Kernel::AccumulateM31);
        let (Arg::Buffer { slot: to, .. }, Arg::Buffer { slot: from, .. }, Arg::U32(n)) =
            (dispatch.args[0], dispatch.args[1], dispatch.args[2])
        else {
            panic!("unexpected arguments");
        };
        for i in 0..n as usize {
            buffers[to][i] = buffers[to][i].add(buffers[from][i]);
        }
    }
    buffers
}

#[test]
fn test_accumulate_metal_vs_simd() {
    for log_size in 5..=14 {
        let size = 1u32 << log_size;
        let a: Vec<SecureField> = (0..size).map(|i| felt(i, i + 1, i + 2, i + 3)).collect();
        let b: Vec<SecureField> =
            (0..size).map(|i| felt(i + 100, i + 200, i + 300, i + 400)).collect();
        let mut column = SecureColumnByCoords::from_felts(&a);
        let other = SecureColumnByCoords::from_felts(&b);
        if let Some(plan) = accumulate(&mut column, &other) {
            assert!(log_size >= 10);
            let inputs = [
                column.c0.clone(),
                column.c1.clone(),
                column.c2.clone(),
                column.c3.clone(),
                other.c0,
                other.c1,
                other.c2,
                other.c3,
            ];
            let mut sums = run_accumulation(&plan, &inputs);
            column.c3 = sums.swap_remove(3);
            column.c2 = sums.swap_remove(2);
            column.c1 = sums.swap_remove(1);
            column.c0 = sums.swap_remove(0);
        } else {
            assert!(log_size < 10);
        }
        for i in 0..size {
            let expected = felt(2 * i + 100, 2 * i + 201, 2 * i + 302, 2 * i + 403);
            assert_eq!(
                expected,
                column.at(i as usize),
                "accumulate mismatch at index {i} for log_size={log_size}"
            );
        }
    }
}

#[test]
fn powers_of_an_element() {
    let x = felt(3, 5, 7, 11);
    let powers = generate_secure_powers(x, 4);
    assert_eq!(powers, vec![SecureField::one(), x, x.mul(x), x.mul(x).mul(x)]);
    assert!(generate_secure_powers(x, 0).is_empty());
}

const P: u64 = 0x7fff_ffff;

fn base_mul(a: u32, b: u32) -> u32 {
    (a as u64 * b as u64 % P) as u32
}

fn base_inverse(x: u32) -> u32 {
    let (mut result, mut power, mut exponent) = (1, x, P as u32 - 2);
    while exponent > 0 {
        if exponent & 1 == 1 {
            result = base_mul(result, power);
        }
        power = base_mul(power, power);
        exponent >>= 1;
    }
    result
}

/// Folds pairs with the factors, the element and the sizes that a plan says.
fn run_fold(plan: &Plan, inputs: &[Vec<u32>; 4]) -> Vec<SecureField> {
    let dispatch = &plan.dispatches[0];
    assert_eq!(dispatch.kernel, Kernel::FriFoldLineCoords);
    let Arg::U32(log_size) = dispatch.args[10] else {
        panic!("unexpected argument");
    };
    let itwiddles = words_buffer(plan, 8);
    let alpha = words_buffer(plan, 9);
    let alpha = felt(alpha[0], alpha[1], alpha[2], alpha[3]);
    let at = |i: usize| felt(inputs[0][i], inputs[1][i], inputs[2][i], inputs[3][i]);
    (0..1usize << (log_size - 1))
        .map(|i| {
            let (f_x, f_neg_x) = (at(2 * i), at(2 * i + 1));
            let odd = f_x.sub(f_neg_x).mul_base(BaseField(itwiddles[i] / 2));
            f_x.add(f_neg_x).add(alpha.mul(odd))
        })
        .collect()
}

#[test]
fn test_fold_line_metal_vs_simd() {
    let alpha = felt(3, 5, 7, 11);
    for log_size in 5..=14 {
        let size = 1usize << log_size;
        let xs: Vec<u32> = (0..size as u32 / 2).map(|i| i + 1).collect();
        let itwiddles: Vec<u32> = xs.iter().map(|x| 2 * base_inverse(*x)).collect();
        let coords: [Vec<u32>; 4] =
            std::array::from_fn(|c| (0..size).map(|i| (i * 4 + c) as u32).collect());
        match fold_line(size, alpha, &itwiddles, 1) {
            None => assert!(log_size < 10),
            Some(plan) => {
                assert!(log_size >= 10);
                let folded = run_fold(&plan, &coords);
                assert_eq!(folded.len(), size / 2);
                for i in 0..size / 2 {
                    // The fold times `x` is `(f(x) + f(-x)) x + alpha (f(x) - f(-x))`.
                    let first: Vec<u32> = (0..4).map(|c| (8 * i + c) as u32).collect();
                    let second: Vec<u32> = (0..4).map(|c| (8 * i + 4 + c) as u32).collect();
                    let f = felt(first[0], first[1], first[2], first[3]);
                    let g = felt(second[0], second[1], second[2], second[3]);
                    let expected =
                        f.add(g).mul_base(BaseField(xs[i])).add(alpha.mul(f.sub(g)));
                    assert_eq!(
                        folded[i].mul_base(BaseField(xs[i])),
                        expected,
                        "fold_line mismatch at index {i} for log_size={log_size}"
                    );
                }
            }
        }
    }
}

#[test]
fn several_folds_at_once_are_for_the_processor() {
    assert!(fold_line(1 << 12, SecureField::one(), &[], 2).is_none());
    assert!(fold_line(1 << 12, SecureField::one(), &[], 0).is_some());
}

#[test]
fn circle_folds_know_the_square() {
    let alpha = felt(3, 5, 7, 11);
    assert!(fold_circle_into_line(1023, alpha, &[2]).is_none());
    let plan = fold_circle_into_line(1024, alpha, &[2, 4]).unwrap();
    let square = alpha.mul(alpha).to_m31_array().map(|c| c.0).to_vec();
    assert_eq!(words_buffer(&plan, 8), &vec![2, 4]);
    assert_eq!(words_buffer(&plan, 9), &vec![3, 5, 7, 11]);
    assert_eq!(words_buffer(&plan, 10), &square);
    assert_eq!(plan.dispatches[0].args[11], Arg::U32(10));
    assert_eq!(plan.dispatches[0].grid, Grid::Groups { count: 2, size: 256 });
}

#[test]
fn circle_folds_add_to_the_line() {
    let alpha = felt(3, 5, 7, 11);
    let half = 512u32;
    let itwiddles: Vec<u32> = (0..half).map(|i| 2 * base_inverse(i + 1)).collect();
    let plan = fold_circle_into_line(2 * half as usize, alpha, &itwiddles).unwrap();
    let dispatch = &plan.dispatches[0];
    assert_eq!(dispatch.kernel, Kernel::FriFoldCircleIntoLineCoords);
    for (i, source) in plan.buffers[..8].iter().enumerate() {
        assert!(matches!(source, Source::Input(n) if *n == i));
        assert_eq!(dispatch.args[i], whole(i));
    }
    let factors = words_buffer(&plan, 8);
    let weights = [9, 10].map(|slot| felts_from_words(words_buffer(&plan, slot), 1)[0]);
    let source = |i: u32| felt(4 * i, 4 * i + 1, 4 * i + 2, 4 * i + 3);
    let before = |i: u32| felt(i, 2 * i, 3 * i, 5);
    let Grid::Groups { count, size } = dispatch.grid else {
        panic!("unexpected grid");
    };
    assert_eq!(count * size, half as u64);
    for i in 0..half {
        let (p, q) = (source(2 * i), source(2 * i + 1));
        let odd = p.sub(q).mul_base(BaseField(factors[i as usize] / 2));
        let folded = p.add(q).add(weights[0].mul(odd));
        let after = before(i).mul(weights[1]).add(folded);
        // Times the pair's coordinate, which is `i + 1`.
        let y = BaseField(i + 1);
        let sum = before(i).mul(alpha).mul(alpha).add(p.add(q)).mul_base(y);
        assert_eq!(after.mul_base(y), sum.add(alpha.mul(p.sub(q))));
    }
}

#[test]
fn evaluations_are_decomposed_by_the_mean_difference() {
    let size = 1usize << 12;
    // The groups' first sums add up to 256, the second ones to 256 * 3.
    let sums: Vec<u32> = [1, 0, 0, 0, 3, 0, 0, 0].repeat(256);
    let (plan, lambda) = decompose(size, |sum_plan| {
        assert_eq!(sum_plan.dispatches[1].kernel, Kernel::FriDecomposeSum);
        assert_eq!(sum_plan.dispatches[1].args[2..], [Arg::U32(2048), Arg::U32(65536)]);
        sums.clone()
    });
    assert_eq!(lambda.mul_base(BaseField(2 * size as u32)), felt(512, 0, 0, 0));
    assert_eq!(lambda, decompose_lambda(&sums, size));
    let words = lambda.to_m31_array().map(|c| c.0).to_vec();
    assert_eq!(words_buffer(&plan, 6), &words);
    assert_eq!(plan.dispatches.len(), 3);
    assert_eq!(plan.dispatches[1].args[3], Arg::U32(2048));
    assert!(matches!(plan.buffers[10], Source::Fresh(16384)));
}

/// The coordinates after a decomposition, with a sign for the first half.
fn run_decomposition(plan: &Plan, inputs: &[Vec<u32>; 4], plus_first: bool) -> Vec<Vec<u32>> {
    let lambda = felts_from_words(words_buffer(plan, 6), 1)[0];
    let Arg::U32(half) = plan.dispatches[1].args[3] else {
        panic!("unexpected argument");
    };
    let Grid::Items { total } = plan.dispatches[0].grid else {
        panic!("unexpected grid");
    };
    let mut out = vec![vec![]; 4];
    for i in 0..total as usize {
        let value = felt(inputs[0][i], inputs[1][i], inputs[2][i], inputs[3][i]);
        let moved = if (i < half as usize) == plus_first {
            value.add(lambda)
        } else {
            value.sub(lambda)
        };
        for (column, coord) in out.iter_mut().zip(moved.to_m31_array()) {
            column.push(coord.0);
        }
    }
    out
}

#[test]
fn halves_are_moved_apart() {
    let lambda = felt(5, 6, 7, 8);
    let plan = plan_decompose(4, lambda);
    let inputs = [vec![10, 11, 12, 13], vec![20; 4], vec![30; 4], vec![0; 4]];
    let out = run_decomposition(&plan, &inputs, true);
    assert_eq!(out[0], vec![15, 16, 7, 8]);
    assert_eq!(out[3], vec![8, 8, 0x7fff_ffff - 8, 0x7fff_ffff - 8]);
    let out = run_decomposition(&plan, &inputs, false);
    assert_eq!(out[1], vec![14, 14, 26, 26]);
}

#[test]
fn sums_are_told_the_grid_size() {
    let plan = plan_decompose_sum(1 << 10);
    let Grid::Groups { count, size } = plan.dispatches[1].grid else {
        panic!("unexpected grid");
    };
    assert_eq!(plan.dispatches[1].args[3], Arg::U32((count * size) as u32));
}

fn point(n: u32) -> CirclePoint {
    CirclePoint { x: felt(n, 1, 2, 3), y: felt(n, 4, 5, 6) }
}

#[test]
fn numerators_of_each_batch() {
    let column: Vec<BaseField> = (0..1024).map(|i| BaseField(i * 7 + 3)).collect();
    let line = |n: u32| LineCoeffs {
        a: felt(n, 0, 0, 1),
        b: felt(n, 1, 1, 1),
        c: felt(n, 2, 2, 2),
    };
    let batches = vec![
        ColumnSampleBatch { point: point(1), column_indices: vec![0, 1] },
        ColumnSampleBatch { point: point(2), column_indices: vec![1] },
    ];
    let lines = vec![vec![line(10), line(20)], vec![line(30)]];
    let out = accumulate_numerators(&[&column, &column], &batches, &lines, 64).unwrap();
    assert_eq!(words_buffer(&out.plan, 0).len(), 2048);
    assert_eq!(words_buffer(&out.plan, 1), &vec![0, 1]);
    assert_eq!(
        words_buffer(&out.plan, 2),
        &vec![10, 1, 1, 1, 10, 2, 2, 2, 20, 1, 1, 1, 20, 2, 2, 2]
    );
    assert_eq!(words_buffer(&out.plan, 7), &vec![1]);
    assert_eq!(out.batches.len(), 2);
    assert_eq!(out.batches[0].first_linear_term_acc, felt(30, 0, 0, 2));
    assert_eq!(out.batches[0].sample_point, point(1));
    assert_eq!(out.batches[0].partial_numerators_slot, 3);
    assert_eq!(out.batches[1].partial_numerators_slot, 9);
    assert_eq!(out.plan.dispatches[1].grid, Grid::Threads { total: 1024, group: 64 });
    assert_eq!(
        out.plan.dispatches[1].args,
        vec![
            whole(0),
            whole(7),
            whole(8),
            Arg::U32(1024),
            Arg::U32(1),
            whole(9),
            whole(10),
            whole(11),
            whole(12),
        ]
    );
    assert!(accumulate_numerators(&[&column[..512]], &batches, &lines, 64).is_none());
    assert_eq!(sum_linear_terms(&vec![]), SecureField::zero());
}

#[test]
fn quotients_are_combined() {
    let acc = |n: u32, len: u32| NumeratorAccumulation {
        sample_point: point(n),
        partial_numerators_acc: SecureColumnByCoords::from_felts(
            &(0..len).map(|i| felt(i, 10 + i, 20 + i, 30 + i)).collect::<Vec<_>>(),
        ),
        first_linear_term_acc: felt(n, n, n, n),
    };
    let accs = vec![acc(1, 2), acc(2, 4)];
    let plan = compute_quotients_and_combine(&accs, 10, 2048).unwrap();
    assert_eq!(words_buffer(&plan, 2)[..8], [0, 1, 10, 11, 20, 21, 30, 31]);
    assert_eq!(words_buffer(&plan, 2).len(), 24);
    assert_eq!(words_buffer(&plan, 3), &vec![0, 8]);
    assert_eq!(words_buffer(&plan, 4), &vec![1, 2]);
    assert_eq!(words_buffer(&plan, 5), &vec![1, 1, 1, 1, 2, 2, 2, 2]);
    assert_eq!(words_buffer(&plan, 6), &vec![1, 1, 2, 3, 2, 1, 2, 3]);
    assert_eq!(words_buffer(&plan, 7), &vec![1, 4, 5, 6, 2, 4, 5, 6]);
    assert_eq!(plan.dispatches[0].args[8..10], [Arg::U32(10), Arg::U32(2)]);
    assert_eq!(plan.dispatches[0].grid, Grid::Threads { total: 1024, group: 1024 });
    assert!(compute_quotients_and_combine(&accs, 9, 2048).is_none());
}

/// A point of the circle over the base field.
type BasePoint = (u32, u32);

fn base_sub(a: u32, b: u32) -> u32 {
    ((P + a as u64 - b as u64) % P) as u32
}

fn base_point_add(a: BasePoint, b: BasePoint) -> BasePoint {
    (
        base_sub(base_mul(a.0, b.0), base_mul(a.1, b.1)),
        ((base_mul(a.0, b.1) as u64 + base_mul(a.1, b.0) as u64) % P) as u32,
    )
}

fn base_subgroup_gen(log: u32) -> BasePoint {
    (log..31).fold((2, 1268011823), |point, _| base_point_add(point, point))
}

/// The points of the canonical domain, in bit-reversed order.
fn domain_points(log: u32) -> Vec<BasePoint> {
    let step = base_subgroup_gen(log - 1);
    let mut points = vec![base_subgroup_gen(log + 1)];
    while points.len() < 1 << (log - 1) {
        points.push(base_point_add(*points.last().unwrap(), step));
    }
    let conjugates: Vec<BasePoint> = points.iter().map(|p| (p.0, base_sub(0, p.1))).collect();
    points.extend(conjugates);
    (0..points.len()).map(|i| points[i.reverse_bits() >> (usize::BITS - log)]).collect()
}

fn point_add(a: CirclePoint, b: CirclePoint) -> CirclePoint {
    CirclePoint {
        x: a.x.mul(b.x).sub(a.y.mul(b.y)),
        y: a.x.mul(b.y).add(a.y.mul(b.x)),
    }
}

/// A multiple of the generator of the circle over the extension field.
fn multiple_of_generator(mut n: u128) -> CirclePoint {
    let mut power = CirclePoint {
        x: felt(1, 0, 478637715, 513582971),
        y: felt(992285211, 649143431, 740191619, 1186584352),
    };
    let mut result = CirclePoint { x: SecureField::one(), y: SecureField::zero() };
    while n > 0 {
        if n & 1 == 1 {
            result = point_add(result, power);
        }
        power = point_add(power, power);
        n >>= 1;
    }
    result
}

fn conjugate(x: SecureField) -> SecureField {
    let [a, b, c, d] = x.to_m31_array().map(|v| v.0);
    felt(a, b, base_sub(0, c), base_sub(0, d))
}

/// The two complex halves of an element, as elements.
fn halves(x: SecureField) -> (SecureField, SecureField) {
    let [a, b, c, d] = x.to_m31_array().map(|v| v.0);
    (felt(a, b, 0, 0), felt(c, d, 0, 0))
}

fn complex_inverse(x: SecureField) -> SecureField {
    let [a, b, ..] = x.to_m31_array().map(|v| v.0);
    let norm = ((base_mul(a, a) as u64 + base_mul(b, b) as u64) % P) as u32;
    felt(a, base_sub(0, b), 0, 0).mul_base(BaseField(base_inverse(norm)))
}

/// The line through a sample and its conjugate, times `alpha`.
fn line_through(point: CirclePoint, value: SecureField, alpha: SecureField) -> LineCoeffs {
    let a = conjugate(value).sub(value);
    let c = conjugate(point.y).sub(point.y);
    let b = value.mul(c).sub(a.mul(point.y));
    LineCoeffs { a: alpha.mul(a), b: alpha.mul(b), c: alpha.mul(c) }
}

/// The quotient of a partial numerator at a point of the domain.
fn quotient(
    sample: CirclePoint,
    numerator: SecureField,
    linear: SecureField,
    at: BasePoint,
) -> SecureField {
    let ((prx, pix), (pry, piy)) = (halves(sample.x), halves(sample.y));
    let denominator = prx
        .sub(felt(at.0, 0, 0, 0))
        .mul(piy)
        .sub(pry.sub(felt(at.1, 0, 0, 0)).mul(pix));
    numerator.sub(linear.mul_base(BaseField(at.1))).mul(complex_inverse(denominator))
}

fn slot_at(args: &[Arg], i: usize) -> usize {
    match args[i] {
        Arg::Buffer { slot, offset: 0 } => slot,
        other => panic!("unexpected argument {other:?}"),
    }
}

fn number_at(args: &[Arg], i: usize) -> usize {
    match args[i] {
        Arg::U32(value) => value as usize,
        other => panic!("unexpected argument {other:?}"),
    }
}

fn threads(grid: Grid) -> usize {
    match grid {
        Grid::Threads { total, group } => {
            assert!((1..=1024).contains(&group));
            total as usize
        }
        other => panic!("unexpected grid {other:?}"),
    }
}

/// The partial numerators of a batch, from the packed columns of a plan.
fn run_numerators(plan: &Plan, batch: usize) -> (usize, Vec<SecureField>) {
    let dispatch = &plan.dispatches[batch];
    assert_eq!(dispatch.kernel, Kernel::QuotientPartialNumerator);
    let args = &dispatch.args;
    let packed = words_buffer(plan, slot_at(args, 0));
    let indices = words_buffer(plan, slot_at(args, 1));
    let lines = words_buffer(plan, slot_at(args, 2));
    let (size, batch_size) = (number_at(args, 3), number_at(args, 4));
    let lines = felts_from_words(lines, 2 * batch_size);
    let numerators = (0..threads(dispatch.grid).min(size))
        .map(|i| {
            (0..batch_size).fold(SecureField::zero(), |sum, k| {
                let value = BaseField(packed[indices[k] as usize * size + i]);
                sum.add(lines[2 * k + 1].mul_base(value)).sub(lines[2 * k])
            })
        })
        .collect();
    for c in 0..4 {
        assert_eq!(slot_at(args, 5 + c), slot_at(args, 5) + c);
        match plan.buffers[slot_at(args, 5 + c)] {
            Source::Fresh(bytes) => assert_eq!(bytes as usize, 4 * size),
            ref other => panic!("unexpected buffer {other:?}"),
        }
    }
    (slot_at(args, 5), numerators)
}

/// The combined quotients, from the packed partial numerators of a plan.
fn run_combination(plan: &Plan, domain: &[BasePoint]) -> Vec<SecureField> {
    let dispatch = &plan.dispatches[0];
    assert_eq!(dispatch.kernel, Kernel::QuotientCombine);
    let args = &dispatch.args;
    assert!(matches!(plan.buffers[slot_at(args, 0)], Source::Input(0)));
    assert!(matches!(plan.buffers[slot_at(args, 1)], Source::Input(1)));
    let buffer = |i: usize| words_buffer(plan, slot_at(args, i));
    let (packed, offsets, log_sizes) = (buffer(2), buffer(3), buffer(4));
    let (lifting_log_size, n) = (number_at(args, 8), number_at(args, 9));
    let linear = felts_from_words(buffer(5), n);
    let (xs, ys) = (felts_from_words(buffer(6), n), felts_from_words(buffer(7), n));
    (0..threads(dispatch.grid).min(1 << lifting_log_size))
        .map(|i| {
            (0..n).fold(SecureField::zero(), |sum, k| {
                let (start, len) = (offsets[k] as usize, 1usize << log_sizes[k]);
                let j = ((i >> (lifting_log_size + 1 - log_sizes[k] as usize)) << 1) + (i & 1);
                let coord = |c: usize| packed[start + c * len + j];
                let numerator = felt(coord(0), coord(1), coord(2), coord(3));
                let sample = CirclePoint { x: xs[k], y: ys[k] };
                sum.add(quotient(sample, numerator, linear[k], domain[i]))
            })
        })
        .collect()
}

#[test]
fn test_quotient_metal_vs_simd() {
    for log_size in 5..=12u32 {
        let size = 1usize << log_size;
        let mut rng = SmallRng::seed_from_u64(log_size as u64);
        let n_cols = 10usize;
        let column: Vec<BaseField> = (0..size).map(|i| BaseField((i * 7 + 3) as u32)).collect();
        let columns: Vec<&[BaseField]> = vec![&column; n_cols];
        let masks: Vec<usize> = (0..n_cols).map(|_| rng.gen_range(1..=2)).collect();
        let points = [
            multiple_of_generator(rng.gen::<u128>()),
            multiple_of_generator(rng.gen::<u128>()),
        ];
        let samples: Vec<Vec<SecureField>> = masks
            .iter()
            .map(|n| {
                let mut value = || (rng.gen::<u32>() as u64 % P) as u32;
                (0..*n).map(|_| SecureField::from_base(BaseField(value()))).collect()
            })
            .collect();
        let coords: Vec<u32> = (0..4).map(|_| (rng.gen::<u32>() as u64 % P) as u32).collect();
        let random_coeff = felt(coords[0], coords[1], coords[2], coords[3]);

        let mut batches: Vec<ColumnSampleBatch> = points
            .iter()
            .map(|point| ColumnSampleBatch { point: *point, column_indices: vec![] })
            .collect();
        let mut lines: Vec<Vec<LineCoeffs>> = vec![vec![], vec![]];
        let mut alpha = SecureField::one();
        for (index, values) in samples.iter().enumerate() {
            for (k, value) in values.iter().enumerate() {
                batches[k].column_indices.push(index);
                lines[k].push(line_through(points[k], *value, alpha));
                alpha = alpha.mul(random_coeff);
            }
        }

        // What the columns and the lines give.
        let expected_numerators: Vec<Vec<SecureField>> = (0..2)
            .map(|k| {
                let row = |i: usize| {
                    lines[k].iter().zip(&batches[k].column_indices).fold(
                        SecureField::zero(),
                        |sum, (line, c)| sum.add(line.c.mul_base(columns[*c][i])).sub(line.b),
                    )
                };
                (0..size).map(row).collect()
            })
            .collect();
        let expected_linear: Vec<SecureField> = lines
            .iter()
            .map(|l| l.iter().fold(SecureField::zero(), |sum, line| sum.add(line.a)))
            .collect();
        let domain = domain_points(log_size);
        let expected: Vec<SecureField> = (0..size)
            .map(|i| {
                (0..2).fold(SecureField::zero(), |sum, k| {
                    let numerator = expected_numerators[k][i];
                    sum.add(quotient(points[k], numerator, expected_linear[k], domain[i]))
                })
            })
            .collect();

        let Some(out) = accumulate_numerators(&columns, &batches, &lines, 1024) else {
            assert!(log_size < 10);
            assert!(compute_quotients_and_combine(&[], log_size, 1024).is_none());
            continue;
        };
        assert!(log_size >= 10);
        assert_eq!(out.batches.len(), 2);
        assert_eq!(out.plan.dispatches.len(), 2);
        let mut accs = vec![];
        for (k, batch) in out.batches.iter().enumerate() {
            assert_eq!(
                batch.first_linear_term_acc, expected_linear[k],
                "first_linear_term_acc mismatch at batch {k} for log_size={log_size}"
            );
            assert_eq!(
                batch.sample_point, points[k],
                "sample_point mismatch at batch {k} for log_size={log_size}"
            );
            let (slot, numerators) = run_numerators(&out.plan, k);
            assert_eq!(slot, batch.partial_numerators_slot);
            assert_eq!(
                numerators, expected_numerators[k],
                "partial_numerators mismatch at batch={k}, log_size={log_size}"
            );
            accs.push(NumeratorAccumulation {
                sample_point: batch.sample_point,
                partial_numerators_acc: SecureColumnByCoords::from_felts(&numerators),
                first_linear_term_acc: batch.first_linear_term_acc,
            });
        }
        let plan = compute_quotients_and_combine(&accs, log_size, 1024).unwrap();
        let result = run_combination(&plan, &domain);
        assert_eq!(result.len(), size);
        for k in 0..size {
            assert_eq!(
                result[k], expected[k],
                "quotient combine mismatch at idx={k}, log_size={log_size}"
            );
        }
    }
}

#[test]
fn traces_are_reshaped_once() {
    let trace = vec![vec![], vec![100, 200], vec![300]];
    let mut cache: ReshapedTraceCache<u32> = ReshapedTraceCache::new();
    let (buffer, offsets) = reshape_trace_columns_gpu(&mut cache, &trace, 16, |plan| {
        assert!(matches!(plan.buffers[0], Source::Fresh(192)));
        assert_eq!(plan.dispatches.len(), 3);
        assert_eq!(
            plan.dispatches[2].args,
            vec![whole(3), whole(0), Arg::U32(2), Arg::U32(16)]
        );
        7
    });
    assert_eq!((buffer, &offsets), (7, &vec![0, 0, 2, 3]));
    assert!(cache.is_valid(hash_trace(&trace), 16));
    let (again, same) =
        reshape_trace_columns_gpu(&mut cache, &trace, 16, |_| panic!("it is cached"));
    assert_eq!((again, same), (7, offsets));
    // Another size, another trace and an emptied cache are not.
    assert!(!cache.is_valid(hash_trace(&trace), 32));
    assert!(!cache.is_valid(hash_trace(&[vec![], vec![100, 200], vec![301]]), 16));
    clear_trace_cache(&mut cache);
    assert!(!cache.is_valid(hash_trace(&trace), 16));
    assert_eq!(reshape_trace_columns_gpu(&mut cache, &trace, 16, |_| 8).0, 8);
}

#[test]
fn empty_traces_have_no_columns() {
    let (plan, offsets) = plan_reshape(&[], 16);
    assert_eq!(offsets, vec![0]);
    assert!(plan.dispatches.is_empty());
}

#[test]
fn trace_hashes_tell_trees_apart() {
    assert_ne!(hash_trace(&[vec![1, 2]]), hash_trace(&[vec![1], vec![2]]));
    assert_ne!(hash_trace(&[vec![1, 2]]), hash_trace(&[vec![2, 1]]));
    assert_eq!(hash_trace(&[vec![1, 2]]), hash_trace(&[vec![1, 2]]));
}

#[test]
fn constraint_programs_get_their_inputs() {
    let mut cache: ReshapedTraceCache<u32> = ReshapedTraceCache::new();
    let trace = vec![vec![], vec![1, 2, 3]];
    let denominators: Vec<BaseField> = vec![5, 6, 7, 8].into_iter().map(BaseField).collect();
    let result = evaluate_constraints_gpu(
        &mut cache,
        &[0x40, 0x50, 0xff],
        &trace,
        &[felt(1, 2, 3, 4), felt(5, 6, 7, 8)],
        &denominators,
        2,
        4,
        |_| 9,
    );
    assert_eq!((result.trace_buffer, result.output), (9, 11));
    let plan = &result.plan;
    assert!(matches!(&plan.buffers[0], Source::Bytes(bytes) if bytes == &[0x40, 0x50, 0xff]));
    assert_eq!(words_buffer(plan, 1), &vec![3]);
    assert!(matches!(plan.buffers[2], Source::Input(0)));
    assert_eq!(words_buffer(plan, 3), &vec![0, 0, 3]);
    assert_eq!(words_buffer(plan, 4), &vec![3]);
    assert_eq!(words_buffer(plan, 5), &(1..9).collect::<Vec<u32>>());
    assert_eq!(words_buffer(plan, 6), &vec![2]);
    // One denominator for four rows, in bit-reversed order.
    let rows: Vec<u32> = words_buffer(plan, 7).iter().copied().step_by(4).collect();
    assert_eq!(rows, vec![5, 5, 5, 5, 7, 7, 7, 7, 6, 6, 6, 6, 8, 8, 8, 8]);
    assert_eq!(words_buffer(plan, 8), &vec![2]);
    assert_eq!(words_buffer(plan, 9), &vec![4]);
    assert_eq!(plan.dispatches[0].kernel, Kernel::ConstraintEvalVm);
    assert_eq!(plan.dispatches[0].args, (0..11).map(whole).collect::<Vec<_>>());
    assert_eq!(plan.dispatches[0].grid, Grid::Threads { total: 16, group: 256 });
    assert_eq!(plan.dispatches[1].kernel, Kernel::UnpackQm31ToCoords);
}

#[test]
fn batched_programs_share_the_trace() {
    let mut cache: ReshapedTraceCache<u32> = ReshapedTraceCache::new();
    let trace = vec![vec![], vec![1]];
    let coeffs = [felt(1, 2, 3, 4)];
    let results = evaluate_constraints_batched_gpu(
        &mut cache,
        &[&[0xff], &[0x50, 0xff]],
        &[&coeffs, &[]],
        &trace,
        &[BaseField(1)],
        3,
        3,
        |_| 4,
    );
    assert_eq!(results.len(), 2);
    for (result, len) in results.iter().zip([1, 2]) {
        assert_eq!(result.trace_buffer, 4);
        assert_eq!(words_buffer(&result.plan, 1), &vec![len]);
    }
    assert!(words_buffer(&results[1].plan, 5).is_empty());
}

#[test]
fn columns_are_selected_by_index() {
    assert_eq!(select_columns(&[10, 11, 12], &[2, 0, 2]), vec![12, 10, 12]);
    assert!(select_columns::<u32>(&[], &[]).is_empty());
}

#[test]
fn columns_of_other_sizes_are_extended() {
    assert!(!need_to_extend(&[], 5));
    assert!(!need_to_extend(&[vec![5, 5], vec![], vec![5]], 5));
    assert!(need_to_extend(&[vec![5, 5], vec![], vec![4]], 5));
}

fn quotients(trace_log: u32, eval_log: u32) -> (SecureColumnByCoords, Vec<BaseField>) {
    let rows = 1u32 << eval_log;
    let start: Vec<SecureField> = (0..rows).map(|i| felt(i, 0, 0, 1)).collect();
    let denominators: Vec<BaseField> =
        (0..1u32 << (eval_log - trace_log)).map(|i| BaseField(i + 2)).collect();
    let powers = [felt(1, 0, 0, 0), felt(2, 0, 0, 0)];
    let mut column = SecureColumnByCoords::from_felts(&start);
    evaluate_constraint_quotients_on_domain(
        &mut column,
        2,
        trace_log,
        eval_log,
        &denominators,
        &powers,
        |row, coeffs: &Vec<SecureField>| {
            assert!(trace_log < 6);
            assert_eq!(coeffs, &vec![powers[1], powers[0]]);
            felt(3 * row as u32, 1, 0, 0)
        },
        |vec_row, coeffs: &Vec<SecureField>| {
            assert!(trace_log >= 6);
            assert_eq!(coeffs, &vec![powers[1], powers[0]]);
            (0..64).map(|lane| felt(3 * (64 * vec_row as u32 + lane), 1, 0, 0)).collect()
        },
    );
    (column, denominators)
}

#[test]
fn quotients_use_the_denominator_of_their_row() {
    for (trace_log, eval_log) in [(2, 4), (5, 6), (6, 7), (7, 9)] {
        let (column, denominators) = quotients(trace_log, eval_log);
        let log_expand = eval_log - trace_log;
        for row in 0..1u32 << eval_log {
            let coset = (row >> trace_log) as usize;
            let reversed = coset.reverse_bits() >> (usize::BITS - log_expand);
            let d = denominators[reversed].0;
            let expected = felt(row + 3 * row * d, d, 0, 1);
            assert_eq!(column.at(row as usize), expected, "row {row} of 2^{eval_log}");
        }
    }
}

#[test]
fn no_constraints_leave_the_accumulator() {
    let mut column = SecureColumnByCoords::from_felts(&[felt(1, 2, 3, 4)]);
    evaluate_constraint_quotients_on_domain(
        &mut column,
        0,
        5,
        6,
        &[],
        &[],
        |_, _: &Vec<SecureField>| panic!("nothing to evaluate"),
        |_, _: &Vec<SecureField>| panic!("nothing to evaluate"),
    );
    assert_eq!(column.at(0), felt(1, 2, 3, 4));
}

#[test]
fn timing_is_off_until_asked_for() {
    let mut profiling = Profiling::new();
    assert_eq!(init_profiling(&mut profiling, false), None);
    assert!(!is_profiling_enabled(&profiling));
    assert!(ScopedTimer::start_if_enabled(&profiling, "fft", String::new(), "GPU", 0).is_none());
    assert_eq!(init_profiling(&mut profiling, true), Some("[METAL] Profiling enabled"));
    assert!(is_profiling_enabled(&profiling));
    assert_eq!(init_profiling(&mut profiling, false), None);
    assert!(is_profiling_enabled(&profiling));
    let timer =
        ScopedTimer::start_if_enabled(&profiling, "fft", "log_size=12".to_string(), "GPU", 5)
            .unwrap();
    assert_eq!(timer.start, 5);
    assert_eq!(
        timer.report("1.250"),
        "[METAL_PROFILE] fft | backend=GPU | log_size=12 | time=1.250ms"
    );
}

#[test]
fn timers_remember_their_operation() {
    let timer = ScopedTimer::new("ifft", "n=1".to_string(), "CPU", 9);
    assert_eq!(timer.report("0.000"), "[METAL_PROFILE] ifft | backend=CPU | n=1 | time=0.000ms");
}
