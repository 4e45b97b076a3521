//! Evaluation of polynomials at points over the extension field.

use metal_backend::columns::felts_from_words;
use metal_backend::fields::{BaseField, SecureField};
use metal_backend::kernel::{Arg, Grid, Kernel, Plan, Source};
use metal_backend::point_evaluation::{
    eval_at_point_cpu, eval_at_points_batched, folding_factors, metal_eval_at_point_gpu,
    metal_eval_at_points_batched_gpu, read_evaluations, BatchEvaluation, CirclePoint,
    PointEvaluation,
};
use metal_backend::poly::CircleCoefficients;

fn felt(words: [u32; 4]) -> SecureField {
    SecureField::from_m31_array(words.map(BaseField))
}

fn generator() -> CirclePoint {
    CirclePoint {
        x: felt([1, 0, 478637715, 513582971]),
        y: felt([992285211, 649143431, 740191619, 1186584352]),
    }
}

fn point_add(a: CirclePoint, b: CirclePoint) -> CirclePoint {
    CirclePoint {
        x: a.x.mul(b.x).sub(a.y.mul(b.y)),
        y: a.x.mul(b.y).add(a.y.mul(b.x)),
    }
}

fn point_mul(point: CirclePoint, mut n: u128) -> CirclePoint {
    let mut result = CirclePoint { x: SecureField::one(), y: SecureField::zero() };
    let mut power = point;
    while n > 0 {
        if n & 1 == 1 {
            result = point_add(result, power);
        }
        power = point_add(power, power);
        n >>= 1;
    }
    result
}

fn counting(log_size: u32) -> CircleCoefficients {
    CircleCoefficients::new((0..1u32 << log_size).map(BaseField).collect())
}

/// The sum of all coefficients times the products that their indices stand for.
fn naive(poly: &CircleCoefficients, point: CirclePoint) -> SecureField {
    let one = SecureField::one();
    let mut mappings = vec![point.y];
    let mut x = point.x;
    while 1usize << mappings.len() < poly.coeffs.len() {
        mappings.push(x);
        let xx = x.mul(x);
        x = xx.add(xx).sub(one);
    }
    let mut sum = SecureField::zero();
    for (i, coeff) in poly.coeffs.iter().enumerate() {
        let mut term = SecureField::from_base(*coeff);
        for (k, mapping) in mappings.iter().enumerate() {
            if i >> k & 1 == 1 {
                term = term.mul(*mapping);
            }
        }
        sum = sum.add(term);
    }
    sum
}

/// Runs an evaluation on an emulated device, and gives the words of the results.
fn run(plan: &Plan, inputs: &[Vec<u32>]) -> Vec<u32> {
    assert_eq!(plan.dispatches.len(), 1);
    let dispatch = &plan.dispatches[0];
    assert_eq!(dispatch.kernel, Kernel::EvalAtPoint);
    let buffer = |i: usize| -> Vec<u32> {
        let Arg::Buffer { slot, offset: 0 } = dispatch.args[i] else {
            panic!("unexpected argument {:?}", dispatch.args[i]);
        };
        match &plan.buffers[slot] {
            Source::Input(k) => inputs[*k].clone(),
            Source::Words(words) => words.clone(),
            Source::Fresh(size) => vec![0; *size as usize / 4],
            other => panic!("unexpected buffer {other:?}"),
        }
    };
    let (coeffs, offsets, log_sizes, points) = (buffer(0), buffer(1), buffer(2), buffer(3));
    let mut results = buffer(4);
    let n = buffer(5)[0] as usize;
    let Grid::Groups { count, size } = dispatch.grid else {
        panic!("unexpected grid");
    };
    assert!(count * size >= n as u64);
    for i in 0..n {
        let start = offsets[i] as usize;
        let own = coeffs[start..start + (1usize << log_sizes[i])].to_vec();
        let poly = CircleCoefficients::new(own.into_iter().map(BaseField).collect());
        let xy = felts_from_words(&points[8 * i..8 * i + 8], 2);
        let value = naive(&poly, CirclePoint { x: xy[0], y: xy[1] });
        for (k, coord) in value.to_m31_array().iter().enumerate() {
            results[4 * i + k] = coord.0;
        }
    }
    results
}

fn eval_at_point(poly: &CircleCoefficients, point: CirclePoint) -> SecureField {
    finish(metal_eval_at_point_gpu(poly, point), poly)
}

fn finish(evaluation: PointEvaluation, poly: &CircleCoefficients) -> SecureField {
    match evaluation {
        PointEvaluation::Value(value) => {
            assert!(poly.log_size() <= 8);
            value
        }
        PointEvaluation::Device(plan) => {
            assert!(poly.log_size() > 8);
            let words = poly.coeffs.iter().map(|c| c.0).collect();
            read_evaluations(&run(&plan, &[words]), 1)[0]
        }
    }
}

#[test]
fn generator_is_on_the_circle() {
    let g = generator();
    assert_eq!(g.x.mul(g.x).add(g.y.mul(g.y)), SecureField::one());
}

#[test]
fn test_eval_at_point_metal_vs_simd() {
    for log_size in 4..=10 {
        let poly = counting(log_size);
        let point = point_mul(generator(), 12345);
        let expected = naive(&poly, point);
        let result = eval_at_point(&poly, point);
        assert_eq!(expected, result, "eval_at_point mismatch at log_size={log_size}");
        assert_eq!(expected, eval_at_point_cpu(&poly, point));
    }
}

#[test]
fn factors_double_the_previous_one() {
    let point = point_mul(generator(), 3);
    let factors = folding_factors(point, 3);
    let xx = point.x.mul(point.x);
    assert_eq!(factors, vec![point.y, point.x, xx.add(xx).sub(SecureField::one())]);
    assert!(folding_factors(point, 0).is_empty());
}

#[test]
fn constant_polynomials_are_constant() {
    let poly = CircleCoefficients::new(vec![BaseField(17)]);
    assert_eq!(eval_at_point(&poly, generator()), felt([17, 0, 0, 0]));
}

#[test]
fn batches_are_evaluated_at_once() {
    let polys: Vec<CircleCoefficients> = vec![counting(9), counting(4), counting(3), counting(9)];
    let points: Vec<CirclePoint> = (1..5).map(|n| point_mul(generator(), n)).collect();
    let pairs: Vec<(&CircleCoefficients, CirclePoint)> =
        polys.iter().zip(points.iter().copied()).collect();
    let BatchEvaluation::Device(plan) = eval_at_points_batched(&pairs) else {
        panic!("the batch is for the device");
    };
    let results = read_evaluations(&run(&plan, &[]), 4);
    for ((poly, point), result) in pairs.iter().zip(results) {
        assert_eq!(naive(poly, *point), result);
    }
}

#[test]
fn small_batches_are_evaluated_one_by_one() {
    let large = counting(9);
    let small = counting(8);
    let points: Vec<CirclePoint> = (1..5).map(|n| point_mul(generator(), n)).collect();
    let batches: [Vec<&CircleCoefficients>; 4] =
        [vec![], vec![&large; 3], vec![&small; 4], vec![&small, &large, &small]];
    for polys in batches {
        let pairs: Vec<(&CircleCoefficients, CirclePoint)> =
            polys.iter().copied().zip(points.iter().copied()).collect();
        let BatchEvaluation::Each(evaluations) = eval_at_points_batched(&pairs) else {
            panic!("the batch is small");
        };
        assert_eq!(evaluations.len(), pairs.len());
        for (evaluation, (poly, point)) in evaluations.into_iter().zip(pairs) {
            assert_eq!(finish(evaluation, poly), naive(poly, point));
        }
    }
    let pairs = [(&large, points[0]); 4];
    assert!(matches!(eval_at_points_batched(&pairs), BatchEvaluation::Device(_)));
    assert!(metal_eval_at_points_batched_gpu(&[]).is_none());
}

#[test]
fn three_hundred_evaluations_fill_two_groups() {
    let poly = counting(1);
    let pairs = vec![(&poly, generator()); 300];
    let plan = metal_eval_at_points_batched_gpu(&pairs).unwrap();
    assert_eq!(plan.dispatches[0].grid, Grid::Groups { count: 2, size: 256 });
    let results = read_evaluations(&run(&plan, &[]), 300);
    assert_eq!(results, vec![generator().y; 300]);
}
