//! Evaluation of circle polynomials at points of the extension field's circle.
//!
//! A polynomial is evaluated by folding: the value of `2^k` coefficients is the value of
//! the first half plus the value of the second half times a factor that depends on `k`.
//! The factors of a point `(x, y)` are `y`, `x`, `pi(x)`, `pi(pi(x))` and so on, with
//! `pi(x) = 2 x^2 - 1`, the first coordinate of the doubled point.

use crate::columns;
use crate::columns::{felts_from_words, push_column_words, push_felt};
use crate::device_memory;
use crate::fields;
use crate::fields::{BaseField, SecureField};
use crate::kernel;
use crate::kernel::{buffer_args, groups_for, Grid, Kernel, Plan, Source};
use crate::packing;
use crate::poly::CircleCoefficients;
use crate::utils;
use vstd::arithmetic::power2::*;
use vstd::prelude::*;

verus! {

/// Largest log size of a polynomial that the processor evaluates.
pub const MAX_CPU_EVAL_LOG_SIZE: u32 = 8;

/// Least number of evaluations for which a batch is sent to the device.
pub const MIN_GPU_EVAL_BATCH: usize = 4;

/// A point on the circle over the extension field.
#[derive(Debug, Clone, Copy, PartialEq, Eq, Structural)]
pub struct CirclePoint {
    pub x: SecureField,
    pub y: SecureField,
}

impl CirclePoint {
    /// Both coordinates are canonical.
    pub open spec fn wf(self) -> bool {
        self.x.wf() && self.y.wf()
    }

    /// The words of the two coordinates.
    pub open spec fn words(self) -> Seq<u32> {
        self.x.words() + self.y.words()
    }
}

/// The first coordinate of a point doubled: `2 x^2 - 1`.
pub open spec fn double_x(x: fields::Coords) -> fields::Coords {
    x.times(x).scaled(2).minus(fields::coords_one()).reduced()
}

/// The folding factor of the halves of `2^(k + 1)` coefficients.
pub open spec fn folding_factor(point: CirclePoint, k: nat) -> fields::Coords
    decreases k,
{
    if k == 0 {
        point.y@
    } else if k == 1 {
        point.x@
    } else {
        double_x(folding_factor(point, (k - 1) as nat))
    }
}

/// The value of `2^k` coefficients at a point.
pub open spec fn fold_value(
    coeffs: Seq<BaseField>,
    point: CirclePoint,
    k: nat,
) -> fields::Coords
    decreases k,
{
    if k == 0 {
        fields::Coords { c0: coeffs[0].0 as int, c1: 0, c2: 0, c3: 0 }
    } else {
        let half = pow2((k - 1) as nat) as int;
        let left = fold_value(coeffs.take(half), point, (k - 1) as nat);
        let right = fold_value(coeffs.skip(half), point, (k - 1) as nat);
        left.plus(right.times(folding_factor(point, (k - 1) as nat)).reduced()).reduced()
    }
}

/// The value of a polynomial at a point.
pub open spec fn poly_value(poly: CircleCoefficients, point: CirclePoint) -> fields::Coords {
    fold_value(poly.coeffs@, point, poly.spec_log_size())
}

/// Every value of a column is canonical.
pub open spec fn canonical_column(column: Seq<BaseField>) -> bool {
    forall|i: int| 0 <= i < column.len() ==> (#[trigger] column[i]).wf()
}

/// The first coordinate of a point doubled.
fn doubled_x(x: SecureField) -> (r: SecureField)
    requires
        x.wf(),
    ensures
        r.wf(),
        r@ == double_x(x@),
{
    let sx = x.mul(x);
    let r = sx.add(sx).sub(SecureField::one());
    proof {
        lemma_twice_minus_one(x@.times(x@));
    }
    r
}

/// Reducing between the operations does not change `2 a - 1`.
proof fn lemma_twice_minus_one(a: fields::Coords)
    ensures
        a.reduced().plus(a.reduced()).reduced().minus(fields::coords_one()).reduced()
            == a.scaled(2).minus(fields::coords_one()).reduced(),
{
    lemma_twice_minus(a.c0, 1);
    lemma_twice_minus(a.c1, 0);
    lemma_twice_minus(a.c2, 0);
    lemma_twice_minus(a.c3, 0);
}

proof fn lemma_twice_minus(a: int, b: int)
    ensures
        fields::modp(fields::modp(fields::modp(a) + fields::modp(a)) - b) == fields::modp(
            a * 2 - b,
        ),
{
    let p = fields::P as int;
    vstd::arithmetic::div_mod::lemma_add_mod_noop(a, a, p);
    vstd::arithmetic::div_mod::lemma_sub_mod_noop(a + a, b, p);
    vstd::arithmetic::div_mod::lemma_sub_mod_noop((a % p + a % p) % p, b, p);
    vstd::arithmetic::div_mod::lemma_mod_twice(a + a, p);
}

/// The folding factors for `2^n` coefficients.
pub fn folding_factors(point: CirclePoint, n: u32) -> (r: Vec<SecureField>)
    requires
        point.wf(),
    ensures
        r.len() == n,
        forall|k: int|
            #![trigger r[k]]
            0 <= k < n ==> r[k].wf() && r[k]@ == folding_factor(point, k as nat),
{
    let mut out: Vec<SecureField> = Vec::new();
    let mut k: u32 = 0;
    while k < n
        invariant
            point.wf(),
            k <= n,
            out.len() == k,
            forall|j: int|
                #![trigger out[j]]
                0 <= j < k ==> out[j].wf() && out[j]@ == folding_factor(point, j as nat),
        decreases n - k,
    {
        let factor = if k == 0 {
            point.y
        } else if k == 1 {
            point.x
        } else {
            doubled_x(out[(k - 1) as usize])
        };
        out.push(factor);
        k = k + 1;
    }
    out
}

/// Evaluates `2^k` coefficients by folding.
fn fold(coeffs: &[BaseField], k: u32, factors: &Vec<SecureField>, point: Ghost<CirclePoint>) -> (r:
    SecureField)
    requires
        coeffs.len() == pow2(k as nat),
        canonical_column(coeffs@),
        factors.len() >= k,
        forall|j: int|
            #![trigger factors[j]]
            0 <= j < factors.len() ==> factors[j].wf() && factors[j]@ == folding_factor(
                point@,
                j as nat,
            ),
    ensures
        r.wf(),
        r@ == fold_value(coeffs@, point@, k as nat),
    decreases k,
{
    if k == 0 {
        proof {
            lemma2_to64();
            assert(coeffs@[0].wf());
        }
        return SecureField::from_base(coeffs[0]);
    }
    proof {
        lemma_pow2_unfold(k as nat);
        lemma_pow2_pos((k - 1) as nat);
    }
    let half: usize = coeffs.len() / 2;
    let (left, right) = coeffs.split_at(half);
    proof {
        assert(left@ =~= coeffs@.take(half as int));
        assert(right@ =~= coeffs@.skip(half as int));
        assert forall|i: int| 0 <= i < left@.len() implies (#[trigger] left@[i]).wf() by {
            assert(coeffs@[i].wf());
        }
        assert forall|i: int| 0 <= i < right@.len() implies (#[trigger] right@[i]).wf() by {
            assert(coeffs@[half + i].wf());
        }
    }
    let a = fold(left, k - 1, factors, point);
    let b = fold(right, k - 1, factors, point);
    a.add(b.mul(factors[(k - 1) as usize]))
}

/// Evaluates a polynomial at a point on the processor.
pub fn eval_at_point_cpu(poly: &CircleCoefficients, point: CirclePoint) -> (r: SecureField)
    requires
        poly.wf(),
        canonical_column(poly.coeffs@),
        point.wf(),
    ensures
        r.wf(),
        r@ == poly_value(*poly, point),
{
    let log_size: u32 = poly.log_size();
    let factors = folding_factors(point, log_size);
    fold(poly.coeffs.as_slice(), log_size, &factors, Ghost(point))
}

/// An evaluation: its value, or the work that gives the device's.
pub enum PointEvaluation {
    Value(SecureField),
    Device(Plan),
}

/// The evaluation of a polynomial, whose coefficients are in the caller's buffer, on the
/// device.
pub open spec fn single_evaluation_plan(log_size: u32, point: CirclePoint) -> kernel::PlanView {
    kernel::PlanView {
        buffers: seq![
            kernel::SourceView::Input(0),
            kernel::SourceView::Words(seq![0u32]),
            kernel::SourceView::Words(seq![log_size]),
            kernel::SourceView::Words(point.words()),
            kernel::SourceView::Fresh(16),
            kernel::SourceView::Words(seq![1u32]),
        ],
        dispatches: seq![
            kernel::DispatchView {
                kernel: Kernel::EvalAtPoint,
                args: kernel::first_buffers(6),
                grid: Grid::Groups { count: 1, size: 1 },
            },
        ],
    }
}

/// The evaluation of a polynomial at a point: the value of a small polynomial, the work for
/// a large one.
pub open spec fn is_evaluation(
    r: PointEvaluation,
    poly: CircleCoefficients,
    point: CirclePoint,
) -> bool {
    match r {
        PointEvaluation::Value(value) => {
            &&& poly.spec_log_size() <= MAX_CPU_EVAL_LOG_SIZE
            &&& value.wf()
            &&& value@ == poly_value(poly, point)
        },
        PointEvaluation::Device(plan) => {
            &&& poly.spec_log_size() > MAX_CPU_EVAL_LOG_SIZE
            &&& plan@.wf()
            &&& plan@ == single_evaluation_plan(poly.spec_log_size() as u32, point)
        },
    }
}

/// The words of a point's coordinates.
fn push_point(out: &mut Vec<u32>, point: CirclePoint)
    ensures
        final(out)@ == old(out)@ + point.words(),
{
    push_felt(out, point.x);
    push_felt(out, point.y);
    assert(out@ =~= old(out)@ + point.words());
}

/// Evaluates a small polynomial at a point; for a large one, plans the evaluation on the
/// device, with the value in buffer 4.
pub fn metal_eval_at_point_gpu(poly: &CircleCoefficients, point: CirclePoint) -> (r:
    PointEvaluation)
    requires
        poly.wf(),
        canonical_column(poly.coeffs@),
        point.wf(),
    ensures
        is_evaluation(r, *poly, point),
{
    let log_size: u32 = poly.log_size();
    if log_size <= MAX_CPU_EVAL_LOG_SIZE {
        return PointEvaluation::Value(eval_at_point_cpu(poly, point));
    }
    let mut point_data: Vec<u32> = Vec::new();
    push_point(&mut point_data, point);
    assert(point_data@ =~= point.words());
    let zero: Vec<u32> = vec![0];
    let log: Vec<u32> = vec![log_size];
    let one: Vec<u32> = vec![1];
    assert(zero@ =~= seq![0u32]);
    assert(log@ =~= seq![log_size]);
    assert(one@ =~= seq![1u32]);
    let mut plan = Plan::new();
    plan.add_buffer(Source::Input(0));
    plan.add_buffer(Source::Words(zero));
    plan.add_buffer(Source::Words(log));
    plan.add_buffer(Source::Words(point_data));
    plan.add_buffer(Source::Fresh(16));
    plan.add_buffer(Source::Words(one));
    plan.dispatch(Kernel::EvalAtPoint, buffer_args(6), Grid::Groups { count: 1, size: 1 });
    assert(plan@ =~= single_evaluation_plan(log_size, point));
    PointEvaluation::Device(plan)
}

/// Reads the values of evaluations on the device.
pub fn read_evaluations(result_data: &[u32], num_evals: usize) -> (r: Vec<SecureField>)
    requires
        4 * num_evals <= result_data.len(),
    ensures
        r.len() == num_evals,
        forall|i: int|
            #![trigger r[i]]
            0 <= i < num_evals ==> r[i].wf() && r[i]@ == columns::reduced_felt(
                result_data@,
                4 * i,
            ),
{
    felts_from_words(result_data, num_evals)
}

/// The coefficients of each polynomial of a batch, as words.
pub open spec fn batch_words(batch: Seq<(&CircleCoefficients, CirclePoint)>) -> Seq<Seq<u32>> {
    batch.map_values(|e: (&CircleCoefficients, CirclePoint)| columns::column_words(e.0.coeffs@))
}

/// The words of each point of a batch.
pub open spec fn batch_points(batch: Seq<(&CircleCoefficients, CirclePoint)>) -> Seq<Seq<u32>> {
    batch.map_values(|e: (&CircleCoefficients, CirclePoint)| e.1.words())
}

/// The evaluations of a batch on the device: all coefficients in one buffer, where each
/// polynomial starts, the log sizes and the points.
pub open spec fn batch_evaluation_plan(
    batch: Seq<(&CircleCoefficients, CirclePoint)>,
) -> kernel::PlanView {
    let words = batch_words(batch);
    kernel::PlanView {
        buffers: seq![
            kernel::SourceView::Words(words.flatten()),
            kernel::SourceView::Words(packing::offsets(words)),
            kernel::SourceView::Words(packing::log_sizes(words)),
            kernel::SourceView::Words(batch_points(batch).flatten()),
            kernel::SourceView::Fresh((16 * batch.len()) as u64),
            kernel::SourceView::Words(seq![batch.len() as u32]),
        ],
        dispatches: seq![
            kernel::DispatchView {
                kernel: Kernel::EvalAtPoint,
                args: kernel::first_buffers(6),
                grid: kernel::spec_groups_for(batch.len() as u64),
            },
        ],
    }
}

/// Plans the evaluations of a batch on the device, with the values in buffer 4.  An empty
/// batch needs no plan.
pub fn metal_eval_at_points_batched_gpu(
    polys_and_points: &[(&CircleCoefficients, CirclePoint)],
) -> (r: Option<Plan>)
    requires
        polys_and_points.len() <= u32::MAX,
        forall|i: int|
            0 <= i < polys_and_points.len() ==> (#[trigger] polys_and_points@[i]).0.wf(),
        packing::words_before(batch_words(polys_and_points@), polys_and_points@.len() as int)
            <= u32::MAX,
    ensures
        r is None <==> polys_and_points.len() == 0,
        r matches Some(plan) ==> plan@.wf() && plan@ == batch_evaluation_plan(polys_and_points@),
{
    if polys_and_points.len() == 0 {
        return None;
    }
    let ghost batch = polys_and_points@;
    let ghost words = batch_words(batch);
    let ghost points = batch_points(batch);
    let mut coeff_offsets: Vec<u32> = Vec::new();
    let mut log_sizes: Vec<u32> = Vec::new();
    let mut all_coeffs: Vec<u32> = Vec::new();
    let mut points_data: Vec<u32> = Vec::new();
    let mut current_offset: u32 = 0;
    assert(words.take(0) =~= Seq::empty());
    assert(points.take(0) =~= Seq::empty());
    for i in 0..polys_and_points.len()
        invariant
            batch == polys_and_points@,
            words == batch_words(batch),
            points == batch_points(batch),
            forall|k: int| 0 <= k < batch.len() ==> (#[trigger] batch[k]).0.wf(),
            packing::words_before(words, batch.len() as int) <= u32::MAX,
            current_offset == packing::words_before(words, i as int),
            coeff_offsets@ == packing::offsets(words).take(i as int),
            log_sizes@ == packing::log_sizes(words).take(i as int),
            all_coeffs@ == words.take(i as int).flatten(),
            points_data@ == points.take(i as int).flatten(),
    {
        let (poly, point) = polys_and_points[i];
        proof {
            assert(batch[i as int].0.wf());
            assert(words[i as int] == columns::column_words(poly.coeffs@));
            packing::lemma_words_before_monotone(words, i + 1, batch.len() as int);
            packing::lemma_flatten_step(words, i as int);
            packing::lemma_flatten_step(points, i as int);
        }
        coeff_offsets.push(current_offset);
        log_sizes.push(poly.log_size());
        push_column_words(&mut all_coeffs, poly.coeffs.as_slice());
        push_point(&mut points_data, point);
        current_offset = current_offset + poly.coeffs.len() as u32;
        assert(coeff_offsets@ =~= packing::offsets(words).take(i + 1));
        assert(log_sizes@ =~= packing::log_sizes(words).take(i + 1));
    }
    proof {
        assert(words.take(words.len() as int) =~= words);
        assert(points.take(points.len() as int) =~= points);
        assert(coeff_offsets@ =~= packing::offsets(words));
        assert(log_sizes@ =~= packing::log_sizes(words));
    }
    let num_evals: u32 = polys_and_points.len() as u32;
    let count: Vec<u32> = vec![num_evals];
    assert(count@ =~= seq![num_evals]);
    let mut plan = Plan::new();
    plan.add_buffer(Source::Words(all_coeffs));
    plan.add_buffer(Source::Words(coeff_offsets));
    plan.add_buffer(Source::Words(log_sizes));
    plan.add_buffer(Source::Words(points_data));
    plan.add_buffer(Source::Fresh(16 * (num_evals as u64)));
    plan.add_buffer(Source::Words(count));
    plan.dispatch(Kernel::EvalAtPoint, buffer_args(6), groups_for(num_evals as u64));
    assert(plan@ =~= batch_evaluation_plan(batch));
    Some(plan)
}

/// Each evaluation of a batch finds its own polynomial and its own point: from its offset
/// on, as many words as its log size says are the coefficients, and its eight words of the
/// points are the coordinates.
pub proof fn law_batch_inputs_found(
    batch: Seq<(&CircleCoefficients, CirclePoint)>,
    coeffs: Seq<u32>,
    offsets: Seq<u32>,
    log_sizes: Seq<u32>,
    points: Seq<u32>,
    i: int,
)
    requires
        0 <= i < batch.len(),
        forall|k: int| 0 <= k < batch.len() ==> (#[trigger] batch[k]).0.wf(),
        packing::words_before(batch_words(batch), batch.len() as int) <= u32::MAX,
        batch_evaluation_plan(batch).buffers[0] == kernel::SourceView::Words(coeffs),
        batch_evaluation_plan(batch).buffers[1] == kernel::SourceView::Words(offsets),
        batch_evaluation_plan(batch).buffers[2] == kernel::SourceView::Words(log_sizes),
        batch_evaluation_plan(batch).buffers[3] == kernel::SourceView::Words(points),
    ensures
        log_sizes[i] == batch[i].0.spec_log_size(),
        offsets[i] + pow2(log_sizes[i] as nat) <= coeffs.len(),
        coeffs.subrange(offsets[i] as int, offsets[i] + pow2(log_sizes[i] as nat))
            == columns::column_words(batch[i].0.coeffs@),
        8 * i + 8 <= points.len(),
        points.subrange(8 * i, 8 * i + 8) == batch[i].1.words(),
{
    let words = batch_words(batch);
    let parts = batch_points(batch);
    assert(batch[i].0.wf());
    packing::lemma_words_before_monotone(words, 0, i);
    packing::lemma_words_before_monotone(words, i, batch.len() as int);
    packing::law_packed_column_found(words, i);
    packing::law_packed_column_found(parts, i);
    lemma_points_before(batch, i);
    utils::lemma_floor_log2(words[i].len() as int);
    lemma_log_fits(words[i].len() as int);
}

/// Eight words for each point.
proof fn lemma_points_before(batch: Seq<(&CircleCoefficients, CirclePoint)>, k: int)
    requires
        0 <= k <= batch.len(),
    ensures
        packing::words_before(batch_points(batch), k) == 8 * k,
    decreases k,
{
    if k > 0 {
        lemma_points_before(batch, k - 1);
        assert(batch_points(batch)[k - 1] == batch[k - 1].1.words());
    }
}

/// The logarithm of a length that fits in a word is small.
proof fn lemma_log_fits(n: int)
    requires
        0 < n <= usize::MAX,
    ensures
        utils::floor_log2(n) <= 64,
{
    lemma2_to64();
    lemma2_to64_rest();
    utils::lemma_floor_log2(n);
    if utils::floor_log2(n) > 64 {
        lemma_pow2_strictly_increases(64, utils::floor_log2(n));
    }
}

/// A batch is evaluated on the processor or polynomial by polynomial: it is small, or all
/// its polynomials are.
pub open spec fn small_batch(batch: Seq<(&CircleCoefficients, CirclePoint)>) -> bool {
    batch.len() < MIN_GPU_EVAL_BATCH || forall|i: int|
        0 <= i < batch.len() ==> (#[trigger] batch[i]).0.spec_log_size() <= MAX_CPU_EVAL_LOG_SIZE
}

/// The evaluations of a batch: one by one, or as one piece of work for the device.
pub enum BatchEvaluation {
    Each(Vec<PointEvaluation>),
    Device(Plan),
}

/// Evaluates a batch.  A small batch is evaluated one polynomial at a time; for another one
/// the evaluations on the device are planned.
pub fn eval_at_points_batched(polys_and_points: &[(&CircleCoefficients, CirclePoint)]) -> (r:
    BatchEvaluation)
    requires
        polys_and_points.len() <= u32::MAX,
        forall|i: int|
            0 <= i < polys_and_points.len() ==> (#[trigger] polys_and_points@[i]).0.wf(),
        small_batch(polys_and_points@) ==> forall|i: int|
            0 <= i < polys_and_points.len() ==> canonical_column(
                (#[trigger] polys_and_points@[i]).0.coeffs@,
            ) && polys_and_points@[i].1.wf(),
        !small_batch(polys_and_points@) ==> packing::words_before(
            batch_words(polys_and_points@),
            polys_and_points@.len() as int,
        ) <= u32::MAX,
    ensures
        match r {
            BatchEvaluation::Each(values) => {
                &&& small_batch(polys_and_points@)
                &&& values.len() == polys_and_points.len()
                &&& forall|i: int|
                    0 <= i < values.len() ==> is_evaluation(
                        #[trigger] values[i],
                        *polys_and_points@[i].0,
                        polys_and_points@[i].1,
                    )
            },
            BatchEvaluation::Device(plan) => {
                &&& !small_batch(polys_and_points@)
                &&& plan@.wf()
                &&& plan@ == batch_evaluation_plan(polys_and_points@)
            },
        },
{
    let ghost batch = polys_and_points@;
    let mut max_log_size: u32 = 0;
    for i in 0..polys_and_points.len()
        invariant
            batch == polys_and_points@,
            forall|k: int| 0 <= k < batch.len() ==> (#[trigger] batch[k]).0.wf(),
            forall|k: int|
                0 <= k < i ==> (#[trigger] batch[k]).0.spec_log_size() <= max_log_size,
            max_log_size == 0 || exists|k: int|
                0 <= k < i && (#[trigger] batch[k]).0.spec_log_size() == max_log_size,
    {
        assert(batch[i as int].0.wf());
        let log_size: u32 = polys_and_points[i].0.log_size();
        if log_size > max_log_size {
            max_log_size = log_size;
        }
        assert(batch[i as int].0.spec_log_size() == log_size);
    }
    if polys_and_points.len() < MIN_GPU_EVAL_BATCH || max_log_size <= MAX_CPU_EVAL_LOG_SIZE {
        assert(small_batch(batch));
        let mut values: Vec<PointEvaluation> = Vec::new();
        for i in 0..polys_and_points.len()
            invariant
                batch == polys_and_points@,
                forall|k: int|
                    0 <= k < batch.len() ==> (#[trigger] batch[k]).0.wf() && canonical_column(
                        batch[k].0.coeffs@,
                    ) && batch[k].1.wf(),
                values.len() == i,
                forall|k: int|
                    0 <= k < i ==> is_evaluation(
                        #[trigger] values[k],
                        *batch[k].0,
                        batch[k].1,
                    ),
        {
            assert(batch[i as int].0.wf());
            let (poly, point) = polys_and_points[i];
            values.push(metal_eval_at_point_gpu(poly, point));
        }
        return BatchEvaluation::Each(values);
    }
    match metal_eval_at_points_batched_gpu(polys_and_points) {
        Some(plan) => BatchEvaluation::Device(plan),
        None => BatchEvaluation::Each(Vec::new()),
    }
}

/// A column from its words.
pub open spec fn column_of(words: Seq<u32>) -> Seq<BaseField> {
    words.map_values(|w: u32| BaseField(w))
}

/// A point from the words of its coordinates.
pub open spec fn point_of(words: Seq<u32>) -> CirclePoint {
    CirclePoint {
        x: SecureField {
            c0: BaseField(words[0]),
            c1: BaseField(words[1]),
            c2: BaseField(words[2]),
            c3: BaseField(words[3]),
        },
        y: SecureField {
            c0: BaseField(words[4]),
            c1: BaseField(words[5]),
            c2: BaseField(words[6]),
            c3: BaseField(words[7]),
        },
    }
}

/// The value that thread `i` of an evaluation launch computes: the coefficients from the
/// thread's offset on, as many as its log size says, folded at the thread's point.
pub open spec fn thread_value(d: kernel::DispatchView, mem: Seq<Seq<u32>>, i: int) -> fields::Coords {
    let start = device_memory::bound(mem, d.args[1])[i] as int;
    let log = device_memory::bound(mem, d.args[2])[i] as nat;
    fold_value(
        column_of(device_memory::bound(mem, d.args[0]).subrange(start, start + pow2(log))),
        point_of(device_memory::bound(mem, d.args[3]).subrange(8 * i, 8 * i + 8)),
        log,
    )
}

/// What an evaluation launch makes of the buffers: a value for each evaluation that has a
/// thread.
pub open spec fn evaluation_effect() -> spec_fn(
    kernel::DispatchView,
    Seq<Seq<u32>>,
) -> Seq<Seq<u32>> {
    |d: kernel::DispatchView, mem: Seq<Seq<u32>>|
        match d.kernel {
            Kernel::EvalAtPoint => mem.update(
                device_memory::slot_of(d.args[4]),
                device_memory::words_of(
                    vstd::math::min(
                        device_memory::bound(mem, d.args[5])[0] as int,
                        kernel::launched(d.grid),
                    ) as nat,
                    |i: int| thread_value(d, mem, i),
                ),
            ),
            _ => mem,
        }
}

/// Values of canonical coefficients are canonical.
proof fn lemma_fold_value_canonical(coeffs: Seq<BaseField>, point: CirclePoint, k: nat)
    requires
        coeffs.len() == pow2(k),
        canonical_column(coeffs),
    ensures
        ({
            let v = fold_value(coeffs, point, k);
            &&& v.reduced() == v
            &&& 0 <= v.c0 < fields::P
            &&& 0 <= v.c1 < fields::P
            &&& 0 <= v.c2 < fields::P
            &&& 0 <= v.c3 < fields::P
        }),
{
    let v = fold_value(coeffs, point, k);
    if k == 0 {
        lemma2_to64();
        assert(coeffs[0].wf());
    }
    vstd::arithmetic::div_mod::lemma_small_mod(v.c0 as nat, fields::P as nat);
    vstd::arithmetic::div_mod::lemma_small_mod(v.c1 as nat, fields::P as nat);
    vstd::arithmetic::div_mod::lemma_small_mod(v.c2 as nat, fields::P as nat);
    vstd::arithmetic::div_mod::lemma_small_mod(v.c3 as nat, fields::P as nat);
}

/// The words of a point give the point back.
proof fn lemma_point_of_words(point: CirclePoint)
    ensures
        point_of(point.words()) == point,
        point.words().len() == 8,
{
}

/// The words of a column give the column back.
proof fn lemma_column_of_words(column: Seq<BaseField>)
    ensures
        column_of(columns::column_words(column)) == column,
{
    assert(column_of(columns::column_words(column)) =~= column);
}

/// Performing the plan of one evaluation leaves the value of the polynomial at the point in
/// buffer 4.
pub proof fn law_single_plan_evaluates(
    poly: CircleCoefficients,
    point: CirclePoint,
    mem: Seq<Seq<u32>>,
)
    requires
        poly.wf(),
        canonical_column(poly.coeffs@),
        device_memory::loaded(
            single_evaluation_plan(poly.spec_log_size() as u32, point).buffers,
            seq![columns::column_words(poly.coeffs@)],
            mem,
        ),
    ensures
        ({
            let plan = single_evaluation_plan(poly.spec_log_size() as u32, point);
            let out = device_memory::perform(evaluation_effect(), plan.dispatches, mem);
            &&& out[4] == fields::coords_words(poly_value(poly, point))
            &&& columns::reduced_felt(out[4], 0) == poly_value(poly, point)
        }),
{
    let log = poly.spec_log_size();
    let plan = single_evaluation_plan(log as u32, point);
    let words = columns::column_words(poly.coeffs@);
    let d = plan.dispatches[0];
    utils::lemma_floor_log2(poly.coeffs.len() as int);
    lemma_log_fits(poly.coeffs.len() as int);
    assert(mem[0] == words);
    assert(mem[1] == seq![0u32]);
    assert(mem[2] == seq![log as u32]);
    assert(mem[3] == point.words());
    assert(mem[5] == seq![1u32]);
    assert forall|k: int| 0 <= k < 6 implies #[trigger] d.args[k] == kernel::spec_whole(
        k as usize,
    ) by {}
    device_memory::lemma_perform_one(evaluation_effect(), plan.dispatches, mem);
    let felt = |i: int| thread_value(d, mem, i);
    lemma_point_of_words(point);
    lemma_column_of_words(poly.coeffs@);
    assert(words.subrange(0, pow2(log) as int) =~= words);
    assert(point.words().subrange(0, 8) =~= point.words());
    assert(felt(0) == poly_value(poly, point));
    let out = device_memory::perform(evaluation_effect(), plan.dispatches, mem);
    let value = device_memory::words_of(1, felt);
    assert(mem[5][0] == 1);
    assert(kernel::launched(d.grid) == 1) by {
        assert(d.grid == Grid::Groups { count: 1, size: 1 });
        vstd::arithmetic::mul::lemma_mul_basics(1);
    }
    assert(out == evaluation_effect()(d, mem));
    assert(out[4] =~= value);
    device_memory::lemma_word_of(1, felt, 0);
    assert(value.subrange(0, 4) =~= value);
    lemma_fold_value_canonical(poly.coeffs@, point, log);
}

/// Performing the plan of a batch leaves in buffer 4 the value of each polynomial at its
/// point, in order, as the plan of one evaluation does.
pub proof fn law_batch_plan_evaluates(
    batch: Seq<(&CircleCoefficients, CirclePoint)>,
    mem: Seq<Seq<u32>>,
    i: int,
)
    requires
        0 <= i < batch.len() <= u32::MAX,
        forall|k: int|
            0 <= k < batch.len() ==> (#[trigger] batch[k]).0.wf() && canonical_column(
                batch[k].0.coeffs@,
            ),
        packing::words_before(batch_words(batch), batch.len() as int) <= u32::MAX,
        device_memory::loaded(batch_evaluation_plan(batch).buffers, Seq::empty(), mem),
    ensures
        ({
            let plan = batch_evaluation_plan(batch);
            let out = device_memory::perform(evaluation_effect(), plan.dispatches, mem);
            let value = poly_value(*batch[i].0, batch[i].1);
            &&& out[4].len() == 4 * batch.len()
            &&& out[4].subrange(4 * i, 4 * i + 4) == fields::coords_words(value)
            &&& columns::reduced_felt(out[4], 4 * i) == value
        }),
{
    let plan = batch_evaluation_plan(batch);
    let d = plan.dispatches[0];
    assert(batch[i].0.wf());
    assert(plan.buffers[0] == kernel::SourceView::Words(mem[0]));
    assert(plan.buffers[1] == kernel::SourceView::Words(mem[1]));
    assert(plan.buffers[2] == kernel::SourceView::Words(mem[2]));
    assert(plan.buffers[3] == kernel::SourceView::Words(mem[3]));
    assert(mem[5] == seq![batch.len() as u32]);
    assert forall|k: int| 0 <= k < 6 implies #[trigger] d.args[k] == kernel::spec_whole(
        k as usize,
    ) by {}
    law_batch_inputs_found(batch, mem[0], mem[1], mem[2], mem[3], i);
    kernel::law_groups_cover_threads(batch.len() as u64);
    device_memory::lemma_perform_one(evaluation_effect(), plan.dispatches, mem);
    let felt = |k: int| thread_value(d, mem, k);
    lemma_point_of_words(batch[i].1);
    lemma_column_of_words(batch[i].0.coeffs@);
    assert(felt(i) == poly_value(*batch[i].0, batch[i].1));
    let out = device_memory::perform(evaluation_effect(), plan.dispatches, mem);
    assert(out[4] =~= device_memory::words_of(batch.len(), felt));
    device_memory::lemma_word_of(batch.len(), felt, i);
    utils::lemma_floor_log2(batch[i].0.coeffs.len() as int);
    lemma_fold_value_canonical(batch[i].0.coeffs@, batch[i].1, batch[i].0.spec_log_size());
}

/// The first two factors are the point's coordinates, and each further one is the first
/// coordinate of the doubled point: where `(x, y)` is on the circle and `x` is a factor, the
/// next factor is `x^2 - y^2`.
pub proof fn law_factors_double_the_point(point: CirclePoint, k: nat, y: fields::Coords)
    requires
        k >= 1,
        ({
            let x = folding_factor(point, k);
            x.times(x).plus(y.times(y)).reduced() == fields::coords_one()
        }),
    ensures
        ({
            let x = folding_factor(point, k);
            &&& folding_factor(point, 0) == point.y@
            &&& folding_factor(point, 1) == point.x@
            &&& folding_factor(point, k + 1) == x.times(x).minus(y.times(y)).reduced()
        }),
{
    let x = folding_factor(point, k);
    let a = x.times(x);
    let b = y.times(y);
    lemma_twice_minus_sum(a.c0, b.c0, 1);
    lemma_twice_minus_sum(a.c1, b.c1, 0);
    lemma_twice_minus_sum(a.c2, b.c2, 0);
    lemma_twice_minus_sum(a.c3, b.c3, 0);
}

/// Twice a number, less a sum, is the difference of the terms.
proof fn lemma_twice_minus_sum(a: int, b: int, one: int)
    requires
        fields::modp(a + b) == one,
    ensures
        fields::modp(a * 2 - one) == fields::modp(a - b),
{
    let p = fields::P as int;
    vstd::arithmetic::div_mod::lemma_sub_mod_noop_right(a * 2, a + b, p);
    assert(a * 2 - (a + b) == a - b);
}

/// The product that an index stands for, from variable `j` on: bit `t` of the index stands
/// for variable `j + t`.
pub open spec fn monomial(point: CirclePoint, i: int, j: nat) -> fields::Coords
    decreases i,
{
    if i <= 0 {
        fields::coords_one()
    } else if i % 2 == 1 {
        monomial(point, i / 2, j + 1).times(folding_factor(point, j)).reduced()
    } else {
        monomial(point, i / 2, j + 1)
    }
}

/// The sum of the first `n` coefficients, each times the product for its index.
pub open spec fn term_sum(
    coeffs: Seq<BaseField>,
    products: spec_fn(int) -> fields::Coords,
    n: nat,
) -> fields::Coords
    decreases n,
{
    if n == 0 {
        fields::coords_zero()
    } else {
        term_sum(coeffs, products, (n - 1) as nat).plus(
            products(n - 1).scaled(coeffs[n - 1].0 as int),
        ).reduced()
    }
}

/// One more bit at the top is one more factor.
proof fn lemma_monomial_top(point: CirclePoint, i: int, j: nat, m: nat)
    requires
        0 <= i < pow2(m),
    ensures
        monomial(point, i + pow2(m), j) == monomial(point, i, j).times(
            folding_factor(point, j + m),
        ).reduced(),
    decreases m,
{
    lemma2_to64();
    let f = folding_factor(point, j);
    if m == 0 {
        assert(monomial(point, 0, j + 1) == fields::coords_one());
        assert(i + pow2(0) == 1);
        assert(1int / 2 == 0);
    } else {
        lemma_pow2_unfold(m);
        lemma_pow2_pos((m - 1) as nat);
        let h = pow2((m - 1) as nat) as int;
        let top = folding_factor(point, j + m);
        let rest = monomial(point, i / 2, j + 1);
        lemma_monomial_top(point, i / 2, j + 1, (m - 1) as nat);
        assert((i + 2 * h) / 2 == i / 2 + h && (i + 2 * h) % 2 == i % 2);
        assert((j + 1) + (m - 1) as nat == j + m);
        assert(monomial(point, i / 2 + h, j + 1) == rest.times(top).reduced());
        if i % 2 == 1 {
            fields::lemma_reduced_factors(rest.times(top), f);
            fields::lemma_reduced_factors(rest.times(f), top);
            fields::law_times_associates(rest, top, f);
            fields::law_times_associates(rest, f, top);
            fields::law_times_commutes(top, f);
        } else if i == 0 {
            assert(monomial(point, 0, j) == fields::coords_one());
        } else {
            assert(monomial(point, i, j) == rest);
        }
    }
}

/// A sum in two parts.
proof fn lemma_term_sum_splits(
    coeffs: Seq<BaseField>,
    products: spec_fn(int) -> fields::Coords,
    half: nat,
    n: nat,
)
    requires
        half + n <= coeffs.len(),
    ensures
        term_sum(coeffs, products, half + n) == term_sum(coeffs, products, half).plus(
            term_sum(coeffs.skip(half as int), |i: int| products(half + i), n),
        ).reduced(),
    decreases n,
{
    let shifted = |i: int| products(half + i);
    let left = term_sum(coeffs, products, half);
    if n == 0 {
        lemma_term_sum_reduced(coeffs, products, half);
        assert(left.plus(fields::coords_zero()) == left);
    } else {
        lemma_term_sum_splits(coeffs, products, half, (n - 1) as nat);
        let right = term_sum(coeffs.skip(half as int), shifted, (n - 1) as nat);
        let term = products(half + n - 1).scaled(coeffs[half + n - 1].0 as int);
        assert(shifted(n - 1) == products(half + n - 1));
        fields::lemma_reduced_terms(left.plus(right), term);
        fields::lemma_reduced_terms(left, right.plus(term));
        assert(left.plus(right).plus(term) == left.plus(right.plus(term)));
    }
}

proof fn lemma_term_sum_reduced(
    coeffs: Seq<BaseField>,
    products: spec_fn(int) -> fields::Coords,
    n: nat,
)
    ensures
        term_sum(coeffs, products, n).reduced() == term_sum(coeffs, products, n),
{
    if n > 0 {
        fields::lemma_reduced_terms(
            term_sum(coeffs, products, (n - 1) as nat).plus(
                products(n - 1).scaled(coeffs[n - 1].0 as int),
            ),
            fields::coords_zero(),
        );
    }
}

/// A factor of all products is a factor of the sum.
proof fn lemma_term_sum_times(
    coeffs: Seq<BaseField>,
    a: spec_fn(int) -> fields::Coords,
    b: spec_fn(int) -> fields::Coords,
    f: fields::Coords,
    n: nat,
)
    requires
        forall|i: int| 0 <= i < n ==> #[trigger] b(i) == a(i).times(f).reduced(),
    ensures
        term_sum(coeffs, b, n) == term_sum(coeffs, a, n).times(f).reduced(),
    decreases n,
{
    let zero = fields::coords_zero();
    if n == 0 {
        assert(zero.times(f) == zero) by {
            assert(0 * f.c0 == 0 && 0 * f.c1 == 0 && 0 * f.c2 == 0 && 0 * f.c3 == 0);
        }
    } else {
        lemma_term_sum_times(coeffs, a, b, f, (n - 1) as nat);
        let s = term_sum(coeffs, a, (n - 1) as nat);
        let k = coeffs[n - 1].0 as int;
        let term = a(n - 1).scaled(k);
        assert(b(n - 1) == a(n - 1).times(f).reduced());
        // The product of the sum is the sum of the products.
        fields::lemma_reduced_factors(s.plus(term), f);
        fields::law_times_commutes(s.plus(term), f);
        fields::law_times_distributes(f, s, term);
        fields::law_times_commutes(f, s);
        fields::law_times_commutes(f, term);
        fields::lemma_times_scaled(a(n - 1), f, k);
        let t = a(n - 1).times(f);
        lemma_scaled_reduced(t, k);
        fields::lemma_reduced_terms(s.times(f), t.scaled(k));
        fields::lemma_reduced_terms(s.times(f).reduced(), t.reduced().scaled(k));
    }
}

/// Reducing before scaling does not change what comes out.
proof fn lemma_scaled_reduced(t: fields::Coords, k: int)
    ensures
        t.reduced().scaled(k).reduced() == t.scaled(k).reduced(),
{
    let p = fields::P as int;
    vstd::arithmetic::div_mod::lemma_mul_mod_noop_left(t.c0, k, p);
    vstd::arithmetic::div_mod::lemma_mul_mod_noop_left(t.c1, k, p);
    vstd::arithmetic::div_mod::lemma_mul_mod_noop_left(t.c2, k, p);
    vstd::arithmetic::div_mod::lemma_mul_mod_noop_left(t.c3, k, p);
}

/// The value of a polynomial is the sum of its coefficients, each times the product that its
/// index stands for.
pub proof fn law_value_is_sum_of_terms(coeffs: Seq<BaseField>, point: CirclePoint, k: nat)
    requires
        coeffs.len() == pow2(k),
        canonical_column(coeffs),
    ensures
        fold_value(coeffs, point, k) == term_sum(
            coeffs,
            |i: int| monomial(point, i, 0),
            coeffs.len(),
        ),
    decreases k,
{
    let products = |i: int| monomial(point, i, 0);
    lemma2_to64();
    if k == 0 {
        reveal_with_fuel(term_sum, 2);
        let c = coeffs[0].0 as int;
        assert(coeffs[0].wf());
        assert(products(0) == fields::coords_one());
        assert(0 * c == 0 && 1 * c == c);
        vstd::arithmetic::div_mod::lemma_small_mod(c as nat, fields::P as nat);
        assert(term_sum(coeffs, products, 1) == fields::coords_zero().plus(
            products(0).scaled(c),
        ).reduced());
    } else {
        let m = (k - 1) as nat;
        let half = pow2(m);
        lemma_pow2_unfold(k);
        let left = coeffs.take(half as int);
        let right = coeffs.skip(half as int);
        assert forall|i: int| 0 <= i < left.len() implies (#[trigger] left[i]).wf() by {
            assert(coeffs[i].wf());
        }
        assert forall|i: int| 0 <= i < right.len() implies (#[trigger] right[i]).wf() by {
            assert(coeffs[half + i].wf());
        }
        law_value_is_sum_of_terms(left, point, m);
        law_value_is_sum_of_terms(right, point, m);
        let f = folding_factor(point, m);
        let shifted = |i: int| products(half + i);
        assert forall|i: int| 0 <= i < half implies #[trigger] shifted(i) == products(i).times(
            f,
        ).reduced() by {
            lemma_monomial_top(point, i, 0, m);
            assert(i + pow2(m) == half + i);
        }
        lemma_term_sum_times(right, products, shifted, f, half);
        lemma_term_sum_splits(coeffs, products, half, half);
        lemma_term_sum_prefix(coeffs, products, half, half as int);
        assert(half + half == coeffs.len());
    }
}

/// A sum depends on the coefficients that it takes.
proof fn lemma_term_sum_prefix(
    coeffs: Seq<BaseField>,
    products: spec_fn(int) -> fields::Coords,
    n: nat,
    taken: int,
)
    requires
        n <= taken <= coeffs.len(),
    ensures
        term_sum(coeffs.take(taken), products, n) == term_sum(coeffs, products, n),
    decreases n,
{
    if n > 0 {
        lemma_term_sum_prefix(coeffs, products, (n - 1) as nat, taken);
    }
}

} // verus!
