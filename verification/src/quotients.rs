//! Quotients of sampled columns.

use crate::columns;
use crate::columns::{push_column_words, push_felt, SecureColumnByCoords};
use crate::fields;
use crate::fields::{BaseField, SecureField};
use crate::kernel;
use crate::kernel::{buffer_args, whole, Arg, Grid, Kernel, Plan, Source};
use crate::packing;
use crate::point_evaluation::CirclePoint;
use crate::thresholds::MIN_QUOTIENT_LOG_SIZE;
use crate::utils;
use crate::utils::{ilog2, pow2_u64};
use vstd::arithmetic::power2::*;
use vstd::prelude::*;

verus! {

/// The columns that are sampled at a point.
#[derive(Debug)]
pub struct ColumnSampleBatch {
    pub point: CirclePoint,
    /// Index of each sampled column.
    pub column_indices: Vec<usize>,
}

/// The line `a y + b + c f` through a sample and its conjugate.
#[derive(Debug, Clone, Copy)]
pub struct LineCoeffs {
    pub a: SecureField,
    pub b: SecureField,
    pub c: SecureField,
}

/// The words of `b` and `c` of each line.
pub open spec fn bc_words(coeffs: Seq<LineCoeffs>) -> Seq<u32> {
    coeffs.map_values(|l: LineCoeffs| l.b.words() + l.c.words()).flatten()
}

/// The sum of `a` over the first `k` lines.
pub open spec fn linear_term_sum(coeffs: Seq<LineCoeffs>, k: nat) -> fields::Coords
    decreases k,
{
    if k == 0 {
        fields::coords_zero()
    } else {
        linear_term_sum(coeffs, (k - 1) as nat).plus(coeffs[k - 1].a@).reduced()
    }
}

/// A thread for each value, in groups as large as the device allows.
pub open spec fn value_threads(size: u64, max_group: u64) -> Grid {
    Grid::Threads {
        total: size,
        group: if max_group < size {
            max_group
        } else {
            size
        },
    }
}

/// Indices as words.
pub open spec fn index_words(indices: Seq<usize>) -> Seq<u32> {
    indices.map_values(|i: usize| i as u32)
}

/// A plan followed by the partial numerators of a batch, over the columns in buffer 0: their
/// coordinates are in the last four buffers.
pub open spec fn with_numerators(
    before: kernel::PlanView,
    batch: ColumnSampleBatch,
    coeffs: Seq<LineCoeffs>,
    size: nat,
    max_group: u64,
) -> kernel::PlanView {
    let n = before.buffers.len();
    kernel::PlanView {
        buffers: before.buffers + seq![
            kernel::SourceView::Words(index_words(batch.column_indices@)),
            kernel::SourceView::Words(bc_words(coeffs)),
            kernel::SourceView::Fresh((4 * size) as u64),
            kernel::SourceView::Fresh((4 * size) as u64),
            kernel::SourceView::Fresh((4 * size) as u64),
            kernel::SourceView::Fresh((4 * size) as u64),
        ],
        dispatches: before.dispatches.push(
            kernel::DispatchView {
                kernel: Kernel::QuotientPartialNumerator,
                args: seq![
                    kernel::spec_whole(0),
                    kernel::spec_whole(n as usize),
                    kernel::spec_whole((n + 1) as usize),
                    Arg::U32(size as u32),
                    Arg::U32(batch.column_indices@.len() as u32),
                    kernel::spec_whole((n + 2) as usize),
                    kernel::spec_whole((n + 3) as usize),
                    kernel::spec_whole((n + 4) as usize),
                    kernel::spec_whole((n + 5) as usize),
                ],
                grid: value_threads(size as u64, max_group),
            },
        ),
    }
}

/// The partial numerators of the first `k` batches.
pub open spec fn numerators_plan(
    cols: Seq<Seq<u32>>,
    batches: Seq<ColumnSampleBatch>,
    line_coeffs: Seq<Vec<LineCoeffs>>,
    size: nat,
    max_group: u64,
    k: nat,
) -> kernel::PlanView
    decreases k,
{
    if k == 0 {
        kernel::empty_plan().with_buffer(kernel::SourceView::Words(cols.flatten()))
    } else {
        with_numerators(
            numerators_plan(cols, batches, line_coeffs, size, max_group, (k - 1) as nat),
            batches[k - 1],
            line_coeffs[k - 1]@,
            size,
            max_group,
        )
    }
}

/// What is known of a batch once its partial numerators are computed.
#[derive(Debug)]
pub struct AccumulatedNumerators {
    pub sample_point: CirclePoint,
    /// The first of the four slots with the coordinates of the partial numerators.
    pub partial_numerators_slot: usize,
    pub first_linear_term_acc: SecureField,
}

/// The partial numerators of all batches on the device.
#[derive(Debug)]
pub struct NumeratorsPlan {
    pub plan: Plan,
    pub batches: Vec<AccumulatedNumerators>,
}

/// The words of `b` and `c` of each line.
fn push_bc_words(coeffs: &Vec<LineCoeffs>) -> (r: Vec<u32>)
    ensures
        r@ == bc_words(coeffs@),
{
    let ghost parts = coeffs@.map_values(|l: LineCoeffs| l.b.words() + l.c.words());
    let mut bc_data: Vec<u32> = Vec::new();
    assert(parts.take(0) =~= Seq::empty());
    for i in 0..coeffs.len()
        invariant
            parts == coeffs@.map_values(|l: LineCoeffs| l.b.words() + l.c.words()),
            bc_data@ == parts.take(i as int).flatten(),
    {
        proof {
            packing::lemma_flatten_step(parts, i as int);
        }
        push_felt(&mut bc_data, coeffs[i].b);
        push_felt(&mut bc_data, coeffs[i].c);
        assert(bc_data@ =~= parts.take(i as int).flatten() + parts[i as int]);
    }
    assert(parts.take(parts.len() as int) =~= parts);
    bc_data
}

/// The sum of `a` over lines.
pub fn sum_linear_terms(coeffs: &Vec<LineCoeffs>) -> (r: SecureField)
    requires
        forall|i: int| 0 <= i < coeffs.len() ==> (#[trigger] coeffs[i]).a.wf(),
    ensures
        r.wf(),
        r@ == linear_term_sum(coeffs@, coeffs@.len()),
{
    let mut sum = SecureField::zero();
    for i in 0..coeffs.len()
        invariant
            forall|k: int| 0 <= k < coeffs.len() ==> (#[trigger] coeffs[k]).a.wf(),
            sum.wf(),
            sum@ == linear_term_sum(coeffs@, i as nat),
    {
        assert(coeffs[i as int].a.wf());
        sum = sum.add(coeffs[i].a);
    }
    sum
}

/// The threads for values, in groups as large as the device allows.
fn threads_up_to(size: u64, max_group: u64) -> (r: Grid)
    ensures
        r == value_threads(size, max_group),
{
    Grid::Threads {
        total: size,
        group: if max_group < size {
            max_group
        } else {
            size
        },
    }
}

/// Adds the partial numerators of a batch and gives the first slot of their coordinates.
fn add_numerators(
    plan: &mut Plan,
    batch: &ColumnSampleBatch,
    coeffs: &Vec<LineCoeffs>,
    size: usize,
    max_group: u64,
) -> (first: usize)
    requires
        size <= 0x8000_0000,
    ensures
        old(plan)@.wf() ==> final(plan)@.wf(),
        first == old(plan)@.buffers.len() + 2,
        final(plan)@ == with_numerators(
            old(plan)@,
            *batch,
            coeffs@,
            size as nat,
            max_group,
        ),
{
    let ghost before = plan@;
    let ghost expected = with_numerators(before, *batch, coeffs@, size as nat, max_group);
    let mut col_indices: Vec<u32> = Vec::new();
    for i in 0..batch.column_indices.len()
        invariant
            col_indices@ == index_words(batch.column_indices@.take(i as int)),
    {
        col_indices.push(batch.column_indices[i] as u32);
        assert(col_indices@ =~= index_words(batch.column_indices@.take(i + 1)));
    }
    assert(batch.column_indices@.take(batch.column_indices@.len() as int)
        =~= batch.column_indices@);
    let batch_size: u32 = batch.column_indices.len() as u32;
    let out_size: u64 = 4 * (size as u64);
    let indices: usize = plan.add_buffer(Source::Words(col_indices));
    let lines: usize = plan.add_buffer(Source::Words(push_bc_words(coeffs)));
    let out0: usize = plan.add_buffer(Source::Fresh(out_size));
    let out1: usize = plan.add_buffer(Source::Fresh(out_size));
    let out2: usize = plan.add_buffer(Source::Fresh(out_size));
    let out3: usize = plan.add_buffer(Source::Fresh(out_size));
    let args = vec![
        whole(0),
        whole(indices),
        whole(lines),
        Arg::U32(size as u32),
        Arg::U32(batch_size),
        whole(out0),
        whole(out1),
        whole(out2),
        whole(out3),
    ];
    assert(args@ =~= expected.dispatches.last().args);
    plan.dispatch(Kernel::QuotientPartialNumerator, args, threads_up_to(size as u64, max_group));
    assert(plan@ =~= expected);
    out0
}

/// Plans the partial numerators of sampled columns, which all have one length.  There is no
/// plan for short columns, which the processor accumulates.  `max_group` is the largest
/// group that the device runs the kernel with.
pub fn accumulate_numerators(
    columns: &[&[BaseField]],
    sample_batches: &[ColumnSampleBatch],
    line_coeffs: &[Vec<LineCoeffs>],
    max_group: u64,
) -> (r: Option<NumeratorsPlan>)
    requires
        columns.len() > 0,
        0 < columns@[0]@.len() <= 0x8000_0000,
        utils::floor_log2(columns@[0]@.len() as int) >= MIN_QUOTIENT_LOG_SIZE ==> {
            &&& line_coeffs.len() == sample_batches.len()
            &&& forall|k: int, i: int|
                #![trigger line_coeffs@[k]@[i]]
                0 <= k < line_coeffs.len() && 0 <= i < line_coeffs@[k]@.len()
                    ==> line_coeffs@[k]@[i].a.wf()
        },
    ensures
        ({
            let size = columns@[0]@.len();
            let cols = packing::all_words(columns@);
            &&& r is None <==> utils::floor_log2(size as int) < MIN_QUOTIENT_LOG_SIZE
            &&& r matches Some(out) ==> {
                &&& out.plan@.wf()
                &&& out.plan@ == numerators_plan(
                    cols,
                    sample_batches@,
                    line_coeffs@,
                    size,
                    max_group,
                    sample_batches@.len(),
                )
                &&& out.batches.len() == sample_batches.len()
                &&& forall|k: int|
                    #![trigger out.batches[k]]
                    0 <= k < out.batches.len() ==> {
                        &&& out.batches[k].sample_point == sample_batches[k].point
                        &&& out.batches[k].partial_numerators_slot == 6 * k + 3
                        &&& out.batches[k].first_linear_term_acc.wf()
                        &&& out.batches[k].first_linear_term_acc@ == linear_term_sum(
                            line_coeffs@[k]@,
                            line_coeffs@[k]@.len(),
                        )
                    }
            }
        }),
{
    let size: usize = columns[0].len();
    if ilog2(size) < MIN_QUOTIENT_LOG_SIZE {
        return None;
    }
    let ghost cols = packing::all_words(columns@);
    let mut packed_data: Vec<u32> = Vec::new();
    assert(cols.take(0) =~= Seq::empty());
    for i in 0..columns.len()
        invariant
            cols == packing::all_words(columns@),
            packed_data@ == cols.take(i as int).flatten(),
    {
        proof {
            packing::lemma_flatten_step(cols, i as int);
        }
        push_column_words(&mut packed_data, columns[i]);
    }
    assert(cols.take(cols.len() as int) =~= cols);
    let mut plan = Plan::new();
    plan.add_buffer(Source::Words(packed_data));
    let mut batches: Vec<AccumulatedNumerators> = Vec::new();
    for k in 0..sample_batches.len()
        invariant
            size <= 0x8000_0000,
            line_coeffs.len() == sample_batches.len(),
            forall|j: int, i: int|
                #![trigger line_coeffs@[j]@[i]]
                0 <= j < line_coeffs.len() && 0 <= i < line_coeffs@[j]@.len()
                    ==> line_coeffs@[j]@[i].a.wf(),
            plan@ == numerators_plan(
                cols,
                sample_batches@,
                line_coeffs@,
                size as nat,
                max_group,
                k as nat,
            ),
            plan@.buffers.len() == 6 * k + 1,
            plan@.wf(),
            batches.len() == k,
            forall|j: int|
                #![trigger batches[j]]
                0 <= j < batches.len() ==> {
                    &&& batches[j].sample_point == sample_batches[j].point
                    &&& batches[j].partial_numerators_slot == 6 * j + 3
                    &&& batches[j].first_linear_term_acc.wf()
                    &&& batches[j].first_linear_term_acc@ == linear_term_sum(
                        line_coeffs@[j]@,
                        line_coeffs@[j]@.len(),
                    )
                },
    {
        let coeffs: &Vec<LineCoeffs> = &line_coeffs[k];
        assert forall|i: int| 0 <= i < coeffs.len() implies (#[trigger] coeffs[i]).a.wf() by {
            assert(line_coeffs@[k as int]@[i].a.wf());
        }
        let first: usize = add_numerators(&mut plan, &sample_batches[k], coeffs, size, max_group);
        batches.push(
            AccumulatedNumerators {
                sample_point: sample_batches[k].point,
                partial_numerators_slot: first,
                first_linear_term_acc: sum_linear_terms(coeffs),
            },
        );
    }
    Some(NumeratorsPlan { plan, batches })
}

/// A batch with its partial numerators.
#[derive(Debug)]
pub struct NumeratorAccumulation {
    pub sample_point: CirclePoint,
    pub partial_numerators_acc: SecureColumnByCoords,
    pub first_linear_term_acc: SecureField,
}

impl NumeratorAccumulation {
    /// The words of the partial numerators, one coordinate after the other.
    pub open spec fn words(self) -> Seq<u32> {
        columns::column_words(self.partial_numerators_acc.c0@) + columns::column_words(
            self.partial_numerators_acc.c1@,
        ) + columns::column_words(self.partial_numerators_acc.c2@) + columns::column_words(
            self.partial_numerators_acc.c3@,
        )
    }
}

/// The words of the partial numerators of each batch.
pub open spec fn accumulation_words(accs: Seq<NumeratorAccumulation>) -> Seq<Seq<u32>> {
    accs.map_values(|a: NumeratorAccumulation| a.words())
}

/// Binary logarithms of the numbers of partial numerators.
pub open spec fn accumulation_log_sizes(accs: Seq<NumeratorAccumulation>) -> Seq<u32> {
    accs.map_values(
        |a: NumeratorAccumulation|
            utils::floor_log2(a.partial_numerators_acc@.len() as int) as u32,
    )
}

/// The combination of quotients on the device: the caller's buffers 0 and 1 are the
/// coordinates of the domain's points, buffers 8 to 11 those of the result.
pub open spec fn combine_plan(
    accs: Seq<NumeratorAccumulation>,
    lifting_log_size: u32,
    max_group: u64,
) -> kernel::PlanView {
    let lifting_size = pow2(lifting_log_size as nat) as int;
    let words = accumulation_words(accs);
    let out = kernel::SourceView::Fresh((4 * lifting_size) as u64);
    kernel::PlanView {
        buffers: seq![
            kernel::SourceView::Input(0),
            kernel::SourceView::Input(1),
            kernel::SourceView::Words(words.flatten()),
            kernel::SourceView::Words(packing::offsets(words)),
            kernel::SourceView::Words(accumulation_log_sizes(accs)),
            kernel::SourceView::Words(
                columns::felt_words(
                    accs.map_values(|a: NumeratorAccumulation| a.first_linear_term_acc),
                ),
            ),
            kernel::SourceView::Words(
                columns::felt_words(accs.map_values(|a: NumeratorAccumulation| a.sample_point.x)),
            ),
            kernel::SourceView::Words(
                columns::felt_words(accs.map_values(|a: NumeratorAccumulation| a.sample_point.y)),
            ),
            out,
            out,
            out,
            out,
        ],
        dispatches: seq![
            kernel::DispatchView {
                kernel: Kernel::QuotientCombine,
                args: kernel::first_buffers(8) + seq![
                    Arg::U32(lifting_log_size),
                    Arg::U32(accs.len() as u32),
                    kernel::spec_whole(8),
                    kernel::spec_whole(9),
                    kernel::spec_whole(10),
                    kernel::spec_whole(11),
                ],
                grid: value_threads(lifting_size as u64, max_group),
            },
        ],
    }
}

/// Plans the combination of quotients.  There is no plan for a small domain, for which the
/// processor combines them.  `max_group` is the largest group that the device runs the
/// kernel with.
pub fn compute_quotients_and_combine(
    accs: &[NumeratorAccumulation],
    lifting_log_size: u32,
    max_group: u64,
) -> (r: Option<Plan>)
    requires
        lifting_log_size >= MIN_QUOTIENT_LOG_SIZE ==> {
            &&& lifting_log_size <= 31
            &&& forall|i: int|
                0 <= i < accs.len() ==> (#[trigger] accs[i]).partial_numerators_acc.wf()
                    && accs[i].partial_numerators_acc@.len() > 0
            &&& packing::words_before(accumulation_words(accs@), accs@.len() as int) <= usize::MAX
        },
    ensures
        r is None <==> lifting_log_size < MIN_QUOTIENT_LOG_SIZE,
        r matches Some(plan) ==> plan@.wf() && plan@ == combine_plan(
            accs@,
            lifting_log_size,
            max_group,
        ),
{
    if lifting_log_size < MIN_QUOTIENT_LOG_SIZE {
        return None;
    }
    let ghost expected = combine_plan(accs@, lifting_log_size, max_group);
    let ghost words = accumulation_words(accs@);
    let ghost linear = accs@.map_values(|a: NumeratorAccumulation| a.first_linear_term_acc);
    let ghost xs = accs@.map_values(|a: NumeratorAccumulation| a.sample_point.x);
    let ghost ys = accs@.map_values(|a: NumeratorAccumulation| a.sample_point.y);
    proof {
        lemma2_to64();
        if lifting_log_size < 31 {
            lemma_pow2_strictly_increases(lifting_log_size as nat, 31);
        }
    }
    let lifting_size: u64 = pow2_u64(lifting_log_size);
    let mut acc_offsets: Vec<u32> = Vec::new();
    let mut acc_log_sizes: Vec<u32> = Vec::new();
    let mut packed_acc_data: Vec<u32> = Vec::new();
    let mut linear_terms_data: Vec<u32> = Vec::new();
    let mut sample_x_data: Vec<u32> = Vec::new();
    let mut sample_y_data: Vec<u32> = Vec::new();
    let mut total_elements: usize = 0;
    proof {
        assert(words.take(0) =~= Seq::empty());
        assert(linear_terms_data@ =~= columns::felt_words(linear.take(0)));
        assert(sample_x_data@ =~= columns::felt_words(xs.take(0)));
        assert(sample_y_data@ =~= columns::felt_words(ys.take(0)));
    }
    for i in 0..accs.len()
        invariant
            words == accumulation_words(accs@),
            linear == accs@.map_values(|a: NumeratorAccumulation| a.first_linear_term_acc),
            xs == accs@.map_values(|a: NumeratorAccumulation| a.sample_point.x),
            ys == accs@.map_values(|a: NumeratorAccumulation| a.sample_point.y),
            forall|k: int|
                0 <= k < accs.len() ==> (#[trigger] accs[k]).partial_numerators_acc.wf()
                    && accs[k].partial_numerators_acc@.len() > 0,
            packing::words_before(words, accs@.len() as int) <= usize::MAX,
            total_elements == packing::words_before(words, i as int),
            acc_offsets@ == packing::offsets(words).take(i as int),
            acc_log_sizes@ == accumulation_log_sizes(accs@).take(i as int),
            packed_acc_data@ == words.take(i as int).flatten(),
            linear_terms_data@ == columns::felt_words(linear.take(i as int)),
            sample_x_data@ == columns::felt_words(xs.take(i as int)),
            sample_y_data@ == columns::felt_words(ys.take(i as int)),
    {
        let acc: &NumeratorAccumulation = &accs[i];
        let col: &SecureColumnByCoords = &acc.partial_numerators_acc;
        let ghost before = packed_acc_data@;
        proof {
            assert(accs[i as int].partial_numerators_acc.wf());
            assert(words[i as int] == acc.words());
            packing::lemma_words_before_monotone(words, i + 1, accs@.len() as int);
            packing::lemma_flatten_step(words, i as int);
            columns::lemma_felt_words_push(linear.take(i as int), linear[i as int]);
            columns::lemma_felt_words_push(xs.take(i as int), xs[i as int]);
            columns::lemma_felt_words_push(ys.take(i as int), ys[i as int]);
            assert(linear.take(i + 1) =~= linear.take(i as int).push(linear[i as int]));
            assert(xs.take(i + 1) =~= xs.take(i as int).push(xs[i as int]));
            assert(ys.take(i + 1) =~= ys.take(i as int).push(ys[i as int]));
        }
        let acc_size: usize = col.len();
        assert(acc.words().len() == 4 * acc_size);
        acc_offsets.push(total_elements as u32);
        acc_log_sizes.push(ilog2(acc_size));
        total_elements = total_elements + acc_size * 4;
        push_column_words(&mut packed_acc_data, col.c0.as_slice());
        push_column_words(&mut packed_acc_data, col.c1.as_slice());
        push_column_words(&mut packed_acc_data, col.c2.as_slice());
        push_column_words(&mut packed_acc_data, col.c3.as_slice());
        push_felt(&mut linear_terms_data, acc.first_linear_term_acc);
        push_felt(&mut sample_x_data, acc.sample_point.x);
        push_felt(&mut sample_y_data, acc.sample_point.y);
        assert(packed_acc_data@ =~= before + acc.words());
        assert(acc_offsets@ =~= packing::offsets(words).take(i + 1));
        assert(acc_log_sizes@ =~= accumulation_log_sizes(accs@).take(i + 1));
    }
    proof {
        assert(words.take(words.len() as int) =~= words);
        assert(linear.take(linear.len() as int) =~= linear);
        assert(xs.take(xs.len() as int) =~= xs);
        assert(ys.take(ys.len() as int) =~= ys);
        assert(acc_offsets@ =~= packing::offsets(words));
        assert(acc_log_sizes@ =~= accumulation_log_sizes(accs@));
    }
    let out_byte_size: u64 = 4 * lifting_size;
    let mut plan = Plan::new();
    plan.add_buffer(Source::Input(0));
    plan.add_buffer(Source::Input(1));
    plan.add_buffer(Source::Words(packed_acc_data));
    plan.add_buffer(Source::Words(acc_offsets));
    plan.add_buffer(Source::Words(acc_log_sizes));
    plan.add_buffer(Source::Words(linear_terms_data));
    plan.add_buffer(Source::Words(sample_x_data));
    plan.add_buffer(Source::Words(sample_y_data));
    let out0: usize = plan.add_buffer(Source::Fresh(out_byte_size));
    let out1: usize = plan.add_buffer(Source::Fresh(out_byte_size));
    let out2: usize = plan.add_buffer(Source::Fresh(out_byte_size));
    let out3: usize = plan.add_buffer(Source::Fresh(out_byte_size));
    let mut args = buffer_args(8);
    args.push(Arg::U32(lifting_log_size));
    args.push(Arg::U32(accs.len() as u32));
    args.push(whole(out0));
    args.push(whole(out1));
    args.push(whole(out2));
    args.push(whole(out3));
    assert(args@ =~= expected.dispatches[0].args);
    plan.dispatch(Kernel::QuotientCombine, args, threads_up_to(lifting_size, max_group));
    assert(plan@ =~= expected);
    Some(plan)
}

/// The linear term of lines depends on those lines alone.
proof fn lemma_linear_term_prefix(a: Seq<LineCoeffs>, b: Seq<LineCoeffs>, k: nat)
    requires
        k <= a.len(),
    ensures
        linear_term_sum(a + b, k) == linear_term_sum(a, k),
    decreases k,
{
    if k > 0 {
        lemma_linear_term_prefix(a, b, (k - 1) as nat);
        assert((a + b)[k - 1] == a[k - 1]);
    }
}

/// The linear term of no line is zero, and that of one line is the line's `a`.
pub proof fn law_linear_term_of_line(line: LineCoeffs)
    ensures
        linear_term_sum(Seq::empty(), 0) == fields::coords_zero(),
        linear_term_sum(seq![line], 1) == line.a@.reduced(),
{
    reveal_with_fuel(linear_term_sum, 2);
    assert(fields::coords_zero().plus(line.a@) == line.a@);
}

/// The linear term of the lines of two lists is the sum of the linear terms of the lists, so
/// that each line adds its `a` once, wherever it stands.
pub proof fn law_linear_terms_add(a: Seq<LineCoeffs>, b: Seq<LineCoeffs>)
    ensures
        linear_term_sum(a + b, a.len() + b.len()) == linear_term_sum(a, a.len()).plus(
            linear_term_sum(b, b.len()),
        ).reduced(),
    decreases b.len(),
{
    if b.len() == 0 {
        assert(a + b =~= a);
        lemma_linear_term_reduced(a, a.len());
        let sum = linear_term_sum(a, a.len());
        assert(sum.plus(fields::coords_zero()) == sum);
    } else {
        let shorter = b.drop_last();
        let last = b.last().a@;
        law_linear_terms_add(a, shorter);
        assert(a + b =~= (a + shorter).push(b.last()));
        assert(a + b =~= (a + shorter) + seq![b.last()]);
        assert(b =~= shorter + seq![b.last()]);
        lemma_linear_term_prefix(a + shorter, seq![b.last()], a.len() + shorter.len());
        lemma_linear_term_prefix(shorter, seq![b.last()], shorter.len());
        let x = linear_term_sum(a, a.len());
        let y = linear_term_sum(shorter, shorter.len());
        assert((a + b)[a.len() + b.len() - 1] == b.last());
        assert(linear_term_sum(b, b.len()) == y.plus(last).reduced());
        assert(linear_term_sum(a + b, a.len() + b.len()) == x.plus(y).reduced().plus(
            last,
        ).reduced());
        fields::lemma_reduced_terms(x.plus(y), last);
        fields::lemma_reduced_terms(x, y.plus(last));
        assert(x.plus(y).plus(last) == x.plus(y.plus(last)));
    }
}

/// A linear term is canonical.
proof fn lemma_linear_term_reduced(coeffs: Seq<LineCoeffs>, k: nat)
    ensures
        linear_term_sum(coeffs, k).reduced() == linear_term_sum(coeffs, k),
{
    if k > 0 {
        let before = linear_term_sum(coeffs, (k - 1) as nat);
        fields::lemma_reduced_terms(before.plus(coeffs[k - 1].a@), fields::coords_zero());
    }
}

/// A launch over values has a thread for each, in groups that are as large as the device
/// allows and no larger than the launch.
pub proof fn law_value_threads(size: u64, max_group: u64)
    ensures
        kernel::launched(value_threads(size, max_group)) == size,
        value_threads(size, max_group)->group <= size,
        value_threads(size, max_group)->group <= max_group,
        value_threads(size, max_group)->group == size || value_threads(size, max_group)->group
            == max_group,
{
}

/// The coordinates of the result of a combination fit the four buffers that are made for them.
pub proof fn law_combination_fits(
    accs: Seq<NumeratorAccumulation>,
    lifting_log_size: u32,
    max_group: u64,
    k: int,
)
    requires
        8 <= k < 12,
    ensures
        combine_plan(accs, lifting_log_size, max_group).buffers[k] == kernel::SourceView::Fresh(
            (4 * pow2(lifting_log_size as nat)) as u64,
        ),
{
}

/// The coordinates of the partial numerators of a batch fit the four buffers that are made for
/// them.
pub proof fn law_numerators_fit(
    cols: Seq<Seq<u32>>,
    batches: Seq<ColumnSampleBatch>,
    line_coeffs: Seq<Vec<LineCoeffs>>,
    size: nat,
    max_group: u64,
    n: nat,
    t: int,
    c: int,
)
    requires
        0 <= t < n,
        0 <= c < 4,
    ensures
        ({
            let buffers = numerators_plan(
                cols,
                batches,
                line_coeffs,
                size,
                max_group,
                n,
            ).buffers;
            &&& buffers.len() == 6 * n + 1
            &&& buffers[6 * t + 3 + c] == kernel::SourceView::Fresh((4 * size) as u64)
        }),
    decreases n,
{
    if t < n - 1 {
        law_numerators_fit(
            cols,
            batches,
            line_coeffs,
            size,
            max_group,
            (n - 1) as nat,
            t,
            c,
        );
    } else {
        lemma_numerator_buffers(cols, batches, line_coeffs, size, max_group, (n - 1) as nat);
    }
}

proof fn lemma_numerator_buffers(
    cols: Seq<Seq<u32>>,
    batches: Seq<ColumnSampleBatch>,
    line_coeffs: Seq<Vec<LineCoeffs>>,
    size: nat,
    max_group: u64,
    n: nat,
)
    ensures
        numerators_plan(cols, batches, line_coeffs, size, max_group, n).buffers.len() == 6 * n
            + 1,
    decreases n,
{
    if n > 0 {
        lemma_numerator_buffers(cols, batches, line_coeffs, size, max_group, (n - 1) as nat);
    }
}

} // verus!
