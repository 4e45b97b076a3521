//! Folding of evaluations and their decomposition.

use crate::columns;
use crate::columns::{felt_from_words, push_felt};
use crate::device_memory;
use crate::fields;
use crate::fields::{BaseField, SecureField, P};
use crate::kernel;
use crate::kernel::{buffer_args, groups_for, whole, Arg, Grid, Kernel, Plan, Source};
use crate::thresholds::MIN_FRI_LOG_SIZE;
use crate::utils;
use crate::utils::{ilog2, pow2_u64};
use vstd::arithmetic::div_mod::*;
use vstd::arithmetic::mul::*;
use vstd::arithmetic::power2::*;
use vstd::prelude::*;
use vstd::slice::slice_to_vec;

verus! {

/// Number of groups that sum up parts of an evaluation.
pub const NUM_SUM_GROUPS: u64 = 256;

/// Number of threads in each such group.
pub const SUM_GROUP_SIZE: u64 = 256;

/// Number of points of the circle, which no evaluation has more values than.
pub const MAX_EVALUATION_LEN: usize = 0x8000_0000;

/// Half of an evaluation is no longer than half of the circle.
proof fn lemma_half_size_bound(len: int, log_size: u32)
    requires
        0 < len <= MAX_EVALUATION_LEN,
        utils::is_ilog2(len, log_size as int),
        log_size >= 1,
    ensures
        log_size <= 31,
        2 * pow2((log_size - 1) as nat) <= len,
{
    lemma2_to64();
    lemma_pow2_unfold(log_size as nat);
    if log_size > 31 {
        lemma_pow2_strictly_increases(31, log_size as nat);
    }
}

/// A buffer with the coordinates of an element.
fn felt_source(felt: SecureField) -> (r: Source)
    ensures
        r@ == kernel::SourceView::Words(felt.words()),
{
    let mut words: Vec<u32> = Vec::new();
    push_felt(&mut words, felt);
    assert(words@ =~= felt.words());
    Source::Words(words)
}

/// Adds the caller's buffers `first` to `first + 3`.
fn add_inputs(plan: &mut Plan, first: usize)
    requires
        first < 1000,
    ensures
        old(plan)@.wf() ==> final(plan)@.wf(),
        final(plan)@ == (kernel::PlanView {
            buffers: old(plan)@.buffers + four_inputs(first as int),
            ..old(plan)@
        }),
{
    plan.add_buffer(Source::Input(first));
    plan.add_buffer(Source::Input(first + 1));
    plan.add_buffer(Source::Input(first + 2));
    plan.add_buffer(Source::Input(first + 3));
    assert(plan@.buffers =~= old(plan)@.buffers + four_inputs(first as int));
}

/// The caller's buffers `first` to `first + 3`.
pub open spec fn four_inputs(first: int) -> Seq<kernel::SourceView> {
    Seq::new(4, |i: int| kernel::SourceView::Input((first + i) as usize))
}

/// Adds four new buffers of a size.
fn add_outputs(plan: &mut Plan, size: u64)
    ensures
        old(plan)@.wf() ==> final(plan)@.wf(),
        final(plan)@ == (kernel::PlanView {
            buffers: old(plan)@.buffers + four_outputs(size),
            ..old(plan)@
        }),
{
    plan.add_buffer(Source::Fresh(size));
    plan.add_buffer(Source::Fresh(size));
    plan.add_buffer(Source::Fresh(size));
    plan.add_buffer(Source::Fresh(size));
    assert(plan@.buffers =~= old(plan)@.buffers + four_outputs(size));
}

/// Four new buffers of a size.
pub open spec fn four_outputs(size: u64) -> Seq<kernel::SourceView> {
    Seq::new(4, |i: int| kernel::SourceView::Fresh(size))
}

/// The fold of a line evaluation of `2^log_size` values on the device: the coordinates are
/// the caller's buffers 0 to 3, those of the result are buffers 4 to 7.
pub open spec fn fold_line_plan(
    log_size: u32,
    alpha: SecureField,
    itwiddles: Seq<u32>,
) -> kernel::PlanView {
    let output_len = pow2((log_size - 1) as nat) as int;
    kernel::PlanView {
        buffers: four_inputs(0) + four_outputs((4 * output_len) as u64) + seq![
            kernel::SourceView::CachedWords(itwiddles),
            kernel::SourceView::Words(alpha.words()),
        ],
        dispatches: seq![
            kernel::DispatchView {
                kernel: Kernel::FriFoldLineCoords,
                args: kernel::first_buffers(10).push(Arg::U32(log_size)),
                grid: kernel::spec_groups_for(output_len as u64),
            },
        ],
    }
}

/// Plans the fold of a line evaluation.  There is no plan for a short evaluation or for
/// several steps at once, which the processor folds.
pub fn fold_line(len: usize, alpha: SecureField, itwiddles: &[u32], fold_step: u32) -> (r: Option<
    Plan,
>)
    requires
        0 < len <= MAX_EVALUATION_LEN,
    ensures
        ({
            let log_size = utils::floor_log2(len as int);
            &&& r is None <==> log_size < MIN_FRI_LOG_SIZE || fold_step > 1
            &&& r matches Some(plan) ==> plan@.wf() && plan@ == fold_line_plan(
                log_size as u32,
                alpha,
                itwiddles@,
            )
        }),
{
    let log_size: u32 = ilog2(len);
    if log_size < MIN_FRI_LOG_SIZE || fold_step > 1 {
        return None;
    }
    proof {
        lemma_half_size_bound(len as int, log_size);
    }
    let output_len: u64 = pow2_u64(log_size - 1);
    let mut plan = Plan::new();
    add_inputs(&mut plan, 0);
    add_outputs(&mut plan, 4 * output_len);
    plan.add_buffer(Source::CachedWords(slice_to_vec(itwiddles)));
    plan.add_buffer(felt_source(alpha));
    let mut args = buffer_args(10);
    args.push(Arg::U32(log_size));
    plan.dispatch(Kernel::FriFoldLineCoords, args, groups_for(output_len));
    assert(plan@ =~= fold_line_plan(log_size, alpha, itwiddles@));
    Some(plan)
}

/// The fold of a circle evaluation of `2^log_size` values into a line evaluation on the
/// device: the coordinates of the first are the caller's buffers 0 to 3, those of the second
/// are buffers 4 to 7.
pub open spec fn fold_circle_plan(
    log_size: u32,
    alpha: SecureField,
    itwiddles: Seq<u32>,
) -> kernel::PlanView {
    let output_len = pow2((log_size - 1) as nat) as int;
    kernel::PlanView {
        buffers: four_inputs(0) + four_inputs(4) + seq![
            kernel::SourceView::CachedWords(itwiddles),
            kernel::SourceView::Words(alpha.words()),
            kernel::SourceView::Words(
                fields::coords_words(alpha@.times(alpha@).reduced()),
            ),
        ],
        dispatches: seq![
            kernel::DispatchView {
                kernel: Kernel::FriFoldCircleIntoLineCoords,
                args: kernel::first_buffers(11).push(Arg::U32(log_size)),
                grid: kernel::spec_groups_for(output_len as u64),
            },
        ],
    }
}

/// Plans the fold of a circle evaluation into a line evaluation.  There is no plan for a
/// short evaluation, which the processor folds.
pub fn fold_circle_into_line(src_len: usize, alpha: SecureField, itwiddles: &[u32]) -> (r: Option<
    Plan,
>)
    requires
        0 < src_len <= MAX_EVALUATION_LEN,
        alpha.wf(),
    ensures
        ({
            let log_size = utils::floor_log2(src_len as int);
            &&& r is None <==> log_size < MIN_FRI_LOG_SIZE
            &&& r matches Some(plan) ==> plan@.wf() && plan@ == fold_circle_plan(
                log_size as u32,
                alpha,
                itwiddles@,
            )
        }),
{
    let log_size: u32 = ilog2(src_len);
    if log_size < MIN_FRI_LOG_SIZE {
        return None;
    }
    proof {
        lemma_half_size_bound(src_len as int, log_size);
    }
    let alpha_sq = alpha.mul(alpha);
    assert(alpha_sq.words() =~= fields::coords_words(alpha_sq@));
    let output_len: u64 = pow2_u64(log_size - 1);
    let mut plan = Plan::new();
    add_inputs(&mut plan, 0);
    add_inputs(&mut plan, 4);
    plan.add_buffer(Source::CachedWords(slice_to_vec(itwiddles)));
    plan.add_buffer(felt_source(alpha));
    plan.add_buffer(felt_source(alpha_sq));
    let mut args = buffer_args(11);
    args.push(Arg::U32(log_size));
    plan.dispatch(Kernel::FriFoldCircleIntoLineCoords, args, groups_for(output_len));
    assert(plan@ =~= fold_circle_plan(log_size, alpha, itwiddles@));
    Some(plan)
}

/// The launch that packs the coordinates in buffers 0 to 3 into buffer 4.
pub open spec fn pack_dispatch(len: int) -> kernel::DispatchView {
    kernel::DispatchView {
        kernel: Kernel::PackCoordsToQm31,
        args: kernel::first_buffers(5),
        grid: Grid::Items { total: len as u64 },
    }
}

/// The sums over parts of an evaluation, as work for the device on the caller's buffers 0 to
/// 3; the sums are in buffer 5.
pub open spec fn decompose_sum_plan(domain_size: int) -> kernel::PlanView {
    kernel::PlanView {
        buffers: four_inputs(0) + seq![
            kernel::SourceView::Pooled((16 * domain_size) as u64),
            kernel::SourceView::Fresh(8192),
        ],
        dispatches: seq![
            pack_dispatch(domain_size),
            kernel::DispatchView {
                kernel: Kernel::FriDecomposeSum,
                args: seq![
                    kernel::spec_whole(4),
                    kernel::spec_whole(5),
                    Arg::U32((domain_size / 2) as u32),
                    Arg::U32(65536),
                ],
                grid: Grid::Groups { count: NUM_SUM_GROUPS, size: SUM_GROUP_SIZE },
            },
        ],
    }
}

/// Plans the sums over parts of an evaluation.
pub fn plan_decompose_sum(domain_size: usize) -> (r: Plan)
    requires
        domain_size <= MAX_EVALUATION_LEN,
    ensures
        r@.wf(),
        r@ == decompose_sum_plan(domain_size as int),
{
    let half_size: usize = domain_size / 2;
    let mut plan = Plan::new();
    add_inputs(&mut plan, 0);
    let input: usize = plan.add_buffer(Source::Pooled(16 * (domain_size as u64)));
    // Two extension field elements for each group.
    let sums: usize = plan.add_buffer(Source::Fresh(NUM_SUM_GROUPS * 2 * 4 * 4));
    plan.dispatch(
        Kernel::PackCoordsToQm31,
        buffer_args(5),
        Grid::Items { total: domain_size as u64 },
    );
    let args = vec![
        whole(input),
        whole(sums),
        Arg::U32(half_size as u32),
        Arg::U32((NUM_SUM_GROUPS * SUM_GROUP_SIZE) as u32),
    ];
    assert(args@ =~= decompose_sum_plan(domain_size as int).dispatches[1].args);
    plan.dispatch(
        Kernel::FriDecomposeSum,
        args,
        Grid::Groups { count: NUM_SUM_GROUPS, size: SUM_GROUP_SIZE },
    );
    assert(plan@ =~= decompose_sum_plan(domain_size as int));
    plan
}

/// The sum of the elements that the first `k` groups give, each group having two of which
/// `which` is taken.
pub open spec fn group_sum(words: Seq<u32>, which: int, k: nat) -> fields::Coords
    decreases k,
{
    if k == 0 {
        fields::coords_zero()
    } else {
        group_sum(words, which, (k - 1) as nat).plus(
            columns::reduced_felt(words, 8 * (k - 1) + 4 * which),
        ).reduced()
    }
}

/// The difference of the second and the first sum.
pub open spec fn sum_difference(words: Seq<u32>) -> fields::Coords {
    group_sum(words, 1, NUM_SUM_GROUPS as nat).minus(
        group_sum(words, 0, NUM_SUM_GROUPS as nat),
    ).reduced()
}

/// The coefficient that an evaluation is decomposed by: the difference of its sums over
/// twice its size.
pub fn decompose_lambda(partial_sums: &[u32], domain_size: usize) -> (r: SecureField)
    requires
        partial_sums.len() == 2048,
        utils::is_pow2(domain_size as int),
        2 * domain_size <= MAX_EVALUATION_LEN,
    ensures
        r.wf(),
        r@.scaled(2 * domain_size).reduced() == sum_difference(partial_sums@),
{
    let mut a_sum = SecureField::zero();
    let mut b_sum = SecureField::zero();
    for i in 0..(NUM_SUM_GROUPS as usize)
        invariant
            partial_sums.len() == 2048,
            a_sum.wf(),
            b_sum.wf(),
            a_sum@ == group_sum(partial_sums@, 0, i as nat),
            b_sum@ == group_sum(partial_sums@, 1, i as nat),
    {
        a_sum = a_sum.add(felt_from_words(partial_sums, 8 * i));
        b_sum = b_sum.add(felt_from_words(partial_sums, 8 * i + 4));
    }
    let log_size: u32 = ilog2(domain_size);
    proof {
        lemma2_to64();
        lemma_pow2_unfold((log_size + 1) as nat);
        if log_size + 1 > 31 {
            lemma_pow2_strictly_increases(31, (log_size + 1) as nat);
        }
    }
    let inverse = BaseField::inverse_of_pow2(log_size + 1);
    let difference = b_sum.sub(a_sum);
    let lambda = difference.mul_base(inverse);
    proof {
        let n = 2 * domain_size;
        assert(n == pow2((log_size + 1) as nat));
        lemma_scaled_back(difference@, inverse.0 as int, n);
        assert(difference.wf());
    }
    lambda
}

/// Multiplying by a number and then by its inverse gives canonical coordinates back.
proof fn lemma_scaled_back(c: fields::Coords, inverse: int, n: int)
    requires
        fields::modp(inverse * n) == 1,
        0 <= c.c0 < P,
        0 <= c.c1 < P,
        0 <= c.c2 < P,
        0 <= c.c3 < P,
    ensures
        c.scaled(inverse).reduced().scaled(n).reduced() == c,
{
    lemma_scaled_back_one(c.c0, inverse, n);
    lemma_scaled_back_one(c.c1, inverse, n);
    lemma_scaled_back_one(c.c2, inverse, n);
    lemma_scaled_back_one(c.c3, inverse, n);
}

proof fn lemma_scaled_back_one(x: int, inverse: int, n: int)
    requires
        fields::modp(inverse * n) == 1,
        0 <= x < P,
    ensures
        fields::modp(fields::modp(x * inverse) * n) == x,
{
    let p = P as int;
    lemma_mul_mod_noop_left(x * inverse, n, p);
    lemma_mul_is_associative(x, inverse, n);
    lemma_mul_mod_noop_right(x, inverse * n, p);
    assert(x * 1 == x);
    lemma_small_mod(x as nat, P as nat);
}

/// The decomposition of an evaluation, as work for the device on the caller's buffers 0 to
/// 3; the coordinates of the result are in buffers 7 to 10.
pub open spec fn decompose_plan(domain_size: int, lambda: SecureField) -> kernel::PlanView {
    kernel::PlanView {
        buffers: four_inputs(0) + seq![
            kernel::SourceView::Pooled((16 * domain_size) as u64),
            kernel::SourceView::Pooled((16 * domain_size) as u64),
            kernel::SourceView::Words(lambda.words()),
        ] + four_outputs((4 * domain_size) as u64),
        dispatches: seq![
            pack_dispatch(domain_size),
            kernel::DispatchView {
                kernel: Kernel::FriDecompose,
                args: seq![
                    kernel::spec_whole(4),
                    kernel::spec_whole(5),
                    kernel::spec_whole(6),
                    Arg::U32((domain_size / 2) as u32),
                ],
                grid: kernel::spec_groups_for(domain_size as u64),
            },
            kernel::DispatchView {
                kernel: Kernel::UnpackQm31ToCoords,
                args: seq![
                    kernel::spec_whole(5),
                    kernel::spec_whole(7),
                    kernel::spec_whole(8),
                    kernel::spec_whole(9),
                    kernel::spec_whole(10),
                ],
                grid: Grid::Items { total: domain_size as u64 },
            },
        ],
    }
}

/// Plans the decomposition of an evaluation by a coefficient.
pub fn plan_decompose(domain_size: usize, lambda: SecureField) -> (r: Plan)
    requires
        domain_size <= MAX_EVALUATION_LEN,
    ensures
        r@.wf(),
        r@ == decompose_plan(domain_size as int, lambda),
{
    let ghost expected = decompose_plan(domain_size as int, lambda);
    let half_size: usize = domain_size / 2;
    let mut plan = Plan::new();
    add_inputs(&mut plan, 0);
    let input: usize = plan.add_buffer(Source::Pooled(16 * (domain_size as u64)));
    let output: usize = plan.add_buffer(Source::Pooled(16 * (domain_size as u64)));
    let coefficient: usize = plan.add_buffer(felt_source(lambda));
    add_outputs(&mut plan, 4 * (domain_size as u64));
    plan.dispatch(
        Kernel::PackCoordsToQm31,
        buffer_args(5),
        Grid::Items { total: domain_size as u64 },
    );
    let args = vec![whole(input), whole(output), whole(coefficient), Arg::U32(half_size as u32)];
    assert(args@ =~= expected.dispatches[1].args);
    plan.dispatch(Kernel::FriDecompose, args, groups_for(domain_size as u64));
    let unpacked = vec![whole(output), whole(7), whole(8), whole(9), whole(10)];
    assert(unpacked@ =~= expected.dispatches[2].args);
    plan.dispatch(
        Kernel::UnpackQm31ToCoords,
        unpacked,
        Grid::Items { total: domain_size as u64 },
    );
    assert(plan@ =~= expected);
    plan
}

/// Decomposes an evaluation: `sums` has the parts of it summed by the device and gives the
/// words of the sums.  Gives the decomposition as work for the device, and the coefficient.
pub fn decompose<F: FnOnce(Plan) -> Vec<u32>>(domain_size: usize, sums: F) -> (r: (
    Plan,
    SecureField,
))
    requires
        utils::is_pow2(domain_size as int),
        2 * domain_size <= MAX_EVALUATION_LEN,
        forall|plan: Plan|
            plan@ == decompose_sum_plan(domain_size as int) ==> #[trigger] call_requires(
                sums,
                (plan,),
            ),
        forall|plan: Plan, words: Vec<u32>|
            plan@ == decompose_sum_plan(domain_size as int) && #[trigger] call_ensures(
                sums,
                (plan,),
                words,
            ) ==> words.len() == 2048,
    ensures
        r.0@.wf(),
        r.0@ == decompose_plan(domain_size as int, r.1),
        r.1.wf(),
        exists|plan: Plan, words: Vec<u32>|
            {
                &&& plan@ == decompose_sum_plan(domain_size as int)
                &&& #[trigger] call_ensures(sums, (plan,), words)
                &&& r.1@.scaled(2 * domain_size).reduced() == sum_difference(words@)
            },
{
    let sum_plan = plan_decompose_sum(domain_size);
    let ghost given = sum_plan;
    let partial_sums = sums(sum_plan);
    assert(call_ensures(sums, (given,), partial_sums));
    let lambda = decompose_lambda(partial_sums.as_slice(), domain_size);
    let plan = plan_decompose(domain_size, lambda);
    (plan, lambda)
}

/// The threads that sum up an evaluation are numbered below the grid size that they are
/// told.
pub proof fn law_sum_grid_size(domain_size: int)
    ensures
        decompose_sum_plan(domain_size).dispatches[1].args[3] == Arg::U32(
            kernel::launched(decompose_sum_plan(domain_size).dispatches[1].grid) as u32,
        ),
{
    let d = decompose_sum_plan(domain_size).dispatches[1];
    assert(d.grid == Grid::Groups { count: NUM_SUM_GROUPS, size: SUM_GROUP_SIZE });
    assert(NUM_SUM_GROUPS * SUM_GROUP_SIZE == 65536) by (nonlinear_arith);
    assert(d.args[3] == Arg::U32(65536));
}

/// The sign with which the coefficient is added to a value of an evaluation: one for the
/// first half, the other for the second.
pub open spec fn half_sign(sign: int, i: int, half: int) -> int {
    if i < half {
        sign
    } else {
        -sign
    }
}

/// What the launches of a decomposition make of the buffers, where the kernel adds the
/// coefficient to the first half with the given sign, and to the second with the other.
pub open spec fn decompose_effect(sign: int) -> spec_fn(
    kernel::DispatchView,
    Seq<Seq<u32>>,
) -> Seq<Seq<u32>> {
    |d: kernel::DispatchView, mem: Seq<Seq<u32>>|
        match d.kernel {
            Kernel::PackCoordsToQm31 => device_memory::packed(d, mem),
            Kernel::UnpackQm31ToCoords => device_memory::unpacked(d, mem),
            Kernel::FriDecompose => {
                let input = device_memory::bound(mem, d.args[0]);
                let lambda = device_memory::felt_of(device_memory::bound(mem, d.args[2]), 0);
                let half = match d.args[3] {
                    Arg::U32(n) => n as int,
                    _ => 0,
                };
                mem.update(
                    device_memory::slot_of(d.args[1]),
                    device_memory::words_of(
                        input.len() / 4,
                        |i: int|
                            if i < kernel::launched(d.grid) {
                                device_memory::felt_of(input, i).plus(
                                    lambda.scaled(half_sign(sign, i, half)),
                                ).reduced()
                            } else {
                                device_memory::felt_of(input, i)
                            },
                    ),
                )
            },
            _ => mem,
        }
}

/// The parts of a planned decomposition.
proof fn lemma_decompose_plan_parts(domain_size: int, lambda: SecureField)
    requires
        0 <= domain_size <= MAX_EVALUATION_LEN,
    ensures
        ({
            let plan = decompose_plan(domain_size, lambda);
            let ds = plan.dispatches;
            &&& plan.buffers.len() == 11
            &&& forall|c: int|
                0 <= c < 4 ==> #[trigger] plan.buffers[c] == kernel::SourceView::Input(c as usize)
            &&& plan.buffers[6] == kernel::SourceView::Words(lambda.words())
            &&& ds.len() == 3
            &&& ds[0].kernel == Kernel::PackCoordsToQm31
            &&& forall|k: int|
                0 <= k < 5 ==> #[trigger] ds[0].args[k] == kernel::spec_whole(k as usize)
            &&& kernel::launched(ds[0].grid) == domain_size
            &&& ds[1].kernel == Kernel::FriDecompose
            &&& ds[1].args == seq![
                kernel::spec_whole(4),
                kernel::spec_whole(5),
                kernel::spec_whole(6),
                Arg::U32((domain_size / 2) as u32),
            ]
            &&& kernel::launched(ds[1].grid) >= domain_size
            &&& ds[2].kernel == Kernel::UnpackQm31ToCoords
            &&& ds[2].args == seq![
                kernel::spec_whole(5),
                kernel::spec_whole(7),
                kernel::spec_whole(8),
                kernel::spec_whole(9),
                kernel::spec_whole(10),
            ]
            &&& kernel::launched(ds[2].grid) == domain_size
        }),
{
    kernel::law_groups_cover_threads(domain_size as u64);
}

/// The launch of the decomposition kernel leaves each value, moved by the coefficient, in
/// buffer 5.
#[verifier::spinoff_prover]
proof fn lemma_values_moved(
    sign: int,
    d: kernel::DispatchView,
    domain_size: int,
    mem: Seq<Seq<u32>>,
    i: int,
)
    requires
        mem.len() == 11,
        d.kernel == Kernel::FriDecompose,
        d.args == seq![
            kernel::spec_whole(4),
            kernel::spec_whole(5),
            kernel::spec_whole(6),
            Arg::U32((domain_size / 2) as u32),
        ],
        domain_size <= MAX_EVALUATION_LEN,
        kernel::launched(d.grid) >= domain_size,
        mem[4].len() == 4 * domain_size,
        0 <= i < domain_size,
    ensures
        ({
            let out = decompose_effect(sign)(d, mem);
            let moved = device_memory::felt_of(mem[4], i).plus(
                device_memory::felt_of(mem[6], 0).scaled(half_sign(sign, i, domain_size / 2)),
            ).reduced();
            &&& out.len() == mem.len()
            &&& out[5][4 * i] == moved.c0
            &&& out[5][4 * i + 1] == moved.c1
            &&& out[5][4 * i + 2] == moved.c2
            &&& out[5][4 * i + 3] == moved.c3
        }),
{
    let input = mem[4];
    let felt = |k: int|
        if k < kernel::launched(d.grid) {
            device_memory::felt_of(input, k).plus(
                device_memory::felt_of(mem[6], 0).scaled(half_sign(sign, k, domain_size / 2)),
            ).reduced()
        } else {
            device_memory::felt_of(input, k)
        };
    assert(input.len() / 4 == domain_size);
    let out = decompose_effect(sign)(d, mem);
    assert(out[5] =~= device_memory::words_of(domain_size as nat, felt));
    device_memory::lemma_word_of(domain_size as nat, felt, i);
}

/// Performing a planned decomposition adds the coefficient to each value, with one sign in
/// the first half of the evaluation and the other in the second.
#[verifier::spinoff_prover]
pub proof fn law_decompose_adds_coefficient(
    sign: int,
    domain_size: int,
    lambda: SecureField,
    inputs: Seq<Seq<u32>>,
    mem: Seq<Seq<u32>>,
    i: int,
)
    requires
        domain_size <= MAX_EVALUATION_LEN,
        inputs.len() == 4,
        forall|c: int| 0 <= c < 4 ==> (#[trigger] inputs[c]).len() == domain_size,
        device_memory::loaded(decompose_plan(domain_size, lambda).buffers, inputs, mem),
        0 <= i < domain_size,
    ensures
        ({
            let out = device_memory::perform(
                decompose_effect(sign),
                decompose_plan(domain_size, lambda).dispatches,
                mem,
            );
            let value = fields::Coords {
                c0: inputs[0][i] as int,
                c1: inputs[1][i] as int,
                c2: inputs[2][i] as int,
                c3: inputs[3][i] as int,
            };
            let moved = value.plus(
                lambda@.scaled(half_sign(sign, i, domain_size / 2)),
            ).reduced();
            &&& out[7][i] == moved.c0
            &&& out[8][i] == moved.c1
            &&& out[9][i] == moved.c2
            &&& out[10][i] == moved.c3
        }),
{
    let plan = decompose_plan(domain_size, lambda);
    let ds = plan.dispatches;
    let f = decompose_effect(sign);
    lemma_decompose_plan_parts(domain_size, lambda);
    assert forall|c: int| 0 <= c < 4 implies #[trigger] mem[c] == inputs[c] by {
        assert(plan.buffers[c] == kernel::SourceView::Input(c as usize));
    }
    assert(mem[6] == lambda.words());
    assert(device_memory::felt_of(mem[6], 0) == lambda@);
    device_memory::lemma_perform_three(f, ds, mem);
    let m1 = f(ds[0], mem);
    assert(m1 == device_memory::packed(ds[0], mem));
    device_memory::lemma_packed(ds[0], mem, i);
    assert(m1[6] == mem[6]);
    lemma_values_moved(sign, ds[1], domain_size, m1, i);
    let m2 = f(ds[1], m1);
    assert(f(ds[2], m2) == device_memory::unpacked(ds[2], m2));
    device_memory::lemma_unpacked(ds[2], m2, 5, 7, i);
}

/// The element at an index, from the buffers that four arguments from `first` on bind.
pub open spec fn coords_element(
    mem: Seq<Seq<u32>>,
    args: Seq<Arg>,
    first: int,
    i: int,
) -> fields::Coords {
    fields::Coords {
        c0: device_memory::bound(mem, args[first])[i] as int,
        c1: device_memory::bound(mem, args[first + 1])[i] as int,
        c2: device_memory::bound(mem, args[first + 2])[i] as int,
        c3: device_memory::bound(mem, args[first + 3])[i] as int,
    }
}

/// What the launch of a fold makes of the buffers: each element of the result comes from two
/// neighbours, with the twiddle factor of the pair.  `line` takes the two, the factor and
/// `alpha`; `circle` takes first what the result held, then these, and last the square of
/// `alpha`.
pub open spec fn fold_effect(
    line: spec_fn(fields::Coords, fields::Coords, u32, fields::Coords) -> fields::Coords,
    circle: spec_fn(
        fields::Coords,
        fields::Coords,
        fields::Coords,
        u32,
        fields::Coords,
        fields::Coords,
    ) -> fields::Coords,
) -> spec_fn(kernel::DispatchView, Seq<Seq<u32>>) -> Seq<Seq<u32>> {
    |d: kernel::DispatchView, mem: Seq<Seq<u32>>|
        {
            let factors = device_memory::bound(mem, d.args[8]);
            let alpha = device_memory::felt_of(device_memory::bound(mem, d.args[9]), 0);
            match (d.kernel, d.args[10]) {
                (Kernel::FriFoldLineCoords, Arg::U32(log_size)) => device_memory::with_coords(
                    mem,
                    d.args,
                    4,
                    vstd::math::min(
                        pow2((log_size - 1) as nat) as int,
                        kernel::launched(d.grid),
                    ) as nat,
                    |i: int|
                        line(
                            coords_element(mem, d.args, 0, 2 * i),
                            coords_element(mem, d.args, 0, 2 * i + 1),
                            factors[i],
                            alpha,
                        ),
                ),
                (Kernel::FriFoldCircleIntoLineCoords, _) => match d.args[11] {
                    Arg::U32(log_size) => device_memory::with_coords(
                        mem,
                        d.args,
                        4,
                        vstd::math::min(
                            pow2((log_size - 1) as nat) as int,
                            kernel::launched(d.grid),
                        ) as nat,
                        |i: int|
                            circle(
                                coords_element(mem, d.args, 4, i),
                                coords_element(mem, d.args, 0, 2 * i),
                                coords_element(mem, d.args, 0, 2 * i + 1),
                                factors[i],
                                alpha,
                                device_memory::felt_of(
                                    device_memory::bound(mem, d.args[10]),
                                    0,
                                ),
                            ),
                    ),
                    _ => mem,
                },
                _ => mem,
            }
        }
}

/// The element at an index of four columns of coordinates.
pub open spec fn element_at(coords: Seq<Seq<u32>>, first: int, i: int) -> fields::Coords {
    fields::Coords {
        c0: coords[first][i] as int,
        c1: coords[first + 1][i] as int,
        c2: coords[first + 2][i] as int,
        c3: coords[first + 3][i] as int,
    }
}

/// Performing the plan of a line fold folds pairs: element `i` of the result comes from the
/// elements `2 i` and `2 i + 1`, twiddle factor `i` and `alpha`, and the evaluation is not
/// changed.
pub proof fn law_line_fold_folds_pairs(
    line: spec_fn(fields::Coords, fields::Coords, u32, fields::Coords) -> fields::Coords,
    circle: spec_fn(
        fields::Coords,
        fields::Coords,
        fields::Coords,
        u32,
        fields::Coords,
        fields::Coords,
    ) -> fields::Coords,
    log_size: u32,
    alpha: SecureField,
    itwiddles: Seq<u32>,
    coords: Seq<Seq<u32>>,
    mem: Seq<Seq<u32>>,
    i: int,
)
    requires
        1 <= log_size <= 31,
        coords.len() == 4,
        device_memory::loaded(fold_line_plan(log_size, alpha, itwiddles).buffers, coords, mem),
        0 <= i < pow2((log_size - 1) as nat),
    ensures
        ({
            let out = device_memory::perform(
                fold_effect(line, circle),
                fold_line_plan(log_size, alpha, itwiddles).dispatches,
                mem,
            );
            &&& device_memory::coords_at(
                out,
                4,
                i,
                line(
                    element_at(coords, 0, 2 * i),
                    element_at(coords, 0, 2 * i + 1),
                    itwiddles[i],
                    alpha@,
                ),
            )
            &&& out[4].len() == pow2((log_size - 1) as nat)
            &&& forall|s: int| 0 <= s < 4 ==> #[trigger] out[s] == coords[s]
        }),
{
    let plan = fold_line_plan(log_size, alpha, itwiddles);
    let d = plan.dispatches[0];
    lemma2_to64();
    lemma_pow2_strictly_increases((log_size - 1) as nat, 31);
    kernel::law_groups_cover_threads(pow2((log_size - 1) as nat) as u64);
    device_memory::lemma_perform_one(fold_effect(line, circle), plan.dispatches, mem);
    assert forall|s: int| 0 <= s < 10 implies #[trigger] d.args[s] == kernel::spec_whole(
        s as usize,
    ) by {}
    assert(d.args[10] == Arg::U32(log_size));
    assert forall|s: int| 0 <= s < 4 implies #[trigger] mem[s] == coords[s] by {
        assert(plan.buffers[s] == kernel::SourceView::Input(s as usize));
    }
    assert(plan.buffers[8] == kernel::SourceView::CachedWords(itwiddles));
    assert(plan.buffers[9] == kernel::SourceView::Words(alpha.words()));
    assert(mem[8] == itwiddles);
    assert(mem[9] == alpha.words());
    assert(device_memory::felt_of(mem[9], 0) == alpha@);
}

/// Performing the plan of a circle fold folds pairs into what is there: element `i` of the
/// line evaluation comes from what it was, the elements `2 i` and `2 i + 1` of the circle
/// evaluation, twiddle factor `i`, `alpha` and its square.  The circle evaluation is not
/// changed.
pub proof fn law_circle_fold_folds_pairs(
    line: spec_fn(fields::Coords, fields::Coords, u32, fields::Coords) -> fields::Coords,
    circle: spec_fn(
        fields::Coords,
        fields::Coords,
        fields::Coords,
        u32,
        fields::Coords,
        fields::Coords,
    ) -> fields::Coords,
    log_size: u32,
    alpha: SecureField,
    itwiddles: Seq<u32>,
    coords: Seq<Seq<u32>>,
    mem: Seq<Seq<u32>>,
    i: int,
)
    requires
        1 <= log_size <= 31,
        coords.len() == 8,
        device_memory::loaded(fold_circle_plan(log_size, alpha, itwiddles).buffers, coords, mem),
        0 <= i < pow2((log_size - 1) as nat),
    ensures
        ({
            let out = device_memory::perform(
                fold_effect(line, circle),
                fold_circle_plan(log_size, alpha, itwiddles).dispatches,
                mem,
            );
            &&& device_memory::coords_at(
                out,
                4,
                i,
                circle(
                    element_at(coords, 4, i),
                    element_at(coords, 0, 2 * i),
                    element_at(coords, 0, 2 * i + 1),
                    itwiddles[i],
                    alpha@,
                    alpha@.times(alpha@).reduced(),
                ),
            )
            &&& out[4].len() == pow2((log_size - 1) as nat)
            &&& forall|s: int| 0 <= s < 4 ==> #[trigger] out[s] == coords[s]
        }),
{
    let plan = fold_circle_plan(log_size, alpha, itwiddles);
    let d = plan.dispatches[0];
    let square = alpha@.times(alpha@).reduced();
    lemma2_to64();
    lemma_pow2_strictly_increases((log_size - 1) as nat, 31);
    kernel::law_groups_cover_threads(pow2((log_size - 1) as nat) as u64);
    device_memory::lemma_perform_one(fold_effect(line, circle), plan.dispatches, mem);
    assert forall|s: int| 0 <= s < 11 implies #[trigger] d.args[s] == kernel::spec_whole(
        s as usize,
    ) by {}
    assert(d.args[11] == Arg::U32(log_size));
    assert forall|s: int| 0 <= s < 8 implies #[trigger] mem[s] == coords[s] by {
        assert(plan.buffers[s] == kernel::SourceView::Input(s as usize));
    }
    assert(plan.buffers[8] == kernel::SourceView::CachedWords(itwiddles));
    assert(plan.buffers[9] == kernel::SourceView::Words(alpha.words()));
    assert(plan.buffers[10] == kernel::SourceView::Words(fields::coords_words(square)));
    assert(mem[8] == itwiddles);
    assert(mem[9] == alpha.words());
    assert(mem[10] == fields::coords_words(square));
    assert(device_memory::felt_of(mem[9], 0) == alpha@);
    assert(device_memory::felt_of(mem[10], 0) == square);
}

/// The sum of the values from one index to another that belong to a group.
pub open spec fn part_sum(
    values: spec_fn(int) -> fields::Coords,
    group: spec_fn(int) -> int,
    g: int,
    from: int,
    to: int,
) -> fields::Coords
    decreases to - from,
{
    if to <= from {
        fields::coords_zero()
    } else {
        let before = part_sum(values, group, g, from, to - 1);
        if group(to - 1) == g {
            before.plus(values(to - 1))
        } else {
            before
        }
    }
}

/// The sum of the values from one index to another.
pub open spec fn range_sum(
    values: spec_fn(int) -> fields::Coords,
    from: int,
    to: int,
) -> fields::Coords
    decreases to - from,
{
    if to <= from {
        fields::coords_zero()
    } else {
        range_sum(values, from, to - 1).plus(values(to - 1))
    }
}

/// The sum of the parts of the first `k` groups.
spec fn parts_sum(
    values: spec_fn(int) -> fields::Coords,
    group: spec_fn(int) -> int,
    from: int,
    to: int,
    k: nat,
) -> fields::Coords
    decreases k,
{
    if k == 0 {
        fields::coords_zero()
    } else {
        parts_sum(values, group, from, to, (k - 1) as nat).plus(
            part_sum(values, group, k - 1, from, to),
        )
    }
}

/// One more value adds to the part of its own group alone.
proof fn lemma_parts_gain(
    values: spec_fn(int) -> fields::Coords,
    group: spec_fn(int) -> int,
    from: int,
    to: int,
    k: nat,
)
    requires
        from < to,
        0 <= group(to - 1),
    ensures
        parts_sum(values, group, from, to, k) == if group(to - 1) < k {
            parts_sum(values, group, from, to - 1, k).plus(values(to - 1))
        } else {
            parts_sum(values, group, from, to - 1, k)
        },
    decreases k,
{
    if k > 0 {
        lemma_parts_gain(values, group, from, to, (k - 1) as nat);
    }
}

proof fn lemma_no_parts(
    values: spec_fn(int) -> fields::Coords,
    group: spec_fn(int) -> int,
    from: int,
    to: int,
    k: nat,
)
    requires
        to <= from,
    ensures
        parts_sum(values, group, from, to, k) == fields::coords_zero(),
    decreases k,
{
    if k > 0 {
        lemma_no_parts(values, group, from, to, (k - 1) as nat);
    }
}

/// The parts of all groups add up to the whole.
proof fn lemma_parts_are_the_whole(
    values: spec_fn(int) -> fields::Coords,
    group: spec_fn(int) -> int,
    from: int,
    to: int,
    k: nat,
)
    requires
        forall|i: int| from <= i < to ==> 0 <= #[trigger] group(i) < k,
    ensures
        parts_sum(values, group, from, to, k) == range_sum(values, from, to),
    decreases to - from,
{
    if to <= from {
        lemma_no_parts(values, group, from, to, k);
    } else {
        assert(0 <= group(to - 1) < k);
        lemma_parts_gain(values, group, from, to, k);
        lemma_parts_are_the_whole(values, group, from, to - 1, k);
    }
}

/// The sum over groups is the sum of what the groups give.
proof fn lemma_group_sum_of_parts(
    words: Seq<u32>,
    which: int,
    values: spec_fn(int) -> fields::Coords,
    group: spec_fn(int) -> int,
    from: int,
    to: int,
    k: nat,
)
    requires
        forall|g: int|
            0 <= g < k ==> columns::reduced_felt(words, 8 * g + 4 * which)
                == #[trigger] part_sum(values, group, g, from, to).reduced(),
    ensures
        group_sum(words, which, k) == parts_sum(values, group, from, to, k).reduced(),
    decreases k,
{
    if k > 0 {
        lemma_group_sum_of_parts(words, which, values, group, from, to, (k - 1) as nat);
        let part = part_sum(values, group, k - 1, from, to);
        assert(columns::reduced_felt(words, 8 * (k - 1) + 4 * which) == part.reduced());
        fields::lemma_reduced_terms(
            parts_sum(values, group, from, to, (k - 1) as nat),
            part,
        );
    }
}

/// Groups that share an evaluation among them, each giving the sums of its values in the two
/// halves, give the difference of the sums over the halves, whichever group has which value.
pub proof fn law_groups_give_half_difference(
    words: Seq<u32>,
    values: spec_fn(int) -> fields::Coords,
    group: spec_fn(int) -> int,
    half: int,
)
    requires
        half >= 0,
        forall|i: int| 0 <= i < 2 * half ==> 0 <= #[trigger] group(i) < NUM_SUM_GROUPS,
        forall|g: int|
            0 <= g < NUM_SUM_GROUPS ==> columns::reduced_felt(words, 8 * g)
                == #[trigger] part_sum(values, group, g, 0, half).reduced(),
        forall|g: int|
            0 <= g < NUM_SUM_GROUPS ==> columns::reduced_felt(words, 8 * g + 4)
                == #[trigger] part_sum(values, group, g, half, 2 * half).reduced(),
    ensures
        sum_difference(words) == range_sum(values, half, 2 * half).minus(
            range_sum(values, 0, half),
        ).reduced(),
{
    let n = NUM_SUM_GROUPS as nat;
    assert forall|g: int| 0 <= g < n implies columns::reduced_felt(words, 8 * g + 4 * 0)
        == #[trigger] part_sum(values, group, g, 0, half).reduced() by {}
    lemma_group_sum_of_parts(words, 0, values, group, 0, half, n);
    assert forall|g: int| 0 <= g < n implies columns::reduced_felt(words, 8 * g + 4 * 1)
        == #[trigger] part_sum(values, group, g, half, 2 * half).reduced() by {}
    lemma_group_sum_of_parts(words, 1, values, group, half, 2 * half, n);
    lemma_parts_are_the_whole(values, group, 0, half, n);
    lemma_parts_are_the_whole(values, group, half, 2 * half, n);
    fields::lemma_reduced_terms(
        range_sum(values, half, 2 * half),
        range_sum(values, 0, half),
    );
}

/// What the launches of the sums make of the buffers.  `group` gives the group that sums up
/// the value at an index, from the index and the number of threads.
pub open spec fn decompose_sum_effect(group: spec_fn(int, int) -> int) -> spec_fn(
    kernel::DispatchView,
    Seq<Seq<u32>>,
) -> Seq<Seq<u32>> {
    |d: kernel::DispatchView, mem: Seq<Seq<u32>>|
        match (d.kernel, d.args[2], d.args[3], d.grid) {
            (Kernel::PackCoordsToQm31, _, _, _) => device_memory::packed(d, mem),
            (
                Kernel::FriDecomposeSum,
                Arg::U32(half),
                Arg::U32(threads),
                Grid::Groups { count, .. },
            ) => {
                let input = device_memory::bound(mem, d.args[0]);
                let values = |i: int| device_memory::felt_of(input, i);
                let of_index = |i: int| group(i, threads as int);
                mem.update(
                    device_memory::slot_of(d.args[1]),
                    device_memory::words_of(
                        (2 * count) as nat,
                        |k: int|
                            part_sum(
                                values,
                                of_index,
                                k / 2,
                                (k % 2) * half,
                                (k % 2) * half + half,
                            ).reduced(),
                    ),
                )
            },
            _ => mem,
        }
}

/// Sums over values that agree agree.
proof fn lemma_range_sum_of_same(
    a: spec_fn(int) -> fields::Coords,
    b: spec_fn(int) -> fields::Coords,
    from: int,
    to: int,
)
    requires
        forall|i: int| from <= i < to ==> #[trigger] a(i) == b(i),
    ensures
        range_sum(a, from, to) == range_sum(b, from, to),
    decreases to - from,
{
    if from < to {
        lemma_range_sum_of_same(a, b, from, to - 1);
        assert(a(to - 1) == b(to - 1));
    }
}

/// An element among the words of canonical elements.
proof fn lemma_reduced_felt_of(n: nat, felt: spec_fn(int) -> fields::Coords, k: int)
    requires
        0 <= k < n,
        felt(k) == felt(k).reduced(),
    ensures
        columns::reduced_felt(device_memory::words_of(n, felt), 4 * k) == felt(k),
{
    device_memory::lemma_word_of(n, felt, k);
    let c = felt(k);
    assert(c.c0 == fields::modp(c.c0) && c.c1 == fields::modp(c.c1));
    assert(c.c2 == fields::modp(c.c2) && c.c3 == fields::modp(c.c3));
}

/// Performing the plan of the sums and taking the difference of what the groups give is the
/// difference of the sums over the halves of the evaluation.
#[verifier::spinoff_prover]
pub proof fn law_sums_give_half_difference(
    group: spec_fn(int, int) -> int,
    domain_size: int,
    inputs: Seq<Seq<u32>>,
    mem: Seq<Seq<u32>>,
)
    requires
        0 <= domain_size <= MAX_EVALUATION_LEN,
        domain_size % 2 == 0,
        forall|i: int, threads: int|
            0 <= i < domain_size && threads == NUM_SUM_GROUPS * SUM_GROUP_SIZE ==> 0
                <= #[trigger] group(i, threads) < NUM_SUM_GROUPS,
        inputs.len() == 4,
        device_memory::loaded(decompose_sum_plan(domain_size).buffers, inputs, mem),
    ensures
        ({
            let out = device_memory::perform(
                decompose_sum_effect(group),
                decompose_sum_plan(domain_size).dispatches,
                mem,
            );
            let values = |i: int| element_at(inputs, 0, i);
            &&& out[5].len() == 2048
            &&& sum_difference(out[5]) == range_sum(
                values,
                domain_size / 2,
                domain_size,
            ).minus(range_sum(values, 0, domain_size / 2)).reduced()
        }),
{
    let plan = decompose_sum_plan(domain_size);
    let ds = plan.dispatches;
    let f = decompose_sum_effect(group);
    let half = domain_size / 2;
    let values = |i: int| element_at(inputs, 0, i);
    device_memory::lemma_perform_two(f, ds, mem);
    assert(ds[0] == pack_dispatch(domain_size));
    let m1 = f(ds[0], mem);
    assert(m1 == device_memory::packed(ds[0], mem));
    assert forall|c: int| 0 <= c < 4 implies #[trigger] mem[c] == inputs[c] by {
        assert(plan.buffers[c] == kernel::SourceView::Input(c as usize));
    }
    let packed = m1[4];
    let found = |i: int| device_memory::felt_of(packed, i);
    assert forall|i: int| 0 <= i < domain_size implies #[trigger] found(i) == values(i) by {
        device_memory::lemma_packed(ds[0], mem, i);
    }
    let threads = NUM_SUM_GROUPS * SUM_GROUP_SIZE;
    assert(threads == 65536) by (nonlinear_arith)
        requires
            threads == 256 * 256,
    ;
    let of_index = |i: int| group(i, threads);
    let felt = |k: int|
        part_sum(found, of_index, k / 2, (k % 2) * half, (k % 2) * half + half).reduced();
    let out = f(ds[1], m1);
    let d = ds[1];
    assert(d.args[0] == kernel::spec_whole(4));
    assert(d.args[1] == kernel::spec_whole(5));
    assert(d.args[2] == Arg::U32(half as u32));
    assert(d.args[3] == Arg::U32(65536));
    assert(m1.len() == 6);
    assert(out[5] == device_memory::words_of(512, felt));
    assert forall|g: int| 0 <= g < NUM_SUM_GROUPS implies columns::reduced_felt(out[5], 8 * g)
        == #[trigger] part_sum(found, of_index, g, 0, half).reduced() by {
        let k = 2 * g;
        assert(k / 2 == g && k % 2 == 0);
        assert(0 * half == 0);
        assert(felt(k) == part_sum(found, of_index, g, 0, half).reduced());
        fields::lemma_reduced_terms(
            part_sum(found, of_index, g, 0, half),
            fields::coords_zero(),
        );
        lemma_reduced_felt_of(512, felt, k);
        assert(4 * k == 8 * g);
    }
    assert forall|g: int| 0 <= g < NUM_SUM_GROUPS implies columns::reduced_felt(
        out[5],
        8 * g + 4,
    ) == #[trigger] part_sum(found, of_index, g, half, 2 * half).reduced() by {
        let k = 2 * g + 1;
        assert(k / 2 == g && k % 2 == 1);
        assert(1 * half == half && half + half == 2 * half);
        assert(felt(k) == part_sum(found, of_index, g, half, 2 * half).reduced());
        fields::lemma_reduced_terms(
            part_sum(found, of_index, g, half, 2 * half),
            fields::coords_zero(),
        );
        lemma_reduced_felt_of(512, felt, k);
        assert(4 * k == 8 * g + 4);
    }
    assert forall|i: int| 0 <= i < 2 * half implies 0 <= #[trigger] of_index(i)
        < NUM_SUM_GROUPS by {
        assert(0 <= group(i, threads) < NUM_SUM_GROUPS);
    }
    law_groups_give_half_difference(out[5], found, of_index, half);
    lemma_range_sum_of_same(found, values, 0, half);
    lemma_range_sum_of_same(found, values, half, domain_size);
}

/// The results of folds and decompositions fit the buffers that are made for them: half as
/// many values as are folded, two sums of four words for each group, and as many values as
/// are decomposed.
pub proof fn law_fri_results_fit(
    log_size: u32,
    alpha: SecureField,
    itwiddles: Seq<u32>,
    domain_size: int,
    lambda: SecureField,
    c: int,
)
    requires
        0 <= c < 4,
    ensures
        fold_line_plan(log_size, alpha, itwiddles).buffers[4 + c] == kernel::SourceView::Fresh(
            (4 * pow2((log_size - 1) as nat)) as u64,
        ),
        decompose_sum_plan(domain_size).buffers[4] == kernel::SourceView::Pooled(
            (16 * domain_size) as u64,
        ),
        decompose_sum_plan(domain_size).buffers[5] == kernel::SourceView::Fresh(
            (NUM_SUM_GROUPS * 2 * 16) as u64,
        ),
        decompose_plan(domain_size, lambda).buffers[4] == kernel::SourceView::Pooled(
            (16 * domain_size) as u64,
        ),
        decompose_plan(domain_size, lambda).buffers[5] == kernel::SourceView::Pooled(
            (16 * domain_size) as u64,
        ),
        decompose_plan(domain_size, lambda).buffers[7 + c] == kernel::SourceView::Fresh(
            (4 * domain_size) as u64,
        ),
{
}

} // verus!
