//! Evaluation of constraint programs on the device.

use crate::byte_order;
use crate::bytecode;
use crate::bytecode_generator;
use crate::columns;
use crate::columns::{felts_to_words, push_felt};
use crate::device_memory;
use crate::fields;
use crate::fields::{BaseField, SecureField};
use crate::kernel;
use crate::kernel::{buffer_args, threads_for, whole, Arg, Grid, Kernel, Plan, Source};
use crate::packing;
use crate::twiddle_manager::hash_len;
use crate::utils;
use crate::utils::{bit_reverse, pow2_usize};
use crate::vm;
use std::collections::hash_map::DefaultHasher;
use std::hash::Hasher;
use vstd::arithmetic::div_mod::*;
use vstd::arithmetic::mul::*;
use vstd::arithmetic::power2::*;
use vstd::prelude::*;
use vstd::slice::slice_to_vec;
use vstd::std_specs::hash::*;

verus! {

/// The trace in the layout of the constraint kernel, as it was last computed.
pub struct ReshapedTraceCache<B> {
    /// Hash of the trace and size of the evaluation domain.
    pub key: Option<(u64, usize)>,
    pub trace_buffer: Option<B>,
    pub column_offsets: Vec<u32>,
}

impl<B: Clone> ReshapedTraceCache<B> {
    /// The cache holds the trace with this hash, for a domain of this size.
    pub open spec fn holds(self, trace_hash: u64, eval_domain_size: usize) -> bool {
        self.key == Some((trace_hash, eval_domain_size)) && self.trace_buffer is Some
    }

    /// A trace comes with its column offsets, of which there is at least one.
    pub open spec fn wf(self) -> bool {
        self.trace_buffer is Some ==> self.column_offsets.len() > 0
    }

    /// An empty cache.
    pub fn new() -> (r: ReshapedTraceCache<B>)
        ensures
            r.wf(),
            r.key is None,
            r.trace_buffer is None,
            r.column_offsets@ == Seq::<u32>::empty(),
    {
        ReshapedTraceCache { key: None, trace_buffer: None, column_offsets: Vec::new() }
    }

    /// Whether the cache holds the trace with this hash, for a domain of this size.
    pub fn is_valid(&self, trace_hash: u64, eval_domain_size: usize) -> (r: bool)
        ensures
            r == self.holds(trace_hash, eval_domain_size),
    {
        match self.key {
            Some((hash, size)) => hash == trace_hash && size == eval_domain_size
                && self.trace_buffer.is_some(),
            None => false,
        }
    }

    /// Replaces what the cache holds.
    pub fn store(
        &mut self,
        trace_hash: u64,
        eval_domain_size: usize,
        trace_buffer: B,
        column_offsets: Vec<u32>,
    )
        ensures
            column_offsets.len() > 0 ==> final(self).wf(),
            final(self).key == Some((trace_hash, eval_domain_size)),
            final(self).trace_buffer == Some(trace_buffer),
            final(self).column_offsets@ == column_offsets@,
    {
        self.key = Some((trace_hash, eval_domain_size));
        self.trace_buffer = Some(trace_buffer);
        self.column_offsets = column_offsets;
    }

    /// A copy of what the cache holds.
    pub fn get(&self) -> (r: (B, Vec<u32>))
        requires
            self.trace_buffer is Some,
        ensures
            cloned(self.trace_buffer->0, r.0),
            r.1@ == self.column_offsets@,
    {
        let offsets = self.column_offsets.clone();
        assert(offsets@ =~= self.column_offsets@);
        (self.trace_buffer.as_ref().unwrap().clone(), offsets)
    }

    /// Empties the cache.
    pub fn clear(&mut self)
        ensures
            final(self).wf(),
            final(self).key is None,
            final(self).trace_buffer is None,
            final(self).column_offsets@ == Seq::<u32>::empty(),
    {
        self.key = None;
        self.trace_buffer = None;
        self.column_offsets.clear();
    }
}

/// Empties the cache of reshaped traces.
pub fn clear_trace_cache<B: Clone>(cache: &mut ReshapedTraceCache<B>)
    ensures
        final(cache).wf(),
        final(cache).key is None,
        final(cache).trace_buffer is None,
        final(cache).column_offsets@ == Seq::<u32>::empty(),
{
    cache.clear();
}

/// Addresses of the columns of each tree of a trace.
pub open spec fn tree_views(trace: Seq<Vec<usize>>) -> Seq<Seq<usize>> {
    trace.map_values(|t: Vec<usize>| t@)
}

/// What is hashed of a tree: the number of its columns, then their addresses.
pub open spec fn tree_stream(tree: Seq<usize>) -> Seq<Seq<u8>> {
    seq![byte_order::le64(tree.len() as u64)] + tree.map_values(
        |a: usize| byte_order::le64(a as u64),
    )
}

/// What is hashed of the first `k` trees, after their number.
pub open spec fn trace_stream(trace: Seq<Seq<usize>>, k: nat) -> Seq<Seq<u8>>
    decreases k,
{
    if k == 0 {
        seq![byte_order::le64(trace.len() as u64)]
    } else {
        trace_stream(trace, (k - 1) as nat) + tree_stream(trace[k - 1])
    }
}

/// The hash of a trace, from where its columns are in memory.
pub open spec fn trace_hash(trace: Seq<Seq<usize>>) -> u64 {
    DefaultHasher::spec_finish(trace_stream(trace, trace.len()))
}

/// The hash of a trace, from where its columns are in memory.
pub fn hash_trace(trace: &[Vec<usize>]) -> (r: u64)
    ensures
        r == trace_hash(tree_views(trace@)),
{
    let ghost trees = tree_views(trace@);
    let mut hasher = DefaultHasher::new();
    hash_len(&mut hasher, trace.len());
    assert(hasher@ =~= trace_stream(trees, 0));
    for k in 0..trace.len()
        invariant
            trees == tree_views(trace@),
            hasher@ == trace_stream(trees, k as nat),
    {
        let tree: &Vec<usize> = &trace[k];
        let ghost before = hasher@;
        hash_len(&mut hasher, tree.len());
        assert(tree_stream(tree@).take(1) =~= seq![byte_order::le64(tree@.len() as u64)]);
        for i in 0..tree.len()
            invariant
                hasher@ == before + tree_stream(tree@).take(i + 1),
        {
            hash_len(&mut hasher, tree[i]);
            assert(hasher@ =~= before + tree_stream(tree@).take(i + 2));
        }
        proof {
            assert(trees[k as int] == tree@);
            assert(tree_stream(tree@).take(tree@.len() as int + 1) =~= tree_stream(tree@));
        }
    }
    hasher.finish()
}

/// Number of columns in the first `k` trees.
pub open spec fn columns_before(trace: Seq<Seq<usize>>, k: int) -> int
    decreases k,
{
    if k <= 0 {
        0
    } else {
        columns_before(trace, k - 1) + trace[k - 1].len()
    }
}

/// The number of the first column of each tree, and the number of all columns.
pub open spec fn column_offsets(trace: Seq<Seq<usize>>) -> Seq<u32> {
    Seq::new(trace.len() + 1, |k: int| columns_before(trace, k) as u32)
}

/// Number of columns of a trace.
pub open spec fn total_columns(trace: Seq<Seq<usize>>) -> int {
    columns_before(trace, trace.len() as int)
}

/// The first `k` launches that reshape a trace: the result is in buffer 0, column `i` of the
/// trace, the caller's buffer of that number, in buffer `i + 1`.
pub open spec fn reshape_plan_upto(total: int, eval_domain_size: int, k: nat) -> kernel::PlanView {
    kernel::PlanView {
        buffers: seq![
            kernel::SourceView::Fresh((total * eval_domain_size * 4) as u64),
        ] + Seq::new(k, |i: int| kernel::SourceView::Input(i as usize)),
        dispatches: Seq::new(
            k,
            |i: int|
                kernel::DispatchView {
                    kernel: Kernel::TraceReshapeColumn,
                    args: seq![
                        kernel::spec_whole((i + 1) as usize),
                        kernel::spec_whole(0),
                        Arg::U32(i as u32),
                        Arg::U32(eval_domain_size as u32),
                    ],
                    grid: kernel::spec_threads_for(eval_domain_size as u64),
                },
        ),
    }
}

/// The work that reshapes a trace.
pub open spec fn reshape_plan(trace: Seq<Seq<usize>>, eval_domain_size: int) -> kernel::PlanView {
    let total = total_columns(trace);
    reshape_plan_upto(total, eval_domain_size, total as nat)
}

proof fn lemma_columns_before_monotone(trace: Seq<Seq<usize>>, a: int, b: int)
    requires
        0 <= a <= b,
    ensures
        0 <= columns_before(trace, a) <= columns_before(trace, b),
    decreases b,
{
    if a < b {
        lemma_columns_before_monotone(trace, a, b - 1);
    } else if b > 0 {
        lemma_columns_before_monotone(trace, a - 1, b - 1);
    }
}

/// The trace is small enough for the device's 32-bit column numbers and buffer sizes.
pub open spec fn trace_fits(trace: Seq<Seq<usize>>, eval_domain_size: int) -> bool {
    &&& total_columns(trace) <= u32::MAX
    &&& total_columns(trace) * eval_domain_size * 4 <= u64::MAX
}

/// The number of the first column of each tree, and the number of all columns.
fn offsets_of(trace: &[Vec<usize>]) -> (r: Vec<u32>)
    requires
        total_columns(tree_views(trace@)) <= u32::MAX,
    ensures
        r@ == column_offsets(tree_views(trace@)),
{
    let ghost trees = tree_views(trace@);
    let mut total_cols: usize = 0;
    let mut offsets: Vec<u32> = vec![0];
    assert(offsets@ =~= column_offsets(trees).take(1));
    for k in 0..trace.len()
        invariant
            trees == tree_views(trace@),
            total_columns(trees) <= u32::MAX,
            total_cols == columns_before(trees, k as int),
            offsets@ == column_offsets(trees).take(k + 1),
    {
        proof {
            assert(trees[k as int] == trace@[k as int]@);
            lemma_columns_before_monotone(trees, k + 1, trees.len() as int);
        }
        total_cols = total_cols + trace[k].len();
        offsets.push(total_cols as u32);
        assert(offsets@ =~= column_offsets(trees).take(k + 2));
    }
    assert(offsets@ =~= column_offsets(trees));
    offsets
}

/// Plans the reshaping of a trace.
pub fn plan_reshape(trace: &[Vec<usize>], eval_domain_size: usize) -> (r: (Plan, Vec<u32>))
    requires
        trace_fits(tree_views(trace@), eval_domain_size as int),
    ensures
        r.0@.wf(),
        r.0@ == reshape_plan(tree_views(trace@), eval_domain_size as int),
        r.1@ == column_offsets(tree_views(trace@)),
{
    let ghost trees = tree_views(trace@);
    let offsets = offsets_of(trace);
    let total: usize = offsets[offsets.len() - 1] as usize;
    proof {
        lemma_columns_before_monotone(trees, 0, trees.len() as int);
        assert(total == total_columns(trees));
        assert(0 <= total * eval_domain_size <= total * eval_domain_size * 4) by (nonlinear_arith);
    }
    let size: u64 = eval_domain_size as u64;
    let mut plan = Plan::new();
    let output: usize = plan.add_buffer(Source::Fresh((total as u64) * size * 4));
    assert(plan@ =~= reshape_plan_upto(total as int, eval_domain_size as int, 0));
    for i in 0..total
        invariant
            total <= u32::MAX,
            output == 0,
            size == eval_domain_size,
            plan@.wf(),
            plan@ == reshape_plan_upto(total as int, eval_domain_size as int, i as nat),
    {
        let column: usize = plan.add_buffer(Source::Input(i));
        let args = vec![
            whole(column),
            whole(output),
            Arg::U32(i as u32),
            Arg::U32(eval_domain_size as u32),
        ];
        let ghost expected = reshape_plan_upto(
            total as int,
            eval_domain_size as int,
            (i + 1) as nat,
        );
        assert(args@ =~= expected.dispatches[i as int].args);
        plan.dispatch(Kernel::TraceReshapeColumn, args, threads_for(size));
        assert(plan@ =~= expected);
    }
    (plan, offsets)
}

/// A runner can be given the plan that reshapes a trace.
pub open spec fn takes_reshape<B, F: FnOnce(Plan) -> B>(
    run: F,
    trees: Seq<Seq<usize>>,
    eval_domain_size: int,
) -> bool {
    forall|plan: Plan|
        plan@ == reshape_plan(trees, eval_domain_size) ==> #[trigger] call_requires(run, (plan,))
}

/// The reshaped trace and its column offsets: those in the cache where it holds them, else
/// computed by the device and cached.  `trace` has the address of each column; `run`
/// performs a plan and gives the buffer with the result.
pub fn reshape_trace_columns_gpu<B: Clone, F: FnOnce(Plan) -> B>(
    cache: &mut ReshapedTraceCache<B>,
    trace: &[Vec<usize>],
    eval_domain_size: usize,
    run: F,
) -> (r: (B, Vec<u32>))
    requires
        trace_fits(tree_views(trace@), eval_domain_size as int),
        !old(cache).holds(trace_hash(tree_views(trace@)), eval_domain_size) ==> takes_reshape(
            run,
            tree_views(trace@),
            eval_domain_size as int,
        ),
    ensures
        ({
            let trees = tree_views(trace@);
            let hash = trace_hash(trees);
            &&& final(cache).holds(hash, eval_domain_size)
            &&& old(cache).wf() ==> final(cache).wf()
            &&& if old(cache).holds(hash, eval_domain_size) {
                &&& *final(cache) == *old(cache)
                &&& cloned(old(cache).trace_buffer->0, r.0)
                &&& r.1@ == old(cache).column_offsets@
            } else {
                &&& exists|plan: Plan|
                    plan@ == reshape_plan(trees, eval_domain_size as int)
                        && #[trigger] call_ensures(run, (plan,), r.0)
                &&& cloned(r.0, final(cache).trace_buffer->0)
                &&& r.1@ == column_offsets(trees)
                &&& final(cache).column_offsets@ == r.1@
            }
        }),
{
    let hash: u64 = hash_trace(trace);
    if cache.is_valid(hash, eval_domain_size) {
        return cache.get();
    }
    let (plan, offsets) = plan_reshape(trace, eval_domain_size);
    let ghost given = plan;
    let output = run(plan);
    let kept = offsets.clone();
    assert(kept@ =~= offsets@);
    cache.store(hash, eval_domain_size, output.clone(), kept);
    let r = (output, offsets);
    assert(call_ensures(run, (given,), r.0));
    r
}

/// The inverse of the denominator of each row, as words of extension field elements: the
/// inverses of the cosets in bit-reversed order, each for `2^trace_log_size` rows.
pub open spec fn denominators(
    denom_invs: Seq<BaseField>,
    trace_log_size: u32,
    eval_log_size: u32,
) -> Seq<u32> {
    let reversed = utils::bit_reverse_seq(denom_invs, (eval_log_size - trace_log_size) as nat);
    Seq::new(
        4 * pow2(eval_log_size as nat),
        |i: int|
            if i % 4 == 0 {
                reversed[(i / 4) / pow2(trace_log_size as nat) as int].0
            } else {
                0u32
            },
    )
}

/// The denominators are those of a trace domain and an evaluation domain.
pub open spec fn domains_ok(
    denom_invs: Seq<BaseField>,
    trace_log_size: u32,
    eval_log_size: u32,
) -> bool {
    &&& trace_log_size <= eval_log_size <= 31
    &&& denom_invs.len() == pow2((eval_log_size - trace_log_size) as nat)
}

/// The inverse of the denominator of each row, as words.
fn expand_denominators(denom_invs: &[BaseField], trace_log_size: u32, eval_log_size: u32) -> (r:
    Vec<u32>)
    requires
        domains_ok(denom_invs@, trace_log_size, eval_log_size),
    ensures
        r@ == denominators(denom_invs@, trace_log_size, eval_log_size),
{
    let ghost log_expand = (eval_log_size - trace_log_size) as nat;
    let ghost all = denominators(denom_invs@, trace_log_size, eval_log_size);
    let mut denom_invs_m31: Vec<BaseField> = slice_to_vec(denom_invs);
    proof {
        utils::lemma_floor_log2_of_pow2(log_expand);
        lemma_pow2_pos(log_expand);
        lemma_pow2_adds(log_expand, trace_log_size as nat);
        lemma2_to64();
        if eval_log_size < 31 {
            lemma_pow2_strictly_increases(eval_log_size as nat, 31);
        }
        if trace_log_size < 31 {
            lemma_pow2_strictly_increases(trace_log_size as nat, 31);
        }
        lemma_pow2_pos(trace_log_size as nat);
    }
    bit_reverse(&mut denom_invs_m31);
    let ghost reversed = utils::bit_reverse_seq(denom_invs@, log_expand);
    assert(denom_invs_m31@ == reversed);
    let rows: usize = pow2_usize(eval_log_size);
    let per_coset: usize = pow2_usize(trace_log_size);
    let mut out: Vec<u32> = Vec::new();
    for row in 0..rows
        invariant
            rows == pow2(eval_log_size as nat),
            per_coset == pow2(trace_log_size as nat),
            per_coset > 0,
            rows == pow2(log_expand) * per_coset,
            denom_invs_m31@ == reversed,
            reversed.len() == pow2(log_expand),
            all == denominators(denom_invs@, trace_log_size, eval_log_size),
            reversed == utils::bit_reverse_seq(denom_invs@, log_expand),
            log_expand == (eval_log_size - trace_log_size) as nat,
            out@ == all.take(4 * row),
    {
        proof {
            lemma_div_by_multiple_is_strongly_ordered(
                row as int,
                rows as int,
                pow2(log_expand) as int,
                per_coset as int,
            );
            lemma_div_multiples_vanish(pow2(log_expand) as int, per_coset as int);
            lemma_mul_is_commutative(pow2(log_expand) as int, per_coset as int);
            lemma_div_pos_is_pos(row as int, per_coset as int);
        }
        let coset: usize = row / per_coset;
        let denom_inv = SecureField::from_base(denom_invs_m31[coset]);
        push_felt(&mut out, denom_inv);
        proof {
            assert forall|j: int| 4 * row <= j < 4 * row + 4 implies out@[j] == #[trigger] all[j] by {
                assert(j / 4 == row && j % 4 == j - 4 * row);
            }
            assert(out@ =~= all.take(4 * (row + 1)));
        }
    }
    assert(out@ =~= all);
    out
}

/// The run of a constraint program on the reshaped trace, the caller's buffer 0: the
/// coordinates of the result are in buffers 11 to 14.
#[verifier::opaque]
pub open spec fn constraint_eval_plan(
    bytecode: Seq<u8>,
    offsets: Seq<u32>,
    random_coeffs: Seq<SecureField>,
    denom_invs: Seq<BaseField>,
    trace_log_size: u32,
    eval_log_size: u32,
) -> kernel::PlanView {
    let rows = pow2(eval_log_size as nat) as int;
    let out = kernel::SourceView::Fresh((4 * rows) as u64);
    kernel::PlanView {
        buffers: seq![
            kernel::SourceView::Bytes(bytecode),
            kernel::SourceView::Words(seq![bytecode.len() as u32]),
            kernel::SourceView::Input(0),
            kernel::SourceView::Words(offsets),
            kernel::SourceView::Words(seq![offsets.last()]),
            kernel::SourceView::Words(columns::felt_words(random_coeffs)),
            kernel::SourceView::Words(seq![random_coeffs.len() as u32]),
            kernel::SourceView::Words(denominators(denom_invs, trace_log_size, eval_log_size)),
            kernel::SourceView::Words(seq![trace_log_size]),
            kernel::SourceView::Words(seq![eval_log_size]),
            kernel::SourceView::Fresh((16 * rows) as u64),
            out,
            out,
            out,
            out,
        ],
        dispatches: seq![
            kernel::DispatchView {
                kernel: Kernel::ConstraintEvalVm,
                args: kernel::first_buffers(11),
                grid: Grid::Threads { total: rows as u64, group: 256 },
            },
            kernel::DispatchView {
                kernel: Kernel::UnpackQm31ToCoords,
                args: seq![
                    kernel::spec_whole(10),
                    kernel::spec_whole(11),
                    kernel::spec_whole(12),
                    kernel::spec_whole(13),
                    kernel::spec_whole(14),
                ],
                grid: Grid::Items { total: rows as u64 },
            },
        ],
    }
}

/// A buffer with one word.
fn word_source(word: u32) -> (r: Source)
    ensures
        r@ == kernel::SourceView::Words(seq![word]),
{
    let words: Vec<u32> = vec![word];
    assert(words@ =~= seq![word]);
    Source::Words(words)
}

/// Plans the run of a constraint program on the reshaped trace.
pub fn plan_constraint_eval(
    bytecode_bytes: &[u8],
    column_offsets: &Vec<u32>,
    random_coeffs: &[SecureField],
    denom_invs: &[BaseField],
    trace_log_size: u32,
    eval_domain_log_size: u32,
) -> (r: Plan)
    requires
        column_offsets.len() > 0,
        domains_ok(denom_invs@, trace_log_size, eval_domain_log_size),
    ensures
        r@.wf(),
        r@ == constraint_eval_plan(
            bytecode_bytes@,
            column_offsets@,
            random_coeffs@,
            denom_invs@,
            trace_log_size,
            eval_domain_log_size,
        ),
{
    reveal(constraint_eval_plan);
    let ghost expected = constraint_eval_plan(
        bytecode_bytes@,
        column_offsets@,
        random_coeffs@,
        denom_invs@,
        trace_log_size,
        eval_domain_log_size,
    );
    proof {
        lemma2_to64();
        if eval_domain_log_size < 31 {
            lemma_pow2_strictly_increases(eval_domain_log_size as nat, 31);
        }
    }
    let rows: u64 = pow2_usize(eval_domain_log_size) as u64;
    let n_columns: u32 = column_offsets[column_offsets.len() - 1];
    let offsets = column_offsets.clone();
    assert(offsets@ =~= column_offsets@);
    let mut plan = Plan::new();
    plan.add_buffer(Source::Bytes(slice_to_vec(bytecode_bytes)));
    plan.add_buffer(word_source(bytecode_bytes.len() as u32));
    plan.add_buffer(Source::Input(0));
    plan.add_buffer(Source::Words(offsets));
    plan.add_buffer(word_source(n_columns));
    plan.add_buffer(Source::Words(felts_to_words(random_coeffs)));
    plan.add_buffer(word_source(random_coeffs.len() as u32));
    plan.add_buffer(
        Source::Words(expand_denominators(denom_invs, trace_log_size, eval_domain_log_size)),
    );
    plan.add_buffer(word_source(trace_log_size));
    plan.add_buffer(word_source(eval_domain_log_size));
    let output: usize = plan.add_buffer(Source::Fresh(rows * 4 * 4));
    let out0: usize = plan.add_buffer(Source::Fresh(rows * 4));
    let out1: usize = plan.add_buffer(Source::Fresh(rows * 4));
    let out2: usize = plan.add_buffer(Source::Fresh(rows * 4));
    let out3: usize = plan.add_buffer(Source::Fresh(rows * 4));
    plan.dispatch(
        Kernel::ConstraintEvalVm,
        buffer_args(11),
        Grid::Threads { total: rows, group: 256 },
    );
    let args = vec![whole(output), whole(out0), whole(out1), whole(out2), whole(out3)];
    assert(args@ =~= expected.dispatches[1].args);
    plan.dispatch(Kernel::UnpackQm31ToCoords, args, Grid::Items { total: rows });
    assert(plan@ =~= expected);
    plan
}

/// A constraint evaluation: the buffer with the reshaped trace, and the work on it, whose
/// result is in the four slots from `output` on.
pub struct GpuConstraintEvalResult<B> {
    pub trace_buffer: B,
    pub plan: Plan,
    pub output: usize,
}

/// Evaluates a constraint program on a trace.  `denom_invs` are the inverses of the
/// vanishing polynomial of the trace domain, one for each of its cosets in the evaluation
/// domain.
pub fn evaluate_constraints_gpu<B: Clone, F: FnOnce(Plan) -> B>(
    cache: &mut ReshapedTraceCache<B>,
    bytecode_bytes: &[u8],
    trace: &[Vec<usize>],
    random_coeffs: &[SecureField],
    denom_invs: &[BaseField],
    trace_log_size: u32,
    eval_domain_log_size: u32,
    run: F,
) -> (r: GpuConstraintEvalResult<B>)
    requires
        domains_ok(denom_invs@, trace_log_size, eval_domain_log_size),
        trace_fits(tree_views(trace@), pow2(eval_domain_log_size as nat) as int),
        old(cache).wf(),
        !old(cache).holds(
            trace_hash(tree_views(trace@)),
            pow2(eval_domain_log_size as nat) as usize,
        ) ==> takes_reshape(run, tree_views(trace@), pow2(eval_domain_log_size as nat) as int),
    ensures
        ({
            let trees = tree_views(trace@);
            let rows = pow2(eval_domain_log_size as nat) as usize;
            let hash = trace_hash(trees);
            &&& final(cache).holds(hash, rows)
            &&& final(cache).wf()
            &&& r.output == 11
            &&& r.plan@.wf()
            &&& r.plan@ == constraint_eval_plan(
                bytecode_bytes@,
                final(cache).column_offsets@,
                random_coeffs@,
                denom_invs@,
                trace_log_size,
                eval_domain_log_size,
            )
            &&& if old(cache).holds(hash, rows) {
                &&& *final(cache) == *old(cache)
                &&& cloned(old(cache).trace_buffer->0, r.trace_buffer)
            } else {
                &&& exists|plan: Plan|
                    plan@ == reshape_plan(trees, rows as int) && #[trigger] call_ensures(
                        run,
                        (plan,),
                        r.trace_buffer,
                    )
                &&& cloned(r.trace_buffer, final(cache).trace_buffer->0)
                &&& final(cache).column_offsets@ == column_offsets(trees)
            }
        }),
{
    proof {
        lemma2_to64();
        if eval_domain_log_size < 31 {
            lemma_pow2_strictly_increases(eval_domain_log_size as nat, 31);
        }
    }
    let eval_domain_size: usize = pow2_usize(eval_domain_log_size);
    let (trace_buffer, offsets) = reshape_trace_columns_gpu(cache, trace, eval_domain_size, run);
    let plan = plan_constraint_eval(
        bytecode_bytes,
        &offsets,
        random_coeffs,
        denom_invs,
        trace_log_size,
        eval_domain_log_size,
    );
    assert(offsets@ =~= cache.column_offsets@);
    let r = GpuConstraintEvalResult { trace_buffer, plan, output: 11 };
    proof {
        let trees = tree_views(trace@);
        if !old(cache).holds(trace_hash(trees), eval_domain_size) {
            let given = choose|p: Plan|
                p@ == reshape_plan(trees, eval_domain_size as int) && #[trigger] call_ensures(
                    run,
                    (p,),
                    trace_buffer,
                );
            assert(call_ensures(run, (given,), r.trace_buffer));
        }
    }
    r
}

/// Evaluates several constraint programs on one trace, which is reshaped at most once.
pub fn evaluate_constraints_batched_gpu<B: Clone, F: FnOnce(Plan) -> B>(
    cache: &mut ReshapedTraceCache<B>,
    bytecode_programs: &[&[u8]],
    random_coeffs_per_program: &[&[SecureField]],
    trace: &[Vec<usize>],
    denom_invs: &[BaseField],
    trace_log_size: u32,
    eval_domain_log_size: u32,
    run: F,
) -> (r: Vec<GpuConstraintEvalResult<B>>)
    requires
        bytecode_programs.len() == random_coeffs_per_program.len(),
        domains_ok(denom_invs@, trace_log_size, eval_domain_log_size),
        trace_fits(tree_views(trace@), pow2(eval_domain_log_size as nat) as int),
        old(cache).wf(),
        !old(cache).holds(
            trace_hash(tree_views(trace@)),
            pow2(eval_domain_log_size as nat) as usize,
        ) ==> takes_reshape(run, tree_views(trace@), pow2(eval_domain_log_size as nat) as int),
    ensures
        ({
            let trees = tree_views(trace@);
            let rows = pow2(eval_domain_log_size as nat) as usize;
            let hash = trace_hash(trees);
            &&& final(cache).holds(hash, rows)
            &&& final(cache).wf()
            &&& if old(cache).holds(hash, rows) {
                *final(cache) == *old(cache)
            } else {
                &&& exists|plan: Plan, output: B|
                    plan@ == reshape_plan(trees, rows as int) && #[trigger] call_ensures(
                        run,
                        (plan,),
                        output,
                    ) && cloned(output, final(cache).trace_buffer->0)
                &&& final(cache).column_offsets@ == column_offsets(trees)
            }
            &&& r.len() == bytecode_programs.len()
            &&& forall|i: int|
                #![trigger r[i]]
                0 <= i < r.len() ==> {
                    &&& cloned(final(cache).trace_buffer->0, r[i].trace_buffer)
                    &&& r[i].output == 11
                    &&& r[i].plan@.wf()
                    &&& r[i].plan@ == constraint_eval_plan(
                        bytecode_programs@[i]@,
                        final(cache).column_offsets@,
                        random_coeffs_per_program@[i]@,
                        denom_invs@,
                        trace_log_size,
                        eval_domain_log_size,
                    )
                }
        }),
{
    proof {
        lemma2_to64();
        if eval_domain_log_size < 31 {
            lemma_pow2_strictly_increases(eval_domain_log_size as nat, 31);
        }
    }
    let eval_domain_size: usize = pow2_usize(eval_domain_log_size);
    let _ = reshape_trace_columns_gpu(cache, trace, eval_domain_size, run);
    let ghost held = *cache;
    let mut results: Vec<GpuConstraintEvalResult<B>> = Vec::new();
    for i in 0..bytecode_programs.len()
        invariant
            *cache == held,
            held.trace_buffer is Some,
            held.column_offsets.len() > 0,
            bytecode_programs.len() == random_coeffs_per_program.len(),
            domains_ok(denom_invs@, trace_log_size, eval_domain_log_size),
            results.len() == i,
            forall|k: int|
                #![trigger results[k]]
                0 <= k < i ==> {
                    &&& cloned(held.trace_buffer->0, results[k].trace_buffer)
                    &&& results[k].output == 11
                    &&& results[k].plan@.wf()
                    &&& results[k].plan@ == constraint_eval_plan(
                        bytecode_programs@[k]@,
                        held.column_offsets@,
                        random_coeffs_per_program@[k]@,
                        denom_invs@,
                        trace_log_size,
                        eval_domain_log_size,
                    )
                },
    {
        let (trace_buffer, offsets) = cache.get();
        let plan = plan_constraint_eval(
            bytecode_programs[i],
            &offsets,
            random_coeffs_per_program[i],
            denom_invs,
            trace_log_size,
            eval_domain_log_size,
        );
        results.push(GpuConstraintEvalResult { trace_buffer, plan, output: 11 });
    }
    results
}

/// The denominator of a row is that of the row's coset.
pub proof fn law_denominator_of_row(
    denom_invs: Seq<BaseField>,
    trace_log_size: u32,
    eval_log_size: u32,
    row: int,
)
    requires
        domains_ok(denom_invs, trace_log_size, eval_log_size),
        0 <= row < pow2(eval_log_size as nat),
    ensures
        ({
            let words = denominators(denom_invs, trace_log_size, eval_log_size);
            let log_expand = (eval_log_size - trace_log_size) as nat;
            let coset = row / pow2(trace_log_size as nat) as int;
            &&& 0 <= coset < denom_invs.len()
            &&& words.subrange(4 * row, 4 * row + 4) == seq![
                denom_invs[utils::bit_reversed(coset, log_expand)].0,
                0,
                0,
                0,
            ]
        }),
{
    let words = denominators(denom_invs, trace_log_size, eval_log_size);
    let log_expand = (eval_log_size - trace_log_size) as nat;
    let per_coset = pow2(trace_log_size as nat) as int;
    let coset = row / per_coset;
    lemma_pow2_pos(trace_log_size as nat);
    lemma_pow2_adds(log_expand, trace_log_size as nat);
    lemma_div_by_multiple_is_strongly_ordered(
        row,
        pow2(eval_log_size as nat) as int,
        pow2(log_expand) as int,
        per_coset,
    );
    lemma_div_multiples_vanish(pow2(log_expand) as int, per_coset);
    lemma_mul_is_commutative(pow2(log_expand) as int, per_coset);
    lemma_div_pos_is_pos(row, per_coset);
    assert forall|j: int| 0 <= j < 4 implies words.subrange(4 * row, 4 * row + 4)[j] == seq![
        denom_invs[utils::bit_reversed(coset, log_expand)].0,
        0,
        0,
        0,
    ][j] by {
        let k = 4 * row + j;
        assert(k / 4 == row && k % 4 == j);
    }
    assert(words.subrange(4 * row, 4 * row + 4) =~= seq![
        denom_invs[utils::bit_reversed(coset, log_expand)].0,
        0,
        0,
        0,
    ]);
}

/// The sum of the first `n` values, each times its coefficient.
pub open spec fn combination(
    coeffs: spec_fn(int) -> fields::Coords,
    values: Seq<fields::Coords>,
    n: nat,
) -> fields::Coords
    decreases n,
{
    if n == 0 {
        fields::coords_zero()
    } else {
        combination(coeffs, values, (n - 1) as nat).plus(
            coeffs(n - 1).times(values[n - 1]).reduced(),
        ).reduced()
    }
}

/// The values that a program submits on a row, from empty stacks.
pub open spec fn submitted<B>(
    alg: vm::Algebra<B, fields::Coords>,
    program: Seq<bytecode::Instruction>,
) -> Seq<fields::Coords> {
    match vm::run(
        alg,
        program,
        vm::Machine { m31: Seq::empty(), qm31: Seq::empty(), submitted: Seq::empty() },
    ) {
        Some(end) => end.submitted,
        None => Seq::empty(),
    }
}

/// The program that bytes encode.
pub open spec fn decoded(bytes: Seq<u8>) -> Seq<bytecode::Instruction> {
    choose|program: Seq<bytecode::Instruction>| #[trigger] bytecode::encode_all(program) == bytes
}

/// The value of a row: the combination of the values that a program submits, times the
/// inverse of the row's denominator.
#[verifier::opaque]
pub open spec fn row_value<B>(
    alg: vm::Algebra<B, fields::Coords>,
    program: Seq<bytecode::Instruction>,
    coeffs: Seq<u32>,
    denominators: Seq<u32>,
    row: int,
) -> fields::Coords {
    let values = submitted(alg, program);
    combination(|j: int| device_memory::felt_of(coeffs, j), values, values.len()).times(
        device_memory::felt_of(denominators, row),
    ).reduced()
}

/// What the launches of a constraint evaluation make of the buffers.  `rows` gives what a row
/// sees of the reshaped trace, from the trace's words, the offsets of the trees, the number
/// of columns, and the log sizes of the trace and of the evaluation domain.  `reads` and
/// `takes` give the program's bytes and the coefficients' words, from the buffer that holds
/// them and the number of bytes or coefficients that the launch is told.
#[verifier::opaque]
pub open spec fn constraint_effect<B>(
    sources: Seq<kernel::SourceView>,
    reads: spec_fn(Seq<u8>, u32) -> Seq<u8>,
    takes: spec_fn(Seq<u32>, u32) -> Seq<u32>,
    rows: spec_fn(Seq<u32>, Seq<u32>, u32, u32, u32, int) -> vm::Algebra<B, fields::Coords>,
) -> spec_fn(kernel::DispatchView, Seq<Seq<u32>>) -> Seq<Seq<u32>> {
    |d: kernel::DispatchView, mem: Seq<Seq<u32>>|
        match d.kernel {
            Kernel::UnpackQm31ToCoords => device_memory::unpacked(d, mem),
            Kernel::ConstraintEvalVm => {
                let word = |k: int| device_memory::bound(mem, d.args[k])[0];
                let program = match sources[device_memory::slot_of(d.args[0])] {
                    kernel::SourceView::Bytes(bytes) => decoded(reads(bytes, word(1))),
                    _ => Seq::empty(),
                };
                let trace = device_memory::bound(mem, d.args[2]);
                let offsets = device_memory::bound(mem, d.args[3]);
                let coeffs = takes(device_memory::bound(mem, d.args[5]), word(6));
                let denominators = device_memory::bound(mem, d.args[7]);
                mem.update(
                    device_memory::slot_of(d.args[10]),
                    device_memory::words_of(
                        kernel::launched(d.grid) as nat,
                        |row: int|
                            row_value(
                                rows(trace, offsets, word(4), word(8), word(9), row),
                                program,
                                coeffs,
                                denominators,
                                row,
                            ),
                    ),
                )
            },
            _ => mem,
        }
}

/// A combination depends only on the coefficients of its values.
proof fn lemma_combination_by_coeffs(
    a: spec_fn(int) -> fields::Coords,
    b: spec_fn(int) -> fields::Coords,
    values: Seq<fields::Coords>,
    n: nat,
)
    requires
        forall|j: int| 0 <= j < n ==> #[trigger] a(j) == b(j),
    ensures
        combination(a, values, n) == combination(b, values, n),
    decreases n,
{
    if n > 0 {
        lemma_combination_by_coeffs(a, b, values, (n - 1) as nat);
        assert(a(n - 1) == b(n - 1));
    }
}

/// The random combination of the constraints' values on a row, times the inverse of the
/// row's denominator.
#[verifier::opaque]
pub open spec fn row_quotient<B>(
    alg: vm::Algebra<B, fields::Coords>,
    constraints: Seq<bytecode_generator::QM31Expr>,
    random_coeffs: Seq<SecureField>,
    denom_inv: BaseField,
) -> fields::Coords {
    let values = constraints.map_values(
        |c: bytecode_generator::QM31Expr| bytecode_generator::qm31_value(alg, c),
    );
    combination(|j: int| random_coeffs[j]@, values, values.len()).times(
        fields::Coords { c0: denom_inv.0 as int, c1: 0, c2: 0, c3: 0 },
    ).reduced()
}

/// The value of a row is the quotient of the constraints that were compiled.
proof fn lemma_row_value<B>(
    alg: vm::Algebra<B, fields::Coords>,
    constraints: Seq<bytecode_generator::QM31Expr>,
    random_coeffs: Seq<SecureField>,
    denom_invs: Seq<BaseField>,
    trace_log_size: u32,
    eval_log_size: u32,
    row: int,
)
    requires
        domains_ok(denom_invs, trace_log_size, eval_log_size),
        random_coeffs.len() >= constraints.len(),
        0 <= row < pow2(eval_log_size as nat),
    ensures
        row_value(
            alg,
            bytecode_generator::program_code(constraints),
            columns::felt_words(random_coeffs),
            denominators(denom_invs, trace_log_size, eval_log_size),
            row,
        ) == row_quotient(
            alg,
            constraints,
            random_coeffs,
            denom_invs[utils::bit_reversed(
                row / pow2(trace_log_size as nat) as int,
                (eval_log_size - trace_log_size) as nat,
            )],
        ),
{
    reveal(row_value);
    reveal(row_quotient);
    let words = columns::felt_words(random_coeffs);
    let denominator_words = denominators(denom_invs, trace_log_size, eval_log_size);
    let start = vm::Machine {
        m31: Seq::<B>::empty(),
        qm31: Seq::<fields::Coords>::empty(),
        submitted: Seq::empty(),
    };
    let values = constraints.map_values(
        |c: bytecode_generator::QM31Expr| bytecode_generator::qm31_value(alg, c),
    );
    bytecode_generator::law_program_submits_constraints(alg, constraints, start);
    assert(start.submitted + values =~= values);
    let bound = |j: int| device_memory::felt_of(words, j);
    let given = |j: int| random_coeffs[j]@;
    assert forall|j: int| 0 <= j < values.len() implies #[trigger] bound(j) == given(j) by {
        assert((4 * j) / 4 == j && (4 * j) % 4 == 0);
        assert((4 * j + 1) / 4 == j && (4 * j + 1) % 4 == 1);
        assert((4 * j + 2) / 4 == j && (4 * j + 2) % 4 == 2);
        assert((4 * j + 3) / 4 == j && (4 * j + 3) % 4 == 3);
    }
    lemma_combination_by_coeffs(bound, given, values, values.len());
    law_denominator_of_row(denom_invs, trace_log_size, eval_log_size, row);
    let part = denominator_words.subrange(4 * row, 4 * row + 4);
    assert(part[0] == denominator_words[4 * row]);
    assert(part[1] == denominator_words[4 * row + 1]);
    assert(part[2] == denominator_words[4 * row + 2]);
    assert(part[3] == denominator_words[4 * row + 3]);
}

/// The parts of a planned constraint evaluation.
proof fn lemma_constraint_plan_parts(
    bytes: Seq<u8>,
    offsets: Seq<u32>,
    random_coeffs: Seq<SecureField>,
    denom_invs: Seq<BaseField>,
    trace_log_size: u32,
    eval_log_size: u32,
)
    requires
        eval_log_size <= 31,
    ensures
        ({
            let plan = constraint_eval_plan(
                bytes,
                offsets,
                random_coeffs,
                denom_invs,
                trace_log_size,
                eval_log_size,
            );
            let ds = plan.dispatches;
            &&& plan.buffers.len() == 15
            &&& plan.buffers[0] == kernel::SourceView::Bytes(bytes)
            &&& plan.buffers[1] == kernel::SourceView::Words(seq![bytes.len() as u32])
            &&& plan.buffers[2] == kernel::SourceView::Input(0)
            &&& plan.buffers[3] == kernel::SourceView::Words(offsets)
            &&& plan.buffers[4] == kernel::SourceView::Words(seq![offsets.last()])
            &&& plan.buffers[6] == kernel::SourceView::Words(seq![random_coeffs.len() as u32])
            &&& plan.buffers[8] == kernel::SourceView::Words(seq![trace_log_size])
            &&& plan.buffers[9] == kernel::SourceView::Words(seq![eval_log_size])
            &&& plan.buffers[10] == kernel::SourceView::Fresh(
                (16 * pow2(eval_log_size as nat)) as u64,
            )
            &&& forall|k: int|
                11 <= k < 15 ==> #[trigger] plan.buffers[k] == kernel::SourceView::Fresh(
                    (4 * pow2(eval_log_size as nat)) as u64,
                )
            &&& plan.buffers[5] == kernel::SourceView::Words(columns::felt_words(random_coeffs))
            &&& plan.buffers[7] == kernel::SourceView::Words(
                denominators(denom_invs, trace_log_size, eval_log_size),
            )
            &&& ds.len() == 2
            &&& ds[0].kernel == Kernel::ConstraintEvalVm
            &&& forall|k: int|
                0 <= k < 11 ==> #[trigger] ds[0].args[k] == kernel::spec_whole(k as usize)
            &&& kernel::launched(ds[0].grid) == pow2(eval_log_size as nat)
            &&& ds[1].kernel == Kernel::UnpackQm31ToCoords
            &&& ds[1].args == seq![
                kernel::spec_whole(10),
                kernel::spec_whole(11),
                kernel::spec_whole(12),
                kernel::spec_whole(13),
                kernel::spec_whole(14),
            ]
            &&& kernel::launched(ds[1].grid) == pow2(eval_log_size as nat)
        }),
{
    reveal(constraint_eval_plan);
    lemma2_to64();
    if eval_log_size < 31 {
        lemma_pow2_strictly_increases(eval_log_size as nat, 31);
    }
}

/// The first launch of a constraint evaluation leaves the value of each row in buffer 10.
#[verifier::spinoff_prover]
proof fn lemma_rows_evaluated<B>(
    sources: Seq<kernel::SourceView>,
    reads: spec_fn(Seq<u8>, u32) -> Seq<u8>,
    takes: spec_fn(Seq<u32>, u32) -> Seq<u32>,
    rows: spec_fn(Seq<u32>, Seq<u32>, u32, u32, u32, int) -> vm::Algebra<B, fields::Coords>,
    d: kernel::DispatchView,
    bytes: Seq<u8>,
    n: nat,
    mem: Seq<Seq<u32>>,
    row: int,
)
    requires
        mem.len() == 15,
        d.kernel == Kernel::ConstraintEvalVm,
        forall|k: int| 0 <= k < 11 ==> #[trigger] d.args[k] == kernel::spec_whole(k as usize),
        sources[0] == kernel::SourceView::Bytes(bytes),
        mem[1] == seq![bytes.len() as u32],
        reads(bytes, bytes.len() as u32) == bytes,
        takes(mem[5], mem[6][0]) == mem[5],
        kernel::launched(d.grid) == n,
        0 <= row < n,
    ensures
        ({
            let out = constraint_effect(sources, reads, takes, rows)(d, mem);
            let value = row_value(
                rows(mem[2], mem[3], mem[4][0], mem[8][0], mem[9][0], row),
                decoded(bytes),
                mem[5],
                mem[7],
                row,
            );
            &&& out.len() == mem.len()
            &&& out[10][4 * row] == value.c0
            &&& out[10][4 * row + 1] == value.c1
            &&& out[10][4 * row + 2] == value.c2
            &&& out[10][4 * row + 3] == value.c3
        }),
{
    reveal(constraint_effect);
    assert forall|k: int| 0 <= k < 11 implies #[trigger] d.args[k] == kernel::spec_whole(
        k as usize,
    ) by {}
    let felt = |r: int|
        row_value(
            rows(mem[2], mem[3], mem[4][0], mem[8][0], mem[9][0], r),
            decoded(bytes),
            mem[5],
            mem[7],
            r,
        );
    let out = constraint_effect(sources, reads, takes, rows)(d, mem);
    assert(out[10] =~= device_memory::words_of(n, felt));
    device_memory::lemma_word_of(n, felt, row);
    lemma_row_value_canonical(
        rows(mem[2], mem[3], mem[4][0], mem[8][0], mem[9][0], row),
        decoded(bytes),
        mem[5],
        mem[7],
        row,
    );
}

/// The second launch of a constraint evaluation unpacks the values.
proof fn lemma_rows_unpacked<B>(
    sources: Seq<kernel::SourceView>,
    reads: spec_fn(Seq<u8>, u32) -> Seq<u8>,
    takes: spec_fn(Seq<u32>, u32) -> Seq<u32>,
    rows: spec_fn(Seq<u32>, Seq<u32>, u32, u32, u32, int) -> vm::Algebra<B, fields::Coords>,
    d: kernel::DispatchView,
    mem: Seq<Seq<u32>>,
)
    requires
        d.kernel == Kernel::UnpackQm31ToCoords,
    ensures
        constraint_effect(sources, reads, takes, rows)(d, mem) == device_memory::unpacked(d, mem),
{
    reveal(constraint_effect);
}

/// A program is decoded from its own bytes.
proof fn lemma_decoded(program: Seq<bytecode::Instruction>)
    ensures
        decoded(bytecode::encode_all(program)) == program,
{
    let bytes = bytecode::encode_all(program);
    assert(bytecode::encode_all(decoded(bytes)) == bytes);
    bytecode::law_bytecode_uniquely_decodable(decoded(bytes), program);
}

/// The value of a row is canonical.
proof fn lemma_row_value_canonical<B>(
    alg: vm::Algebra<B, fields::Coords>,
    program: Seq<bytecode::Instruction>,
    coeffs: Seq<u32>,
    denominators: Seq<u32>,
    row: int,
)
    ensures
        ({
            let value = row_value(alg, program, coeffs, denominators, row);
            &&& 0 <= value.c0 < fields::P
            &&& 0 <= value.c1 < fields::P
            &&& 0 <= value.c2 < fields::P
            &&& 0 <= value.c3 < fields::P
        }),
{
    reveal(row_value);
}

/// Performing a planned constraint evaluation gives on each row the random combination of
/// the constraints' values on the row, times the inverse of the row's denominator.  The row
/// sees the trace by the offsets, the number of columns that is the last of them, and the log
/// sizes.  It is told how many bytes and coefficients there are, and has to read them all by
/// those numbers; one that reads no more than it is told does, where they fit in a word.
#[verifier::spinoff_prover]
pub proof fn law_constraint_plan_evaluates<B>(
    reads: spec_fn(Seq<u8>, u32) -> Seq<u8>,
    takes: spec_fn(Seq<u32>, u32) -> Seq<u32>,
    rows: spec_fn(Seq<u32>, Seq<u32>, u32, u32, u32, int) -> vm::Algebra<B, fields::Coords>,
    constraints: Seq<bytecode_generator::QM31Expr>,
    trace: Seq<u32>,
    offsets: Seq<u32>,
    random_coeffs: Seq<SecureField>,
    denom_invs: Seq<BaseField>,
    trace_log_size: u32,
    eval_log_size: u32,
    mem: Seq<Seq<u32>>,
    row: int,
)
    requires
        domains_ok(denom_invs, trace_log_size, eval_log_size),
        random_coeffs.len() >= constraints.len(),
        ({
            let bytes = bytecode::encode_all(bytecode_generator::program_code(constraints));
            reads(bytes, bytes.len() as u32) == bytes
        }),
        ({
            let words = columns::felt_words(random_coeffs);
            takes(words, random_coeffs.len() as u32) == words
        }),
        0 <= row < pow2(eval_log_size as nat),
        device_memory::loaded(
            constraint_eval_plan(
                bytecode::encode_all(bytecode_generator::program_code(constraints)),
                offsets,
                random_coeffs,
                denom_invs,
                trace_log_size,
                eval_log_size,
            ).buffers,
            seq![trace],
            mem,
        ),
    ensures
        ({
            let plan = constraint_eval_plan(
                bytecode::encode_all(bytecode_generator::program_code(constraints)),
                offsets,
                random_coeffs,
                denom_invs,
                trace_log_size,
                eval_log_size,
            );
            let out = device_memory::perform(
                constraint_effect(plan.buffers, reads, takes, rows),
                plan.dispatches,
                mem,
            );
            let quotient = row_quotient(
                rows(trace, offsets, offsets.last(), trace_log_size, eval_log_size, row),
                constraints,
                random_coeffs,
                denom_invs[utils::bit_reversed(
                    row / pow2(trace_log_size as nat) as int,
                    (eval_log_size - trace_log_size) as nat,
                )],
            );
            &&& out[11][row] == quotient.c0
            &&& out[12][row] == quotient.c1
            &&& out[13][row] == quotient.c2
            &&& out[14][row] == quotient.c3
        }),
{
    let program = bytecode_generator::program_code(constraints);
    let bytes = bytecode::encode_all(program);
    let plan = constraint_eval_plan(
        bytes,
        offsets,
        random_coeffs,
        denom_invs,
        trace_log_size,
        eval_log_size,
    );
    lemma_constraint_plan_parts(
        bytes,
        offsets,
        random_coeffs,
        denom_invs,
        trace_log_size,
        eval_log_size,
    );
    let ds = plan.dispatches;
    let n = pow2(eval_log_size as nat);
    let f = constraint_effect(plan.buffers, reads, takes, rows);
    device_memory::lemma_perform_two(f, ds, mem);
    assert(mem[1] == seq![bytes.len() as u32]);
    assert(mem[2] == trace);
    assert(mem[3] == offsets);
    assert(mem[4] == seq![offsets.last()]);
    assert(mem[6] == seq![random_coeffs.len() as u32]);
    assert(mem[8] == seq![trace_log_size]);
    assert(mem[9] == seq![eval_log_size]);
    assert(mem[5] == columns::felt_words(random_coeffs));
    assert(mem[7] == denominators(denom_invs, trace_log_size, eval_log_size));
    lemma_decoded(program);
    lemma_rows_evaluated(plan.buffers, reads, takes, rows, ds[0], bytes, n, mem, row);
    lemma_row_value(
        rows(trace, offsets, offsets.last(), trace_log_size, eval_log_size, row),
        constraints,
        random_coeffs,
        denom_invs,
        trace_log_size,
        eval_log_size,
        row,
    );
    let m1 = f(ds[0], mem);
    lemma_rows_unpacked(plan.buffers, reads, takes, rows, ds[1], m1);
    device_memory::lemma_unpacked(ds[1], m1, 10, 11, row);
}

/// What a launch that reshapes a column makes of the buffers: each thread copies the value of
/// its row to the column's part of the result, where columns follow one another.
pub open spec fn reshape_effect() -> spec_fn(kernel::DispatchView, Seq<Seq<u32>>) -> Seq<
    Seq<u32>,
> {
    |d: kernel::DispatchView, mem: Seq<Seq<u32>>|
        match (d.kernel, d.args[2], d.args[3]) {
            (Kernel::TraceReshapeColumn, Arg::U32(number), Arg::U32(size)) => {
                let column = device_memory::bound(mem, d.args[0]);
                let slot = device_memory::slot_of(d.args[1]);
                let rows = vstd::math::min(size as int, kernel::launched(d.grid));
                mem.update(
                    slot,
                    Seq::new(
                        mem[slot].len(),
                        |j: int|
                            if number * size <= j < number * size + rows {
                                column[j - number * size]
                            } else {
                                mem[slot][j]
                            },
                    ),
                )
            },
            _ => mem,
        }
}

/// The place of a cell in a reshaped trace lies in its column's part.
proof fn lemma_cell_in_column(c: int, r: int, size: int, other: int, total: int)
    requires
        0 <= c < total,
        0 <= r < size,
        0 <= other,
    ensures
        0 <= c * size + r < total * size,
        c == other ==> c * size + r - other * size == r,
        c != other ==> !(other * size <= c * size + r < other * size + size),
{
    assert(c * size + r < total * size) by (nonlinear_arith)
        requires
            0 <= c < total,
            0 <= r < size,
    ;
    assert(0 <= c * size) by (nonlinear_arith)
        requires
            0 <= c,
            0 <= size,
    ;
    if c < other {
        assert(c * size + size <= other * size) by (nonlinear_arith)
            requires
                c + 1 <= other,
                0 <= size,
        ;
    }
    if other < c {
        assert(other * size + size <= c * size) by (nonlinear_arith)
            requires
                other + 1 <= c,
                0 <= size,
        ;
    }
}

/// The cells that the first `k` launches have copied.
proof fn lemma_reshaped_upto(
    total: int,
    size: int,
    inputs: Seq<Seq<u32>>,
    mem: Seq<Seq<u32>>,
    k: nat,
    c: int,
    r: int,
)
    requires
        k <= total <= u32::MAX,
        0 <= size <= u32::MAX,
        total < usize::MAX,
        mem.len() == total + 1,
        mem[0].len() == total * size,
        forall|i: int| 0 <= i < total ==> #[trigger] mem[i + 1] == inputs[i],
        0 <= c < total,
        0 <= r < size,
    ensures
        ({
            let out = device_memory::perform(
                reshape_effect(),
                reshape_plan_upto(total, size, k).dispatches,
                mem,
            );
            &&& out.len() == mem.len()
            &&& out[0].len() == mem[0].len()
            &&& forall|i: int| 0 <= i < total ==> #[trigger] out[i + 1] == inputs[i]
            &&& c < k ==> out[0][c * size + r] == inputs[c][r]
        }),
    decreases k,
{
    let plan = reshape_plan_upto(total, size, k);
    if k > 0 {
        let last = (k - 1) as nat;
        lemma_reshaped_upto(total, size, inputs, mem, last, c, r);
        let before = reshape_plan_upto(total, size, last);
        assert(plan.dispatches.drop_last() =~= before.dispatches);
        let d = plan.dispatches.last();
        assert(d == plan.dispatches[last as int]);
        let m = device_memory::perform(reshape_effect(), before.dispatches, mem);
        let out = device_memory::perform(reshape_effect(), plan.dispatches, mem);
        assert(out == reshape_effect()(d, m));
        assert(d.args[0] == kernel::spec_whole(k as usize));
        assert(d.args[1] == kernel::spec_whole(0));
        assert(d.args[2] == Arg::U32(last as u32));
        assert(d.args[3] == Arg::U32(size as u32));
        assert(m[last as int + 1] == inputs[last as int]);
        assert(kernel::launched(d.grid) == size);
        lemma_cell_in_column(c, r, size, last as int, total);
        assert forall|i: int| 0 <= i < total implies #[trigger] out[i + 1] == inputs[i] by {
            assert(out[i + 1] == m[i + 1]);
        }
    }
}

/// Performing the plan that reshapes a trace puts every cell in its place: row `r` of column
/// `c` is what the caller's buffer `c` holds at `r`, and the caller's buffers are not changed.
pub proof fn law_reshape_keeps_cells(
    trace: Seq<Seq<usize>>,
    size: int,
    inputs: Seq<Seq<u32>>,
    mem: Seq<Seq<u32>>,
    c: int,
    r: int,
)
    requires
        trace_fits(trace, size),
        size <= u32::MAX,
        total_columns(trace) < usize::MAX,
        device_memory::loaded(reshape_plan(trace, size).buffers, inputs, mem),
        reshape_plan(trace, size).buffers[0] == kernel::SourceView::Fresh(
            (4 * mem[0].len()) as u64,
        ),
        4 * mem[0].len() <= u64::MAX,
        0 <= c < total_columns(trace),
        0 <= r < size,
    ensures
        ({
            let out = device_memory::perform(
                reshape_effect(),
                reshape_plan(trace, size).dispatches,
                mem,
            );
            &&& c * size + r < out[0].len()
            &&& out[0][c * size + r] == inputs[c][r]
            &&& out[c + 1] == inputs[c]
        }),
{
    let total = total_columns(trace);
    let plan = reshape_plan(trace, size);
    assert(0 <= total * size) by (nonlinear_arith)
        requires
            0 <= total,
            0 <= size,
    ;
    assert(4 * mem[0].len() == total * size * 4);
    assert forall|i: int| 0 <= i < total implies #[trigger] mem[i + 1] == inputs[i] by {
        assert(plan.buffers[i + 1] == kernel::SourceView::Input(i as usize));
    }
    lemma_reshaped_upto(total, size, inputs, mem, total as nat, c, r);
    lemma_cell_in_column(c, r, size, 0, total);
}

/// The columns of all trees, one tree after the other.
proof fn lemma_columns_in_order(
    trace: Seq<Seq<usize>>,
    data: Seq<Seq<Seq<u32>>>,
    t: int,
    k: int,
)
    requires
        data.len() == trace.len(),
        forall|i: int| 0 <= i < data.len() ==> (#[trigger] data[i]).len() == trace[i].len(),
        0 <= t < trace.len(),
        0 <= k < trace[t].len(),
    ensures
        0 <= columns_before(trace, t),
        columns_before(trace, t) + k < total_columns(trace),
        columns_before(trace, t) + k < data.flatten().len(),
        data.flatten()[columns_before(trace, t) + k] == data[t][k],
{
    lemma_counts_agree(trace, data, t);
    lemma_columns_before_monotone(trace, 0, t);
    lemma_columns_before_monotone(trace, t + 1, trace.len() as int);
    packing::law_packed_column_found(data, t);
    let start = packing::words_before(data, t);
    assert(data[t].len() == trace[t].len());
    assert(data.flatten().subrange(start, start + data[t].len())[k] == data[t][k]);
}

proof fn lemma_counts_agree(trace: Seq<Seq<usize>>, data: Seq<Seq<Seq<u32>>>, t: int)
    requires
        data.len() == trace.len(),
        forall|i: int| 0 <= i < data.len() ==> (#[trigger] data[i]).len() == trace[i].len(),
        0 <= t <= trace.len(),
    ensures
        columns_before(trace, t) == packing::words_before(data, t),
    decreases t,
{
    if t > 0 {
        lemma_counts_agree(trace, data, t - 1);
        assert(data[t - 1].len() == trace[t - 1].len());
    }
}

/// A column of a tree is found by the tree's offset: performing the plan that reshapes a
/// trace, whose columns are the caller's buffers, one tree after the other, leaves row `r` of
/// column `k` of tree `t` in the part whose number is the tree's offset and `k`.  The last
/// offset is the number of all columns.
pub proof fn law_offsets_find_columns(
    trace: Seq<Seq<usize>>,
    size: int,
    data: Seq<Seq<Seq<u32>>>,
    mem: Seq<Seq<u32>>,
    t: int,
    k: int,
    r: int,
)
    requires
        trace_fits(trace, size),
        size <= u32::MAX,
        total_columns(trace) < usize::MAX,
        data.len() == trace.len(),
        forall|i: int| 0 <= i < data.len() ==> (#[trigger] data[i]).len() == trace[i].len(),
        device_memory::loaded(reshape_plan(trace, size).buffers, data.flatten(), mem),
        reshape_plan(trace, size).buffers[0] == kernel::SourceView::Fresh(
            (4 * mem[0].len()) as u64,
        ),
        4 * mem[0].len() <= u64::MAX,
        0 <= t < trace.len(),
        0 <= k < trace[t].len(),
        0 <= r < size,
    ensures
        ({
            let out = device_memory::perform(
                reshape_effect(),
                reshape_plan(trace, size).dispatches,
                mem,
            );
            let offsets = column_offsets(trace);
            &&& offsets.len() == trace.len() + 1
            &&& offsets[t] + k < offsets[t + 1]
            &&& out[0][(offsets[t] + k) * size + r] == data[t][k][r]
            &&& offsets.last() == data.flatten().len()
        }),
{
    let n = trace.len() as int;
    lemma_columns_in_order(trace, data, t, k);
    lemma_columns_before_monotone(trace, t + 1, n);
    lemma_counts_agree(trace, data, n);
    packing::lemma_flatten_len(data, n);
    assert(data.take(n) =~= data);
    law_reshape_keeps_cells(
        trace,
        size,
        data.flatten(),
        mem,
        columns_before(trace, t) + k,
        r,
    );
}

/// The results of a constraint evaluation fit the buffers that are made for them: four words
/// for each row in buffer 10, and one in each of the four after it.
pub proof fn law_constraint_results_fit(
    bytes: Seq<u8>,
    offsets: Seq<u32>,
    random_coeffs: Seq<SecureField>,
    denom_invs: Seq<BaseField>,
    trace_log_size: u32,
    eval_log_size: u32,
    k: int,
)
    requires
        eval_log_size <= 31,
        11 <= k < 15,
    ensures
        ({
            let buffers = constraint_eval_plan(
                bytes,
                offsets,
                random_coeffs,
                denom_invs,
                trace_log_size,
                eval_log_size,
            ).buffers;
            let rows = pow2(eval_log_size as nat);
            &&& buffers[10] == kernel::SourceView::Fresh((16 * rows) as u64)
            &&& buffers[k] == kernel::SourceView::Fresh((4 * rows) as u64)
        }),
{
    lemma_constraint_plan_parts(
        bytes,
        offsets,
        random_coeffs,
        denom_invs,
        trace_log_size,
        eval_log_size,
    );
}

/// What is hashed of the first trees is the start of what is hashed of more.
proof fn lemma_stream_prefix(trace: Seq<Seq<usize>>, k: nat, n: nat)
    requires
        k <= n,
    ensures
        trace_stream(trace, k).len() <= trace_stream(trace, n).len(),
        trace_stream(trace, n).take(trace_stream(trace, k).len() as int) == trace_stream(
            trace,
            k,
        ),
    decreases n,
{
    let all = trace_stream(trace, n);
    if k < n {
        lemma_stream_prefix(trace, k, (n - 1) as nat);
        let shorter = trace_stream(trace, (n - 1) as nat);
        let len = trace_stream(trace, k).len() as int;
        assert(all.take(len) =~= shorter.take(len));
    } else {
        assert(all.take(all.len() as int) =~= all);
    }
}

/// Streams that agree are of the same first trees.
proof fn lemma_first_trees_agree(a: Seq<Seq<usize>>, b: Seq<Seq<usize>>, k: nat)
    requires
        a.len() == b.len(),
        k <= a.len(),
        forall|i: int| 0 <= i < a.len() ==> (#[trigger] a[i]).len() <= u64::MAX,
        forall|i: int| 0 <= i < b.len() ==> (#[trigger] b[i]).len() <= u64::MAX,
        trace_stream(a, a.len()) == trace_stream(b, b.len()),
    ensures
        trace_stream(a, k) == trace_stream(b, k),
        forall|i: int| 0 <= i < k ==> #[trigger] a[i] == b[i],
    decreases k,
{
    if k > 0 {
        let last = k - 1;
        let m = (k - 1) as nat;
        lemma_first_trees_agree(a, b, m);
        lemma_stream_prefix(a, k, a.len());
        lemma_stream_prefix(b, k, b.len());
        let all = trace_stream(a, a.len());
        let n = trace_stream(a, m).len() as int;
        let x = tree_stream(a[last]);
        let y = tree_stream(b[last]);
        assert forall|i: int| 0 <= i < x.len() implies all[n + i] == x[i] by {
            assert(all.take(trace_stream(a, k).len() as int)[n + i] == x[i]);
        }
        assert forall|i: int| 0 <= i < y.len() implies all[n + i] == y[i] by {
            assert(all.take(trace_stream(b, k).len() as int)[n + i] == y[i]);
        }
        byte_order::law_little_endian_value(0, a[last].len() as u64);
        byte_order::law_little_endian_value(0, b[last].len() as u64);
        assert(x[0] == all[n + 0] && y[0] == all[n + 0]);
        assert(x[0] == byte_order::le64(a[last].len() as u64));
        assert(y[0] == byte_order::le64(b[last].len() as u64));
        assert(a[last].len() == b[last].len());
        assert forall|i: int| 0 <= i < a[last].len() implies a[last][i] == b[last][i] by {
            assert(x[i + 1] == byte_order::le64(a[last][i] as u64));
            assert(y[i + 1] == byte_order::le64(b[last][i] as u64));
            assert(x[i + 1] == all[n + (i + 1)] && y[i + 1] == all[n + (i + 1)]);
            byte_order::law_little_endian_value(0, a[last][i] as u64);
            byte_order::law_little_endian_value(0, b[last][i] as u64);
        }
        assert(a[last] =~= b[last]);
        assert forall|i: int| 0 <= i < k implies #[trigger] a[i] == b[i] by {
            if i < m {
                assert(a[i] == b[i]);
            }
        }
    }
}

/// What is hashed of a trace tells traces apart: two traces give the same stream only where
/// they have the same trees, with every column at the same address.
pub proof fn law_trace_stream_tells_traces_apart(a: Seq<Seq<usize>>, b: Seq<Seq<usize>>)
    requires
        a.len() <= u64::MAX,
        b.len() <= u64::MAX,
        forall|i: int| 0 <= i < a.len() ==> (#[trigger] a[i]).len() <= u64::MAX,
        forall|i: int| 0 <= i < b.len() ==> (#[trigger] b[i]).len() <= u64::MAX,
        trace_stream(a, a.len()) == trace_stream(b, b.len()),
    ensures
        a == b,
{
    lemma_stream_prefix(a, 0, a.len());
    lemma_stream_prefix(b, 0, b.len());
    let all = trace_stream(a, a.len());
    assert(all.take(1)[0] == byte_order::le64(a.len() as u64));
    assert(all.take(1)[0] == byte_order::le64(b.len() as u64));
    byte_order::law_little_endian_value(0, a.len() as u64);
    byte_order::law_little_endian_value(0, b.len() as u64);
    lemma_first_trees_agree(a, b, a.len());
    assert(a =~= b);
}

} // verus!
