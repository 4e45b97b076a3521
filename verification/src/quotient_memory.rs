//! What the plans of quotients make of the buffers.

use crate::columns;
use crate::device_memory;
use crate::fields;
use crate::kernel;
use crate::kernel::{Arg, Kernel};
use crate::packing;
use crate::quotients;
use crate::quotients::{ColumnSampleBatch, LineCoeffs, NumeratorAccumulation};
use crate::utils;
use vstd::arithmetic::power2::*;
use vstd::prelude::*;

verus! {

/// An element among the words of elements.
proof fn lemma_felt_found(felts: Seq<fields::SecureField>, k: int)
    requires
        0 <= k < felts.len(),
    ensures
        device_memory::felt_of(columns::felt_words(felts), k) == felts[k]@,
{
    let words = columns::felt_words(felts);
    assert forall|c: int| 0 <= c < 4 implies #[trigger] words[4 * k + c] == felts[k].words()[c] by {
        assert((4 * k + c) / 4 == k && (4 * k + c) % 4 == c);
    }
    assert(words[4 * k] == words[4 * k + 0]);
}

/// A partial numerator in packed accumulations: four coordinates, each `len` words long, from
/// `start` on.
pub open spec fn packed_numerator(words: Seq<u32>, start: int, len: int, j: int) -> fields::Coords {
    fields::Coords {
        c0: words[start + j] as int,
        c1: words[start + len + j] as int,
        c2: words[start + 2 * len + j] as int,
        c3: words[start + 3 * len + j] as int,
    }
}

/// The sum of the first `n` quotients at an index, as a launch finds their parts in the
/// buffers that it binds.  `quotient` takes a partial numerator, the linear term, the
/// coordinates of the sample and those of the domain's point; `place` gives the index of a
/// partial numerator from that of the point, the number's log size and that of the domain.
pub open spec fn quotients_in(
    quotient: spec_fn(fields::Coords, fields::Coords, fields::Coords, fields::Coords, u32, u32) ->
        fields::Coords,
    place: spec_fn(int, int, int) -> int,
    b: Seq<Seq<u32>>,
    log_size: int,
    n: nat,
    i: int,
) -> fields::Coords
    decreases n,
{
    if n == 0 {
        fields::coords_zero()
    } else {
        let k = n - 1;
        quotients_in(quotient, place, b, log_size, k as nat, i).plus(
            quotient(
                packed_numerator(
                    b[2],
                    b[3][k] as int,
                    pow2(b[4][k] as nat) as int,
                    place(i, b[4][k] as int, log_size),
                ),
                device_memory::felt_of(b[5], k),
                device_memory::felt_of(b[6], k),
                device_memory::felt_of(b[7], k),
                b[0][i],
                b[1][i],
            ),
        ).reduced()
    }
}

/// The sum of the quotients of the first `n` batches at a point of the domain.
pub open spec fn quotient_sum(
    quotient: spec_fn(fields::Coords, fields::Coords, fields::Coords, fields::Coords, u32, u32) ->
        fields::Coords,
    place: spec_fn(int, int, int) -> int,
    accs: Seq<NumeratorAccumulation>,
    log_size: int,
    x: u32,
    y: u32,
    n: nat,
    i: int,
) -> fields::Coords
    decreases n,
{
    if n == 0 {
        fields::coords_zero()
    } else {
        let acc = accs[n - 1];
        let numerators = acc.partial_numerators_acc@;
        let log = utils::floor_log2(numerators.len() as int);
        quotient_sum(quotient, place, accs, log_size, x, y, (n - 1) as nat, i).plus(
            quotient(
                numerators[place(i, log as int, log_size)]@,
                acc.first_linear_term_acc@,
                acc.sample_point.x@,
                acc.sample_point.y@,
                x,
                y,
            ),
        ).reduced()
    }
}

/// What the launch for a combination makes of the buffers.
pub open spec fn combine_effect(
    quotient: spec_fn(fields::Coords, fields::Coords, fields::Coords, fields::Coords, u32, u32) ->
        fields::Coords,
    place: spec_fn(int, int, int) -> int,
) -> spec_fn(kernel::DispatchView, Seq<Seq<u32>>) -> Seq<Seq<u32>> {
    |d: kernel::DispatchView, mem: Seq<Seq<u32>>|
        match (d.kernel, d.args[8], d.args[9]) {
            (Kernel::QuotientCombine, Arg::U32(log_size), Arg::U32(n)) => {
                let b = Seq::new(8, |s: int| device_memory::bound(mem, d.args[s]));
                device_memory::with_coords(
                    mem,
                    d.args,
                    10,
                    kernel::launched(d.grid) as nat,
                    |i: int| quotients_in(quotient, place, b, log_size as int, n as nat, i),
                )
            },
            _ => mem,
        }
}

/// The buffers of a combination hold what the sum of the quotients takes.
proof fn lemma_quotients_found(
    quotient: spec_fn(fields::Coords, fields::Coords, fields::Coords, fields::Coords, u32, u32) ->
        fields::Coords,
    place: spec_fn(int, int, int) -> int,
    accs: Seq<NumeratorAccumulation>,
    b: Seq<Seq<u32>>,
    log_size: int,
    n: nat,
    i: int,
)
    requires
        n <= accs.len(),
        packing::words_before(quotients::accumulation_words(accs), accs.len() as int) <= u32::MAX,
        forall|k: int|
            0 <= k < accs.len() ==> (#[trigger] accs[k]).partial_numerators_acc.wf()
                && utils::is_pow2(accs[k].partial_numerators_acc@.len() as int),
        forall|k: int|
            0 <= k < accs.len() ==> 0 <= #[trigger] place(
                i,
                utils::floor_log2(accs[k].partial_numerators_acc@.len() as int) as int,
                log_size,
            ) < accs[k].partial_numerators_acc@.len(),
        b[2] == quotients::accumulation_words(accs).flatten(),
        b[3] == packing::offsets(quotients::accumulation_words(accs)),
        b[4] == quotients::accumulation_log_sizes(accs),
        b[5] == columns::felt_words(
            accs.map_values(|a: NumeratorAccumulation| a.first_linear_term_acc),
        ),
        b[6] == columns::felt_words(
            accs.map_values(|a: NumeratorAccumulation| a.sample_point.x),
        ),
        b[7] == columns::felt_words(
            accs.map_values(|a: NumeratorAccumulation| a.sample_point.y),
        ),
    ensures
        quotients_in(quotient, place, b, log_size, n, i) == quotient_sum(
            quotient,
            place,
            accs,
            log_size,
            b[0][i],
            b[1][i],
            n,
            i,
        ),
    decreases n,
{
    if n > 0 {
        let k = n - 1;
        lemma_quotients_found(quotient, place, accs, b, log_size, k as nat, i);
        let acc = accs[k];
        let col = acc.partial_numerators_acc;
        let log = utils::floor_log2(col@.len() as int);
        let at = place(i, log as int, log_size);
        let words = quotients::accumulation_words(accs);
        let start = packing::words_before(words, k);
        let len = col@.len() as int;
        assert(words[k] == acc.words());
        packing::law_packed_column_found(words, k);
        packing::lemma_words_before_monotone(words, k, accs.len() as int);
        assert(acc.words().len() == 4 * len);
        packing::lemma_words_before_monotone(words, k + 1, accs.len() as int);
        assert(acc.partial_numerators_acc.wf() && utils::is_pow2(len));
        lemma2_to64();
        if log > 32 {
            lemma_pow2_strictly_increases(32, log);
        }
        let part = words.flatten().subrange(start, start + acc.words().len());
        assert(part == acc.words());
        assert(b[3][k] == start);
        assert(b[4][k] == log);
        assert(part[at] == col.c0[at].0);
        assert(part[len + at] == col.c1[at].0);
        assert(part[2 * len + at] == col.c2[at].0);
        assert(part[3 * len + at] == col.c3[at].0);
        assert(packed_numerator(b[2], start, len, at) == col@[at]@);
        lemma_felt_found(
            accs.map_values(|a: NumeratorAccumulation| a.first_linear_term_acc),
            k,
        );
        lemma_felt_found(accs.map_values(|a: NumeratorAccumulation| a.sample_point.x), k);
        lemma_felt_found(accs.map_values(|a: NumeratorAccumulation| a.sample_point.y), k);
    }
}

/// Performing the plan of a combination sums up quotients: the element at index `i` is the
/// sum, over all batches, of the quotient of the batch's partial numerator, linear term and
/// sample at point `i` of the domain.  Nothing else is written.
pub proof fn law_combination_sums_quotients(
    quotient: spec_fn(fields::Coords, fields::Coords, fields::Coords, fields::Coords, u32, u32) ->
        fields::Coords,
    place: spec_fn(int, int, int) -> int,
    accs: Seq<NumeratorAccumulation>,
    lifting_log_size: u32,
    max_group: u64,
    xs: Seq<u32>,
    ys: Seq<u32>,
    mem: Seq<Seq<u32>>,
    i: int,
)
    requires
        lifting_log_size <= 31,
        accs.len() <= u32::MAX,
        packing::words_before(quotients::accumulation_words(accs), accs.len() as int) <= u32::MAX,
        forall|k: int|
            0 <= k < accs.len() ==> (#[trigger] accs[k]).partial_numerators_acc.wf()
                && utils::is_pow2(accs[k].partial_numerators_acc@.len() as int),
        device_memory::loaded(
            quotients::combine_plan(accs, lifting_log_size, max_group).buffers,
            seq![xs, ys],
            mem,
        ),
        0 <= i < pow2(lifting_log_size as nat),
        forall|k: int|
            0 <= k < accs.len() ==> 0 <= #[trigger] place(
                i,
                utils::floor_log2(accs[k].partial_numerators_acc@.len() as int) as int,
                lifting_log_size as int,
            ) < accs[k].partial_numerators_acc@.len(),
    ensures
        ({
            let out = device_memory::perform(
                combine_effect(quotient, place),
                quotients::combine_plan(accs, lifting_log_size, max_group).dispatches,
                mem,
            );
            &&& device_memory::coords_at(
                out,
                8,
                i,
                quotient_sum(
                    quotient,
                    place,
                    accs,
                    lifting_log_size as int,
                    xs[i],
                    ys[i],
                    accs.len(),
                    i,
                ),
            )
            &&& forall|s: int| 0 <= s < 8 ==> #[trigger] out[s] == mem[s]
        }),
{
    let plan = quotients::combine_plan(accs, lifting_log_size, max_group);
    let d = plan.dispatches[0];
    lemma2_to64();
    if lifting_log_size < 31 {
        lemma_pow2_strictly_increases(lifting_log_size as nat, 31);
    }
    device_memory::lemma_perform_one(combine_effect(quotient, place), plan.dispatches, mem);
    let b = Seq::new(8, |s: int| device_memory::bound(mem, d.args[s]));
    assert forall|s: int| 0 <= s < 8 implies #[trigger] b[s] == mem[s] by {
        assert(d.args[s] == kernel::spec_whole(s as usize));
    }
    assert(d.args[8] == Arg::U32(lifting_log_size));
    assert(d.args[9] == Arg::U32(accs.len() as u32));
    assert(d.args[10] == kernel::spec_whole(8));
    assert(d.args[11] == kernel::spec_whole(9));
    assert(d.args[12] == kernel::spec_whole(10));
    assert(d.args[13] == kernel::spec_whole(11));
    assert(mem[0] == xs && mem[1] == ys);
    assert(mem[2] == plan.buffers[2]->Words_0);
    assert(mem[3] == plan.buffers[3]->Words_0);
    assert(mem[4] == plan.buffers[4]->Words_0);
    assert(mem[5] == plan.buffers[5]->Words_0);
    assert(mem[6] == plan.buffers[6]->Words_0);
    assert(mem[7] == plan.buffers[7]->Words_0);
    lemma_quotients_found(
        quotient,
        place,
        accs,
        b,
        lifting_log_size as int,
        accs.len(),
        i,
    );
}

/// The first `m` terms of a partial numerator at a row, as a launch finds their parts in the
/// buffers that it binds.  `term` takes `b` and `c` of a line and the value of its column.
pub open spec fn numerator_in(
    term: spec_fn(fields::Coords, fields::Coords, u32) -> fields::Coords,
    packed: Seq<u32>,
    indices: Seq<u32>,
    lines: Seq<u32>,
    size: int,
    m: nat,
    i: int,
) -> fields::Coords
    decreases m,
{
    if m == 0 {
        fields::coords_zero()
    } else {
        let k = m - 1;
        numerator_in(term, packed, indices, lines, size, k as nat, i).plus(
            term(
                device_memory::felt_of(lines, 2 * k),
                device_memory::felt_of(lines, 2 * k + 1),
                packed[indices[k] * size + i],
            ),
        ).reduced()
    }
}

/// The first `m` terms of the partial numerator of a batch at a row.
pub open spec fn numerator_sum(
    term: spec_fn(fields::Coords, fields::Coords, u32) -> fields::Coords,
    cols: Seq<Seq<u32>>,
    indices: Seq<usize>,
    coeffs: Seq<LineCoeffs>,
    m: nat,
    i: int,
) -> fields::Coords
    decreases m,
{
    if m == 0 {
        fields::coords_zero()
    } else {
        let k = m - 1;
        numerator_sum(term, cols, indices, coeffs, k as nat, i).plus(
            term(coeffs[k].b@, coeffs[k].c@, cols[indices[k] as int][i]),
        ).reduced()
    }
}

/// What the launch for the partial numerators of a batch makes of the buffers.
pub open spec fn numerators_effect(
    term: spec_fn(fields::Coords, fields::Coords, u32) -> fields::Coords,
) -> spec_fn(kernel::DispatchView, Seq<Seq<u32>>) -> Seq<Seq<u32>> {
    |d: kernel::DispatchView, mem: Seq<Seq<u32>>|
        match (d.kernel, d.args[3], d.args[4]) {
            (Kernel::QuotientPartialNumerator, Arg::U32(size), Arg::U32(m)) => {
                let packed = device_memory::bound(mem, d.args[0]);
                let indices = device_memory::bound(mem, d.args[1]);
                let lines = device_memory::bound(mem, d.args[2]);
                device_memory::with_coords(
                    mem,
                    d.args,
                    5,
                    kernel::launched(d.grid) as nat,
                    |i: int|
                        numerator_in(term, packed, indices, lines, size as int, m as nat, i),
                )
            },
            _ => mem,
        }
}

/// Columns of one length have as many words before one as that many lengths.
proof fn lemma_words_before_equal(cols: Seq<Seq<u32>>, size: nat, k: int)
    requires
        0 <= k <= cols.len(),
        forall|c: int| 0 <= c < cols.len() ==> (#[trigger] cols[c]).len() == size,
    ensures
        packing::words_before(cols, k) == k * size,
    decreases k,
{
    if k > 0 {
        lemma_words_before_equal(cols, size, k - 1);
        assert(cols[k - 1].len() == size);
        assert((k - 1) * size + size == k * size) by (nonlinear_arith);
    } else {
        assert(k * size == 0) by (nonlinear_arith)
            requires
                k == 0,
        ;
    }
}

/// The two elements of a line among the words of lines.
proof fn lemma_line_found(coeffs: Seq<LineCoeffs>, k: int)
    requires
        0 <= k < coeffs.len(),
    ensures
        device_memory::felt_of(quotients::bc_words(coeffs), 2 * k) == coeffs[k].b@,
        device_memory::felt_of(quotients::bc_words(coeffs), 2 * k + 1) == coeffs[k].c@,
{
    let parts = coeffs.map_values(|l: LineCoeffs| l.b.words() + l.c.words());
    assert forall|c: int| 0 <= c < parts.len() implies (#[trigger] parts[c]).len() == 8 by {}
    lemma_words_before_equal(parts, 8, k);
    packing::law_packed_column_found(parts, k);
    let part = parts.flatten().subrange(8 * k, 8 * k + 8);
    assert(part == coeffs[k].b.words() + coeffs[k].c.words());
    assert(part[0] == coeffs[k].b.c0.0 && part[1] == coeffs[k].b.c1.0);
    assert(part[2] == coeffs[k].b.c2.0 && part[3] == coeffs[k].b.c3.0);
    assert(part[4] == coeffs[k].c.c0.0 && part[5] == coeffs[k].c.c1.0);
    assert(part[6] == coeffs[k].c.c2.0 && part[7] == coeffs[k].c.c3.0);
}

/// Columns that a batch samples: each is there, and has a line.
pub open spec fn samples_columns(
    cols: Seq<Seq<u32>>,
    batch: ColumnSampleBatch,
    coeffs: Seq<LineCoeffs>,
) -> bool {
    &&& batch.column_indices@.len() == coeffs.len()
    &&& coeffs.len() <= u32::MAX
    &&& forall|c: int|
        0 <= c < batch.column_indices@.len() ==> (#[trigger] batch.column_indices@[c])
            < cols.len()
}

/// The buffers of a batch hold what its partial numerators take.
proof fn lemma_numerator_found(
    term: spec_fn(fields::Coords, fields::Coords, u32) -> fields::Coords,
    cols: Seq<Seq<u32>>,
    batch: ColumnSampleBatch,
    coeffs: Seq<LineCoeffs>,
    size: nat,
    m: nat,
    i: int,
)
    requires
        m <= coeffs.len(),
        cols.len() <= u32::MAX,
        forall|c: int| 0 <= c < cols.len() ==> (#[trigger] cols[c]).len() == size,
        samples_columns(cols, batch, coeffs),
        0 <= i < size,
    ensures
        numerator_in(
            term,
            cols.flatten(),
            quotients::index_words(batch.column_indices@),
            quotients::bc_words(coeffs),
            size as int,
            m,
            i,
        ) == numerator_sum(term, cols, batch.column_indices@, coeffs, m, i),
    decreases m,
{
    if m > 0 {
        let k = m - 1;
        lemma_numerator_found(term, cols, batch, coeffs, size, k as nat, i);
        lemma_line_found(coeffs, k);
        let c = batch.column_indices@[k] as int;
        assert(quotients::index_words(batch.column_indices@)[k] == c);
        lemma_words_before_equal(cols, size, c);
        packing::law_packed_column_found(cols, c);
        assert(cols[c].len() == size);
        let start = c * size;
        assert(cols.flatten().subrange(start, start + size)[i] == cols[c][i]);
    }
}

/// The buffers of a plan for partial numerators hold the columns, and the indices and lines
/// of each batch.
spec fn holds_batches(
    cols: Seq<Seq<u32>>,
    batches: Seq<ColumnSampleBatch>,
    line_coeffs: Seq<Vec<LineCoeffs>>,
    mem: Seq<Seq<u32>>,
) -> bool {
    &&& mem.len() == 6 * batches.len() + 1
    &&& mem[0] == cols.flatten()
    &&& forall|t: int|
        #![trigger batches[t]]
        0 <= t < batches.len() ==> {
            &&& mem[6 * t + 1] == quotients::index_words(batches[t].column_indices@)
            &&& mem[6 * t + 2] == quotients::bc_words(line_coeffs[t]@)
        }
}

/// The sources of the buffers of a plan for partial numerators.
proof fn lemma_batch_sources(
    cols: Seq<Seq<u32>>,
    batches: Seq<ColumnSampleBatch>,
    line_coeffs: Seq<Vec<LineCoeffs>>,
    size: nat,
    max_group: u64,
    n: nat,
    t: int,
)
    ensures
        ({
            let buffers = quotients::numerators_plan(
                cols,
                batches,
                line_coeffs,
                size,
                max_group,
                n,
            ).buffers;
            &&& buffers.len() == 6 * n + 1
            &&& buffers[0] == kernel::SourceView::Words(cols.flatten())
            &&& 0 <= t < n ==> {
                &&& buffers[6 * t + 1] == kernel::SourceView::Words(
                    quotients::index_words(batches[t].column_indices@),
                )
                &&& buffers[6 * t + 2] == kernel::SourceView::Words(
                    quotients::bc_words(line_coeffs[t]@),
                )
            }
        }),
    decreases n,
{
    if n > 0 {
        lemma_batch_sources(cols, batches, line_coeffs, size, max_group, (n - 1) as nat, t);
    }
}

/// The rows of the batches that the first `n` launches have computed.
#[verifier::spinoff_prover]
proof fn lemma_numerators_performed(
    term: spec_fn(fields::Coords, fields::Coords, u32) -> fields::Coords,
    cols: Seq<Seq<u32>>,
    batches: Seq<ColumnSampleBatch>,
    line_coeffs: Seq<Vec<LineCoeffs>>,
    size: nat,
    max_group: u64,
    mem: Seq<Seq<u32>>,
    n: nat,
    t: int,
    i: int,
)
    requires
        n <= batches.len(),
        6 * batches.len() + 1 <= usize::MAX,
        cols.len() <= u32::MAX,
        size <= 0x8000_0000,
        forall|c: int| 0 <= c < cols.len() ==> (#[trigger] cols[c]).len() == size,
        forall|k: int|
            #![trigger batches[k]]
            0 <= k < batches.len() ==> samples_columns(cols, batches[k], line_coeffs[k]@),
        holds_batches(cols, batches, line_coeffs, mem),
        0 <= i < size,
    ensures
        ({
            let out = device_memory::perform(
                numerators_effect(term),
                quotients::numerators_plan(
                    cols,
                    batches,
                    line_coeffs,
                    size,
                    max_group,
                    n,
                ).dispatches,
                mem,
            );
            &&& holds_batches(cols, batches, line_coeffs, out)
            &&& 0 <= t < n ==> device_memory::coords_at(
                out,
                6 * t + 3,
                i,
                numerator_sum(
                    term,
                    cols,
                    batches[t].column_indices@,
                    line_coeffs[t]@,
                    line_coeffs[t]@.len(),
                    i,
                ),
            )
        }),
    decreases n,
{
    let plan = quotients::numerators_plan(cols, batches, line_coeffs, size, max_group, n);
    if n > 0 {
        let k = n - 1;
        let before = quotients::numerators_plan(
            cols,
            batches,
            line_coeffs,
            size,
            max_group,
            k as nat,
        );
        lemma_numerators_performed(
            term,
            cols,
            batches,
            line_coeffs,
            size,
            max_group,
            mem,
            k as nat,
            t,
            i,
        );
        lemma_batch_sources(cols, batches, line_coeffs, size, max_group, k as nat, 0);
        assert(plan.dispatches.drop_last() =~= before.dispatches);
        let d = plan.dispatches.last();
        let m = device_memory::perform(numerators_effect(term), before.dispatches, mem);
        let out = device_memory::perform(numerators_effect(term), plan.dispatches, mem);
        assert(out == numerators_effect(term)(d, m));
        assert(samples_columns(cols, batches[k], line_coeffs[k]@));
        assert(d.args[0] == kernel::spec_whole(0));
        assert(d.args[1] == kernel::spec_whole((6 * k + 1) as usize));
        assert(d.args[2] == kernel::spec_whole((6 * k + 2) as usize));
        assert(d.args[3] == Arg::U32(size as u32));
        assert(d.args[4] == Arg::U32(line_coeffs[k]@.len() as u32));
        assert(d.args[5] == kernel::spec_whole((6 * k + 3) as usize));
        assert(d.args[6] == kernel::spec_whole((6 * k + 4) as usize));
        assert(d.args[7] == kernel::spec_whole((6 * k + 5) as usize));
        assert(d.args[8] == kernel::spec_whole((6 * k + 6) as usize));
        lemma_numerator_found(
            term,
            cols,
            batches[k],
            line_coeffs[k]@,
            size,
            line_coeffs[k]@.len(),
            i,
        );
        assert forall|s: int| 0 <= s < m.len() && !(6 * k + 3 <= s < 6 * k + 7) implies
            #[trigger] out[s] == m[s] by {}
        assert(out.len() == m.len());
        assert(out[0] == m[0]);
        assert forall|b: int|
            #![trigger batches[b]]
            0 <= b < batches.len() implies {
            &&& out[6 * b + 1] == quotients::index_words(batches[b].column_indices@)
            &&& out[6 * b + 2] == quotients::bc_words(line_coeffs[b]@)
        } by {
            let batch = batches[b];
            assert(holds_batches(cols, batches, line_coeffs, m));
            assert(m[6 * b + 1] == quotients::index_words(batch.column_indices@));
            assert(m[6 * b + 2] == quotients::bc_words(line_coeffs[b]@));
            assert(out[6 * b + 1] == m[6 * b + 1]);
            assert(out[6 * b + 2] == m[6 * b + 2]);
        }
        assert(holds_batches(cols, batches, line_coeffs, out));
    }
}

/// Performing the plan of partial numerators sums up, for each batch and row, the terms of
/// the columns that the batch samples: the four buffers of batch `t` hold its sums, whatever
/// the other batches are.
pub proof fn law_numerators_sum_samples(
    term: spec_fn(fields::Coords, fields::Coords, u32) -> fields::Coords,
    cols: Seq<Seq<u32>>,
    batches: Seq<ColumnSampleBatch>,
    line_coeffs: Seq<Vec<LineCoeffs>>,
    size: nat,
    max_group: u64,
    mem: Seq<Seq<u32>>,
    t: int,
    i: int,
)
    requires
        6 * batches.len() + 1 <= usize::MAX,
        cols.len() <= u32::MAX,
        size <= 0x8000_0000,
        forall|c: int| 0 <= c < cols.len() ==> (#[trigger] cols[c]).len() == size,
        forall|k: int|
            #![trigger batches[k]]
            0 <= k < batches.len() ==> samples_columns(cols, batches[k], line_coeffs[k]@),
        device_memory::loaded(
            quotients::numerators_plan(
                cols,
                batches,
                line_coeffs,
                size,
                max_group,
                batches.len(),
            ).buffers,
            Seq::empty(),
            mem,
        ),
        0 <= t < batches.len(),
        0 <= i < size,
    ensures
        device_memory::coords_at(
            device_memory::perform(
                numerators_effect(term),
                quotients::numerators_plan(
                    cols,
                    batches,
                    line_coeffs,
                    size,
                    max_group,
                    batches.len(),
                ).dispatches,
                mem,
            ),
            6 * t + 3,
            i,
            numerator_sum(
                term,
                cols,
                batches[t].column_indices@,
                line_coeffs[t]@,
                line_coeffs[t]@.len(),
                i,
            ),
        ),
{
    lemma_batch_sources(cols, batches, line_coeffs, size, max_group, batches.len(), 0);
    assert(mem[0] == cols.flatten());
    assert forall|k: int|
        #![trigger batches[k]]
        0 <= k < batches.len() implies {
        &&& mem[6 * k + 1] == quotients::index_words(batches[k].column_indices@)
        &&& mem[6 * k + 2] == quotients::bc_words(line_coeffs[k]@)
    } by {
        lemma_batch_sources(cols, batches, line_coeffs, size, max_group, batches.len(), k);
    }
    lemma_numerators_performed(
        term,
        cols,
        batches,
        line_coeffs,
        size,
        max_group,
        mem,
        batches.len(),
        t,
        i,
    );
}

} // verus!
