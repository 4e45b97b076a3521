//! What performing the plan of a transform leaves in the buffers of the device.
//!
//! A launch of a transform kernel works on the part of a buffer that it binds, in place, and
//! leaves everything else as it is.

use crate::butterflies;
use crate::columns;
use crate::device_memory;
use crate::fft_schedule;
use crate::fft_schedule::FftStep;
use crate::fields;
use crate::fields::{BaseField, P};
use crate::kernel;
use crate::kernel::{Arg, Kernel};
use crate::planned_transform;
use crate::point_evaluation;
use crate::poly;
use crate::thresholds::MIN_FFT_LOG_SIZE;
use crate::utils;
use vstd::arithmetic::div_mod::*;
use vstd::arithmetic::mul::*;
use vstd::arithmetic::power2::*;
use vstd::prelude::*;

verus! {

/// Words as numbers.
pub open spec fn ints(words: Seq<u32>) -> Seq<int> {
    words.map_values(|w: u32| w as int)
}

/// Numbers as words.
pub open spec fn to_words(column: Seq<int>) -> Seq<u32> {
    column.map_values(|v: int| v as u32)
}

/// Words of which a part is replaced.
pub open spec fn spliced(words: Seq<u32>, start: int, part: Seq<u32>) -> Seq<u32> {
    Seq::new(
        words.len(),
        |i: int|
            if start <= i < start + part.len() {
                part[i - start]
            } else {
                words[i]
            },
    )
}

/// The words in the buffers, as the buffers of a plan.
pub open spec fn as_sources(mem: Seq<Seq<u32>>) -> Seq<kernel::SourceView> {
    mem.map_values(|w: Seq<u32>| kernel::SourceView::Words(w))
}

/// The kernel is one of the transforms'.
pub open spec fn is_transform(k: Kernel) -> bool {
    match k {
        Kernel::FftRadix2 | Kernel::FftRadix8 | Kernel::FftVecwiseFused | Kernel::IfftRadix2
        | Kernel::IfftNormalize => true,
        _ => false,
    }
}

/// The log size that a launch of a layer is told.
pub open spec fn log_arg(d: kernel::DispatchView) -> int {
    match d.kernel {
        Kernel::FftRadix8 => planned_transform::arg_number(d.args[4]),
        Kernel::FftVecwiseFused => planned_transform::arg_number(d.args[5]),
        _ => planned_transform::arg_number(d.args[2]),
    }
}

/// Number of words that a launch works on.
pub open spec fn data_len(d: kernel::DispatchView) -> int {
    match d.kernel {
        Kernel::IfftNormalize => planned_transform::arg_number(d.args[2]),
        _ => pow2(log_arg(d) as nat) as int,
    }
}

/// Number of threads that a launch needs: one for each value, pair or eight values.
pub open spec fn threads_needed(d: kernel::DispatchView) -> int {
    match d.kernel {
        Kernel::IfftNormalize => data_len(d),
        Kernel::FftRadix8 => pow2((log_arg(d) - 3) as nat) as int,
        _ => pow2((log_arg(d) - 1) as nat) as int,
    }
}

/// The word of a buffer that an argument starts at.
pub open spec fn start_of(arg: Arg) -> int {
    match arg {
        Arg::Buffer { offset, .. } => offset as int / 4,
        _ => 0,
    }
}

/// What a launch of a transform kernel makes of the buffers, where it has threads enough.
pub open spec fn transform_effect() -> spec_fn(
    kernel::DispatchView,
    Seq<Seq<u32>>,
) -> Seq<Seq<u32>> {
    |d: kernel::DispatchView, mem: Seq<Seq<u32>>|
        if is_transform(d.kernel) && kernel::launched(d.grid) >= threads_needed(d) {
            let slot = device_memory::slot_of(d.args[0]);
            let start = start_of(d.args[0]);
            let column = ints(mem[slot].subrange(start, start + data_len(d)));
            let out = planned_transform::perform_launch(as_sources(mem), d, column);
            mem.update(slot, spliced(mem[slot], start, to_words(out)))
        } else {
            mem
        }
}

/// The arguments of a launch that bind twiddle factors.
pub open spec fn twiddle_args(d: kernel::DispatchView) -> Seq<Arg> {
    match d.kernel {
        Kernel::IfftRadix2 => seq![d.args[1]],
        Kernel::IfftNormalize => Seq::empty(),
        _ => planned_transform::kernel_layers(d).map_values(|l: (int, Arg)| l.1),
    }
}

/// The twiddle factors of a launch are in buffers other than the data's, as they were made.
pub open spec fn bound_as_made(
    d: kernel::DispatchView,
    sources: Seq<kernel::SourceView>,
    mem: Seq<Seq<u32>>,
    slot: int,
) -> bool {
    forall|k: int|
        0 <= k < twiddle_args(d).len() ==> match #[trigger] twiddle_args(d)[k] {
            Arg::Buffer { slot: s, .. } => {
                &&& s < mem.len()
                &&& s != slot
                &&& mem[s as int] == planned_transform::source_words(sources[s as int])
            },
            _ => false,
        }
}

/// A launch works on `2^log` words from `start` on, with threads enough.
pub open spec fn works_on(d: kernel::DispatchView, slot: int, start: int, log: nat) -> bool {
    &&& is_transform(d.kernel)
    &&& kernel::launched(d.grid) >= threads_needed(d)
    &&& device_memory::slot_of(d.args[0]) == slot
    &&& start_of(d.args[0]) == start
    &&& data_len(d) == pow2(log)
}

/// All numbers of a column fit in words.
pub open spec fn fit_words(column: Seq<int>) -> bool {
    forall|i: int| 0 <= i < column.len() ==> 0 <= #[trigger] column[i] <= u32::MAX
}

/// Layers with bound factors depend on the bound words only, and give field elements.
proof fn lemma_layers_by_memory(
    a: Seq<kernel::SourceView>,
    b: Seq<kernel::SourceView>,
    layers: Seq<(int, Arg)>,
    c: Seq<int>,
)
    requires
        forall|k: int|
            #![trigger layers[k]]
            0 <= k < layers.len() ==> planned_transform::arg_words(a, layers[k].1)
                == planned_transform::arg_words(b, layers[k].1),
        fit_words(c),
    ensures
        planned_transform::perform_layers(a, layers, c) == planned_transform::perform_layers(
            b,
            layers,
            c,
        ),
        planned_transform::perform_layers(b, layers, c).len() == c.len(),
        fit_words(planned_transform::perform_layers(b, layers, c)),
    decreases layers.len(),
{
    if layers.len() > 0 {
        assert forall|k: int|
            #![trigger layers.drop_last()[k]]
            0 <= k < layers.drop_last().len() implies planned_transform::arg_words(
            a,
            layers.drop_last()[k].1,
        ) == planned_transform::arg_words(b, layers.drop_last()[k].1) by {
            assert(layers[k] == layers.drop_last()[k]);
        }
        lemma_layers_by_memory(a, b, layers.drop_last(), c);
        assert(layers[layers.len() - 1] == layers.last());
        lemma_butterflies_fit_words(
            planned_transform::word_factors(
                planned_transform::arg_words(b, layers.last().1),
            ),
            layers.last().0,
            planned_transform::perform_layers(b, layers.drop_last(), c),
        );
    }
}

proof fn lemma_butterflies_fit_words(tw: spec_fn(int, int) -> int, l: int, c: Seq<int>)
    ensures
        butterflies::butterflies(tw)(l, c).len() == c.len(),
        fit_words(butterflies::butterflies(tw)(l, c)),
        butterflies::inverse_butterflies(tw)(l, c).len() == c.len(),
        fit_words(butterflies::inverse_butterflies(tw)(l, c)),
{
}

/// A launch depends on the memory through its twiddle factors only, and gives as many words.
proof fn lemma_launch_by_memory(
    d: kernel::DispatchView,
    sources: Seq<kernel::SourceView>,
    mem: Seq<Seq<u32>>,
    slot: int,
    c: Seq<int>,
)
    requires
        is_transform(d.kernel),
        bound_as_made(d, sources, mem, slot),
        fit_words(c),
    ensures
        planned_transform::perform_launch(as_sources(mem), d, c)
            == planned_transform::perform_launch(sources, d, c),
        planned_transform::perform_launch(sources, d, c).len() == c.len(),
        fit_words(planned_transform::perform_launch(sources, d, c)),
{
    let here = as_sources(mem);
    assert forall|k: int| 0 <= k < twiddle_args(d).len() implies planned_transform::arg_words(
        here,
        #[trigger] twiddle_args(d)[k],
    ) == planned_transform::arg_words(sources, twiddle_args(d)[k]) by {}
    match d.kernel {
        Kernel::IfftRadix2 => {
            assert(twiddle_args(d)[0] == d.args[1]);
            lemma_butterflies_fit_words(
                planned_transform::word_factors(planned_transform::arg_words(sources, d.args[1])),
                planned_transform::arg_number(d.args[3]),
                c,
            );
        },
        Kernel::IfftNormalize => {},
        _ => {
            let layers = planned_transform::kernel_layers(d);
            assert forall|k: int|
                #![trigger layers[k]]
                0 <= k < layers.len() implies planned_transform::arg_words(here, layers[k].1)
                == planned_transform::arg_words(sources, layers[k].1) by {
                assert(twiddle_args(d)[k] == layers[k].1);
            }
            lemma_layers_by_memory(here, sources, layers, c);
        },
    }
}

/// A part that is put in and taken out again.
proof fn lemma_splice(words: Seq<u32>, start: int, a: Seq<int>, b: Seq<int>)
    requires
        0 <= start,
        start + a.len() <= words.len(),
        a.len() == b.len(),
        fit_words(a),
    ensures
        spliced(words, start, to_words(a)).len() == words.len(),
        ints(
            spliced(words, start, to_words(a)).subrange(start, start + a.len()),
        ) == a,
        spliced(spliced(words, start, to_words(a)), start, to_words(b)) == spliced(
            words,
            start,
            to_words(b),
        ),
{
    let once = spliced(words, start, to_words(a));
    assert(ints(once.subrange(start, start + a.len())) =~= a);
    assert(spliced(once, start, to_words(b)) =~= spliced(words, start, to_words(b)));
}

/// Launches that work on one part of a buffer make of it what they make of the column that
/// is there, and leave everything else as it is.
proof fn lemma_launches_on_memory(
    ds: Seq<kernel::DispatchView>,
    sources: Seq<kernel::SourceView>,
    mem: Seq<Seq<u32>>,
    slot: int,
    start: int,
    log: nat,
)
    requires
        0 <= slot < mem.len(),
        0 <= start,
        start + pow2(log) <= mem[slot].len(),
        forall|k: int|
            #![trigger ds[k]]
            0 <= k < ds.len() ==> works_on(ds[k], slot, start, log) && bound_as_made(
                ds[k],
                sources,
                mem,
                slot,
            ),
    ensures
        ({
            let column = ints(mem[slot].subrange(start, start + pow2(log)));
            let out = planned_transform::perform(sources, ds, column);
            &&& out.len() == pow2(log)
            &&& fit_words(out)
            &&& device_memory::perform(transform_effect(), ds, mem) == mem.update(
                slot,
                spliced(mem[slot], start, to_words(out)),
            )
        }),
    decreases ds.len(),
{
    let n = pow2(log) as int;
    let column = ints(mem[slot].subrange(start, start + n));
    assert(fit_words(column));
    let f = transform_effect();
    if ds.len() == 0 {
        assert(spliced(mem[slot], start, to_words(column)) =~= mem[slot]);
        assert(mem.update(slot, mem[slot]) =~= mem);
    } else {
        let init = ds.drop_last();
        let d = ds.last();
        assert(ds[ds.len() - 1] == d);
        assert forall|k: int| #![trigger init[k]] 0 <= k < init.len() implies works_on(
            init[k],
            slot,
            start,
            log,
        ) && bound_as_made(init[k], sources, mem, slot) by {
            assert(init[k] == ds[k]);
        }
        lemma_launches_on_memory(init, sources, mem, slot, start, log);
        let inner = planned_transform::perform(sources, init, column);
        let mid = mem.update(slot, spliced(mem[slot], start, to_words(inner)));
        assert forall|k: int| 0 <= k < twiddle_args(d).len() implies match #[trigger] twiddle_args(
            d,
        )[k] {
            Arg::Buffer { slot: s, .. } => {
                &&& s < mid.len()
                &&& s != slot
                &&& mid[s as int] == planned_transform::source_words(sources[s as int])
            },
            _ => false,
        } by {}
        lemma_launch_by_memory(d, sources, mid, slot, inner);
        let out = planned_transform::perform_launch(sources, d, inner);
        lemma_splice(mem[slot], start, inner, out);
        assert(mid.update(slot, spliced(mid[slot], start, to_words(out))) =~= mem.update(
            slot,
            spliced(mem[slot], start, to_words(out)),
        ));
        assert(f(d, mid) == mid.update(slot, spliced(mid[slot], start, to_words(out))));
    }
}

/// The buffers of a plan from number `first` on that are made with words hold these words.
pub open spec fn holds_from(
    buffers: Seq<kernel::SourceView>,
    first: int,
    mem: Seq<Seq<u32>>,
) -> bool {
    &&& buffers.len() <= mem.len()
    &&& forall|s: int|
        #![trigger mem[s]]
        first <= s < buffers.len() ==> match buffers[s] {
            kernel::SourceView::Words(_) | kernel::SourceView::CachedWords(_)
            | kernel::SourceView::FlatWords(_) => mem[s] == planned_transform::source_words(
                buffers[s],
            ),
            _ => true,
        }
}

/// Buffers hold their words as a plan starts.
proof fn lemma_loaded_holds(
    buffers: Seq<kernel::SourceView>,
    inputs: Seq<Seq<u32>>,
    mem: Seq<Seq<u32>>,
)
    requires
        device_memory::loaded(buffers, inputs, mem),
    ensures
        holds_from(buffers, 0, mem),
{
}

/// Launches one after the other.
proof fn lemma_perform_concat(
    effect: spec_fn(kernel::DispatchView, Seq<Seq<u32>>) -> Seq<Seq<u32>>,
    a: Seq<kernel::DispatchView>,
    b: Seq<kernel::DispatchView>,
    mem: Seq<Seq<u32>>,
)
    ensures
        device_memory::perform(effect, a + b, mem) == device_memory::perform(
            effect,
            b,
            device_memory::perform(effect, a, mem),
        ),
    decreases b.len(),
{
    if b.len() == 0 {
        assert(a + b =~= a);
    } else {
        assert((a + b).drop_last() =~= a + b.drop_last());
        lemma_perform_concat(effect, a, b.drop_last(), mem);
    }
}

/// A grid with a thread for every `2^k` points has threads enough.
proof fn lemma_fft_grid(log_size: u32, k: int)
    requires
        0 <= k <= log_size <= 31,
    ensures
        kernel::launched(poly::fft_grid(log_size, k)) >= pow2((log_size - k) as nat),
{
    lemma2_to64();
    if log_size - k < 31 {
        lemma_pow2_strictly_increases((log_size - k) as nat, 31);
    }
    kernel::law_groups_cover_threads(pow2((log_size - k) as nat) as u64);
}

/// A step's launch works on the data, with twiddle factors from the step's own buffer.
proof fn lemma_step_works(
    step: FftStep,
    tw: Seq<Seq<u32>>,
    data_slot: usize,
    start: int,
    slot: usize,
    log_size: u32,
    sources: Seq<kernel::SourceView>,
    mem: Seq<Seq<u32>>,
)
    requires
        3 <= log_size <= 31,
        0 <= start,
        4 * start <= u64::MAX,
        slot < mem.len(),
        slot != data_slot,
        sources[slot as int] == poly::fft_step_source(step, tw),
        mem[slot as int] == planned_transform::source_words(sources[slot as int]),
    ensures
        ({
            let data = Arg::Buffer { slot: data_slot, offset: (4 * start) as u64 };
            let d = poly::fft_step_dispatch(step, tw, data, slot, log_size);
            &&& works_on(d, data_slot as int, start, log_size as nat)
            &&& bound_as_made(d, sources, mem, data_slot as int)
        }),
{
    let data = Arg::Buffer { slot: data_slot, offset: (4 * start) as u64 };
    let d = poly::fft_step_dispatch(step, tw, data, slot, log_size);
    lemma_fft_grid(log_size, 1);
    lemma_fft_grid(log_size, 3);
    assert((4 * start) as u64 as int / 4 == start);
    assert(d.args[0] == data);
    assert forall|k: int| 0 <= k < twiddle_args(d).len() implies match #[trigger] twiddle_args(
        d,
    )[k] {
        Arg::Buffer { slot: s, .. } => s == slot,
        _ => false,
    } by {
        match step {
            FftStep::Radix2 { .. } => {},
            FftStep::Radix8 { .. } => {},
            FftStep::VecwiseFused => {},
            FftStep::Circle => {},
        }
    }
}

/// What the transform makes of a column.
pub open spec fn transformed(tw: Seq<Seq<u32>>, column: Seq<int>) -> Seq<int> {
    fft_schedule::apply_layers(
        butterflies::butterflies(planned_transform::layer_factors(tw)),
        fft_schedule::layers_of(fft_schedule::fft_steps(tw.len() as int)),
        column,
    )
}

/// Performing a planned transform transforms the part of the buffer that it is for, and
/// leaves everything else as it is.
pub proof fn law_transform_in_place(
    before: kernel::PlanView,
    data_slot: usize,
    start: int,
    log_size: u32,
    tw: Seq<Seq<u32>>,
    mem: Seq<Seq<u32>>,
)
    requires
        planned_transform::complete(tw, log_size as nat),
        data_slot < before.buffers.len(),
        0 <= start,
        4 * start <= u64::MAX,
        before.buffers.len() + fft_schedule::fft_steps(tw.len() as int).len() <= usize::MAX,
        holds_from(
            poly::with_fft(
                before,
                Arg::Buffer { slot: data_slot, offset: (4 * start) as u64 },
                log_size,
                tw,
            ).buffers,
            before.buffers.len() as int,
            mem,
        ),
        start + pow2(log_size as nat) <= mem[data_slot as int].len(),
    ensures
        ({
            let data = Arg::Buffer { slot: data_slot, offset: (4 * start) as u64 };
            let plan = poly::with_fft(before, data, log_size, tw);
            let part = mem[data_slot as int].subrange(start, start + pow2(log_size as nat));
            let out = transformed(tw, ints(part));
            &&& out.len() == part.len()
            &&& fit_words(out)
            &&& device_memory::perform(
                transform_effect(),
                plan.dispatches.skip(before.dispatches.len() as int),
                mem,
            ) == mem.update(
                data_slot as int,
                spliced(mem[data_slot as int], start, to_words(out)),
            )
        }),
{
    let data = Arg::Buffer { slot: data_slot, offset: (4 * start) as u64 };
    let plan = poly::with_fft(before, data, log_size, tw);
    let ds = plan.dispatches.skip(before.dispatches.len() as int);
    let steps = fft_schedule::fft_steps(tw.len() as int);
    let n = before.buffers.len() as int;
    assert forall|k: int| #![trigger ds[k]] 0 <= k < ds.len() implies works_on(
        ds[k],
        data_slot as int,
        start,
        log_size as nat,
    ) && bound_as_made(ds[k], plan.buffers, mem, data_slot as int) by {
        assert(ds[k] == poly::fft_step_dispatch(steps[k], tw, data, (n + k) as usize, log_size));
        assert(plan.buffers[n + k] == poly::fft_step_source(steps[k], tw));
        assert(mem[n + k] == planned_transform::source_words(plan.buffers[n + k]));
        lemma_step_works(
            steps[k],
            tw,
            data_slot,
            start,
            (n + k) as usize,
            log_size,
            plan.buffers,
            mem,
        );
    }
    lemma_launches_on_memory(ds, plan.buffers, mem, data_slot as int, start, log_size as nat);
    let part = mem[data_slot as int].subrange(start, start + pow2(log_size as nat));
    planned_transform::law_plan_performs_transform(before, data, log_size, tw, ints(part));
}

/// The values of a polynomial on a domain of `num` subdomains, of which the first `k` are
/// done: those of a subdomain are the transformed coefficients.
pub open spec fn evaluated_upto(
    words: Seq<u32>,
    log_size: int,
    num: nat,
    tw: Seq<Seq<u32>>,
    k: int,
) -> Seq<u32> {
    let n = words.len() as int;
    Seq::new(
        num * words.len(),
        |g: int|
            if g / n < k {
                transformed(poly::subdomain_twiddles(tw, log_size, g / n), ints(words))[g
                    % n] as u32
            } else {
                words[g % n]
            },
    )
}

/// The values of a polynomial on a domain of `num` subdomains.
pub open spec fn evaluated(words: Seq<u32>, log_size: int, num: nat, tw: Seq<Seq<u32>>) -> Seq<
    u32,
> {
    evaluated_upto(words, log_size, num, tw, num as int)
}

/// The twiddle factors of a subdomain are complete.
proof fn lemma_subdomain_complete(tw: Seq<Seq<u32>>, log_size: nat, num: int, idx: int)
    requires
        3 <= log_size <= 31,
        poly::domain_twiddles_ok(tw, log_size as int, num),
        0 <= idx < num,
    ensures
        planned_transform::complete(poly::subdomain_twiddles(tw, log_size as int, idx), log_size),
{
    let sub = poly::subdomain_twiddles(tw, log_size as int, idx);
    assert forall|k: int| #![trigger sub[k]] 0 <= k < sub.len() implies sub[k].len() == pow2(
        (log_size - 2 - k) as nat,
    ) by {
        planned_transform::lemma_subdomain_layer(tw, log_size, num, idx, k);
    }
}

/// Index `idx * n + i` lies in part `idx`, at place `i`.
proof fn lemma_place(idx: int, n: int, i: int, num: int)
    requires
        0 <= i < n,
        0 <= idx < num,
    ensures
        (idx * n + i) / n == idx,
        (idx * n + i) % n == i,
        0 <= idx * n,
        idx * n + n <= num * n,
{
    lemma_mul_is_commutative(idx, n);
    lemma_fundamental_div_mod_converse(idx * n + i, n, idx, i);
    assert(0 <= idx * n && idx * n + n <= num * n) by (nonlinear_arith)
        requires
            0 <= idx < num,
            n > 0,
    ;
}

/// Putting the values of a subdomain in its part.
proof fn lemma_next_subdomain(
    words: Seq<u32>,
    log_size: int,
    num: nat,
    tw: Seq<Seq<u32>>,
    idx: int,
)
    requires
        0 <= idx < num,
        words.len() > 0,
        transformed(poly::subdomain_twiddles(tw, log_size, idx), ints(words)).len() == words.len(),
    ensures
        ({
            let n = words.len() as int;
            let was = evaluated_upto(words, log_size, num, tw, idx);
            &&& 0 <= idx * n
            &&& idx * n + n <= was.len()
            &&& was.subrange(idx * n, idx * n + n) == words
            &&& spliced(
                was,
                idx * n,
                to_words(transformed(poly::subdomain_twiddles(tw, log_size, idx), ints(words))),
            ) == evaluated_upto(words, log_size, num, tw, idx + 1)
        }),
{
    let n = words.len() as int;
    let was = evaluated_upto(words, log_size, num, tw, idx);
    let now = evaluated_upto(words, log_size, num, tw, idx + 1);
    let out = to_words(transformed(poly::subdomain_twiddles(tw, log_size, idx), ints(words)));
    lemma_place(idx, n, 0, num as int);
    let base = idx * n;
    let part = was.subrange(base, base + n);
    assert forall|i: int| 0 <= i < n implies #[trigger] part[i] == words[i] by {
        lemma_place(idx, n, i, num as int);
    }
    assert(part =~= words);
    let put = spliced(was, base, out);
    assert forall|g: int| 0 <= g < put.len() implies put[g] == now[g] by {
        if base <= g < base + n {
            lemma_place(idx, n, g - base, num as int);
        } else {
            lemma_fundamental_div_mod(g, n);
            lemma_mod_bound(g, n);
            let q = g / n;
            assert(q != idx) by (nonlinear_arith)
                requires
                    g == n * q + g % n,
                    0 <= g % n < n,
                    !(idx * n <= g < idx * n + n),
            ;
        }
    }
    assert(put =~= now);
}

/// Performing the transforms of the first `k` subdomains fills their parts of the output
/// buffer, and leaves every other part and every other buffer as it is.
pub proof fn law_subdomains_fill_their_parts(
    before: kernel::PlanView,
    words: Seq<u32>,
    log_size: u32,
    num: nat,
    tw: Seq<Seq<u32>>,
    k: nat,
    mem: Seq<Seq<u32>>,
)
    requires
        3 <= log_size <= 31,
        words.len() == pow2(log_size as nat),
        k <= num,
        4 * (num * words.len()) <= u64::MAX,
        poly::domain_twiddles_ok(tw, log_size as int, num as int),
        poly::with_subdomain_ffts_upto(before, words, log_size, num, tw, k).buffers.len()
            <= usize::MAX,
        holds_from(
            poly::with_subdomain_ffts_upto(before, words, log_size, num, tw, k).buffers,
            before.buffers.len() as int,
            mem,
        ),
    ensures
        ({
            let plan = poly::with_subdomain_ffts_upto(before, words, log_size, num, tw, k);
            &&& before.buffers.len() < plan.buffers.len()
            &&& plan.dispatches.take(before.dispatches.len() as int) == before.dispatches
            &&& before.dispatches.len() <= plan.dispatches.len()
            &&& device_memory::perform(
                transform_effect(),
                plan.dispatches.skip(before.dispatches.len() as int),
                mem,
            ) == mem.update(
                before.buffers.len() as int,
                evaluated_upto(words, log_size as int, num, tw, k as int),
            )
        }),
    decreases k,
{
    let n = before.buffers.len() as int;
    let m = before.dispatches.len() as int;
    let plan = poly::with_subdomain_ffts_upto(before, words, log_size, num, tw, k);
    let f = transform_effect();
    lemma_pow2_pos(log_size as nat);
    if k == 0 {
        assert(plan.dispatches.skip(m) =~= Seq::empty());
        assert(plan.dispatches.take(m) =~= before.dispatches);
        assert(plan.buffers[n] == kernel::SourceView::Words(poly::repeated(words, num)));
        assert(mem[n] == poly::repeated(words, num));
        let none = evaluated_upto(words, log_size as int, num, tw, 0);
        assert forall|g: int| 0 <= g < none.len() implies none[g] == mem[n][g] by {
            lemma_div_pos_is_pos(g, words.len() as int);
        }
        assert(none =~= mem[n]);
        assert(mem.update(n, none) =~= mem);
    } else {
        let idx = k - 1;
        let prev = poly::with_subdomain_ffts_upto(before, words, log_size, num, tw, idx as nat);
        let sub = poly::subdomain_twiddles(tw, log_size as int, idx);
        let start = idx * words.len();
        let data = Arg::Buffer { slot: n as usize, offset: (4 * start) as u64 };
        assert(plan == poly::with_fft(prev, data, log_size, sub));
        assert(holds_from(prev.buffers, n, mem)) by {
            assert forall|s: int|
                #![trigger mem[s]]
                n <= s < prev.buffers.len() implies match prev.buffers[s] {
                kernel::SourceView::Words(_) | kernel::SourceView::CachedWords(_)
                | kernel::SourceView::FlatWords(_) => mem[s] == planned_transform::source_words(
                    prev.buffers[s],
                ),
                _ => true,
            } by {
                assert(plan.buffers[s] == prev.buffers[s]);
            }
        }
        law_subdomains_fill_their_parts(before, words, log_size, num, tw, idx as nat, mem);
        lemma_subdomain_complete(tw, log_size as nat, num as int, idx);
        let was = evaluated_upto(words, log_size as int, num, tw, idx);
        let mid = mem.update(n, was);
        lemma_transformed_len(sub, log_size as nat, ints(words));
        lemma_next_subdomain(words, log_size as int, num, tw, idx);
        lemma_place(idx, words.len() as int, 0, num as int);
        law_transform_in_place(prev, n as usize, start, log_size, sub, mid);
        let a = prev.dispatches.skip(m);
        let b = plan.dispatches.skip(prev.dispatches.len() as int);
        assert(plan.dispatches.skip(m) =~= a + b);
        assert(plan.dispatches.take(m) =~= prev.dispatches.take(m));
        lemma_perform_concat(f, a, b, mem);
        let now = evaluated_upto(words, log_size as int, num, tw, k as int);
        assert(mid.update(n, now) =~= mem.update(n, now));
    }
}

/// A transform keeps the length.
proof fn lemma_transformed_len(tw: Seq<Seq<u32>>, log_size: nat, column: Seq<int>)
    ensures
        transformed(tw, column).len() == column.len(),
{
    lemma_apply_len(
        planned_transform::layer_factors(tw),
        fft_schedule::layers_of(fft_schedule::fft_steps(tw.len() as int)),
        column,
    );
}

proof fn lemma_apply_len(tw: spec_fn(int, int) -> int, layers: Seq<int>, column: Seq<int>)
    ensures
        fft_schedule::apply_layers(butterflies::butterflies(tw), layers, column).len()
            == column.len(),
    decreases layers.len(),
{
    if layers.len() > 0 {
        lemma_apply_len(tw, layers.drop_last(), column);
    }
}

/// Performing a planned evaluation fills its output buffer with the polynomial's values on
/// the whole domain, and leaves every other buffer as it is.
pub proof fn law_evaluation_fills_buffer(
    before: kernel::PlanView,
    polynomial: poly::CircleCoefficients,
    domain_log_size: u32,
    tw: Seq<Seq<u32>>,
    mem: Seq<Seq<u32>>,
)
    requires
        poly::evaluation_ok(polynomial, domain_log_size, tw),
        polynomial.spec_log_size() >= 3,
        poly::with_evaluation(
            before,
            columns::column_words(polynomial.coeffs@),
            domain_log_size,
            tw,
        ).buffers.len() <= usize::MAX,
        holds_from(
            poly::with_evaluation(
                before,
                columns::column_words(polynomial.coeffs@),
                domain_log_size,
                tw,
            ).buffers,
            before.buffers.len() as int,
            mem,
        ),
    ensures
        ({
            let words = columns::column_words(polynomial.coeffs@);
            let log = polynomial.spec_log_size() as int;
            let num = pow2((domain_log_size - log) as nat);
            let plan = poly::with_evaluation(before, words, domain_log_size, tw);
            let values = evaluated(words, log, num, tw);
            &&& values.len() == pow2(domain_log_size as nat)
            &&& before.buffers.len() < plan.buffers.len()
            &&& plan.dispatches.take(before.dispatches.len() as int) == before.dispatches
            &&& before.dispatches.len() <= plan.dispatches.len()
            &&& device_memory::perform(
                transform_effect(),
                plan.dispatches.skip(before.dispatches.len() as int),
                mem,
            ) == mem.update(before.buffers.len() as int, values)
        }),
{
    let words = columns::column_words(polynomial.coeffs@);
    let log = polynomial.spec_log_size();
    let num = pow2((domain_log_size - log) as nat);
    lemma2_to64();
    lemma_pow2_adds((domain_log_size - log) as nat, log);
    if domain_log_size < 31 {
        lemma_pow2_strictly_increases(domain_log_size as nat, 31);
    }
    law_subdomains_fill_their_parts(before, words, log as u32, num, tw, num, mem);
}

/// Value `g` of an evaluation is the value of the polynomial at point `g` of the domain.
proof fn lemma_evaluated_at_point(
    polynomial: poly::CircleCoefficients,
    num: nat,
    tw: Seq<Seq<u32>>,
    points: Seq<point_evaluation::CirclePoint>,
    idx: int,
    i: int,
)
    requires
        polynomial.wf(),
        point_evaluation::canonical_column(polynomial.coeffs@),
        3 <= polynomial.spec_log_size() <= 31,
        0 <= i < polynomial.coeffs.len(),
        0 <= idx < num,
        poly::domain_twiddles_ok(tw, polynomial.spec_log_size() as int, num as int),
        points.len() == num * polynomial.coeffs.len(),
        planned_transform::twiddles_of_points(tw, polynomial.spec_log_size(), points),
    ensures
        ({
            let words = columns::column_words(polynomial.coeffs@);
            let log = polynomial.spec_log_size() as int;
            let g = idx * words.len() + i;
            let value = evaluated(words, log, num, tw)[g];
            &&& point_evaluation::poly_value(polynomial, points[g]) == (fields::Coords {
                c0: value as int,
                c1: 0,
                c2: 0,
                c3: 0,
            })
            &&& value < P
        }),
{
    let words = columns::column_words(polynomial.coeffs@);
    let log = polynomial.spec_log_size();
    let sub = poly::subdomain_twiddles(tw, log as int, idx);
    let c = ints(words);
    lemma_subdomain_complete(tw, log, num as int, idx);
    lemma_place(idx, words.len() as int, i, num as int);
    butterflies::law_fft_evaluates(planned_transform::layer_factors(sub), log, c, i);
    planned_transform::lemma_folded_at_point(polynomial, num, tw, points, idx, i);
    let g = idx * words.len() + i;
    assert(evaluated(words, log as int, num, tw)[g] == transformed(sub, c)[i] as u32);
}

/// Performing the plan of an evaluation leaves, at each place of the output buffer, the value
/// of the polynomial at that point of the domain.
pub proof fn law_dispatch_evaluates_on_domain(
    polynomial: poly::CircleCoefficients,
    domain_log_size: u32,
    tw: Seq<Seq<u32>>,
    points: Seq<point_evaluation::CirclePoint>,
    mem: Seq<Seq<u32>>,
    g: int,
)
    requires
        poly::evaluation_ok(polynomial, domain_log_size, tw),
        polynomial.spec_log_size() >= 3,
        point_evaluation::canonical_column(polynomial.coeffs@),
        points.len() == pow2(domain_log_size as nat),
        planned_transform::twiddles_of_points(tw, polynomial.spec_log_size(), points),
        0 <= g < points.len(),
        poly::with_evaluation(
            kernel::empty_plan(),
            columns::column_words(polynomial.coeffs@),
            domain_log_size,
            tw,
        ).buffers.len() <= usize::MAX,
        device_memory::loaded(
            poly::with_evaluation(
                kernel::empty_plan(),
                columns::column_words(polynomial.coeffs@),
                domain_log_size,
                tw,
            ).buffers,
            Seq::empty(),
            mem,
        ),
    ensures
        ({
            let plan = poly::with_evaluation(
                kernel::empty_plan(),
                columns::column_words(polynomial.coeffs@),
                domain_log_size,
                tw,
            );
            let out = device_memory::perform(transform_effect(), plan.dispatches, mem);
            &&& out[0].len() == points.len()
            &&& point_evaluation::poly_value(polynomial, points[g]) == (fields::Coords {
                c0: out[0][g] as int,
                c1: 0,
                c2: 0,
                c3: 0,
            })
            &&& forall|s: int| 0 < s < mem.len() ==> #[trigger] out[s] == mem[s]
        }),
{
    let words = columns::column_words(polynomial.coeffs@);
    let log = polynomial.spec_log_size();
    let num = pow2((domain_log_size - log) as nat);
    let plan = poly::with_evaluation(kernel::empty_plan(), words, domain_log_size, tw);
    lemma_loaded_holds(plan.buffers, Seq::empty(), mem);
    law_evaluation_fills_buffer(kernel::empty_plan(), polynomial, domain_log_size, tw, mem);
    assert(plan.dispatches.skip(0) =~= plan.dispatches);
    lemma_pow2_adds((domain_log_size - log) as nat, log);
    let n = words.len() as int;
    lemma_pow2_pos(log);
    lemma_fundamental_div_mod(g, n);
    lemma_mod_bound(g, n);
    lemma_div_pos_is_pos(g, n);
    let q = g / n;
    assert(q < num) by (nonlinear_arith)
        requires
            g == n * q + g % n,
            0 <= g % n,
            g < num * n,
            n > 0,
    ;
    lemma_mul_is_commutative(q, n);
    lemma_evaluated_at_point(polynomial, num, tw, points, q, g % n);
}

/// The evaluations of the large ones among polynomials can be planned.
pub open spec fn evaluations_ok(
    polys: Seq<poly::CircleCoefficients>,
    log_blowup_factor: u32,
    twiddles: Seq<poly::DomainTwiddles>,
) -> bool {
    &&& twiddles.len() == polys.len()
    &&& forall|i: int|
        #![trigger polys[i]]
        0 <= i < polys.len() && polys[i].spec_log_size() >= MIN_FFT_LOG_SIZE
            ==> polys[i].spec_log_size() + log_blowup_factor <= 31 && poly::evaluation_ok(
            polys[i],
            (polys[i].spec_log_size() + log_blowup_factor) as u32,
            twiddles[i]@,
        )
}

/// The values of a polynomial of a batch on its domain.
pub open spec fn values_of(
    polys: Seq<poly::CircleCoefficients>,
    log_blowup_factor: u32,
    twiddles: Seq<poly::DomainTwiddles>,
    j: int,
) -> Seq<u32> {
    evaluated(
        columns::column_words(polys[j].coeffs@),
        polys[j].spec_log_size() as int,
        pow2(log_blowup_factor as nat),
        twiddles[j]@,
    )
}

/// The slot of the values of a polynomial of a batch.
pub open spec fn slot_in_batch(
    polys: Seq<poly::CircleCoefficients>,
    log_blowup_factor: u32,
    twiddles: Seq<poly::DomainTwiddles>,
    j: int,
) -> int {
    poly::with_evaluations(polys, log_blowup_factor, twiddles, j).buffers.len() as int
}

/// More polynomials only add to a batch.
proof fn lemma_batch_grows(
    polys: Seq<poly::CircleCoefficients>,
    log_blowup_factor: u32,
    twiddles: Seq<poly::DomainTwiddles>,
    k: int,
)
    requires
        0 < k <= polys.len(),
    ensures
        ({
            let before = poly::with_evaluations(polys, log_blowup_factor, twiddles, k - 1);
            let plan = poly::with_evaluations(polys, log_blowup_factor, twiddles, k);
            &&& before.buffers.len() <= plan.buffers.len()
            &&& polys[k - 1].spec_log_size() >= MIN_FFT_LOG_SIZE ==> before.buffers.len()
                < plan.buffers.len()
            &&& plan.buffers.take(before.buffers.len() as int) == before.buffers
        }),
{
    let before = poly::with_evaluations(polys, log_blowup_factor, twiddles, k - 1);
    let poly = polys[k - 1];
    if poly.spec_log_size() >= MIN_FFT_LOG_SIZE {
        let words = columns::column_words(poly.coeffs@);
        let log = utils::floor_log2(words.len() as int);
        let domain = (poly.spec_log_size() + log_blowup_factor) as u32;
        let num = pow2((domain - log) as nat);
        lemma_subdomains_grow(before, words, log as u32, num, twiddles[k - 1]@, num);
    } else {
        assert(before.buffers.take(before.buffers.len() as int) =~= before.buffers);
    }
}

/// The transforms of subdomains only add to a plan.
proof fn lemma_subdomains_grow(
    before: kernel::PlanView,
    words: Seq<u32>,
    log_size: u32,
    num: nat,
    tw: Seq<Seq<u32>>,
    k: nat,
)
    ensures
        ({
            let plan = poly::with_subdomain_ffts_upto(before, words, log_size, num, tw, k);
            &&& before.buffers.len() < plan.buffers.len()
            &&& plan.buffers.take(before.buffers.len() as int) == before.buffers
        }),
    decreases k,
{
    let n = before.buffers.len() as int;
    let plan = poly::with_subdomain_ffts_upto(before, words, log_size, num, tw, k);
    if k > 0 {
        lemma_subdomains_grow(before, words, log_size, num, tw, (k - 1) as nat);
        let prev = poly::with_subdomain_ffts_upto(
            before,
            words,
            log_size,
            num,
            tw,
            (k - 1) as nat,
        );
        assert(plan.buffers.take(n) =~= prev.buffers.take(n));
    } else {
        assert(plan.buffers.take(n) =~= before.buffers);
    }
}

/// Performing the plan of a batch gives each polynomial its values, and changes no buffer
/// beyond the plan's.
proof fn lemma_batch_on_memory(
    polys: Seq<poly::CircleCoefficients>,
    log_blowup_factor: u32,
    twiddles: Seq<poly::DomainTwiddles>,
    k: int,
    mem: Seq<Seq<u32>>,
)
    requires
        0 <= k <= polys.len(),
        evaluations_ok(polys, log_blowup_factor, twiddles),
        poly::with_evaluations(polys, log_blowup_factor, twiddles, k).buffers.len() <= usize::MAX,
        holds_from(
            poly::with_evaluations(polys, log_blowup_factor, twiddles, k).buffers,
            0,
            mem,
        ),
    ensures
        ({
            let plan = poly::with_evaluations(polys, log_blowup_factor, twiddles, k);
            let out = device_memory::perform(transform_effect(), plan.dispatches, mem);
            &&& out.len() == mem.len()
            &&& forall|s: int| plan.buffers.len() <= s < mem.len() ==> #[trigger] out[s] == mem[s]
            &&& forall|j: int|
                #![trigger slot_in_batch(polys, log_blowup_factor, twiddles, j)]
                0 <= j < k && polys[j].spec_log_size() >= MIN_FFT_LOG_SIZE ==> {
                    let slot = slot_in_batch(polys, log_blowup_factor, twiddles, j);
                    &&& slot < plan.buffers.len()
                    &&& out[slot] == values_of(polys, log_blowup_factor, twiddles, j)
                }
        }),
    decreases k,
{
    let plan = poly::with_evaluations(polys, log_blowup_factor, twiddles, k);
    let f = transform_effect();
    if k > 0 {
        let before = poly::with_evaluations(polys, log_blowup_factor, twiddles, k - 1);
        let n = before.buffers.len() as int;
        lemma_batch_grows(polys, log_blowup_factor, twiddles, k);
        assert forall|s: int|
            #![trigger mem[s]]
            0 <= s < before.buffers.len() implies match before.buffers[s] {
            kernel::SourceView::Words(_) | kernel::SourceView::CachedWords(_)
            | kernel::SourceView::FlatWords(_) => mem[s] == planned_transform::source_words(
                before.buffers[s],
            ),
            _ => true,
        } by {
            assert(plan.buffers.take(n)[s] == before.buffers[s]);
        }
        lemma_batch_on_memory(polys, log_blowup_factor, twiddles, k - 1, mem);
        let poly = polys[k - 1];
        if poly.spec_log_size() >= MIN_FFT_LOG_SIZE {
            let domain = (poly.spec_log_size() + log_blowup_factor) as u32;
            let tw = twiddles[k - 1]@;
            let mid = device_memory::perform(f, before.dispatches, mem);
            assert(holds_from(plan.buffers, n, mid)) by {
                assert forall|s: int|
                    #![trigger mid[s]]
                    n <= s < plan.buffers.len() implies match plan.buffers[s] {
                    kernel::SourceView::Words(_) | kernel::SourceView::CachedWords(_)
                    | kernel::SourceView::FlatWords(_) => mid[s]
                        == planned_transform::source_words(plan.buffers[s]),
                    _ => true,
                } by {
                    assert(mid[s] == mem[s]);
                }
            }
            law_evaluation_fills_buffer(before, poly, domain, tw, mid);
            let m = before.dispatches.len() as int;
            assert(plan.dispatches =~= before.dispatches + plan.dispatches.skip(m)) by {
                assert(plan.dispatches =~= plan.dispatches.take(m) + plan.dispatches.skip(m));
            }
            lemma_perform_concat(f, before.dispatches, plan.dispatches.skip(m), mem);
            let values = values_of(polys, log_blowup_factor, twiddles, k - 1);
            assert(device_memory::perform(f, plan.dispatches, mem) == mid.update(n, values));
            assert(slot_in_batch(polys, log_blowup_factor, twiddles, k - 1) == n);
        }
    }
}

/// The slot that a batch gives for a polynomial.
proof fn lemma_batch_output(
    polys: Seq<poly::CircleCoefficients>,
    log_blowup_factor: u32,
    twiddles: Seq<poly::DomainTwiddles>,
    j: int,
    k: int,
)
    requires
        0 <= j < k <= polys.len(),
        polys[j].spec_log_size() >= MIN_FFT_LOG_SIZE,
        poly::with_evaluations(polys, log_blowup_factor, twiddles, k).buffers.len() <= usize::MAX,
    ensures
        ({
            let flags = poly::large(poly::poly_log_sizes(polys));
            let outputs = poly::evaluation_outputs(polys, log_blowup_factor, twiddles, k);
            &&& poly::rank(flags, true, j) < poly::rank(flags, true, k)
            &&& outputs[poly::rank(flags, true, j) as int] == slot_in_batch(
                polys,
                log_blowup_factor,
                twiddles,
                j,
            )
        }),
    decreases k,
{
    let flags = poly::large(poly::poly_log_sizes(polys));
    lemma_batch_grows(polys, log_blowup_factor, twiddles, k);
    lemma_outputs_len(polys, log_blowup_factor, twiddles, k - 1);
    assert(flags[k - 1] == (polys[k - 1].spec_log_size() >= MIN_FFT_LOG_SIZE));
    if j < k - 1 {
        lemma_batch_output(polys, log_blowup_factor, twiddles, j, k - 1);
    }
}

proof fn lemma_outputs_len(
    polys: Seq<poly::CircleCoefficients>,
    log_blowup_factor: u32,
    twiddles: Seq<poly::DomainTwiddles>,
    k: int,
)
    requires
        k <= polys.len(),
    ensures
        poly::evaluation_outputs(polys, log_blowup_factor, twiddles, k).len() == poly::rank(
            poly::large(poly::poly_log_sizes(polys)),
            true,
            k,
        ),
    decreases k,
{
    if k > 0 {
        lemma_outputs_len(polys, log_blowup_factor, twiddles, k - 1);
        assert(poly::large(poly::poly_log_sizes(polys))[k - 1] == (polys[k - 1].spec_log_size()
            >= MIN_FFT_LOG_SIZE));
    }
}

/// Performing the plan of a batch gives, for each large polynomial, in the slot that the
/// batch names for it, what performing the polynomial's own plan gives in its first buffer.
pub proof fn law_batch_evaluates_as_single(
    polys: Seq<poly::CircleCoefficients>,
    log_blowup_factor: u32,
    twiddles: Seq<poly::DomainTwiddles>,
    mem: Seq<Seq<u32>>,
    j: int,
    single_mem: Seq<Seq<u32>>,
)
    requires
        evaluations_ok(polys, log_blowup_factor, twiddles),
        0 <= j < polys.len(),
        polys[j].spec_log_size() >= MIN_FFT_LOG_SIZE,
        poly::with_evaluations(
            polys,
            log_blowup_factor,
            twiddles,
            polys.len() as int,
        ).buffers.len() <= usize::MAX,
        device_memory::loaded(
            poly::with_evaluations(
                polys,
                log_blowup_factor,
                twiddles,
                polys.len() as int,
            ).buffers,
            Seq::empty(),
            mem,
        ),
        poly::with_evaluation(
            kernel::empty_plan(),
            columns::column_words(polys[j].coeffs@),
            (polys[j].spec_log_size() + log_blowup_factor) as u32,
            twiddles[j]@,
        ).buffers.len() <= usize::MAX,
        device_memory::loaded(
            poly::with_evaluation(
                kernel::empty_plan(),
                columns::column_words(polys[j].coeffs@),
                (polys[j].spec_log_size() + log_blowup_factor) as u32,
                twiddles[j]@,
            ).buffers,
            Seq::empty(),
            single_mem,
        ),
    ensures
        ({
            let n = polys.len() as int;
            let batch = poly::with_evaluations(polys, log_blowup_factor, twiddles, n);
            let single = poly::with_evaluation(
                kernel::empty_plan(),
                columns::column_words(polys[j].coeffs@),
                (polys[j].spec_log_size() + log_blowup_factor) as u32,
                twiddles[j]@,
            );
            let flags = poly::large(poly::poly_log_sizes(polys));
            let outputs = poly::evaluation_outputs(polys, log_blowup_factor, twiddles, n);
            let slot = outputs[poly::rank(flags, true, j) as int] as int;
            device_memory::perform(transform_effect(), batch.dispatches, mem)[slot]
                == device_memory::perform(transform_effect(), single.dispatches, single_mem)[0]
        }),
{
    let n = polys.len() as int;
    let batch = poly::with_evaluations(polys, log_blowup_factor, twiddles, n);
    lemma_loaded_holds(batch.buffers, Seq::empty(), mem);
    lemma_batch_on_memory(polys, log_blowup_factor, twiddles, n, mem);
    lemma_batch_output(polys, log_blowup_factor, twiddles, j, n);
    let domain = (polys[j].spec_log_size() + log_blowup_factor) as u32;
    let single = poly::with_evaluation(
        kernel::empty_plan(),
        columns::column_words(polys[j].coeffs@),
        domain,
        twiddles[j]@,
    );
    lemma_loaded_holds(single.buffers, Seq::empty(), single_mem);
    law_evaluation_fills_buffer(
        kernel::empty_plan(),
        polys[j],
        domain,
        twiddles[j]@,
        single_mem,
    );
    assert(single.dispatches.skip(0) =~= single.dispatches);
}

/// What the inverse transform makes of a column.
pub open spec fn interpolated(itw: Seq<Seq<u32>>, log_size: nat, column: Seq<int>) -> Seq<int> {
    fft_schedule::scaled(
        BaseField::spec_inverse_of_pow2(log_size) as int,
        fft_schedule::apply_layers(
            butterflies::inverse_butterflies(planned_transform::layer_factors(itw)),
            fft_schedule::ifft_layers(log_size - 1),
            column,
        ),
    )
}

/// Performing a planned inverse transform interpolates the values in the buffer, in place,
/// and leaves every other buffer as it is.
pub proof fn law_inverse_in_place(
    before: kernel::PlanView,
    data_slot: usize,
    log_size: u32,
    itw: Seq<Seq<u32>>,
    mem: Seq<Seq<u32>>,
)
    requires
        planned_transform::complete(itw, log_size as nat),
        data_slot < before.buffers.len(),
        before.buffers.len() + log_size <= usize::MAX,
        holds_from(
            poly::with_ifft(
                before,
                kernel::spec_whole(data_slot),
                log_size,
                pow2(log_size as nat) as int,
                itw,
            ).buffers,
            before.buffers.len() as int,
            mem,
        ),
        mem[data_slot as int].len() == pow2(log_size as nat),
    ensures
        ({
            let plan = poly::with_ifft(
                before,
                kernel::spec_whole(data_slot),
                log_size,
                pow2(log_size as nat) as int,
                itw,
            );
            let out = interpolated(itw, log_size as nat, ints(mem[data_slot as int]));
            &&& out.len() == pow2(log_size as nat)
            &&& before.buffers.len() < plan.buffers.len()
            &&& plan.buffers.take(before.buffers.len() as int) == before.buffers
            &&& before.dispatches.len() <= plan.dispatches.len()
            &&& plan.dispatches.take(before.dispatches.len() as int) == before.dispatches
            &&& device_memory::perform(
                transform_effect(),
                plan.dispatches.skip(before.dispatches.len() as int),
                mem,
            ) == mem.update(data_slot as int, to_words(out))
        }),
{
    let log = log_size as nat;
    let len = pow2(log) as int;
    let data = kernel::spec_whole(data_slot);
    let plan = poly::with_ifft(before, data, log_size, len, itw);
    let m = before.dispatches.len() as int;
    let n = before.buffers.len() as int;
    let ds = plan.dispatches.skip(m);
    let layers = fft_schedule::ifft_layers(log_size - 1);
    lemma2_to64();
    if log_size < 31 {
        lemma_pow2_strictly_increases(log, 31);
    }
    lemma_fft_grid(log_size, 1);
    kernel::law_groups_cover_threads(len as u64);
    assert forall|k: int| #![trigger ds[k]] 0 <= k < ds.len() implies works_on(
        ds[k],
        data_slot as int,
        0,
        log,
    ) && bound_as_made(ds[k], plan.buffers, mem, data_slot as int) by {
        if k < log_size {
            assert(ds[k] == poly::ifft_dispatch(layers[k], data, (n + k) as usize, log_size));
            assert(plan.buffers[n + k] == poly::ifft_source(layers[k], itw));
            assert(mem[n + k] == planned_transform::source_words(plan.buffers[n + k]));
            assert(ds[k].args[1] == kernel::spec_whole((n + k) as usize));
            assert(twiddle_args(ds[k]) =~= seq![kernel::spec_whole((n + k) as usize)]);
        } else {
            assert(ds[k] == poly::normalize_dispatch(data, log_size, len));
        }
    }
    lemma_launches_on_memory(ds, plan.buffers, mem, data_slot as int, 0, log);
    let words = mem[data_slot as int];
    assert(words.subrange(0, len) =~= words);
    planned_transform::law_plan_performs_inverse(before, data, log_size, itw, ints(words));
    let out = interpolated(itw, log, ints(words));
    assert(spliced(words, 0, to_words(out)) =~= to_words(out));
    assert(plan.buffers.take(n) =~= before.buffers);
    assert(plan.dispatches.take(m) =~= before.dispatches);
}

/// The interpolations of the large ones among columns can be planned, for values of whole
/// domains.
pub open spec fn interpolations_ok(cols: Seq<poly::EvaluationColumn>) -> bool {
    forall|i: int|
        #![trigger cols[i]]
        0 <= i < cols.len() && cols[i].log_size >= MIN_FFT_LOG_SIZE ==> {
            &&& planned_transform::complete(cols[i].itwiddles@, cols[i].log_size as nat)
            &&& cols[i].len == pow2(cols[i].log_size as nat)
        }
}

/// The slot of a column in a batch of interpolations.
pub open spec fn column_slot(cols: Seq<poly::EvaluationColumn>, j: int) -> int {
    poly::with_interpolations(cols, j).buffers.len() as int
}

/// The caller's values are in the slots of a batch of interpolations.
proof fn lemma_column_slot(cols: Seq<poly::EvaluationColumn>, j: int, k: int)
    requires
        0 <= j < k <= cols.len() <= usize::MAX,
        cols[j].log_size >= MIN_FFT_LOG_SIZE,
    ensures
        column_slot(cols, j) < poly::with_interpolations(cols, k).buffers.len(),
        poly::with_interpolations(cols, k).buffers[column_slot(cols, j)]
            == kernel::SourceView::Input(j as usize),
    decreases k,
{
    lemma_columns_grow(cols, k);
    let before = poly::with_interpolations(cols, k - 1);
    let plan = poly::with_interpolations(cols, k);
    let n = before.buffers.len() as int;
    if j < k - 1 {
        lemma_column_slot(cols, j, k - 1);
        let s = column_slot(cols, j);
        assert(plan.buffers.take(n)[s] == before.buffers[s]);
    }
}

/// More columns only add to a batch of interpolations.
proof fn lemma_columns_grow(cols: Seq<poly::EvaluationColumn>, k: int)
    requires
        0 < k <= cols.len(),
    ensures
        ({
            let before = poly::with_interpolations(cols, k - 1);
            let plan = poly::with_interpolations(cols, k);
            let n = before.buffers.len() as int;
            &&& n <= plan.buffers.len()
            &&& plan.buffers.take(n) == before.buffers
            &&& cols[k - 1].log_size >= MIN_FFT_LOG_SIZE ==> n < plan.buffers.len()
                && plan.buffers[n] == kernel::SourceView::Input((k - 1) as usize)
        }),
{
    let before = poly::with_interpolations(cols, k - 1);
    let plan = poly::with_interpolations(cols, k);
    assert(plan.buffers.take(before.buffers.len() as int) =~= before.buffers);
}

/// Performing the plan of a batch of interpolations gives each column its coefficients, and
/// changes no buffer beyond the plan's.
proof fn lemma_interpolations_on_memory(
    cols: Seq<poly::EvaluationColumn>,
    k: int,
    values: Seq<Seq<u32>>,
    mem: Seq<Seq<u32>>,
)
    requires
        0 <= k <= cols.len() <= usize::MAX,
        interpolations_ok(cols),
        poly::with_interpolations(cols, k).buffers.len() <= usize::MAX,
        values.len() == cols.len(),
        forall|j: int|
            #![trigger values[j]]
            0 <= j < k && cols[j].log_size >= MIN_FFT_LOG_SIZE ==> values[j].len() == pow2(
                cols[j].log_size as nat,
            ),
        forall|j: int|
            #![trigger column_slot(cols, j)]
            0 <= j < k && cols[j].log_size >= MIN_FFT_LOG_SIZE ==> mem[column_slot(cols, j)]
                == values[j],
        holds_from(poly::with_interpolations(cols, k).buffers, 0, mem),
    ensures
        ({
            let plan = poly::with_interpolations(cols, k);
            let out = device_memory::perform(transform_effect(), plan.dispatches, mem);
            &&& out.len() == mem.len()
            &&& forall|s: int| plan.buffers.len() <= s < mem.len() ==> #[trigger] out[s] == mem[s]
            &&& forall|j: int|
                #![trigger column_slot(cols, j)]
                0 <= j < k && cols[j].log_size >= MIN_FFT_LOG_SIZE ==> {
                    &&& column_slot(cols, j) < plan.buffers.len()
                    &&& out[column_slot(cols, j)] == to_words(
                        interpolated(
                            cols[j].itwiddles@,
                            cols[j].log_size as nat,
                            ints(values[j]),
                        ),
                    )
                }
        }),
    decreases k,
{
    let plan = poly::with_interpolations(cols, k);
    let f = transform_effect();
    if k > 0 {
        let before = poly::with_interpolations(cols, k - 1);
        let n = before.buffers.len() as int;
        lemma_columns_grow(cols, k);
        assert forall|s: int|
            #![trigger mem[s]]
            0 <= s < before.buffers.len() implies match before.buffers[s] {
            kernel::SourceView::Words(_) | kernel::SourceView::CachedWords(_)
            | kernel::SourceView::FlatWords(_) => mem[s] == planned_transform::source_words(
                before.buffers[s],
            ),
            _ => true,
        } by {
            assert(plan.buffers.take(n)[s] == before.buffers[s]);
        }
        lemma_interpolations_on_memory(cols, k - 1, values, mem);
        let col = cols[k - 1];
        if col.log_size >= MIN_FFT_LOG_SIZE {
            let mid = device_memory::perform(f, before.dispatches, mem);
            let with_input = before.with_buffer(kernel::SourceView::Input((k - 1) as usize));
            let m = before.dispatches.len() as int;
            assert(column_slot(cols, k - 1) == n);
            assert(mid[n] == mem[n]);
            assert(mid[n] == values[k - 1]);
            assert(holds_from(plan.buffers, n + 1, mid)) by {
                assert forall|s: int|
                    #![trigger mid[s]]
                    n + 1 <= s < plan.buffers.len() implies match plan.buffers[s] {
                    kernel::SourceView::Words(_) | kernel::SourceView::CachedWords(_)
                    | kernel::SourceView::FlatWords(_) => mid[s]
                        == planned_transform::source_words(plan.buffers[s]),
                    _ => true,
                } by {
                    assert(mid[s] == mem[s]);
                }
            }
            assert(plan.buffers.len() == n + 1 + col.log_size);
            law_inverse_in_place(with_input, n as usize, col.log_size, col.itwiddles@, mid);
            assert(plan.dispatches =~= before.dispatches + plan.dispatches.skip(m)) by {
                assert(plan.dispatches =~= plan.dispatches.take(m) + plan.dispatches.skip(m));
            }
            lemma_perform_concat(f, before.dispatches, plan.dispatches.skip(m), mem);
        }
    }
}

/// Performing the plan of a batch of interpolations gives, for each large column, in the slot
/// of the caller's buffer, what performing the column's own plan gives.
pub proof fn law_batch_interpolates_as_single(
    cols: Seq<poly::EvaluationColumn>,
    values: Seq<Seq<u32>>,
    mem: Seq<Seq<u32>>,
    j: int,
    single_mem: Seq<Seq<u32>>,
)
    requires
        interpolations_ok(cols),
        cols.len() <= usize::MAX,
        0 <= j < cols.len(),
        cols[j].log_size >= MIN_FFT_LOG_SIZE,
        values.len() == cols.len(),
        forall|i: int|
            #![trigger values[i]]
            0 <= i < cols.len() ==> values[i].len() == cols[i].len,
        poly::with_interpolations(cols, cols.len() as int).buffers.len() <= usize::MAX,
        device_memory::loaded(
            poly::with_interpolations(cols, cols.len() as int).buffers,
            values,
            mem,
        ),
        device_memory::loaded(
            poly::with_ifft(
                kernel::empty_plan().with_buffer(kernel::SourceView::Input(0)),
                kernel::spec_whole(0),
                cols[j].log_size,
                cols[j].len as int,
                cols[j].itwiddles@,
            ).buffers,
            seq![values[j]],
            single_mem,
        ),
    ensures
        ({
            let batch = poly::with_interpolations(cols, cols.len() as int);
            let single = poly::with_ifft(
                kernel::empty_plan().with_buffer(kernel::SourceView::Input(0)),
                kernel::spec_whole(0),
                cols[j].log_size,
                cols[j].len as int,
                cols[j].itwiddles@,
            );
            &&& batch.buffers[column_slot(cols, j)] == kernel::SourceView::Input(j as usize)
            &&& device_memory::perform(
                transform_effect(),
                batch.dispatches,
                mem,
            )[column_slot(cols, j)] == device_memory::perform(
                transform_effect(),
                single.dispatches,
                single_mem,
            )[0]
        }),
{
    let n = cols.len() as int;
    let batch = poly::with_interpolations(cols, n);
    lemma_loaded_holds(batch.buffers, values, mem);
    assert forall|i: int|
        #![trigger column_slot(cols, i)]
        0 <= i < n && cols[i].log_size >= MIN_FFT_LOG_SIZE implies mem[column_slot(cols, i)]
        == values[i] by {
        lemma_column_slot(cols, i, n);
    }
    lemma_interpolations_on_memory(cols, n, values, mem);
    lemma_column_slot(cols, j, n);
    let start = kernel::empty_plan().with_buffer(kernel::SourceView::Input(0));
    let single = poly::with_ifft(
        start,
        kernel::spec_whole(0),
        cols[j].log_size,
        cols[j].len as int,
        cols[j].itwiddles@,
    );
    lemma_loaded_holds(single.buffers, seq![values[j]], single_mem);
    assert(single.buffers[0] == kernel::SourceView::Input(0));
    assert(single_mem[0] == values[j]);
    law_inverse_in_place(start, 0, cols[j].log_size, cols[j].itwiddles@, single_mem);
    assert(single.dispatches.skip(0) =~= single.dispatches);
}

/// The twiddle factors of a domain's only subdomain are the domain's.
proof fn lemma_only_subdomain(tw: Seq<Seq<u32>>, log_size: nat)
    requires
        planned_transform::complete(tw, log_size),
    ensures
        poly::subdomain_twiddles(tw, log_size as int, 0) == tw,
{
    let sub = poly::subdomain_twiddles(tw, log_size as int, 0);
    assert forall|i: int| 0 <= i < tw.len() implies sub[i] == tw[i] by {
        let w = pow2((log_size - 2 - i) as nat) as int;
        assert(tw[i].len() == w);
        lemma_mul_basics(w);
        assert(sub[i] =~= tw[i]);
    }
    assert(sub =~= tw);
}

/// Interpolating the values on a domain and evaluating the polynomial that comes out, each by
/// performing its plan, gives the values back.
pub proof fn law_evaluation_of_interpolation(
    values: Seq<u32>,
    log_size: u32,
    tw: Seq<Seq<u32>>,
    itw: Seq<Seq<u32>>,
    mem: Seq<Seq<u32>>,
    polynomial: poly::CircleCoefficients,
    evaluation_mem: Seq<Seq<u32>>,
)
    requires
        planned_transform::complete(tw, log_size as nat),
        planned_transform::complete(itw, log_size as nat),
        butterflies::inverse_factors(
            planned_transform::layer_factors(tw),
            planned_transform::layer_factors(itw),
            log_size as nat,
        ),
        values.len() == pow2(log_size as nat),
        fft_schedule::canonical(ints(values)),
        device_memory::loaded(
            poly::with_ifft(
                kernel::empty_plan().with_buffer(kernel::SourceView::Input(0)),
                kernel::spec_whole(0),
                log_size,
                values.len() as int,
                itw,
            ).buffers,
            seq![values],
            mem,
        ),
        columns::column_words(polynomial.coeffs@) == device_memory::perform(
            transform_effect(),
            poly::with_ifft(
                kernel::empty_plan().with_buffer(kernel::SourceView::Input(0)),
                kernel::spec_whole(0),
                log_size,
                values.len() as int,
                itw,
            ).dispatches,
            mem,
        )[0],
        poly::evaluation_ok(polynomial, log_size, tw),
        poly::with_evaluation(
            kernel::empty_plan(),
            columns::column_words(polynomial.coeffs@),
            log_size,
            tw,
        ).buffers.len() <= usize::MAX,
        device_memory::loaded(
            poly::with_evaluation(
                kernel::empty_plan(),
                columns::column_words(polynomial.coeffs@),
                log_size,
                tw,
            ).buffers,
            Seq::empty(),
            evaluation_mem,
        ),
    ensures
        polynomial.coeffs.len() == values.len(),
        device_memory::perform(
            transform_effect(),
            poly::with_evaluation(
                kernel::empty_plan(),
                columns::column_words(polynomial.coeffs@),
                log_size,
                tw,
            ).dispatches,
            evaluation_mem,
        )[0] == values,
{
    let log = log_size as nat;
    let start = kernel::empty_plan().with_buffer(kernel::SourceView::Input(0));
    let inverse = poly::with_ifft(
        start,
        kernel::spec_whole(0),
        log_size,
        values.len() as int,
        itw,
    );
    lemma_loaded_holds(inverse.buffers, seq![values], mem);
    assert(inverse.buffers[0] == kernel::SourceView::Input(0));
    assert(mem[0] == values);
    law_inverse_in_place(start, 0, log_size, itw, mem);
    assert(inverse.dispatches.skip(0) =~= inverse.dispatches);
    let words = columns::column_words(polynomial.coeffs@);
    let coeffs = interpolated(itw, log, ints(values));
    assert(words == to_words(coeffs));
    utils::lemma_floor_log2_of_pow2(log);
    assert(ints(words) =~= coeffs) by {
        lemma2_to64();
    }
    let plan = poly::with_evaluation(kernel::empty_plan(), words, log_size, tw);
    lemma_loaded_holds(plan.buffers, Seq::empty(), evaluation_mem);
    law_evaluation_fills_buffer(kernel::empty_plan(), polynomial, log_size, tw, evaluation_mem);
    assert(plan.dispatches.skip(0) =~= plan.dispatches);
    lemma2_to64();
    lemma_only_subdomain(tw, log);
    planned_transform::lemma_inverse_of_size(log_size);
    butterflies::law_inverse_butterfly_roundtrip(
        planned_transform::layer_factors(tw),
        planned_transform::layer_factors(itw),
        log,
        BaseField::spec_inverse_of_pow2(log) as int,
        ints(values),
    );
    assert(transformed(tw, coeffs) == ints(values));
    let out = evaluated(words, log as int, 1, tw);
    assert forall|g: int| 0 <= g < out.len() implies out[g] == values[g] by {
        lemma_basic_div(g, words.len() as int);
        lemma_small_mod(g as nat, words.len());
        assert(ints(values)[g] == values[g]);
    }
    assert(out =~= values);
}

} // verus!
