//! What performing the plan of a transform computes.
//!
//! A kernel launch is taken as the layers of butterflies that the kernel stands for, with
//! the twiddle factors that the launch binds.  Performing the launches of a planned
//! transform is then the transform itself.

use crate::butterflies;
use crate::columns;
use crate::fft_schedule;
use crate::fft_schedule::FftStep;
use crate::fields;
use crate::fields::{BaseField, P};
use crate::kernel;
use crate::kernel::{Arg, Kernel};
use crate::packing;
use crate::point_evaluation;
use crate::poly;
use crate::twiddle_manager;
use vstd::arithmetic::div_mod::*;
use vstd::arithmetic::mul::*;
use vstd::arithmetic::power2::*;
use vstd::prelude::*;

verus! {

/// The words that a buffer is made with.
pub open spec fn source_words(source: kernel::SourceView) -> Seq<u32> {
    match source {
        kernel::SourceView::Words(words) => words,
        kernel::SourceView::CachedWords(words) => words,
        kernel::SourceView::FlatWords(layers) => layers.flatten(),
        _ => Seq::empty(),
    }
}

/// The words that a buffer argument gives to a kernel.
pub open spec fn arg_words(buffers: Seq<kernel::SourceView>, arg: Arg) -> Seq<u32> {
    match arg {
        Arg::Buffer { slot, offset } => source_words(buffers[slot as int]).skip(offset as int / 4),
        _ => Seq::empty(),
    }
}

/// A number argument.
pub open spec fn arg_number(arg: Arg) -> int {
    match arg {
        Arg::U32(value) => value as int,
        _ => 0,
    }
}

/// The layers that a launch of a transform kernel works through, each with the argument that
/// binds its twiddle factors.
pub open spec fn kernel_layers(d: kernel::DispatchView) -> Seq<(int, Arg)> {
    match d.kernel {
        Kernel::FftRadix2 => seq![(arg_number(d.args[3]), d.args[1])],
        Kernel::FftRadix8 => {
            let layer = arg_number(d.args[5]);
            seq![(layer + 2, d.args[3]), (layer + 1, d.args[2]), (layer, d.args[1])]
        },
        Kernel::FftVecwiseFused => seq![
            (4int, d.args[4]),
            (3int, d.args[3]),
            (2int, d.args[2]),
            (1int, d.args[1]),
        ],
        _ => Seq::empty(),
    }
}

/// Doubled twiddle factors as the factors of blocks.
pub open spec fn word_factors(words: Seq<u32>) -> spec_fn(int, int) -> int {
    |l: int, b: int| words[b] as int / 2
}

/// What layers with bound twiddle factors make of a column.
pub open spec fn perform_layers(
    buffers: Seq<kernel::SourceView>,
    layers: Seq<(int, Arg)>,
    column: Seq<int>,
) -> Seq<int>
    decreases layers.len(),
{
    if layers.len() == 0 {
        column
    } else {
        let (layer, arg) = layers.last();
        butterflies::butterflies(word_factors(arg_words(buffers, arg)))(
            layer,
            perform_layers(buffers, layers.drop_last(), column),
        )
    }
}

/// A column whose first `count` values are multiplied by a factor.
pub open spec fn normalized(column: Seq<int>, factor: int, count: int) -> Seq<int> {
    Seq::new(
        column.len(),
        |i: int|
            if i < count {
                fields::modp(factor * column[i])
            } else {
                column[i]
            },
    )
}

/// What a launch makes of a column.
pub open spec fn perform_launch(
    buffers: Seq<kernel::SourceView>,
    d: kernel::DispatchView,
    column: Seq<int>,
) -> Seq<int> {
    match d.kernel {
        Kernel::IfftRadix2 => butterflies::inverse_butterflies(
            word_factors(arg_words(buffers, d.args[1])),
        )(arg_number(d.args[3]), column),
        Kernel::IfftNormalize => normalized(column, arg_number(d.args[1]), arg_number(d.args[2])),
        _ => perform_layers(buffers, kernel_layers(d), column),
    }
}

/// What launches make of a column.
pub open spec fn perform(
    buffers: Seq<kernel::SourceView>,
    dispatches: Seq<kernel::DispatchView>,
    column: Seq<int>,
) -> Seq<int>
    decreases dispatches.len(),
{
    if dispatches.len() == 0 {
        column
    } else {
        perform_launch(
            buffers,
            dispatches.last(),
            perform(buffers, dispatches.drop_last(), column),
        )
    }
}

/// The twiddle factors of a layer, as words.
pub open spec fn layer_words(tw: Seq<Seq<u32>>, l: int) -> Seq<u32> {
    if l == 0 {
        poly::circle_twiddles(tw[0])
    } else {
        tw[l - 1]
    }
}

/// The twiddle factors of a transform.
pub open spec fn layer_factors(tw: Seq<Seq<u32>>) -> spec_fn(int, int) -> int {
    |l: int, b: int| layer_words(tw, l)[b] as int / 2
}

/// There is a twiddle factor for each block of each layer.
pub open spec fn complete(tw: Seq<Seq<u32>>, log_size: nat) -> bool {
    &&& 3 <= log_size <= 31
    &&& tw.len() + 1 == log_size
    &&& forall|i: int|
        #![trigger tw[i]]
        0 <= i < tw.len() ==> tw[i].len() == pow2((log_size - 2 - i) as nat)
}

/// Words that hold the twiddle factors of all blocks of a layer.
pub open spec fn holds_layer(words: Seq<u32>, tw: Seq<Seq<u32>>, l: int, log_size: nat) -> bool {
    forall|b: int|
        0 <= b < pow2((log_size - 1 - l) as nat) ==> #[trigger] words[b] == layer_words(tw, l)[b]
}

/// A layer depends only on the twiddle factors of its blocks.
proof fn lemma_layer_by_words(
    words: Seq<u32>,
    tw: Seq<Seq<u32>>,
    l: int,
    log_size: nat,
    c: Seq<int>,
)
    requires
        0 <= l < log_size,
        c.len() == pow2(log_size),
        holds_layer(words, tw, l, log_size),
    ensures
        butterflies::butterflies(word_factors(words))(l, c) == butterflies::butterflies(
            layer_factors(tw),
        )(l, c),
        butterflies::butterflies(layer_factors(tw))(l, c).len() == c.len(),
{
    let a = butterflies::butterflies(word_factors(words))(l, c);
    let b = butterflies::butterflies(layer_factors(tw))(l, c);
    assert forall|i: int| 0 <= i < c.len() implies a[i] == b[i] by {
        butterflies::lemma_block_in_range(l, log_size, i);
        assert(words[butterflies::block_of(l, i)] == layer_words(tw, l)[butterflies::block_of(
            l,
            i,
        )]);
    }
    assert(a =~= b);
}

/// Layers with bound factors are the layers of the transform, where the bound words hold the
/// transform's factors.
proof fn lemma_layers_by_words(
    buffers: Seq<kernel::SourceView>,
    bound: Seq<(int, Arg)>,
    layers: Seq<int>,
    tw: Seq<Seq<u32>>,
    log_size: nat,
    c: Seq<int>,
)
    requires
        c.len() == pow2(log_size),
        bound.len() == layers.len(),
        forall|k: int|
            #![trigger bound[k]]
            0 <= k < bound.len() ==> {
                &&& bound[k].0 == layers[k]
                &&& 0 <= layers[k] < log_size
                &&& holds_layer(arg_words(buffers, bound[k].1), tw, layers[k], log_size)
            },
    ensures
        perform_layers(buffers, bound, c) == fft_schedule::apply_layers(
            butterflies::butterflies(layer_factors(tw)),
            layers,
            c,
        ),
        perform_layers(buffers, bound, c).len() == c.len(),
    decreases bound.len(),
{
    if bound.len() > 0 {
        let n = bound.len() - 1;
        assert(bound[n].0 == layers[n]);
        assert forall|k: int|
            #![trigger bound.drop_last()[k]]
            0 <= k < bound.drop_last().len() implies {
            &&& bound.drop_last()[k].0 == layers.drop_last()[k]
            &&& 0 <= layers.drop_last()[k] < log_size
            &&& holds_layer(
                arg_words(buffers, bound.drop_last()[k].1),
                tw,
                layers.drop_last()[k],
                log_size,
            )
        } by {
            assert(bound[k].0 == layers[k]);
        }
        lemma_layers_by_words(
            buffers,
            bound.drop_last(),
            layers.drop_last(),
            tw,
            log_size,
            c,
        );
        lemma_layer_by_words(
            arg_words(buffers, bound[n].1),
            tw,
            layers[n],
            log_size,
            perform_layers(buffers, bound.drop_last(), c),
        );
    }
}

/// The section of a line layer in a flat buffer holds the layer's factors.
proof fn lemma_section_holds_layer(
    buffers: Seq<kernel::SourceView>,
    slot: usize,
    tw: Seq<Seq<u32>>,
    first: int,
    count: int,
    k: int,
    log_size: nat,
)
    requires
        complete(tw, log_size),
        0 <= first,
        0 <= k < count <= 4,
        first + count <= tw.len(),
        buffers[slot as int] == kernel::SourceView::FlatWords(tw.subrange(first, first + count)),
    ensures
        holds_layer(
            arg_words(
                buffers,
                poly::section_arg(slot, tw.subrange(first, first + count), k),
            ),
            tw,
            first + k + 1,
            log_size,
        ),
{
    let layers = tw.subrange(first, first + count);
    lemma2_to64();
    assert forall|i: int| 0 <= i < layers.len() implies (#[trigger] layers[i]).len()
        <= 0x4000_0000 by {
        assert(layers[i] == tw[first + i]);
        let e = (log_size - 2 - (first + i)) as nat;
        if e < 30 {
            lemma_pow2_strictly_increases(e, 30);
        }
    }
    lemma_few_words(layers, count);
    twiddle_manager::law_sections_hold_layers(layers, k);
    let start = twiddle_manager::flat_sections(layers)[k].offset as int / 4;
    let words = arg_words(buffers, poly::section_arg(slot, layers, k));
    assert(words == layers.flatten().skip(start));
    assert(layers[k] == tw[first + k]);
    assert forall|b: int|
        0 <= b < pow2((log_size - 1 - (first + k + 1)) as nat) implies #[trigger] words[b]
        == layer_words(tw, first + k + 1)[b] by {
        assert(words[b] == layers.flatten()[start + b]);
        assert(layers.flatten().subrange(start, start + layers[k].len())[b]
            == layers.flatten()[start + b]);
    }
}

proof fn lemma_few_words(layers: Seq<Seq<u32>>, k: int)
    requires
        0 <= k <= layers.len(),
        forall|i: int| 0 <= i < layers.len() ==> (#[trigger] layers[i]).len() <= 0x4000_0000,
    ensures
        packing::words_before(layers, k) <= 0x4000_0000 * k,
    decreases k,
{
    if k > 0 {
        lemma_few_words(layers, k - 1);
    }
}

/// A step's launch works through the step's layers with the transform's factors.
proof fn lemma_step(
    buffers: Seq<kernel::SourceView>,
    step: FftStep,
    tw: Seq<Seq<u32>>,
    data: Arg,
    slot: usize,
    log_size: u32,
    c: Seq<int>,
)
    requires
        complete(tw, log_size as nat),
        c.len() == pow2(log_size as nat),
        1 <= step.top() <= tw.len(),
        step matches FftStep::Radix2 { layer, .. } ==> layer >= 1,
        step matches FftStep::Radix8 { layer } ==> layer >= 1,
        buffers[slot as int] == poly::fft_step_source(step, tw),
    ensures
        perform_layers(
            buffers,
            kernel_layers(poly::fft_step_dispatch(step, tw, data, slot, log_size)),
            c,
        ) == fft_schedule::apply_layers(
            butterflies::butterflies(layer_factors(tw)),
            step.layers(),
            c,
        ),
        perform_layers(
            buffers,
            kernel_layers(poly::fft_step_dispatch(step, tw, data, slot, log_size)),
            c,
        ).len() == c.len(),
{
    let d = poly::fft_step_dispatch(step, tw, data, slot, log_size);
    let bound = kernel_layers(d);
    let layers = step.layers();
    let log = log_size as nat;
    assert forall|k: int|
        #![trigger bound[k]]
        0 <= k < bound.len() implies {
        &&& bound[k].0 == layers[k]
        &&& 0 <= layers[k] < log
        &&& holds_layer(arg_words(buffers, bound[k].1), tw, layers[k], log)
    } by {
        match step {
            FftStep::Radix2 { layer, .. } => {
                assert(bound == seq![(layer as int, kernel::spec_whole(slot))]);
                let words = arg_words(buffers, kernel::spec_whole(slot));
                assert(words =~= tw[layer - 1]);
            },
            FftStep::Radix8 { layer } => {
                let flat = tw.subrange(layer - 1, layer + 2);
                assert(bound == seq![
                    (layer + 2, poly::section_arg(slot, flat, 2)),
                    (layer + 1, poly::section_arg(slot, flat, 1)),
                    (layer as int, poly::section_arg(slot, flat, 0)),
                ]);
                lemma_section_holds_layer(buffers, slot, tw, layer - 1, 3, 2 - k, log);
            },
            FftStep::VecwiseFused => {
                let flat = tw.subrange(0, 4);
                assert(bound == seq![
                    (4int, poly::section_arg(slot, flat, 3)),
                    (3int, poly::section_arg(slot, flat, 2)),
                    (2int, poly::section_arg(slot, flat, 1)),
                    (1int, poly::section_arg(slot, flat, 0)),
                ]);
                lemma_section_holds_layer(buffers, slot, tw, 0, 4, 3 - k, log);
            },
            FftStep::Circle => {
                assert(bound == seq![(0int, kernel::spec_whole(slot))]);
                let words = arg_words(buffers, kernel::spec_whole(slot));
                assert(words =~= poly::circle_twiddles(tw[0]));
            },
        }
    }
    lemma_layers_by_words(buffers, bound, layers, tw, log, c);
}

/// Layers one after the other.
proof fn lemma_apply_concat(
    layer: spec_fn(int, Seq<int>) -> Seq<int>,
    a: Seq<int>,
    b: Seq<int>,
    c: Seq<int>,
)
    ensures
        fft_schedule::apply_layers(layer, a + b, c) == fft_schedule::apply_layers(
            layer,
            b,
            fft_schedule::apply_layers(layer, a, c),
        ),
    decreases b.len(),
{
    if b.len() == 0 {
        assert(a + b =~= a);
    } else {
        assert((a + b).drop_last() =~= a + b.drop_last());
        lemma_apply_concat(layer, a, b.drop_last(), c);
    }
}

/// Performing the first `k` steps of a planned transform applies their layers.
proof fn lemma_steps_perform(
    before: kernel::PlanView,
    data: Arg,
    log_size: u32,
    tw: Seq<Seq<u32>>,
    c: Seq<int>,
    k: nat,
)
    requires
        complete(tw, log_size as nat),
        c.len() == pow2(log_size as nat),
        k <= fft_schedule::fft_steps(tw.len() as int).len(),
        before.buffers.len() + fft_schedule::fft_steps(tw.len() as int).len() <= usize::MAX,
    ensures
        ({
            let steps = fft_schedule::fft_steps(tw.len() as int);
            let plan = poly::with_fft(before, data, log_size, tw);
            let launches = plan.dispatches.skip(before.dispatches.len() as int);
            &&& perform(plan.buffers, launches.take(k as int), c) == fft_schedule::apply_layers(
                butterflies::butterflies(layer_factors(tw)),
                fft_schedule::layers_of(steps.take(k as int)),
                c,
            )
            &&& perform(plan.buffers, launches.take(k as int), c).len() == c.len()
        }),
    decreases k,
{
    let steps = fft_schedule::fft_steps(tw.len() as int);
    let plan = poly::with_fft(before, data, log_size, tw);
    let launches = plan.dispatches.skip(before.dispatches.len() as int);
    let f = butterflies::butterflies(layer_factors(tw));
    let n = before.buffers.len() as int;
    if k == 0 {
        assert(launches.take(0) =~= Seq::empty());
        assert(steps.take(0) =~= Seq::empty());
    } else {
        let m = k - 1;
        lemma_steps_perform(before, data, log_size, tw, c, m as nat);
        assert(launches.take(k as int).drop_last() =~= launches.take(m));
        assert(launches.take(k as int).last() == launches[m]);
        assert(launches[m] == poly::fft_step_dispatch(
            steps[m],
            tw,
            data,
            (n + m) as usize,
            log_size,
        ));
        assert(plan.buffers[n + m] == poly::fft_step_source(steps[m], tw));
        fft_schedule::law_fft_steps_in_range(tw.len() as int, m);
        poly::lemma_radix8_layer(tw.len() as int, m);
        lemma_step(
            plan.buffers,
            steps[m],
            tw,
            data,
            (n + m) as usize,
            log_size,
            perform(plan.buffers, launches.take(m), c),
        );
        assert(steps.take(k as int).drop_last() =~= steps.take(m));
        lemma_apply_concat(
            f,
            fft_schedule::layers_of(steps.take(m)),
            steps[m].layers(),
            c,
        );
    }
}

/// Performing a planned transform applies the layers of the transform.
pub proof fn law_plan_performs_transform(
    before: kernel::PlanView,
    data: Arg,
    log_size: u32,
    tw: Seq<Seq<u32>>,
    c: Seq<int>,
)
    requires
        complete(tw, log_size as nat),
        c.len() == pow2(log_size as nat),
        before.buffers.len() + fft_schedule::fft_steps(tw.len() as int).len() <= usize::MAX,
    ensures
        ({
            let plan = poly::with_fft(before, data, log_size, tw);
            perform(
                plan.buffers,
                plan.dispatches.skip(before.dispatches.len() as int),
                c,
            ) == fft_schedule::apply_layers(
                butterflies::butterflies(layer_factors(tw)),
                fft_schedule::layers_of(fft_schedule::fft_steps(tw.len() as int)),
                c,
            )
        }),
{
    let steps = fft_schedule::fft_steps(tw.len() as int);
    let plan = poly::with_fft(before, data, log_size, tw);
    let launches = plan.dispatches.skip(before.dispatches.len() as int);
    lemma_steps_perform(before, data, log_size, tw, c, steps.len());
    assert(launches.take(steps.len() as int) =~= launches);
    assert(steps.take(steps.len() as int) =~= steps);
}

/// A launch for three layers is told how many twiddle factors each of them has: that many
/// words, from where the layer's argument starts, are the layer's factors.
pub proof fn law_launch_counts_factors(
    layer: u32,
    tw: Seq<Seq<u32>>,
    data: Arg,
    slot: usize,
    log_size: u32,
    j: int,
)
    requires
        poly::twiddles_ok(tw, log_size as int),
        1 <= layer,
        layer + 1 < tw.len(),
        0 <= j < 3,
    ensures
        ({
            let step = FftStep::Radix8 { layer };
            let d = poly::fft_step_dispatch(step, tw, data, slot, log_size);
            let words = source_words(poly::fft_step_source(step, tw));
            let start = d.args[1 + j]->offset as int / 4;
            let count = arg_number(d.args[6 + j]);
            &&& d.args[1 + j]->slot == slot
            &&& start + count <= words.len()
            &&& words.subrange(start, start + count) == tw[layer - 1 + j]
        }),
{
    let layers = tw.subrange(layer - 1, layer + 2);
    assert(forall|i: int| 0 <= i < 3 ==> #[trigger] layers[i] == tw[layer - 1 + i]);
    assert(layers[0].len() <= u32::MAX && layers[1].len() <= u32::MAX && layers[2].len()
        <= u32::MAX);
    reveal_with_fuel(packing::words_before, 4);
    twiddle_manager::law_sections_hold_layers(layers, j);
}

/// Performing a planned transform evaluates the polynomial: at each index stands the value
/// of the coefficients with the factors that belong to the index.
pub proof fn law_plan_evaluates(
    before: kernel::PlanView,
    data: Arg,
    log_size: u32,
    tw: Seq<Seq<u32>>,
    c: Seq<int>,
    i: int,
)
    requires
        complete(tw, log_size as nat),
        c.len() == pow2(log_size as nat),
        0 <= i < c.len(),
        before.buffers.len() + fft_schedule::fft_steps(tw.len() as int).len() <= usize::MAX,
    ensures
        ({
            let plan = poly::with_fft(before, data, log_size, tw);
            perform(
                plan.buffers,
                plan.dispatches.skip(before.dispatches.len() as int),
                c,
            )[i] == butterflies::folded(
                c,
                butterflies::factors_at(layer_factors(tw), i),
                log_size as nat,
            )
        }),
{
    law_plan_performs_transform(before, data, log_size, tw, c);
    butterflies::law_fft_evaluates(layer_factors(tw), log_size as nat, c, i);
}

/// An inverse layer depends only on the twiddle factors of its blocks.
proof fn lemma_inverse_layer_by_words(
    words: Seq<u32>,
    tw: Seq<Seq<u32>>,
    l: int,
    log_size: nat,
    c: Seq<int>,
)
    requires
        0 <= l < log_size,
        c.len() == pow2(log_size),
        holds_layer(words, tw, l, log_size),
    ensures
        butterflies::inverse_butterflies(word_factors(words))(l, c)
            == butterflies::inverse_butterflies(layer_factors(tw))(l, c),
        butterflies::inverse_butterflies(layer_factors(tw))(l, c).len() == c.len(),
{
    let a = butterflies::inverse_butterflies(word_factors(words))(l, c);
    let b = butterflies::inverse_butterflies(layer_factors(tw))(l, c);
    assert forall|i: int| 0 <= i < c.len() implies a[i] == b[i] by {
        butterflies::lemma_block_in_range(l, log_size, i);
        assert(words[butterflies::block_of(l, i)] == layer_words(tw, l)[butterflies::block_of(
            l,
            i,
        )]);
    }
    assert(a =~= b);
}

/// Performing the first `k` layers of a planned inverse transform applies them.
proof fn lemma_inverse_layers_perform(
    before: kernel::PlanView,
    data: Arg,
    log_size: u32,
    data_len: int,
    itw: Seq<Seq<u32>>,
    c: Seq<int>,
    k: nat,
)
    requires
        complete(itw, log_size as nat),
        c.len() == pow2(log_size as nat),
        k <= log_size,
        before.buffers.len() + log_size <= usize::MAX,
    ensures
        ({
            let plan = poly::with_ifft(before, data, log_size, data_len, itw);
            let launches = plan.dispatches.skip(before.dispatches.len() as int);
            &&& perform(plan.buffers, launches.take(k as int), c) == fft_schedule::apply_layers(
                butterflies::inverse_butterflies(layer_factors(itw)),
                fft_schedule::ifft_layers(log_size - 1).take(k as int),
                c,
            )
            &&& perform(plan.buffers, launches.take(k as int), c).len() == c.len()
        }),
    decreases k,
{
    let plan = poly::with_ifft(before, data, log_size, data_len, itw);
    let launches = plan.dispatches.skip(before.dispatches.len() as int);
    let layers = fft_schedule::ifft_layers(log_size - 1);
    let n = before.buffers.len() as int;
    if k == 0 {
        assert(launches.take(0) =~= Seq::empty());
        assert(layers.take(0) =~= Seq::empty());
    } else {
        let m = k - 1;
        lemma_inverse_layers_perform(before, data, log_size, data_len, itw, c, m as nat);
        assert(launches.take(k as int).drop_last() =~= launches.take(m));
        assert(launches.take(k as int).last() == launches[m]);
        assert(launches[m] == poly::ifft_dispatch(layers[m], data, (n + m) as usize, log_size));
        assert(layers.take(k as int).drop_last() =~= layers.take(m));
        assert(layers.take(k as int).last() == m);
        assert(plan.buffers[n + m] == poly::ifft_source(m, itw));
        let words = arg_words(plan.buffers, launches[m].args[1]);
        assert(words =~= layer_words(itw, m));
        lemma_inverse_layer_by_words(
            words,
            itw,
            m,
            log_size as nat,
            perform(plan.buffers, launches.take(m), c),
        );
    }
}

/// Performing a planned inverse transform of a whole domain applies its layers, and then
/// multiplies by the inverse of the size.
pub proof fn law_plan_performs_inverse(
    before: kernel::PlanView,
    data: Arg,
    log_size: u32,
    itw: Seq<Seq<u32>>,
    c: Seq<int>,
)
    requires
        complete(itw, log_size as nat),
        c.len() == pow2(log_size as nat),
        before.buffers.len() + log_size <= usize::MAX,
    ensures
        ({
            let plan = poly::with_ifft(before, data, log_size, c.len() as int, itw);
            perform(
                plan.buffers,
                plan.dispatches.skip(before.dispatches.len() as int),
                c,
            ) == fft_schedule::scaled(
                BaseField::spec_inverse_of_pow2(log_size as nat) as int,
                fft_schedule::apply_layers(
                    butterflies::inverse_butterflies(layer_factors(itw)),
                    fft_schedule::ifft_layers(log_size - 1),
                    c,
                ),
            )
        }),
{
    let len = c.len() as int;
    let plan = poly::with_ifft(before, data, log_size, len, itw);
    let launches = plan.dispatches.skip(before.dispatches.len() as int);
    let layers = fft_schedule::ifft_layers(log_size - 1);
    lemma_inverse_layers_perform(before, data, log_size, len, itw, c, log_size as nat);
    assert(layers.take(log_size as int) =~= layers);
    assert(launches.drop_last() =~= launches.take(log_size as int));
    assert(launches.last() == poly::normalize_dispatch(data, log_size, len));
    lemma2_to64();
    if log_size < 31 {
        lemma_pow2_strictly_increases(log_size as nat, 31);
    }
    let inner = perform(plan.buffers, launches.drop_last(), c);
    let factor = BaseField::spec_inverse_of_pow2(log_size as nat) as int;
    assert(normalized(inner, factor, len) =~= fft_schedule::scaled(factor, inner));
}

/// A planned inverse transform undoes a planned transform: performing the plan of one and
/// then that of the other, with inverse twiddle factors, gives the column back.
pub proof fn law_planned_roundtrip(
    before: kernel::PlanView,
    data: Arg,
    before_inverse: kernel::PlanView,
    inverse_data: Arg,
    log_size: u32,
    tw: Seq<Seq<u32>>,
    itw: Seq<Seq<u32>>,
    c: Seq<int>,
)
    requires
        complete(tw, log_size as nat),
        complete(itw, log_size as nat),
        butterflies::inverse_factors(layer_factors(tw), layer_factors(itw), log_size as nat),
        fft_schedule::canonical(c),
        c.len() == pow2(log_size as nat),
        before.buffers.len() + fft_schedule::fft_steps(tw.len() as int).len() <= usize::MAX,
        before_inverse.buffers.len() + log_size <= usize::MAX,
    ensures
        ({
            let plan = poly::with_fft(before, data, log_size, tw);
            let inverse = poly::with_ifft(
                before_inverse,
                inverse_data,
                log_size,
                c.len() as int,
                itw,
            );
            perform(
                inverse.buffers,
                inverse.dispatches.skip(before_inverse.dispatches.len() as int),
                perform(plan.buffers, plan.dispatches.skip(before.dispatches.len() as int), c),
            ) == c
        }),
{
    let log = log_size as nat;
    let f = butterflies::butterflies(layer_factors(tw));
    let steps = fft_schedule::fft_steps(tw.len() as int);
    lemma_steps_perform(before, data, log_size, tw, c, steps.len());
    law_plan_performs_transform(before, data, log_size, tw, c);
    let values = fft_schedule::apply_layers(f, fft_schedule::layers_of(steps), c);
    assert(steps.take(steps.len() as int) =~= steps);
    assert(values.len() == c.len());
    law_plan_performs_inverse(before_inverse, inverse_data, log_size, itw, values);
    let n_inv = BaseField::spec_inverse_of_pow2(log) as int;
    lemma_inverse_of_size(log_size);
    butterflies::law_butterfly_roundtrip(
        layer_factors(tw),
        layer_factors(itw),
        log,
        n_inv,
        c,
    );
}

/// The factor of the normalization is the inverse of the size.
pub proof fn lemma_inverse_of_size(log_size: u32)
    requires
        1 <= log_size <= 31,
    ensures
        fields::modp(
            BaseField::spec_inverse_of_pow2(log_size as nat) * pow2(log_size as nat),
        ) == 1,
{
    let log = log_size as nat;
    let n_inv = BaseField::spec_inverse_of_pow2(log) as int;
    lemma2_to64();
    lemma_pow2_adds((31 - log_size) as nat, log);
    lemma_pow2_strictly_increases((31 - log_size) as nat, 31);
    assert(n_inv * pow2(log) == P + 1);
    assert(fields::modp(P + 1) == 1);
}

/// A planned transform undoes a planned inverse transform: interpolating the values of a
/// domain, and then evaluating on the domain, gives the values back.
pub proof fn law_planned_inverse_roundtrip(
    before: kernel::PlanView,
    data: Arg,
    before_inverse: kernel::PlanView,
    inverse_data: Arg,
    log_size: u32,
    tw: Seq<Seq<u32>>,
    itw: Seq<Seq<u32>>,
    values: Seq<int>,
)
    requires
        complete(tw, log_size as nat),
        complete(itw, log_size as nat),
        butterflies::inverse_factors(layer_factors(tw), layer_factors(itw), log_size as nat),
        fft_schedule::canonical(values),
        values.len() == pow2(log_size as nat),
        before.buffers.len() + fft_schedule::fft_steps(tw.len() as int).len() <= usize::MAX,
        before_inverse.buffers.len() + log_size <= usize::MAX,
    ensures
        ({
            let plan = poly::with_fft(before, data, log_size, tw);
            let inverse = poly::with_ifft(
                before_inverse,
                inverse_data,
                log_size,
                values.len() as int,
                itw,
            );
            let coeffs = perform(
                inverse.buffers,
                inverse.dispatches.skip(before_inverse.dispatches.len() as int),
                values,
            );
            &&& coeffs.len() == values.len()
            &&& perform(
                plan.buffers,
                plan.dispatches.skip(before.dispatches.len() as int),
                coeffs,
            ) == values
        }),
{
    let log = log_size as nat;
    law_plan_performs_inverse(before_inverse, inverse_data, log_size, itw, values);
    lemma_inverse_layers_perform(
        before_inverse,
        inverse_data,
        log_size,
        values.len() as int,
        itw,
        values,
        log,
    );
    let layers = fft_schedule::ifft_layers(log_size - 1);
    assert(layers.take(log_size as int) =~= layers);
    let n_inv = BaseField::spec_inverse_of_pow2(log) as int;
    let coeffs = fft_schedule::scaled(
        n_inv,
        fft_schedule::apply_layers(
            butterflies::inverse_butterflies(layer_factors(itw)),
            layers,
            values,
        ),
    );
    assert(coeffs.len() == values.len());
    law_plan_performs_transform(before, data, log_size, tw, coeffs);
    lemma_inverse_of_size(log_size);
    butterflies::law_inverse_butterfly_roundtrip(
        layer_factors(tw),
        layer_factors(itw),
        log,
        n_inv,
        values,
    );
}

/// The twiddle factors of a subdomain are those of the domain, so many blocks further.
proof fn lemma_subdomain_words(tw: Seq<Seq<u32>>, log_size: nat, num: int, idx: int, l: int, b: int)
    requires
        3 <= log_size,
        poly::domain_twiddles_ok(tw, log_size as int, num),
        0 <= idx < num,
        0 <= l < log_size,
        0 <= b < pow2((log_size - 1 - l) as nat),
    ensures
        layer_words(poly::subdomain_twiddles(tw, log_size as int, idx), l)[b] == layer_words(
            tw,
            l,
        )[idx * pow2((log_size - 1 - l) as nat) + b],
{
    let sub = poly::subdomain_twiddles(tw, log_size as int, idx);
    if l > 0 {
        lemma_subdomain_layer(tw, log_size, num, idx, l - 1);
        assert(log_size - 2 - (l - 1) == log_size - 1 - l);
    } else {
        let m = log_size - 2;
        let q = pow2((m - 1) as nat) as int;
        lemma_subdomain_layer(tw, log_size, num, idx, 0);
        lemma_pow2_unfold(m as nat);
        lemma_pow2_unfold((m + 1) as nat);
        let j = idx * pow2((m + 1) as nat) + b;
        assert(idx * pow2(m as nat) == 2 * (idx * q)) by (nonlinear_arith)
            requires
                pow2(m as nat) == 2 * q,
        ;
        assert(idx * pow2((m + 1) as nat) == 4 * (idx * q)) by (nonlinear_arith)
            requires
                pow2((m + 1) as nat) == 4 * q,
        ;
        assert(j / 4 == idx * q + b / 4 && j % 4 == b % 4);
        assert(0 <= idx * q) by (nonlinear_arith)
            requires
                0 <= idx,
                0 <= q,
        ;
        assert(num * pow2(m as nat) == 2 * (num * q)) by (nonlinear_arith)
            requires
                pow2(m as nat) == 2 * q,
        ;
        assert(idx * q + q <= num * q) by (nonlinear_arith)
            requires
                idx < num,
                0 <= q,
        ;
        assert(poly::circle_quad(sub[0], b / 4) =~= poly::circle_quad(tw[0], j / 4));
    }
}

/// A layer of a subdomain is a part of the domain's.
pub proof fn lemma_subdomain_layer(tw: Seq<Seq<u32>>, log_size: nat, num: int, idx: int, i: int)
    requires
        poly::domain_twiddles_ok(tw, log_size as int, num),
        0 <= idx < num,
        0 <= i < log_size - 1,
    ensures
        ({
            let n = pow2((log_size - 2 - i) as nat) as int;
            let sub = poly::subdomain_twiddles(tw, log_size as int, idx);
            &&& sub[i].len() == n
            &&& forall|b: int| 0 <= b < n ==> #[trigger] sub[i][b] == tw[i][idx * n + b]
        }),
{
    let n = pow2((log_size - 2 - i) as nat) as int;
    let sub = poly::subdomain_twiddles(tw, log_size as int, idx);
    lemma_pow2_pos((log_size - 2 - i) as nat);
    assert(0 <= idx * n && idx * n + n <= num * n && (idx + 1) * n == idx * n + n)
        by (nonlinear_arith)
        requires
            0 <= idx < num,
            n > 0,
    ;
    assert(num * n <= tw[i].len());
    assert(sub[i] == tw[i].subrange(idx * n, (idx + 1) * n));
}

/// An index of a subdomain lies, in each layer, as far into its block as the index of the
/// domain that it stands for, so many blocks before.
proof fn lemma_subdomain_index(l: int, log_size: nat, idx: int, i: int)
    requires
        0 <= l < log_size,
        0 <= idx,
        0 <= i < pow2(log_size),
    ensures
        ({
            let global = idx * pow2(log_size) + i;
            &&& butterflies::block_of(l, global) == idx * pow2((log_size - 1 - l) as nat)
                + butterflies::block_of(l, i)
            &&& butterflies::in_lower_half(l, global) == butterflies::in_lower_half(l, i)
        }),
{
    let d = 2 * pow2(l as nat) as int;
    let q = pow2((log_size - 1 - l) as nat) as int;
    let global = idx * pow2(log_size) + i;
    lemma_pow2_pos(l as nat);
    lemma_pow2_unfold((l + 1) as nat);
    lemma_pow2_adds((l + 1) as nat, (log_size - 1 - l) as nat);
    assert(idx * pow2(log_size) == d * (idx * q)) by (nonlinear_arith)
        requires
            pow2(log_size) == d * q,
    ;
    lemma_fundamental_div_mod(i, d);
    lemma_mod_bound(i, d);
    lemma_mul_is_distributive_add(d, idx * q, i / d);
    lemma_fundamental_div_mod_converse(global, d, idx * q + i / d, i % d);
}

/// Performing the part of a planned evaluation that belongs to a subdomain evaluates the
/// polynomial there: value `i` of subdomain `idx` is the value of the coefficients with the
/// factors of the domain at index `idx * 2^log_size + i`.
pub proof fn law_plan_evaluates_on_domain(
    before: kernel::PlanView,
    words: Seq<u32>,
    log_size: u32,
    num: nat,
    tw: Seq<Seq<u32>>,
    idx: int,
    i: int,
)
    requires
        3 <= log_size <= 31,
        words.len() == pow2(log_size as nat),
        0 <= i < words.len(),
        0 <= idx < num,
        poly::domain_twiddles_ok(tw, log_size as int, num as int),
        ({
            let earlier = poly::with_subdomain_ffts_upto(
                before,
                words,
                log_size,
                num,
                tw,
                idx as nat,
            );
            earlier.buffers.len() + fft_schedule::fft_steps(log_size - 1).len() <= usize::MAX
        }),
    ensures
        ({
            let c = words.map_values(|w: u32| w as int);
            let earlier = poly::with_subdomain_ffts_upto(
                before,
                words,
                log_size,
                num,
                tw,
                idx as nat,
            );
            let plan = poly::with_subdomain_ffts_upto(
                before,
                words,
                log_size,
                num,
                tw,
                (idx + 1) as nat,
            );
            perform(
                plan.buffers,
                plan.dispatches.skip(earlier.dispatches.len() as int),
                c,
            )[i] == butterflies::folded(
                c,
                butterflies::factors_at(
                    layer_factors(tw),
                    idx * pow2(log_size as nat) + i,
                ),
                log_size as nat,
            )
        }),
{
    let log = log_size as nat;
    let c = words.map_values(|w: u32| w as int);
    let sub = poly::subdomain_twiddles(tw, log_size as int, idx);
    let earlier = poly::with_subdomain_ffts_upto(before, words, log_size, num, tw, idx as nat);
    let data = Arg::Buffer {
        slot: before.buffers.len() as usize,
        offset: (4 * (idx * words.len())) as u64,
    };
    assert forall|k: int| #![trigger sub[k]] 0 <= k < sub.len() implies sub[k].len() == pow2(
        (log - 2 - k) as nat,
    ) by {
        lemma_subdomain_layer(tw, log, num as int, idx, k);
    }
    law_plan_evaluates(earlier, data, log_size, sub, c, i);
    let global = idx * pow2(log) + i;
    let f = butterflies::factors_at(layer_factors(sub), i);
    let g = butterflies::factors_at(layer_factors(tw), global);
    assert forall|l: int| 0 <= l < log implies #[trigger] f(l) == g(l) by {
        butterflies::lemma_block_in_range(l, log, i);
        lemma_subdomain_index(l, log, idx, i);
        lemma_subdomain_words(tw, log, num as int, idx, l, butterflies::block_of(l, i));
    }
    butterflies::lemma_folded_by_factors(c, f, g, log);
}

/// A base field element as coordinates of the extension.
pub open spec fn base_coords(x: int) -> fields::Coords {
    fields::Coords { c0: fields::modp(x), c1: 0, c2: 0, c3: 0 }
}

/// Twiddle factors are those of a domain of points: the factors that belong to an index of
/// the domain are the folding factors of the point there.
pub open spec fn twiddles_of_points(
    tw: Seq<Seq<u32>>,
    log_size: nat,
    points: Seq<point_evaluation::CirclePoint>,
) -> bool {
    forall|j: int, l: int|
        #![trigger butterflies::signed_factor(layer_factors(tw), j, l)]
        0 <= j < points.len() && 0 <= l < log_size ==> point_evaluation::folding_factor(
            points[j],
            l as nat,
        ) == base_coords(butterflies::signed_factor(layer_factors(tw), j, l))
}

/// Folding with base field factors stays in the base field.
proof fn lemma_fold_in_base(
    coeffs: Seq<BaseField>,
    point: point_evaluation::CirclePoint,
    f: spec_fn(int) -> int,
    k: nat,
)
    requires
        coeffs.len() == pow2(k),
        point_evaluation::canonical_column(coeffs),
        forall|l: int|
            0 <= l < k ==> point_evaluation::folding_factor(point, l as nat) == base_coords(
                #[trigger] f(l),
            ),
    ensures
        point_evaluation::fold_value(coeffs, point, k) == base_coords(
            butterflies::folded(coeffs.map_values(|c: BaseField| c.0 as int), f, k),
        ),
        0 <= butterflies::folded(coeffs.map_values(|c: BaseField| c.0 as int), f, k) < P,
    decreases k,
{
    let c = coeffs.map_values(|c: BaseField| c.0 as int);
    if k == 0 {
        lemma2_to64();
        assert(coeffs[0].wf());
        lemma_small_mod(c[0] as nat, P as nat);
    } else {
        let m = (k - 1) as nat;
        let half = pow2(m) as int;
        lemma_pow2_unfold(k);
        let left = coeffs.take(half);
        let right = coeffs.skip(half);
        assert forall|i: int| 0 <= i < left.len() implies (#[trigger] left[i]).wf() by {
            assert(coeffs[i].wf());
        }
        assert forall|i: int| 0 <= i < right.len() implies (#[trigger] right[i]).wf() by {
            assert(coeffs[half + i].wf());
        }
        lemma_fold_in_base(left, point, f, m);
        lemma_fold_in_base(right, point, f, m);
        assert(left.map_values(|c: BaseField| c.0 as int) =~= c.take(half));
        assert(right.map_values(|c: BaseField| c.0 as int) =~= c.skip(half));
        let a = butterflies::folded(c.take(half), f, m);
        let b = butterflies::folded(c.skip(half), f, m);
        let t = f(k - 1);
        assert(point_evaluation::folding_factor(point, m) == base_coords(t));
        lemma_small_mod(a as nat, P as nat);
        lemma_small_mod(b as nat, P as nat);
        lemma_base_fold(a, b, t);
    }
}

/// One step of folding, in the base field.
proof fn lemma_base_fold(a: int, b: int, t: int)
    requires
        0 <= a < P,
        0 <= b < P,
    ensures
        base_coords(a).plus(base_coords(b).times(base_coords(t)).reduced()).reduced()
            == base_coords(fields::modp(a + t * b)),
{
    let p = P as int;
    lemma_small_mod(a as nat, P as nat);
    lemma_small_mod(b as nat, P as nat);
    let product = base_coords(b).times(base_coords(t));
    let s = fields::modp(t);
    assert(b * 0 == 0 && 0 * s == 0) by (nonlinear_arith);
    assert(product.c0 == b * s);
    assert(product.c1 == 0 && product.c2 == 0 && product.c3 == 0);
    assert(fields::modp(0) == 0);
    lemma_mul_mod_noop_right(b, t, p);
    lemma_mul_is_commutative(b, t);
    lemma_add_mod_noop(a, t * b, p);
    lemma_add_mod_noop(a, fields::modp(t * b), p);
    lemma_mod_twice(t * b, p);
    lemma_mod_twice(a + t * b, p);
}

/// Folding the coefficients with the factors of a subdomain gives the polynomial's value at
/// the point of the domain that the index stands for.
pub proof fn lemma_folded_at_point(
    polynomial: poly::CircleCoefficients,
    num: nat,
    tw: Seq<Seq<u32>>,
    points: Seq<point_evaluation::CirclePoint>,
    idx: int,
    i: int,
)
    requires
        polynomial.wf(),
        point_evaluation::canonical_column(polynomial.coeffs@),
        3 <= polynomial.spec_log_size() <= 31,
        0 <= i < polynomial.coeffs.len(),
        0 <= idx < num,
        poly::domain_twiddles_ok(tw, polynomial.spec_log_size() as int, num as int),
        points.len() == num * polynomial.coeffs.len(),
        twiddles_of_points(tw, polynomial.spec_log_size(), points),
    ensures
        ({
            let words = columns::column_words(polynomial.coeffs@);
            let log = polynomial.spec_log_size();
            let sub = poly::subdomain_twiddles(tw, log as int, idx);
            let value = butterflies::folded(
                words.map_values(|w: u32| w as int),
                butterflies::factors_at(layer_factors(sub), i),
                log,
            );
            &&& 0 <= value < P
            &&& point_evaluation::poly_value(polynomial, points[idx * words.len() + i])
                == (fields::Coords { c0: value, c1: 0, c2: 0, c3: 0 })
        }),
{
    let log = polynomial.spec_log_size();
    let words = columns::column_words(polynomial.coeffs@);
    let sub = poly::subdomain_twiddles(tw, log as int, idx);
    let c = words.map_values(|w: u32| w as int);
    let n = words.len() as int;
    let global = idx * n + i;
    assert(0 <= global < num * n) by (nonlinear_arith)
        requires
            0 <= idx < num,
            0 <= i < n,
            global == idx * n + i,
    ;
    let f = butterflies::factors_at(layer_factors(sub), i);
    let g = butterflies::factors_at(layer_factors(tw), global);
    assert forall|l: int| 0 <= l < log implies #[trigger] f(l) == g(l) by {
        butterflies::lemma_block_in_range(l, log, i);
        lemma_subdomain_index(l, log, idx, i);
        lemma_subdomain_words(tw, log, num as int, idx, l, butterflies::block_of(l, i));
    }
    butterflies::lemma_folded_by_factors(c, f, g, log);
    assert forall|l: int| 0 <= l < log implies point_evaluation::folding_factor(
        points[global],
        l as nat,
    ) == base_coords(#[trigger] g(l)) by {
        assert(g(l) == butterflies::signed_factor(layer_factors(tw), global, l));
    }
    lemma_fold_in_base(polynomial.coeffs@, points[global], g, log);
    assert(c =~= polynomial.coeffs@.map_values(|c: BaseField| c.0 as int));
    lemma_small_mod(butterflies::folded(c, g, log) as nat, P as nat);
}

/// Performing the part of a planned evaluation that belongs to a subdomain gives the values
/// of the polynomial at the subdomain's points: value `i` of subdomain `idx` is the value at
/// point `idx * 2^log_size + i` of the domain.
pub proof fn law_plan_evaluates_at_points(
    before: kernel::PlanView,
    polynomial: poly::CircleCoefficients,
    num: nat,
    tw: Seq<Seq<u32>>,
    points: Seq<point_evaluation::CirclePoint>,
    idx: int,
    i: int,
)
    requires
        polynomial.wf(),
        point_evaluation::canonical_column(polynomial.coeffs@),
        3 <= polynomial.spec_log_size() <= 31,
        0 <= i < polynomial.coeffs.len(),
        0 <= idx < num,
        poly::domain_twiddles_ok(tw, polynomial.spec_log_size() as int, num as int),
        points.len() == num * polynomial.coeffs.len(),
        twiddles_of_points(tw, polynomial.spec_log_size(), points),
        ({
            let earlier = poly::with_subdomain_ffts_upto(
                before,
                columns::column_words(polynomial.coeffs@),
                polynomial.spec_log_size() as u32,
                num,
                tw,
                idx as nat,
            );
            earlier.buffers.len() + fft_schedule::fft_steps(
                polynomial.spec_log_size() - 1,
            ).len() <= usize::MAX
        }),
    ensures
        ({
            let words = columns::column_words(polynomial.coeffs@);
            let log_size = polynomial.spec_log_size() as u32;
            let earlier = poly::with_subdomain_ffts_upto(
                before,
                words,
                log_size,
                num,
                tw,
                idx as nat,
            );
            let plan = poly::with_subdomain_ffts_upto(
                before,
                words,
                log_size,
                num,
                tw,
                (idx + 1) as nat,
            );
            let values = perform(
                plan.buffers,
                plan.dispatches.skip(earlier.dispatches.len() as int),
                words.map_values(|w: u32| w as int),
            );
            base_coords(values[i]) == point_evaluation::poly_value(
                polynomial,
                points[idx * words.len() + i],
            )
        }),
{
    let log = polynomial.spec_log_size();
    let words = columns::column_words(polynomial.coeffs@);
    let n = words.len() as int;
    let global = idx * n + i;
    assert(0 <= global < num * n) by (nonlinear_arith)
        requires
            0 <= idx < num,
            0 <= i < n,
            global == idx * n + i,
    ;
    law_plan_evaluates_on_domain(before, words, log as u32, num, tw, idx, i);
    let f = butterflies::factors_at(layer_factors(tw), global);
    assert forall|l: int| 0 <= l < log implies point_evaluation::folding_factor(
        points[global],
        l as nat,
    ) == base_coords(#[trigger] f(l)) by {
        assert(f(l) == butterflies::signed_factor(layer_factors(tw), global, l));
    }
    lemma_fold_in_base(polynomial.coeffs@, points[global], f, log);
    assert(words.map_values(|w: u32| w as int) =~= polynomial.coeffs@.map_values(
        |c: BaseField| c.0 as int,
    ));
}

} // verus!
