//! Polynomials on the circle: transforms and evaluation at points.

use crate::columns;
use crate::columns::push_column_words;
use crate::fft_schedule;
use crate::fft_schedule::{plan_fft_steps, FftStep, MIN_RADIX8_LAYERS};
use crate::fields;
use crate::fields::{BaseField, P};
use crate::kernel;
use crate::kernel::{groups_for, whole, Arg, Grid, Kernel, Plan, Source};
use crate::packing;
use crate::thresholds::MIN_FFT_LOG_SIZE;
use crate::twiddle_manager;
use crate::twiddle_manager::{copy_layers, layer_sections};
use crate::utils;
use crate::utils::{ilog2, pow2_u64, pow2_usize};
use vstd::arithmetic::div_mod::*;
use vstd::arithmetic::power2::*;
use vstd::prelude::*;
use vstd::slice::{slice_subrange, slice_to_vec};

verus! {

/// Twice the field's modulus.
pub const P_DBL: u32 = 4294967294;

/// The doubled representative of the negative of a doubled element.
pub open spec fn neg_doubled(a_dbl: u32) -> u32 {
    if a_dbl == 0 {
        0
    } else {
        (P_DBL - a_dbl) as u32
    }
}

/// The twiddle factors of the circle layer that belong to pair `k` of the first line
/// layer's: for a pair `x, y` they are `y, -y, -x, x`.
pub open spec fn circle_quad(line: Seq<u32>, k: int) -> Seq<u32> {
    let x = line[2 * k];
    let y = line[2 * k + 1];
    seq![y, neg_doubled(y), neg_doubled(x), x]
}

/// The twiddle factors of the circle layer.
pub open spec fn circle_twiddles(line: Seq<u32>) -> Seq<u32> {
    Seq::new(4 * (line.len() / 2), |i: int| circle_quad(line, i / 4)[i % 4])
}

/// Every factor that is paired is a doubled field element.
pub open spec fn doubled(line: Seq<u32>) -> bool {
    forall|i: int| 0 <= i < 2 * (line.len() / 2) ==> #[trigger] line[i] <= P_DBL
}

/// Generates the twiddle factors of the circle layer from those of the first line layer.
/// Factors are doubled: a word stands for half its value.
pub fn circle_twiddles_from_line_twiddles(first_line_twiddles: &[u32]) -> (r: Vec<u32>)
    requires
        doubled(first_line_twiddles@),
    ensures
        r@ == circle_twiddles(first_line_twiddles@),
{
    let mut out: Vec<u32> = Vec::new();
    let n: usize = first_line_twiddles.len() / 2;
    for k in 0..n
        invariant
            n == first_line_twiddles.len() / 2,
            doubled(first_line_twiddles@),
            out@ == circle_twiddles(first_line_twiddles@).take(4 * k),
    {
        let x_dbl: u32 = first_line_twiddles[2 * k];
        let y_dbl: u32 = first_line_twiddles[2 * k + 1];
        out.push(y_dbl);
        out.push(
            if y_dbl == 0 {
                0
            } else {
                P_DBL - y_dbl
            },
        );
        out.push(
            if x_dbl == 0 {
                0
            } else {
                P_DBL - x_dbl
            },
        );
        out.push(x_dbl);
        proof {
            let all = circle_twiddles(first_line_twiddles@);
            assert forall|j: int| 4 * k <= j < 4 * k + 4 implies out@[j] == #[trigger] all[j] by {
                assert(j / 4 == k && j % 4 == j - 4 * k);
            }
            assert(out@ =~= all.take(4 * (k + 1)));
        }
    }
    assert(out@ =~= circle_twiddles(first_line_twiddles@));
    out
}

/// Negating a doubled element negates the element that it stands for.
pub proof fn law_neg_doubled(x: u32)
    requires
        x < P,
    ensures
        neg_doubled((2 * x) as u32) % 2 == 0,
        neg_doubled((2 * x) as u32) / 2 == fields::modp(-(x as int)),
        neg_doubled((2 * x) as u32) < P_DBL,
{
    if x == 0 {
        assert(fields::modp(0) == 0);
    } else {
        lemma_mod_add_multiples_vanish(-(x as int), P as int);
        lemma_small_mod((P - x) as nat, P as nat);
    }
}

/// Twiddle factors for a transform over `2^log_size` points: one layer of doubled factors
/// for each line layer, with lengths that fit in a word.
pub open spec fn twiddles_ok(tw: Seq<Seq<u32>>, log_size: int) -> bool {
    &&& tw.len() + 1 == log_size
    &&& forall|i: int| 0 <= i < tw.len() ==> (#[trigger] tw[i]).len() <= u32::MAX
    &&& tw.len() > 0 ==> doubled(tw[0])
}

/// The twiddle buffer of a step of the forward transform.
pub open spec fn fft_step_source(step: FftStep, tw: Seq<Seq<u32>>) -> kernel::SourceView {
    match step {
        FftStep::Radix2 { layer, cached } => if cached {
            kernel::SourceView::CachedWords(tw[layer - 1])
        } else {
            kernel::SourceView::Words(tw[layer - 1])
        },
        FftStep::Radix8 { layer } => kernel::SourceView::FlatWords(
            tw.subrange(layer - 1, layer + 2),
        ),
        FftStep::VecwiseFused => kernel::SourceView::FlatWords(tw.subrange(0, 4)),
        FftStep::Circle => kernel::SourceView::Words(circle_twiddles(tw[0])),
    }
}

/// The section of layer `i` of a flat buffer, as an argument.
pub open spec fn section_arg(slot: usize, layers: Seq<Seq<u32>>, i: int) -> Arg {
    Arg::Buffer { slot, offset: twiddle_manager::flat_sections(layers)[i].offset }
}

/// A thread for every `2^k` points.
pub open spec fn fft_grid(log_size: u32, k: int) -> Grid {
    kernel::spec_groups_for(pow2((log_size - k) as nat) as u64)
}

/// The launch of a step of the forward transform.
pub open spec fn fft_step_dispatch(
    step: FftStep,
    tw: Seq<Seq<u32>>,
    data: Arg,
    slot: usize,
    log_size: u32,
) -> kernel::DispatchView {
    match step {
        FftStep::Radix2 { layer, .. } => kernel::DispatchView {
            kernel: Kernel::FftRadix2,
            args: seq![data, kernel::spec_whole(slot), Arg::U32(log_size), Arg::U32(layer)],
            grid: fft_grid(log_size, 1),
        },
        FftStep::Radix8 { layer } => {
            let layers = tw.subrange(layer - 1, layer + 2);
            kernel::DispatchView {
                kernel: Kernel::FftRadix8,
                args: seq![
                    data,
                    section_arg(slot, layers, 0),
                    section_arg(slot, layers, 1),
                    section_arg(slot, layers, 2),
                    Arg::U32(log_size),
                    Arg::U32(layer),
                    Arg::U32(layers[0].len() as u32),
                    Arg::U32(layers[1].len() as u32),
                    Arg::U32(layers[2].len() as u32),
                ],
                grid: fft_grid(log_size, 3),
            }
        },
        FftStep::VecwiseFused => {
            let layers = tw.subrange(0, 4);
            kernel::DispatchView {
                kernel: Kernel::FftVecwiseFused,
                args: seq![
                    data,
                    section_arg(slot, layers, 0),
                    section_arg(slot, layers, 1),
                    section_arg(slot, layers, 2),
                    section_arg(slot, layers, 3),
                    Arg::U32(log_size),
                ],
                grid: fft_grid(log_size, 1),
            }
        },
        FftStep::Circle => kernel::DispatchView {
            kernel: Kernel::FftRadix2,
            args: seq![data, kernel::spec_whole(slot), Arg::U32(log_size), Arg::U32(0)],
            grid: fft_grid(log_size, 1),
        },
    }
}

/// A plan followed by the first `k` steps of a forward transform: one twiddle buffer and
/// one launch for each.
pub open spec fn with_fft_steps(
    before: kernel::PlanView,
    data: Arg,
    log_size: u32,
    tw: Seq<Seq<u32>>,
    k: nat,
) -> kernel::PlanView {
    let steps = fft_schedule::fft_steps(tw.len() as int);
    let n = before.buffers.len();
    kernel::PlanView {
        buffers: before.buffers + Seq::new(k, |i: int| fft_step_source(steps[i], tw)),
        dispatches: before.dispatches + Seq::new(
            k,
            |i: int| fft_step_dispatch(steps[i], tw, data, (n + i) as usize, log_size),
        ),
    }
}

/// A plan followed by a forward transform in place.
pub open spec fn with_fft(
    before: kernel::PlanView,
    data: Arg,
    log_size: u32,
    tw: Seq<Seq<u32>>,
) -> kernel::PlanView {
    with_fft_steps(
        before,
        data,
        log_size,
        tw,
        fft_schedule::fft_steps(tw.len() as int).len(),
    )
}

/// Groups for `2^(log_size - k)` threads.
fn fft_groups(log_size: u32, k: u32) -> (r: Grid)
    requires
        k <= log_size,
        log_size - k < 63,
    ensures
        r == fft_grid(log_size, k as int),
{
    proof {
        lemma_pow2_strictly_increases((log_size - k) as nat, 63);
        lemma_pow2_unfold(64);
        lemma2_to64();
        lemma2_to64_rest();
    }
    groups_for(pow2_u64(log_size - k))
}

/// Adds the twiddle buffer for the layers `start..start + count` and returns its slot and
/// the layers' sections.
fn add_flat_twiddles(plan: &mut Plan, tw: &[&[u32]], start: usize, count: usize) -> (r: (
    usize,
    Vec<twiddle_manager::TwiddleSection>,
))
    requires
        start + count <= tw.len(),
        count <= 4,
        forall|i: int| 0 <= i < tw.len() ==> (#[trigger] tw@[i])@.len() <= u32::MAX,
    ensures
        ({
            let layers = twiddle_manager::layer_slices(tw@).subrange(start as int, start + count);
            &&& r.0 == old(plan)@.buffers.len()
            &&& r.1@ == twiddle_manager::flat_sections(layers)
            &&& final(plan)@ == old(plan)@.with_buffer(kernel::SourceView::FlatWords(layers))
        }),
        old(plan)@.wf() ==> final(plan)@.wf(),
{
    let mut part: Vec<&[u32]> = Vec::new();
    let ghost all = twiddle_manager::layer_slices(tw@);
    let ghost layers = all.subrange(start as int, start + count);
    for i in 0..count
        invariant
            start + count <= tw.len(),
            part@ == tw@.subrange(start as int, start + i),
    {
        part.push(tw[start + i]);
        assert(part@ =~= tw@.subrange(start as int, start + i + 1));
    }
    assert(twiddle_manager::layer_slices(part@) =~= layers);
    proof {
        assert forall|k: int| 0 <= k <= count implies #[trigger] packing::words_before(
            layers,
            k,
        ) <= k * u32::MAX by {
            lemma_words_bound(layers, k);
        }
        assert(packing::words_before(layers, count as int) <= count * u32::MAX);
    }
    let sections = layer_sections(part.as_slice());
    let slot: usize = plan.add_buffer(Source::FlatWords(copy_layers(part.as_slice())));
    (slot, sections)
}

proof fn lemma_words_bound(layers: Seq<Seq<u32>>, k: int)
    requires
        0 <= k <= layers.len(),
        forall|i: int| 0 <= i < layers.len() ==> (#[trigger] layers[i]).len() <= u32::MAX,
    ensures
        packing::words_before(layers, k) <= k * u32::MAX,
    decreases k,
{
    if k > 0 {
        lemma_words_bound(layers, k - 1);
        assert((k - 1) * u32::MAX + u32::MAX == k * u32::MAX) by (nonlinear_arith);
    }
}

/// Adds one step of a forward transform.
fn add_fft_step(plan: &mut Plan, step: FftStep, data: Arg, log_size: u32, tw: &[&[u32]])
    requires
        twiddles_ok(twiddle_manager::layer_slices(tw@), log_size as int),
        log_size < 63,
        1 <= step.top() <= tw.len(),
        step matches FftStep::Radix2 { layer, .. } ==> layer >= 1,
        step matches FftStep::Radix8 { layer } ==> layer >= 1,
        step is Radix8 ==> log_size >= MIN_RADIX8_LAYERS,
        data matches Arg::Buffer { slot, .. } ==> slot < old(plan)@.buffers.len(),
    ensures
        old(plan)@.wf() ==> final(plan)@.wf(),
        final(plan)@ == old(plan)@.with_buffer(
            fft_step_source(step, twiddle_manager::layer_slices(tw@)),
        ).with_dispatch(
            fft_step_dispatch(
                step,
                twiddle_manager::layer_slices(tw@),
                data,
                old(plan)@.buffers.len() as usize,
                log_size,
            ),
        ),
{
    let ghost layers = twiddle_manager::layer_slices(tw@);
    assert forall|i: int| 0 <= i < tw.len() implies (#[trigger] tw@[i])@.len() <= u32::MAX by {
        assert(layers[i].len() <= u32::MAX);
    }
    match step {
        FftStep::Radix2 { layer, cached } => {
            let words = slice_to_vec(tw[(layer - 1) as usize]);
            let source = if cached {
                Source::CachedWords(words)
            } else {
                Source::Words(words)
            };
            let slot: usize = plan.add_buffer(source);
            let args = vec![data, whole(slot), Arg::U32(log_size), Arg::U32(layer)];
            assert(args@ =~= seq![data, whole(slot), Arg::U32(log_size), Arg::U32(layer)]);
            plan.dispatch(Kernel::FftRadix2, args, fft_groups(log_size, 1));
        },
        FftStep::Radix8 { layer } => {
            let first: usize = (layer - 1) as usize;
            let (slot, sections) = add_flat_twiddles(plan, tw, first, 3);
            let args = vec![
                data,
                Arg::Buffer { slot, offset: sections[0].offset },
                Arg::Buffer { slot, offset: sections[1].offset },
                Arg::Buffer { slot, offset: sections[2].offset },
                Arg::U32(log_size),
                Arg::U32(layer),
                Arg::U32(sections[0].len),
                Arg::U32(sections[1].len),
                Arg::U32(sections[2].len),
            ];
            assert(args@ =~= fft_step_dispatch(step, layers, data, slot, log_size).args);
            plan.dispatch(Kernel::FftRadix8, args, fft_groups(log_size, 3));
        },
        FftStep::VecwiseFused => {
            let (slot, sections) = add_flat_twiddles(plan, tw, 0, 4);
            let args = vec![
                data,
                Arg::Buffer { slot, offset: sections[0].offset },
                Arg::Buffer { slot, offset: sections[1].offset },
                Arg::Buffer { slot, offset: sections[2].offset },
                Arg::Buffer { slot, offset: sections[3].offset },
                Arg::U32(log_size),
            ];
            assert(args@ =~= fft_step_dispatch(step, layers, data, slot, log_size).args);
            plan.dispatch(Kernel::FftVecwiseFused, args, fft_groups(log_size, 1));
        },
        FftStep::Circle => {
            assert(tw@[0]@ == layers[0]);
            let words = circle_twiddles_from_line_twiddles(tw[0]);
            let slot: usize = plan.add_buffer(Source::Words(words));
            let args = vec![data, whole(slot), Arg::U32(log_size), Arg::U32(0)];
            assert(args@ =~= seq![data, whole(slot), Arg::U32(log_size), Arg::U32(0)]);
            plan.dispatch(Kernel::FftRadix2, args, fft_groups(log_size, 1));
        },
    }
}

/// Adds a forward transform, in place, of the `2^log_size` values from `data_offset` on.
fn metal_fft_single_domain_batched(
    plan: &mut Plan,
    data_slot: usize,
    data_offset: usize,
    log_size: u32,
    twiddle_slices: &[&[u32]],
)
    requires
        twiddles_ok(twiddle_manager::layer_slices(twiddle_slices@), log_size as int),
        log_size < 63,
        4 * data_offset <= u64::MAX,
        data_slot < old(plan)@.buffers.len(),
    ensures
        old(plan)@.wf() ==> final(plan)@.wf(),
        final(plan)@ == with_fft(
            old(plan)@,
            Arg::Buffer { slot: data_slot, offset: (4 * data_offset) as u64 },
            log_size,
            twiddle_manager::layer_slices(twiddle_slices@),
        ),
{
    let ghost tw = twiddle_manager::layer_slices(twiddle_slices@);
    let ghost before = plan@;
    let ghost n = before.buffers.len();
    let data = Arg::Buffer { slot: data_slot, offset: 4 * (data_offset as u64) };
    let steps = plan_fft_steps(twiddle_slices.len() as u32);
    assert(plan@ =~= with_fft_steps(before, data, log_size, tw, 0));
    for i in 0..steps.len()
        invariant
            tw == twiddle_manager::layer_slices(twiddle_slices@),
            twiddles_ok(tw, log_size as int),
            log_size < 63,
            steps@ == fft_schedule::fft_steps(tw.len() as int),
            n == before.buffers.len(),
            data == (Arg::Buffer { slot: data_slot, offset: data->offset }),
            data_slot < n,
            before.wf() ==> plan@.wf(),
            plan@ == with_fft_steps(before, data, log_size, tw, i as nat),
    {
        proof {
            fft_schedule::law_fft_steps_in_range(tw.len() as int, i as int);
            lemma_radix8_layer(tw.len() as int, i as int);
        }
        add_fft_step(plan, steps[i], data, log_size, twiddle_slices);
        assert(plan@ =~= with_fft_steps(before, data, log_size, tw, (i + 1) as nat));
    }
}

/// A step over three layers starts at a line layer.
pub proof fn lemma_radix8_layer(n: int, i: int)
    requires
        0 <= n < u32::MAX - 4,
        0 <= i < fft_schedule::fft_steps(n).len(),
    ensures
        fft_schedule::fft_steps(n)[i] matches FftStep::Radix8 { layer } ==> layer >= 1,
{
    let steps = fft_schedule::fft_steps(n);
    if steps[i] is Radix8 {
        fft_schedule::law_fft_steps_in_range(n, i);
        let outer = n + 1 - fft_schedule::VECWISE_FFT_BITS;
        let left = (outer % 3) as nat;
        let groups = (outer / 3) as nat;
        if i < left {
            assert(steps[i] == fft_schedule::radix2_down(n, left, true)[i]);
        } else {
            assert(steps[i] == fft_schedule::radix8_down(groups)[i - left]);
        }
    }
}

/// Coefficients of a circle polynomial; their number is a power of two.
#[derive(Debug)]
pub struct CircleCoefficients {
    pub coeffs: Vec<BaseField>,
}

impl CircleCoefficients {
    pub open spec fn wf(self) -> bool {
        utils::is_pow2(self.coeffs.len() as int)
    }

    /// Binary logarithm of the number of coefficients.
    pub open spec fn spec_log_size(self) -> nat {
        utils::floor_log2(self.coeffs.len() as int)
    }

    pub fn new(coeffs: Vec<BaseField>) -> (r: CircleCoefficients)
        requires
            utils::is_pow2(coeffs.len() as int),
        ensures
            r.wf(),
            r.coeffs@ == coeffs@,
    {
        CircleCoefficients { coeffs }
    }

    /// Binary logarithm of the number of coefficients.
    pub fn log_size(&self) -> (r: u32)
        requires
            self.wf(),
        ensures
            r == self.spec_log_size(),
            r < 64,
    {
        ilog2(self.coeffs.len())
    }
}

/// Splits coefficients into their two halves.
pub fn split_at_mid(poly: CircleCoefficients) -> (r: (CircleCoefficients, CircleCoefficients))
    requires
        poly.wf(),
        poly.coeffs.len() >= 2,
    ensures
        r.0.wf(),
        r.1.wf(),
        r.0.coeffs@ == poly.coeffs@.take(poly.coeffs@.len() as int / 2),
        r.1.coeffs@ == poly.coeffs@.skip(poly.coeffs@.len() as int / 2),
        r.0.spec_log_size() + 1 == poly.spec_log_size(),
        r.1.spec_log_size() + 1 == poly.spec_log_size(),
{
    proof {
        let log = poly.spec_log_size();
        lemma2_to64();
        lemma_pow2_unfold(log);
        utils::lemma_floor_log2_of_pow2((log - 1) as nat);
    }
    let (left, right) = columns::split_at_mid(poly.coeffs);
    (CircleCoefficients::new(left), CircleCoefficients::new(right))
}

/// The part of a domain's twiddle factors that belongs to a subdomain.
pub open spec fn subdomain_twiddles(tw: Seq<Seq<u32>>, log_size: int, idx: int) -> Seq<Seq<u32>> {
    Seq::new(
        (log_size - 1) as nat,
        |i: int|
            tw[i].subrange(
                idx * pow2((log_size - 2 - i) as nat),
                (idx + 1) * pow2((log_size - 2 - i) as nat),
            ),
    )
}

/// The twiddle factors of a domain that consists of `num` subdomains of `2^log_size` points.
pub open spec fn domain_twiddles_ok(tw: Seq<Seq<u32>>, log_size: int, num: int) -> bool {
    &&& log_size >= 1
    &&& tw.len() >= log_size - 1
    &&& forall|i: int|
        #![trigger tw[i]]
        0 <= i < log_size - 1 ==> num * pow2((log_size - 2 - i) as nat) <= tw[i].len()
    &&& log_size >= 2 ==> forall|k: int| 0 <= k < tw[0].len() ==> #[trigger] tw[0][k] <= P_DBL
}

/// The words of a column, `num` times in a row.
pub open spec fn repeated(words: Seq<u32>, num: nat) -> Seq<u32> {
    Seq::new(num * words.len(), |i: int| words[i % (words.len() as int)])
}

/// A plan followed by the transforms of the first `k` subdomains of the buffer that was
/// added first.
pub open spec fn with_subdomain_ffts_upto(
    before: kernel::PlanView,
    words: Seq<u32>,
    log_size: u32,
    num: nat,
    tw: Seq<Seq<u32>>,
    k: nat,
) -> kernel::PlanView
    decreases k,
{
    if k == 0 {
        before.with_buffer(kernel::SourceView::Words(repeated(words, num)))
    } else {
        with_fft(
            with_subdomain_ffts_upto(before, words, log_size, num, tw, (k - 1) as nat),
            Arg::Buffer {
                slot: before.buffers.len() as usize,
                offset: (4 * ((k - 1) * words.len())) as u64,
            },
            log_size,
            subdomain_twiddles(tw, log_size as int, k - 1),
        )
    }
}

/// A plan followed by the evaluation of a polynomial: a buffer that holds the coefficients
/// once for every subdomain, and a transform of each copy.
pub open spec fn with_evaluation(
    before: kernel::PlanView,
    words: Seq<u32>,
    domain_log_size: u32,
    tw: Seq<Seq<u32>>,
) -> kernel::PlanView {
    let log_size = utils::floor_log2(words.len() as int);
    let num = pow2((domain_log_size - log_size) as nat);
    with_subdomain_ffts_upto(before, words, log_size as u32, num, tw, num)
}

/// A polynomial can be evaluated on a domain with the given twiddle factors.
pub open spec fn evaluation_ok(
    poly: CircleCoefficients,
    domain_log_size: u32,
    tw: Seq<Seq<u32>>,
) -> bool {
    &&& poly.wf()
    &&& 1 <= poly.spec_log_size() <= domain_log_size <= 31
    &&& domain_twiddles_ok(
        tw,
        poly.spec_log_size() as int,
        pow2((domain_log_size - poly.spec_log_size()) as nat) as int,
    )
}

/// The coefficients, `num` times in a row.
fn repeat_coeffs(coeffs: &[BaseField], num: usize) -> (r: Vec<u32>)
    requires
        coeffs.len() > 0,
    ensures
        r@ == repeated(columns::column_words(coeffs@), num as nat),
{
    let ghost words = columns::column_words(coeffs@);
    let ghost n = words.len() as int;
    let mut out: Vec<u32> = Vec::new();
    assert(0 * n == 0) by (nonlinear_arith);
    for i in 0..num
        invariant
            words == columns::column_words(coeffs@),
            n == words.len(),
            n > 0,
            out@ == repeated(words, i as nat),
    {
        push_column_words(&mut out, coeffs);
        proof {
            let all = repeated(words, (i + 1) as nat);
            assert((i + 1) * n == i * n + n) by (nonlinear_arith);
            assert(i * n >= 0) by (nonlinear_arith)
                requires
                    n > 0,
            ;
            assert forall|k: int| 0 <= k < all.len() implies out@[k] == all[k] by {
                if k >= i * n {
                    lemma_fundamental_div_mod_converse(k, n, i as int, k - i * n);
                }
            }
            assert(out@ =~= all);
        }
    }
    out
}

/// Part `idx` of `num` parts of width `w` lies within them.
proof fn lemma_part_in_range(idx: int, num: int, w: int)
    requires
        0 <= idx < num,
        w > 0,
    ensures
        0 <= idx * w,
        (idx + 1) * w == idx * w + w,
        (idx + 1) * w <= num * w,
{
    assert(0 <= idx * w && (idx + 1) * w == idx * w + w && (idx + 1) * w <= num * w)
        by (nonlinear_arith)
        requires
            0 <= idx < num,
            w > 0,
    ;
}

/// The part of a domain's twiddle factors that belongs to a subdomain.
fn slice_subdomain_twiddles<'a>(
    domain_twiddles: &[&'a [u32]],
    log_size: u32,
    num: Ghost<int>,
    idx: usize,
) -> (r: Vec<&'a [u32]>)
    requires
        domain_twiddles_ok(
            twiddle_manager::layer_slices(domain_twiddles@),
            log_size as int,
            num@,
        ),
        log_size <= 31,
        0 <= idx < num@,
        num@ <= pow2(31),
    ensures
        twiddle_manager::layer_slices(r@) == subdomain_twiddles(
            twiddle_manager::layer_slices(domain_twiddles@),
            log_size as int,
            idx as int,
        ),
{
    let ghost tw = twiddle_manager::layer_slices(domain_twiddles@);
    let ghost all = subdomain_twiddles(tw, log_size as int, idx as int);
    let mut out: Vec<&'a [u32]> = Vec::new();
    let mut i: u32 = 0;
    while i < log_size - 1
        invariant
            tw == twiddle_manager::layer_slices(domain_twiddles@),
            domain_twiddles_ok(tw, log_size as int, num@),
            all == subdomain_twiddles(tw, log_size as int, idx as int),
            i <= log_size - 1,
            log_size <= 31,
            0 <= idx < num@ <= pow2(31),
            twiddle_manager::layer_slices(out@) == all.take(i as int),
        decreases log_size - i,
    {
        let layer: &'a [u32] = domain_twiddles[i as usize];
        let ghost w = pow2((log_size - 2 - i) as nat) as int;
        proof {
            assert(tw[i as int] == layer@);
            assert(num@ * w <= tw[i as int].len());
            lemma2_to64();
            lemma_pow2_strictly_increases((log_size - 2 - i) as nat, 31);
            lemma_pow2_pos((log_size - 2 - i) as nat);
            lemma_part_in_range(idx as int, num@, w);
        }
        let width: usize = pow2_usize(log_size - 2 - i);
        assert(idx * w + w <= layer.len());
        let start: usize = idx * width;
        let end: usize = start + width;
        let ghost before = twiddle_manager::layer_slices(out@);
        let part: &'a [u32] = slice_subrange(layer, start, end);
        assert(part@ == all[i as int]);
        out.push(part);
        i = i + 1;
        assert(twiddle_manager::layer_slices(out@) =~= before.push(part@));
        assert(before.push(part@) =~= all.take(i as int));
    }
    assert(twiddle_manager::layer_slices(out@) =~= all);
    out
}

/// The twiddle factors of a subdomain suffice for its transform.
proof fn lemma_subdomain_twiddles_ok(tw: Seq<Seq<u32>>, log_size: int, num: int, idx: int)
    requires
        domain_twiddles_ok(tw, log_size, num),
        log_size <= 31,
        0 <= idx < num,
    ensures
        twiddles_ok(subdomain_twiddles(tw, log_size, idx), log_size),
{
    let sub = subdomain_twiddles(tw, log_size, idx);
    assert forall|i: int| 0 <= i < sub.len() implies (#[trigger] sub[i]).len() <= u32::MAX && 0
        <= idx * pow2((log_size - 2 - i) as nat) && (idx + 1) * pow2((log_size - 2 - i) as nat)
        <= tw[i].len() by {
        let w = pow2((log_size - 2 - i) as nat) as int;
        lemma2_to64();
        lemma_pow2_strictly_increases((log_size - 2 - i) as nat, 31);
        lemma_pow2_pos((log_size - 2 - i) as nat);
        lemma_part_in_range(idx, num, w);
        assert(num * w <= tw[i].len());
        assert(sub[i].len() == w);
    }
    if sub.len() > 0 {
        let w = pow2((log_size - 2 - 0) as nat) as int;
        lemma_pow2_pos((log_size - 2 - 0) as nat);
        lemma_part_in_range(idx, num, w);
        assert(num * w <= tw[0].len());
        assert(sub[0] == tw[0].subrange(idx * w, (idx + 1) * w));
        assert forall|k: int| 0 <= k < sub[0].len() implies #[trigger] sub[0][k] <= P_DBL by {
            assert(sub[0][k] == tw[0][idx * w + k]);
        }
    }
}

/// Adds the evaluation of a polynomial on a domain, and returns the slot of the buffer that
/// holds the values in the end.
pub fn metal_fft_batched_prepare(
    plan: &mut Plan,
    poly: &CircleCoefficients,
    domain_log_size: u32,
    domain_twiddles: &[&[u32]],
) -> (output: usize)
    requires
        evaluation_ok(*poly, domain_log_size, twiddle_manager::layer_slices(domain_twiddles@)),
    ensures
        old(plan)@.wf() ==> final(plan)@.wf(),
        output == old(plan)@.buffers.len(),
        final(plan)@ == with_evaluation(
            old(plan)@,
            columns::column_words(poly.coeffs@),
            domain_log_size,
            twiddle_manager::layer_slices(domain_twiddles@),
        ),
{
    let ghost tw = twiddle_manager::layer_slices(domain_twiddles@);
    let ghost before = plan@;
    let ghost words = columns::column_words(poly.coeffs@);
    let fft_log_size: u32 = poly.log_size();
    let log_subdomains: u32 = domain_log_size - fft_log_size;
    let poly_size: usize = poly.coeffs.len();
    proof {
        lemma2_to64();
        if log_subdomains < 31 {
            lemma_pow2_strictly_increases(log_subdomains as nat, 31);
        }
        lemma_pow2_adds(log_subdomains as nat, fft_log_size as nat);
        if domain_log_size < 31 {
            lemma_pow2_strictly_increases(domain_log_size as nat, 31);
        }
    }
    let num_subdomains: usize = pow2_usize(log_subdomains);
    let output: usize = plan.add_buffer(
        Source::Words(repeat_coeffs(poly.coeffs.as_slice(), num_subdomains)),
    );
    for subdomain_idx in 0..num_subdomains
        invariant
            tw == twiddle_manager::layer_slices(domain_twiddles@),
            words == columns::column_words(poly.coeffs@),
            poly_size == words.len(),
            domain_twiddles_ok(tw, fft_log_size as int, num_subdomains as int),
            1 <= fft_log_size <= 31,
            num_subdomains <= pow2(31),
            num_subdomains * poly_size <= 0x8000_0000,
            output == before.buffers.len(),
            output < plan@.buffers.len(),
            before.wf() ==> plan@.wf(),
            plan@ == with_subdomain_ffts_upto(
                before,
                words,
                fft_log_size,
                num_subdomains as nat,
                tw,
                subdomain_idx as nat,
            ),
    {
        proof {
            assert(subdomain_idx * poly_size <= num_subdomains * poly_size) by (nonlinear_arith)
                requires
                    subdomain_idx <= num_subdomains,
            ;
            lemma_subdomain_twiddles_ok(
                tw,
                fft_log_size as int,
                num_subdomains as int,
                subdomain_idx as int,
            );
        }
        let output_offset: usize = subdomain_idx * poly_size;
        let twiddle_slices = slice_subdomain_twiddles(
            domain_twiddles,
            fft_log_size,
            Ghost(num_subdomains as int),
            subdomain_idx,
        );
        metal_fft_single_domain_batched(
            plan,
            output,
            output_offset,
            fft_log_size,
            twiddle_slices.as_slice(),
        );
    }
    output
}

/// The evaluation of a polynomial on a domain, as work for the device, with the values in
/// the first buffer.  There is none for a small polynomial, which the processor evaluates.
pub fn metal_fft_dispatch(
    poly: &CircleCoefficients,
    domain_log_size: u32,
    domain_twiddles: &[&[u32]],
) -> (r: Option<Plan>)
    requires
        poly.wf(),
        poly.spec_log_size() >= MIN_FFT_LOG_SIZE ==> evaluation_ok(
            *poly,
            domain_log_size,
            twiddle_manager::layer_slices(domain_twiddles@),
        ),
    ensures
        r is None <==> poly.spec_log_size() < MIN_FFT_LOG_SIZE,
        r matches Some(plan) ==> plan@.wf() && plan@ == with_evaluation(
            kernel::empty_plan(),
            columns::column_words(poly.coeffs@),
            domain_log_size,
            twiddle_manager::layer_slices(domain_twiddles@),
        ),
{
    if poly.log_size() < MIN_FFT_LOG_SIZE {
        return None;
    }
    let mut plan = Plan::new();
    metal_fft_batched_prepare(&mut plan, poly, domain_log_size, domain_twiddles);
    Some(plan)
}

/// Every copy in the output buffer of an evaluation holds the coefficients.
pub proof fn law_output_holds_coefficients(words: Seq<u32>, num: nat, idx: int)
    requires
        words.len() > 0,
        0 <= idx < num,
    ensures
        idx * words.len() + words.len() <= repeated(words, num).len(),
        repeated(words, num).subrange(idx * words.len(), idx * words.len() + words.len()) == words,
{
    let n = words.len() as int;
    assert(idx * n + n <= num * n && 0 <= idx * n) by (nonlinear_arith)
        requires
            0 <= idx < num,
            n > 0,
    ;
    assert forall|k: int| 0 <= k < n implies repeated(words, num)[idx * n + k] == words[k] by {
        lemma_fundamental_div_mod_converse(idx * n + k, n, idx, k);
    }
    assert(repeated(words, num).subrange(idx * n, idx * n + n) =~= words);
}

/// The subdomains' parts of a twiddle layer follow one another without a gap: the part of
/// subdomain `idx` starts where the parts of the subdomains before it end.
pub proof fn law_subdomain_twiddles_tile(
    tw: Seq<Seq<u32>>,
    log_size: int,
    num: int,
    idx: int,
    layer: int,
)
    requires
        domain_twiddles_ok(tw, log_size, num),
        0 <= idx < num,
        0 <= layer < log_size - 1,
    ensures
        tw[layer].take(idx * pow2((log_size - 2 - layer) as nat)) + subdomain_twiddles(
            tw,
            log_size,
            idx,
        )[layer] == tw[layer].take((idx + 1) * pow2((log_size - 2 - layer) as nat)),
{
    let w = pow2((log_size - 2 - layer) as nat) as int;
    lemma_pow2_pos((log_size - 2 - layer) as nat);
    lemma_part_in_range(idx, num, w);
    assert(num * w <= tw[layer].len());
    assert(tw[layer].take(idx * w) + subdomain_twiddles(tw, log_size, idx)[layer]
        =~= tw[layer].take((idx + 1) * w));
}

/// Which polynomials of a batch are large enough for the device.
pub open spec fn large(log_sizes: Seq<nat>) -> Seq<bool> {
    log_sizes.map_values(|l: nat| l >= MIN_FFT_LOG_SIZE)
}

/// The log sizes of polynomials.
pub open spec fn poly_log_sizes(polys: Seq<CircleCoefficients>) -> Seq<nat> {
    polys.map_values(|p: CircleCoefficients| p.spec_log_size())
}

/// Number of flags before `i` that are `want`.
pub open spec fn rank(flags: Seq<bool>, want: bool, i: int) -> nat
    decreases i,
{
    if i <= 0 {
        0
    } else if flags[i - 1] == want {
        rank(flags, want, i - 1) + 1
    } else {
        rank(flags, want, i - 1)
    }
}

/// The positions before `i` of the flags that are `want`, in order.
pub open spec fn positions(flags: Seq<bool>, want: bool, i: int) -> Seq<usize>
    decreases i,
{
    if i <= 0 {
        Seq::empty()
    } else if flags[i - 1] == want {
        positions(flags, want, i - 1).push((i - 1) as usize)
    } else {
        positions(flags, want, i - 1)
    }
}

/// The rank of a flag is its place among the positions.
pub proof fn lemma_rank_is_position(flags: Seq<bool>, want: bool, i: int, n: int)
    requires
        0 <= i < n <= flags.len(),
        n <= usize::MAX,
        flags[i] == want,
    ensures
        rank(flags, want, i) < rank(flags, want, n),
        positions(flags, want, n).len() == rank(flags, want, n),
        positions(flags, want, n)[rank(flags, want, i) as int] == i,
    decreases n,
{
    lemma_positions_len(flags, want, n);
    lemma_positions_len(flags, want, i);
    if i == n - 1 {
    } else {
        lemma_rank_is_position(flags, want, i, n - 1);
    }
}

proof fn lemma_positions_len(flags: Seq<bool>, want: bool, n: int)
    ensures
        positions(flags, want, n).len() == rank(flags, want, n),
    decreases n,
{
    if n > 0 {
        lemma_positions_len(flags, want, n - 1);
    }
}

/// Twiddle factors of a domain, one slice for each layer.
pub struct DomainTwiddles<'a> {
    pub layers: Vec<&'a [u32]>,
}

impl<'a> View for DomainTwiddles<'a> {
    type V = Seq<Seq<u32>>;

    open spec fn view(&self) -> Seq<Seq<u32>> {
        twiddle_manager::layer_slices(self.layers@)
    }
}

/// A batch of evaluations on the device.
pub struct EvaluationBatch {
    pub plan: Plan,
    /// For each large polynomial, the slot of its values.
    pub outputs: Vec<usize>,
    /// The polynomials that the plan evaluates.
    pub metal: Vec<usize>,
    /// The polynomials that the processor evaluates.
    pub simd: Vec<usize>,
}

/// A plan followed by the evaluations of the large ones among the first `k` polynomials.
pub open spec fn with_evaluations(
    polys: Seq<CircleCoefficients>,
    log_blowup_factor: u32,
    twiddles: Seq<DomainTwiddles>,
    k: int,
) -> kernel::PlanView
    decreases k,
{
    if k <= 0 {
        kernel::empty_plan()
    } else {
        let before = with_evaluations(polys, log_blowup_factor, twiddles, k - 1);
        let poly = polys[k - 1];
        if poly.spec_log_size() >= MIN_FFT_LOG_SIZE {
            with_evaluation(
                before,
                columns::column_words(poly.coeffs@),
                (poly.spec_log_size() + log_blowup_factor) as u32,
                twiddles[k - 1]@,
            )
        } else {
            before
        }
    }
}

/// The slots of the values of the large ones among the first `k` polynomials: each is
/// evaluated in the first buffer that its evaluation adds.
pub open spec fn evaluation_outputs(
    polys: Seq<CircleCoefficients>,
    log_blowup_factor: u32,
    twiddles: Seq<DomainTwiddles>,
    k: int,
) -> Seq<usize>
    decreases k,
{
    if k <= 0 {
        Seq::empty()
    } else {
        let before = evaluation_outputs(polys, log_blowup_factor, twiddles, k - 1);
        if polys[k - 1].spec_log_size() >= MIN_FFT_LOG_SIZE {
            before.push(
                with_evaluations(
                    polys,
                    log_blowup_factor,
                    twiddles,
                    k - 1,
                ).buffers.len() as usize,
            )
        } else {
            before
        }
    }
}

/// The evaluations of a batch of polynomials, each on a domain larger than the polynomial by
/// the blowup factor, as work for the device.  There is none where all of them are small.
pub fn evaluate_polynomials(
    polynomials: &[CircleCoefficients],
    log_blowup_factor: u32,
    twiddles: &[DomainTwiddles],
) -> (r: Option<EvaluationBatch>)
    requires
        twiddles.len() == polynomials.len(),
        forall|i: int| 0 <= i < polynomials.len() ==> (#[trigger] polynomials[i]).wf(),
        forall|i: int|
            #![trigger polynomials[i]]
            0 <= i < polynomials.len() && polynomials[i].spec_log_size() >= MIN_FFT_LOG_SIZE
                ==> polynomials[i].spec_log_size() + log_blowup_factor <= 31 && evaluation_ok(
                polynomials[i],
                (polynomials[i].spec_log_size() + log_blowup_factor) as u32,
                twiddles[i]@,
            ),
    ensures
        ({
            let n = polynomials.len() as int;
            let flags = large(poly_log_sizes(polynomials@));
            &&& r is None <==> rank(flags, true, n) == 0
            &&& r matches Some(batch) ==> {
                &&& batch.plan@.wf()
                &&& batch.metal@ == positions(flags, true, n)
                &&& batch.simd@ == positions(flags, false, n)
                &&& batch.plan@ == with_evaluations(
                    polynomials@,
                    log_blowup_factor,
                    twiddles@,
                    n,
                )
                &&& batch.outputs@ == evaluation_outputs(
                    polynomials@,
                    log_blowup_factor,
                    twiddles@,
                    n,
                )
            }
        }),
{
    let ghost flags = large(poly_log_sizes(polynomials@));
    let mut plan = Plan::new();
    let mut outputs: Vec<usize> = Vec::new();
    let mut metal: Vec<usize> = Vec::new();
    let mut simd: Vec<usize> = Vec::new();
    for idx in 0..polynomials.len()
        invariant
            twiddles.len() == polynomials.len(),
            flags == large(poly_log_sizes(polynomials@)),
            forall|i: int| 0 <= i < polynomials.len() ==> (#[trigger] polynomials[i]).wf(),
            forall|i: int|
                #![trigger polynomials[i]]
                0 <= i < polynomials.len() && polynomials[i].spec_log_size() >= MIN_FFT_LOG_SIZE
                    ==> polynomials[i].spec_log_size() + log_blowup_factor <= 31 && evaluation_ok(
                    polynomials[i],
                    (polynomials[i].spec_log_size() + log_blowup_factor) as u32,
                    twiddles[i]@,
                ),
            metal@ == positions(flags, true, idx as int),
            simd@ == positions(flags, false, idx as int),
            plan@.wf(),
            plan@ == with_evaluations(polynomials@, log_blowup_factor, twiddles@, idx as int),
            outputs@ == evaluation_outputs(
                polynomials@,
                log_blowup_factor,
                twiddles@,
                idx as int,
            ),
    {
        let poly: &CircleCoefficients = &polynomials[idx];
        assert(poly.wf());
        let log_size: u32 = poly.log_size();
        assert(flags[idx as int] == (log_size >= MIN_FFT_LOG_SIZE));
        if log_size >= MIN_FFT_LOG_SIZE {
            let output: usize = metal_fft_batched_prepare(
                &mut plan,
                poly,
                log_size + log_blowup_factor,
                twiddles[idx].layers.as_slice(),
            );
            outputs.push(output);
            metal.push(idx);
        } else {
            simd.push(idx);
        }
    }
    proof {
        lemma_positions_len(flags, true, polynomials.len() as int);
    }
    if metal.len() == 0 {
        return None;
    }
    Some(EvaluationBatch { plan, outputs, metal, simd })
}

/// A polynomial with its values, and its coefficients where they are kept.
pub struct Poly<E> {
    pub coeffs: Option<CircleCoefficients>,
    pub evals: E,
}

/// Puts the values of a batch of polynomials back in the order of the polynomials.
pub fn assemble_polynomials<E>(
    polynomials: Vec<CircleCoefficients>,
    metal_evals: Vec<E>,
    simd_evals: Vec<E>,
    store_polynomials_coefficients: bool,
) -> (r: Vec<Poly<E>>)
    requires
        forall|i: int| 0 <= i < polynomials.len() ==> (#[trigger] polynomials[i]).wf(),
        ({
            let flags = large(poly_log_sizes(polynomials@));
            &&& metal_evals.len() == rank(flags, true, polynomials.len() as int)
            &&& simd_evals.len() == rank(flags, false, polynomials.len() as int)
        }),
    ensures
        ({
            let flags = large(poly_log_sizes(polynomials@));
            &&& r.len() == polynomials.len()
            &&& forall|i: int|
                #![trigger r[i]]
                0 <= i < r.len() ==> {
                    &&& r[i].coeffs == (if store_polynomials_coefficients {
                        Some(polynomials[i])
                    } else {
                        None
                    })
                    &&& r[i].evals == (if flags[i] {
                        metal_evals[rank(flags, true, i) as int]
                    } else {
                        simd_evals[rank(flags, false, i) as int]
                    })
                }
        }),
{
    let ghost polys = polynomials@;
    let ghost flags = large(poly_log_sizes(polys));
    let ghost metal0 = metal_evals@;
    let ghost simd0 = simd_evals@;
    let n: usize = polynomials.len();
    let mut polynomials: Vec<CircleCoefficients> = polynomials;
    let mut metal_evals: Vec<E> = metal_evals;
    let mut simd_evals: Vec<E> = simd_evals;
    let mut reversed: Vec<Poly<E>> = Vec::new();
    let mut left: usize = n;
    assert(metal_evals@ =~= metal0.take(metal0.len() as int));
    assert(simd_evals@ =~= simd0.take(simd0.len() as int));
    while left > 0
        invariant
            left <= n,
            n == polys.len(),
            flags == large(poly_log_sizes(polys)),
            forall|i: int| 0 <= i < polys.len() ==> (#[trigger] polys[i]).wf(),
            polynomials@ == polys.take(left as int),
            rank(flags, true, left as int) <= metal0.len(),
            rank(flags, false, left as int) <= simd0.len(),
            metal_evals@ == metal0.take(rank(flags, true, left as int) as int),
            simd_evals@ == simd0.take(rank(flags, false, left as int) as int),
            reversed.len() == n - left,
            forall|k: int|
                #![trigger reversed[k]]
                0 <= k < reversed.len() ==> {
                    let i = n - 1 - k;
                    &&& reversed[k].coeffs == (if store_polynomials_coefficients {
                        Some(polys[i])
                    } else {
                        None
                    })
                    &&& reversed[k].evals == (if flags[i] {
                        metal0[rank(flags, true, i) as int]
                    } else {
                        simd0[rank(flags, false, i) as int]
                    })
                },
        decreases left,
    {
        let ghost i = left - 1;
        let poly = polynomials.pop().unwrap();
        assert(poly == polys[i]);
        assert(polynomials@ =~= polys.take(i));
        let is_metal: bool = poly.log_size() >= MIN_FFT_LOG_SIZE;
        assert(is_metal == flags[i]);
        let evals = if is_metal {
            metal_evals.pop().unwrap()
        } else {
            simd_evals.pop().unwrap()
        };
        assert(metal_evals@ =~= metal0.take(rank(flags, true, i) as int));
        assert(simd_evals@ =~= simd0.take(rank(flags, false, i) as int));
        let coeffs = if store_polynomials_coefficients {
            Some(poly)
        } else {
            None
        };
        reversed.push(Poly { coeffs, evals });
        left = left - 1;
    }
    let ghost rev = reversed@;
    let mut results: Vec<Poly<E>> = Vec::new();
    while results.len() < n
        invariant
            results.len() <= n,
            rev.len() == n,
            reversed@ == rev.take(n - results.len()),
            forall|k: int|
                #![trigger results[k]]
                0 <= k < results.len() ==> results[k] == rev[n - 1 - k],
        decreases n - results.len(),
    {
        let ghost k = results.len() as int;
        let last = reversed.pop().unwrap();
        assert(last == rev[n - 1 - k]);
        results.push(last);
        assert(reversed@ =~= rev.take(n - results.len()));
    }
    proof {
        assert forall|i: int| #![trigger results[i]] 0 <= i < results.len() implies {
            &&& results[i].coeffs == (if store_polynomials_coefficients {
                Some(polys[i])
            } else {
                None
            })
            &&& results[i].evals == (if flags[i] {
                metal0[rank(flags, true, i) as int]
            } else {
                simd0[rank(flags, false, i) as int]
            })
        } by {
            assert(results[i] == rev[n - 1 - i]);
        }
    }
    results
}

/// Evaluating the two parts of a batch apart and putting the values back together gives
/// every polynomial its own values.
pub proof fn law_batches_keep_order<E>(
    flags: Seq<bool>,
    values: spec_fn(int) -> E,
    metal_evals: Seq<E>,
    simd_evals: Seq<E>,
    i: int,
)
    requires
        0 <= i < flags.len() <= usize::MAX,
        metal_evals == positions(flags, true, flags.len() as int).map_values(
            |p: usize| values(p as int),
        ),
        simd_evals == positions(flags, false, flags.len() as int).map_values(
            |p: usize| values(p as int),
        ),
    ensures
        (if flags[i] {
            metal_evals[rank(flags, true, i) as int]
        } else {
            simd_evals[rank(flags, false, i) as int]
        }) == values(i),
{
    lemma_rank_is_position(flags, flags[i], i, flags.len() as int);
}

/// The twiddle buffer of a layer of the inverse transform.
pub open spec fn ifft_source(layer: int, tw: Seq<Seq<u32>>) -> kernel::SourceView {
    if layer == 0 {
        kernel::SourceView::Words(circle_twiddles(tw[0]))
    } else {
        kernel::SourceView::Words(tw[layer - 1])
    }
}

/// The launch of a layer of the inverse transform.
pub open spec fn ifft_dispatch(
    layer: int,
    data: Arg,
    slot: usize,
    log_size: u32,
) -> kernel::DispatchView {
    kernel::DispatchView {
        kernel: Kernel::IfftRadix2,
        args: seq![data, kernel::spec_whole(slot), Arg::U32(log_size), Arg::U32(layer as u32)],
        grid: fft_grid(log_size, 1),
    }
}

/// A plan followed by the first `k` layers of an inverse transform.
pub open spec fn with_ifft_layers(
    before: kernel::PlanView,
    data: Arg,
    log_size: u32,
    tw: Seq<Seq<u32>>,
    k: nat,
) -> kernel::PlanView {
    let layers = fft_schedule::ifft_layers(log_size - 1);
    let n = before.buffers.len();
    kernel::PlanView {
        buffers: before.buffers + Seq::new(k, |i: int| ifft_source(layers[i], tw)),
        dispatches: before.dispatches + Seq::new(
            k,
            |i: int| ifft_dispatch(layers[i], data, (n + i) as usize, log_size),
        ),
    }
}

/// Number of values that an inverse transform divides by the size.
pub open spec fn normalize_count(log_size: u32, data_len: int) -> u32 {
    vstd::math::min(pow2(log_size as nat) as int, data_len) as u32
}

/// The launch that divides the values by the size.
pub open spec fn normalize_dispatch(
    data: Arg,
    log_size: u32,
    data_len: int,
) -> kernel::DispatchView {
    let count = normalize_count(log_size, data_len);
    kernel::DispatchView {
        kernel: Kernel::IfftNormalize,
        args: seq![
            data,
            Arg::U32(BaseField::spec_inverse_of_pow2(log_size as nat)),
            Arg::U32(count),
        ],
        grid: kernel::spec_groups_for(count as u64),
    }
}

/// A plan followed by an inverse transform in place.
pub open spec fn with_ifft(
    before: kernel::PlanView,
    data: Arg,
    log_size: u32,
    data_len: int,
    tw: Seq<Seq<u32>>,
) -> kernel::PlanView {
    with_ifft_layers(
        before,
        data,
        log_size,
        tw,
        fft_schedule::ifft_layers(log_size - 1).len(),
    ).with_dispatch(normalize_dispatch(data, log_size, data_len))
}

/// The twiddle factors suffice for an inverse transform over `2^log_size` points.
pub open spec fn itwiddles_ok(tw: Seq<Seq<u32>>, log_size: int) -> bool {
    &&& 1 <= log_size <= 31
    &&& tw.len() >= log_size - 1
    &&& log_size >= 2 ==> doubled(tw[0])
}

/// Adds an inverse transform, in place, of a buffer with `data_len` values.
pub fn metal_ifft_batched_dispatch(
    plan: &mut Plan,
    data_slot: usize,
    log_size: u32,
    data_len: usize,
    itwiddle_slices: &[&[u32]],
)
    requires
        itwiddles_ok(twiddle_manager::layer_slices(itwiddle_slices@), log_size as int),
        data_slot < old(plan)@.buffers.len(),
    ensures
        old(plan)@.wf() ==> final(plan)@.wf(),
        final(plan)@ == with_ifft(
            old(plan)@,
            kernel::spec_whole(data_slot),
            log_size,
            data_len as int,
            twiddle_manager::layer_slices(itwiddle_slices@),
        ),
{
    let ghost tw = twiddle_manager::layer_slices(itwiddle_slices@);
    let ghost before = plan@;
    let ghost layers = fft_schedule::ifft_layers(log_size - 1);
    let data = whole(data_slot);
    let num_ifft_layers: u32 = log_size - 1;
    assert(plan@ =~= with_ifft_layers(before, data, log_size, tw, 0));
    if num_ifft_layers > 0 {
        assert(itwiddle_slices@[0]@ == tw[0]);
        let circle_itwiddles = circle_twiddles_from_line_twiddles(itwiddle_slices[0]);
        let slot: usize = plan.add_buffer(Source::Words(circle_itwiddles));
        let args = vec![data, whole(slot), Arg::U32(log_size), Arg::U32(0)];
        assert(args@ =~= ifft_dispatch(0, data, slot, log_size).args);
        plan.dispatch(Kernel::IfftRadix2, args, fft_groups(log_size, 1));
        assert(plan@ =~= with_ifft_layers(before, data, log_size, tw, 1));
        let mut layer: u32 = 1;
        while layer <= num_ifft_layers
            invariant
                tw == twiddle_manager::layer_slices(itwiddle_slices@),
                layers == fft_schedule::ifft_layers(log_size - 1),
                itwiddles_ok(tw, log_size as int),
                num_ifft_layers == log_size - 1,
                1 <= layer <= num_ifft_layers + 1,
                data == kernel::spec_whole(data_slot),
                data_slot < before.buffers.len(),
                before.wf() ==> plan@.wf(),
                plan@ == with_ifft_layers(before, data, log_size, tw, layer as nat),
            decreases num_ifft_layers + 1 - layer,
        {
            let words = slice_to_vec(itwiddle_slices[(layer - 1) as usize]);
            assert(words@ == tw[layer - 1]);
            let slot: usize = plan.add_buffer(Source::Words(words));
            let args = vec![data, whole(slot), Arg::U32(log_size), Arg::U32(layer)];
            assert(args@ =~= ifft_dispatch(layer as int, data, slot, log_size).args);
            plan.dispatch(Kernel::IfftRadix2, args, fft_groups(log_size, 1));
            layer = layer + 1;
            assert(plan@ =~= with_ifft_layers(before, data, log_size, tw, layer as nat));
        }
    }
    proof {
        lemma2_to64();
        if log_size < 31 {
            lemma_pow2_strictly_increases(log_size as nat, 31);
        }
    }
    let domain_size: usize = pow2_usize(log_size);
    let n_inv = BaseField::inverse_of_pow2(log_size);
    let count: u32 = if domain_size < data_len {
        domain_size as u32
    } else {
        data_len as u32
    };
    let args = vec![data, Arg::U32(n_inv.0), Arg::U32(count)];
    assert(args@ =~= normalize_dispatch(data, log_size, data_len as int).args);
    plan.dispatch(Kernel::IfftNormalize, args, groups_for(count as u64));
}

/// The interpolation of values, as work for the device on the caller's buffer, in place.
/// There is none for few values, which the processor interpolates.
pub fn metal_ifft_dispatch(log_size: u32, data_len: usize, itwiddle_slices: &[&[u32]]) -> (r:
    Option<Plan>)
    requires
        log_size >= MIN_FFT_LOG_SIZE ==> itwiddles_ok(
            twiddle_manager::layer_slices(itwiddle_slices@),
            log_size as int,
        ),
    ensures
        r is None <==> log_size < MIN_FFT_LOG_SIZE,
        r matches Some(plan) ==> plan@.wf() && plan@ == with_ifft(
            kernel::empty_plan().with_buffer(kernel::SourceView::Input(0)),
            kernel::spec_whole(0),
            log_size,
            data_len as int,
            twiddle_manager::layer_slices(itwiddle_slices@),
        ),
{
    if log_size < MIN_FFT_LOG_SIZE {
        return None;
    }
    let mut plan = Plan::new();
    let data: usize = plan.add_buffer(Source::Input(0));
    metal_ifft_batched_dispatch(&mut plan, data, log_size, data_len, itwiddle_slices);
    Some(plan)
}

/// A column of values to interpolate.
pub struct EvaluationColumn<'a> {
    /// Binary logarithm of the size of the domain.
    pub log_size: u32,
    /// Number of values in the caller's buffer.
    pub len: usize,
    /// Inverse twiddle factors of the domain.
    pub itwiddles: DomainTwiddles<'a>,
}

/// The log sizes of columns.
pub open spec fn column_log_sizes(columns: Seq<EvaluationColumn>) -> Seq<nat> {
    columns.map_values(|c: EvaluationColumn| c.log_size as nat)
}

/// The interpolations of the large ones among the first `k` columns, each in the caller's
/// buffer of the same number.
pub open spec fn with_interpolations(columns: Seq<EvaluationColumn>, k: int) -> kernel::PlanView
    decreases k,
{
    if k <= 0 {
        kernel::empty_plan()
    } else {
        let before = with_interpolations(columns, k - 1);
        let column = columns[k - 1];
        if column.log_size >= MIN_FFT_LOG_SIZE {
            with_ifft(
                before.with_buffer(kernel::SourceView::Input((k - 1) as usize)),
                kernel::spec_whole(before.buffers.len() as usize),
                column.log_size,
                column.len as int,
                column.itwiddles@,
            )
        } else {
            before
        }
    }
}

/// A batch of interpolations on the device.
pub struct InterpolationBatch {
    pub plan: Plan,
    /// The columns that the plan interpolates, each in its own buffer.
    pub metal: Vec<usize>,
    /// The columns that the processor interpolates.
    pub simd: Vec<usize>,
}

/// The interpolations of a batch of columns, as work for the device.  There is none where
/// all of them are small.
pub fn interpolate_columns(columns: &[EvaluationColumn]) -> (r: Option<InterpolationBatch>)
    requires
        forall|i: int|
            #![trigger columns[i]]
            0 <= i < columns.len() && columns[i].log_size >= MIN_FFT_LOG_SIZE ==> itwiddles_ok(
                columns[i].itwiddles@,
                columns[i].log_size as int,
            ),
    ensures
        ({
            let n = columns.len() as int;
            let flags = large(column_log_sizes(columns@));
            &&& r is None <==> rank(flags, true, n) == 0
            &&& r matches Some(batch) ==> {
                &&& batch.plan@.wf()
                &&& batch.plan@ == with_interpolations(columns@, n)
                &&& batch.metal@ == positions(flags, true, n)
                &&& batch.simd@ == positions(flags, false, n)
            }
        }),
{
    let ghost flags = large(column_log_sizes(columns@));
    let mut plan = Plan::new();
    let mut metal: Vec<usize> = Vec::new();
    let mut simd: Vec<usize> = Vec::new();
    for idx in 0..columns.len()
        invariant
            flags == large(column_log_sizes(columns@)),
            forall|i: int|
                #![trigger columns[i]]
                0 <= i < columns.len() && columns[i].log_size >= MIN_FFT_LOG_SIZE
                    ==> itwiddles_ok(columns[i].itwiddles@, columns[i].log_size as int),
            metal@ == positions(flags, true, idx as int),
            simd@ == positions(flags, false, idx as int),
            plan@.wf(),
            plan@ == with_interpolations(columns@, idx as int),
    {
        let log_size: u32 = columns[idx].log_size;
        assert(flags[idx as int] == (log_size >= MIN_FFT_LOG_SIZE));
        if log_size >= MIN_FFT_LOG_SIZE {
            let data: usize = plan.add_buffer(Source::Input(idx));
            metal_ifft_batched_dispatch(
                &mut plan,
                data,
                log_size,
                columns[idx].len,
                columns[idx].itwiddles.layers.as_slice(),
            );
            metal.push(idx);
        } else {
            simd.push(idx);
        }
    }
    proof {
        lemma_positions_len(flags, true, columns.len() as int);
    }
    if metal.len() == 0 {
        return None;
    }
    Some(InterpolationBatch { plan, metal, simd })
}

} // verus!
