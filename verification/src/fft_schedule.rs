//! Order in which the layers of a circle transform are processed.
//!
//! A transform over `2^log` points has the circle layer 0 and the line layers
//! `1..log`.  The forward transform goes from the highest layer down; its kernels take
//! one layer, three layers or the four lowest line layers at a time.  The inverse
//! transform goes up, one layer at a time, and ends with a division by the size.

use crate::fields;
use crate::fields::P;
use vstd::arithmetic::div_mod::*;
use vstd::arithmetic::mul::*;
use vstd::arithmetic::power2::*;
use vstd::prelude::*;

verus! {

/// Number of lowest layers, the circle layer among them, that are processed within
/// vectors.
pub const VECWISE_FFT_BITS: u32 = 5;

/// Least number of layers for which three layers are processed at a time.
pub const MIN_RADIX8_LAYERS: u32 = 8;

/// One kernel launch of the forward transform.
#[derive(Debug, Clone, Copy, PartialEq, Eq, Structural)]
pub enum FftStep {
    /// One line layer; its twiddle factors are in a cached buffer or in one of their own.
    Radix2 { layer: u32, cached: bool },
    /// The line layers `layer`, `layer + 1` and `layer + 2`.
    Radix8 { layer: u32 },
    /// The line layers 1 to 4.
    VecwiseFused,
    /// The circle layer.
    Circle,
}

impl FftStep {
    /// The layers that the step processes, in the order in which its kernel does.
    pub open spec fn layers(self) -> Seq<int> {
        match self {
            FftStep::Radix2 { layer, .. } => seq![layer as int],
            FftStep::Radix8 { layer } => seq![layer + 2, layer + 1, layer as int],
            FftStep::VecwiseFused => seq![4int, 3, 2, 1],
            FftStep::Circle => seq![0int],
        }
    }

    /// The highest line layer that the step needs twiddle factors for.
    pub open spec fn top(self) -> int {
        match self {
            FftStep::Radix2 { layer, .. } => layer as int,
            FftStep::Radix8 { layer } => layer + 2,
            FftStep::VecwiseFused => 4,
            FftStep::Circle => 1,
        }
    }
}

/// `count` single layers from `top` down.
pub open spec fn radix2_down(top: int, count: nat, cached: bool) -> Seq<FftStep> {
    Seq::new(count, |i: int| FftStep::Radix2 { layer: (top - i) as u32, cached })
}

/// `groups` groups of three layers, the lowest of which starts where the vectors end.
pub open spec fn radix8_down(groups: nat) -> Seq<FftStep> {
    Seq::new(
        groups,
        |i: int| FftStep::Radix8 { layer: (VECWISE_FFT_BITS + 3 * (groups - 1 - i)) as u32 },
    )
}

/// The steps of the forward transform with `n` line layers.
pub open spec fn fft_steps(n: int) -> Seq<FftStep> {
    let line = if n + 1 >= MIN_RADIX8_LAYERS {
        let outer = n + 1 - VECWISE_FFT_BITS;
        radix2_down(n, (outer % 3) as nat, true) + radix8_down((outer / 3) as nat) + seq![
            FftStep::VecwiseFused,
        ]
    } else if n >= 4 {
        radix2_down(n, (n - 4) as nat, false) + seq![FftStep::VecwiseFused]
    } else {
        radix2_down(n, n as nat, true)
    };
    if n > 0 {
        line + seq![FftStep::Circle]
    } else {
        line
    }
}

/// Appends `count` single layers from `top` down.
fn push_radix2_down(steps: &mut Vec<FftStep>, top: u32, count: u32, cached: bool)
    requires
        count <= top,
    ensures
        final(steps)@ == old(steps)@ + radix2_down(top as int, count as nat, cached),
{
    let ghost before = steps@;
    let mut i: u32 = 0;
    while i < count
        invariant
            i <= count <= top,
            steps@ == before + radix2_down(top as int, i as nat, cached),
        decreases count - i,
    {
        steps.push(FftStep::Radix2 { layer: top - i, cached });
        i = i + 1;
        assert(steps@ =~= before + radix2_down(top as int, i as nat, cached));
    }
}

/// The steps of the forward transform with `num_fft_layers` line layers.
pub fn plan_fft_steps(num_fft_layers: u32) -> (r: Vec<FftStep>)
    requires
        num_fft_layers < u32::MAX,
    ensures
        r@ == fft_steps(num_fft_layers as int),
{
    let mut steps: Vec<FftStep> = Vec::new();
    let non_vecwise_layers: u32 = if num_fft_layers + 1 >= MIN_RADIX8_LAYERS {
        (num_fft_layers + 1) - VECWISE_FFT_BITS
    } else {
        0
    };
    let radix8_groups: u32 = non_vecwise_layers / 3;
    let leftover_non_vecwise: u32 = non_vecwise_layers % 3;

    // The leftover layers are the highest.
    push_radix2_down(&mut steps, num_fft_layers, leftover_non_vecwise, true);
    let ghost high = steps@;

    let mut done: u32 = 0;
    while done < radix8_groups
        invariant
            done <= radix8_groups,
            num_fft_layers < u32::MAX,
            radix8_groups > 0 ==> VECWISE_FFT_BITS + radix8_groups * 3 <= num_fft_layers + 1,
            steps@ == high + radix8_down(radix8_groups as nat).take(done as int),
        decreases radix8_groups - done,
    {
        let idx: u32 = radix8_groups - 1 - done;
        steps.push(FftStep::Radix8 { layer: VECWISE_FFT_BITS + idx * 3 });
        done = done + 1;
        assert(steps@ =~= high + radix8_down(radix8_groups as nat).take(done as int));
    }
    assert(radix8_down(radix8_groups as nat).take(radix8_groups as int) =~= radix8_down(
        radix8_groups as nat,
    ));

    let line_layers_end: u32 = if non_vecwise_layers == 0 {
        num_fft_layers
    } else {
        VECWISE_FFT_BITS - 1
    };
    if line_layers_end >= 4 {
        push_radix2_down(&mut steps, line_layers_end, line_layers_end - 4, false);
        steps.push(FftStep::VecwiseFused);
    } else {
        push_radix2_down(&mut steps, line_layers_end, line_layers_end, true);
    }
    if num_fft_layers > 0 {
        steps.push(FftStep::Circle);
    }
    assert(steps@ =~= fft_steps(num_fft_layers as int));
    steps
}

/// The layers of a sequence of steps, in the order in which they are processed.
pub open spec fn layers_of(steps: Seq<FftStep>) -> Seq<int>
    decreases steps.len(),
{
    if steps.len() == 0 {
        Seq::empty()
    } else {
        layers_of(steps.drop_last()) + steps.last().layers()
    }
}

/// The layers `top`, `top - 1` and so on, `count` of them.
pub open spec fn descending(top: int, count: nat) -> Seq<int> {
    Seq::new(count, |i: int| top - i)
}

proof fn lemma_layers_concat(a: Seq<FftStep>, b: Seq<FftStep>)
    ensures
        layers_of(a + b) == layers_of(a) + layers_of(b),
    decreases b.len(),
{
    if b.len() == 0 {
        assert(a + b =~= a);
        assert(layers_of(a) + layers_of(b) =~= layers_of(a));
    } else {
        lemma_layers_concat(a, b.drop_last());
        assert((a + b).drop_last() =~= a + b.drop_last());
        assert(layers_of(a + b) =~= layers_of(a) + layers_of(b));
    }
}

proof fn lemma_layers_one(step: FftStep)
    ensures
        layers_of(seq![step]) == step.layers(),
{
    reveal_with_fuel(layers_of, 2);
    assert(seq![step].drop_last() =~= Seq::<FftStep>::empty());
    assert(layers_of(seq![step]) =~= step.layers());
}

proof fn lemma_layers_radix2(top: int, count: nat, cached: bool)
    requires
        count <= top <= u32::MAX,
    ensures
        layers_of(radix2_down(top, count, cached)) == descending(top, count),
    decreases count,
{
    let steps = radix2_down(top, count, cached);
    if count == 0 {
        assert(layers_of(steps) =~= descending(top, count));
    } else {
        lemma_layers_radix2(top, (count - 1) as nat, cached);
        assert(steps.drop_last() =~= radix2_down(top, (count - 1) as nat, cached));
        assert(layers_of(steps) =~= descending(top, count));
    }
}

proof fn lemma_layers_radix8(groups: nat, k: nat)
    requires
        k <= groups,
        VECWISE_FFT_BITS + 3 * groups <= u32::MAX,
    ensures
        layers_of(radix8_down(groups).take(k as int)) == descending(
            VECWISE_FFT_BITS + 3 * groups - 1,
            3 * k,
        ),
    decreases k,
{
    let steps = radix8_down(groups).take(k as int);
    let top = VECWISE_FFT_BITS + 3 * groups - 1;
    if k == 0 {
        assert(layers_of(steps) =~= descending(top, 0));
    } else {
        lemma_layers_radix8(groups, (k - 1) as nat);
        assert(steps.drop_last() =~= radix8_down(groups).take(k - 1));
        assert(layers_of(steps) =~= descending(top, 3 * k));
    }
}

proof fn lemma_descending_concat(top: int, a: nat, b: nat)
    ensures
        descending(top, a) + descending(top - a, b) == descending(top, a + b),
{
    assert(descending(top, a) + descending(top - a, b) =~= descending(top, a + b));
}

/// The forward transform processes every layer once, from the highest line layer down to
/// the circle layer.
pub proof fn law_fft_layers_descend(n: int)
    requires
        0 < n < u32::MAX - 4,
    ensures
        layers_of(fft_steps(n)) == descending(n, (n + 1) as nat),
{
    let steps = fft_steps(n);
    let line = steps.drop_last();
    assert(layers_of(line) == descending(n, n as nat)) by {
        lemma_line_layers_descend(n);
    }
    assert(steps =~= line + seq![FftStep::Circle]);
    lemma_layers_concat(line, seq![FftStep::Circle]);
    lemma_layers_one(FftStep::Circle);
    assert(seq![0int] =~= descending(0, 1));
    lemma_descending_concat(n, n as nat, 1);
}

proof fn lemma_line_layers_descend(n: int)
    requires
        0 < n < u32::MAX - 4,
    ensures
        layers_of(fft_steps(n).drop_last()) == descending(n, n as nat),
{
    let line = fft_steps(n).drop_last();
    assert(seq![4int, 3, 2, 1] =~= descending(4, 4));
    lemma_layers_one(FftStep::VecwiseFused);
    if n + 1 >= MIN_RADIX8_LAYERS {
        let outer = n + 1 - VECWISE_FFT_BITS;
        let r = (outer % 3) as nat;
        let groups = (outer / 3) as nat;
        assert(n == 4 + 3 * groups + r);
        let left = radix2_down(n, r, true);
        let mid = radix8_down(groups);
        assert(mid.take(groups as int) =~= mid);
        lemma_layers_radix2(n, r, true);
        lemma_layers_radix8(groups, groups);
        lemma_layers_concat(left, mid);
        lemma_layers_concat(left + mid, seq![FftStep::VecwiseFused]);
        assert(line =~= left + mid + seq![FftStep::VecwiseFused]);
        lemma_descending_concat(n, r, 3 * groups);
        lemma_descending_concat(n, r + 3 * groups, 4);
    } else if n >= 4 {
        let high = (n - 4) as nat;
        lemma_layers_radix2(n, high, false);
        lemma_layers_concat(radix2_down(n, high, false), seq![FftStep::VecwiseFused]);
        assert(line =~= radix2_down(n, high, false) + seq![FftStep::VecwiseFused]);
        lemma_descending_concat(n, high, 4);
    } else {
        lemma_layers_radix2(n, n as nat, true);
        assert(line =~= radix2_down(n, n as nat, true));
    }
}

/// No step needs twiddle factors of a layer that the transform does not have.
pub proof fn law_fft_steps_in_range(n: int, i: int)
    requires
        0 <= n < u32::MAX - 4,
        0 <= i < fft_steps(n).len(),
    ensures
        1 <= fft_steps(n)[i].top() <= n,
        fft_steps(n)[i] matches FftStep::Radix2 { layer, .. } ==> layer >= 1,
        fft_steps(n)[i] is Radix8 ==> n + 1 >= MIN_RADIX8_LAYERS,
{
    let steps = fft_steps(n);
    if n + 1 >= MIN_RADIX8_LAYERS {
        let outer = n + 1 - VECWISE_FFT_BITS;
        let left = (outer % 3) as nat;
        let groups = (outer / 3) as nat;
        if i < left {
            assert(steps[i] == radix2_down(n, left, true)[i]);
        } else if i < left + groups {
            assert(steps[i] == radix8_down(groups)[i - left]);
        }
    } else if n >= 4 {
        if i < n - 4 {
            assert(steps[i] == radix2_down(n, (n - 4) as nat, false)[i]);
        }
    } else if i < n {
        assert(steps[i] == radix2_down(n, n as nat, true)[i]);
    }
}

/// The layers of the inverse transform with `n` line layers, in the order in which they
/// are processed.
pub open spec fn ifft_layers(n: int) -> Seq<int> {
    if n > 0 {
        Seq::new((n + 1) as nat, |i: int| i)
    } else {
        Seq::empty()
    }
}

/// The inverse transform processes the layers of the forward transform in reverse.
pub proof fn law_ifft_reverses_fft(n: int)
    requires
        0 < n < u32::MAX - 4,
    ensures
        ifft_layers(n) == layers_of(fft_steps(n)).reverse(),
{
    law_fft_layers_descend(n);
    assert(ifft_layers(n) =~= descending(n, (n + 1) as nat).reverse());
}

/// What layers, each taken as a map of columns, make of a column.
pub open spec fn apply_layers(
    layer: spec_fn(int, Seq<int>) -> Seq<int>,
    layers: Seq<int>,
    column: Seq<int>,
) -> Seq<int>
    decreases layers.len(),
{
    if layers.len() == 0 {
        column
    } else {
        layer(layers.last(), apply_layers(layer, layers.drop_last(), column))
    }
}

/// A column with every value multiplied by `k`.
pub open spec fn scaled(k: int, column: Seq<int>) -> Seq<int> {
    column.map_values(|v: int| fields::modp(k * v))
}

/// A column of canonical field elements.
pub open spec fn canonical(column: Seq<int>) -> bool {
    forall|i: int| 0 <= i < column.len() ==> 0 <= #[trigger] column[i] < P
}

proof fn lemma_scaled_twice(a: int, b: int, column: Seq<int>)
    ensures
        scaled(a, scaled(b, column)) == scaled(a * b, column),
{
    assert forall|i: int| 0 <= i < column.len() implies fields::modp(a * fields::modp(b * column[i]))
        == fields::modp((a * b) * column[i]) by {
        lemma_mul_mod_noop_right(a, b * column[i], P as int);
        lemma_mul_is_associative(a, b, column[i]);
    }
    assert(scaled(a, scaled(b, column)) =~= scaled(a * b, column));
}

/// Kernels of the two directions fit together on columns of a length: a layer keeps
/// canonical columns so, an inverse layer undoes the forward layer of the same number up
/// to a factor of two, and commutes with multiplication by a constant.
pub open spec fn layers_fit(
    forward: spec_fn(int, Seq<int>) -> Seq<int>,
    inverse: spec_fn(int, Seq<int>) -> Seq<int>,
    n_layers: int,
    len: nat,
) -> bool {
    &&& forall|l: int, c: Seq<int>|
        #![trigger forward(l, c)]
        0 <= l < n_layers && canonical(c) && c.len() == len ==> canonical(forward(l, c))
            && forward(l, c).len() == len
    &&& forall|l: int, c: Seq<int>|
        #![trigger inverse(l, forward(l, c))]
        0 <= l < n_layers && canonical(c) && c.len() == len ==> inverse(l, forward(l, c))
            == scaled(2, c)
    &&& forall|l: int, a: int, c: Seq<int>|
        #![trigger inverse(l, scaled(a, c))]
        0 <= l < n_layers && canonical(c) && c.len() == len ==> inverse(l, scaled(a, c)) == scaled(
            a,
            inverse(l, c),
        )
}

proof fn lemma_inverse_pass(
    forward: spec_fn(int, Seq<int>) -> Seq<int>,
    inverse: spec_fn(int, Seq<int>) -> Seq<int>,
    layers: Seq<int>,
    column: Seq<int>,
    k: nat,
)
    requires
        canonical(column),
        layers_fit(forward, inverse, layers.len() as int, column.len()),
        forall|i: int| 0 <= i < layers.len() ==> 0 <= #[trigger] layers[i] < layers.len(),
        k <= layers.len(),
    ensures
        canonical(apply_layers(forward, layers.take(layers.len() - k), column)),
        apply_layers(
            inverse,
            layers.reverse().take(k as int),
            apply_layers(forward, layers, column),
        ) == scaled(
            pow2(k) as int,
            apply_layers(forward, layers.take(layers.len() - k), column),
        ),
    decreases k,
{
    let n = layers.len() as int;
    let out = apply_layers(forward, layers, column);
    lemma_forward_canonical(forward, inverse, layers.take(n - k), column, n);
    let inner = apply_layers(forward, layers.take(n - k), column);
    if k == 0 {
        lemma2_to64();
        assert(layers.take(n) =~= layers);
        assert forall|i: int| 0 <= i < out.len() implies fields::modp(1 * out[i]) == out[i] by {
            lemma_small_mod(out[i] as nat, P as nat);
        }
        assert(scaled(1, out) =~= out);
        assert(layers.reverse().take(0) =~= Seq::<int>::empty());
    } else {
        let m = (k - 1) as nat;
        lemma_inverse_pass(forward, inverse, layers, column, m);
        let outer = apply_layers(forward, layers.take(n - m), column);
        let l = layers[n - k];
        assert(layers.take(n - m).drop_last() =~= layers.take(n - k));
        assert(outer == forward(l, inner));
        let rev = layers.reverse();
        assert(rev.take(k as int).drop_last() =~= rev.take(m as int));
        assert(rev.take(k as int).last() == l);
        let p = pow2(m) as int;
        assert(apply_layers(inverse, rev.take(k as int), out) == inverse(l, scaled(p, outer)));
        assert(inverse(l, scaled(p, outer)) == scaled(p, inverse(l, outer)));
        assert(inverse(l, forward(l, inner)) == scaled(2, inner));
        lemma_scaled_twice(p, 2, inner);
        lemma_pow2_unfold(k);
        assert(p * 2 == pow2(k));
    }
}

proof fn lemma_forward_canonical(
    forward: spec_fn(int, Seq<int>) -> Seq<int>,
    inverse: spec_fn(int, Seq<int>) -> Seq<int>,
    layers: Seq<int>,
    column: Seq<int>,
    n: int,
)
    requires
        canonical(column),
        layers_fit(forward, inverse, n, column.len()),
        forall|i: int| 0 <= i < layers.len() ==> 0 <= #[trigger] layers[i] < n,
    ensures
        canonical(apply_layers(forward, layers, column)),
        apply_layers(forward, layers, column).len() == column.len(),
    decreases layers.len(),
{
    if layers.len() > 0 {
        lemma_forward_canonical(forward, inverse, layers.drop_last(), column, n);
    }
}

/// The inverse transform undoes the forward transform: the steps of the forward transform,
/// then the layers of the inverse transform, then multiplication by the inverse of the size
/// give the column back, whatever the kernels are, so long as those of the two directions
/// fit together.
pub proof fn law_ifft_undoes_fft(
    forward: spec_fn(int, Seq<int>) -> Seq<int>,
    inverse: spec_fn(int, Seq<int>) -> Seq<int>,
    log_size: nat,
    n_inv: int,
    column: Seq<int>,
)
    requires
        2 <= log_size < u32::MAX - 4,
        canonical(column),
        fields::modp(n_inv * pow2(log_size)) == 1,
        layers_fit(forward, inverse, log_size as int, column.len()),
    ensures
        scaled(
            n_inv,
            apply_layers(
                inverse,
                ifft_layers(log_size - 1),
                apply_layers(forward, layers_of(fft_steps(log_size - 1)), column),
            ),
        ) == column,
{
    let n = log_size - 1;
    let layers = layers_of(fft_steps(n));
    law_ifft_reverses_fft(n);
    law_fft_layers_descend(n);
    lemma_inverse_pass(forward, inverse, layers, column, log_size);
    assert(layers.reverse().take(log_size as int) =~= layers.reverse());
    assert(layers.take(0) =~= Seq::<int>::empty());
    lemma_scaled_twice(n_inv, pow2(log_size) as int, column);
    lemma_scaled_by_one(n_inv * pow2(log_size), column);
}

/// Layers commute with multiplication by a constant.
proof fn lemma_layers_scale(
    forward: spec_fn(int, Seq<int>) -> Seq<int>,
    inverse: spec_fn(int, Seq<int>) -> Seq<int>,
    layers: Seq<int>,
    a: int,
    column: Seq<int>,
    n: int,
)
    requires
        canonical(column),
        layers_fit(inverse, forward, n, column.len()),
        layers_fit(forward, inverse, n, column.len()),
        forall|i: int| 0 <= i < layers.len() ==> 0 <= #[trigger] layers[i] < n,
    ensures
        apply_layers(forward, layers, scaled(a, column)) == scaled(
            a,
            apply_layers(forward, layers, column),
        ),
    decreases layers.len(),
{
    if layers.len() > 0 {
        lemma_layers_scale(forward, inverse, layers.drop_last(), a, column, n);
        lemma_forward_canonical(forward, inverse, layers.drop_last(), column, n);
        let inner = apply_layers(forward, layers.drop_last(), column);
        assert(forward(layers.last(), scaled(a, inner)) == scaled(
            a,
            forward(layers.last(), inner),
        ));
    }
}

/// The forward transform undoes the inverse transform: the layers of the inverse transform,
/// then multiplication by the inverse of the size, then the steps of the forward transform
/// give the column back, whatever the kernels are, so long as those of the two directions
/// fit together both ways.
pub proof fn law_fft_undoes_ifft(
    forward: spec_fn(int, Seq<int>) -> Seq<int>,
    inverse: spec_fn(int, Seq<int>) -> Seq<int>,
    log_size: nat,
    n_inv: int,
    column: Seq<int>,
)
    requires
        2 <= log_size < u32::MAX - 4,
        canonical(column),
        fields::modp(n_inv * pow2(log_size)) == 1,
        layers_fit(forward, inverse, log_size as int, column.len()),
        layers_fit(inverse, forward, log_size as int, column.len()),
    ensures
        apply_layers(
            forward,
            layers_of(fft_steps(log_size - 1)),
            scaled(n_inv, apply_layers(inverse, ifft_layers(log_size - 1), column)),
        ) == column,
{
    let n = log_size - 1;
    let up = ifft_layers(n);
    let down = layers_of(fft_steps(n));
    law_ifft_reverses_fft(n);
    law_fft_layers_descend(n);
    assert(up.reverse() =~= down);
    lemma_inverse_pass(inverse, forward, up, column, log_size);
    assert(up.reverse().take(log_size as int) =~= down);
    assert(up.take(0) =~= Seq::<int>::empty());
    lemma_forward_canonical(inverse, forward, up, column, log_size as int);
    let coeffs = apply_layers(inverse, up, column);
    lemma_layers_scale(forward, inverse, down, n_inv, coeffs, log_size as int);
    lemma_scaled_twice(n_inv, pow2(log_size) as int, column);
    lemma_scaled_by_one(n_inv * pow2(log_size), column);
}

/// Multiplication by a constant that is one modulo the field's characteristic changes
/// nothing.
proof fn lemma_scaled_by_one(k: int, column: Seq<int>)
    requires
        canonical(column),
        fields::modp(k) == 1,
    ensures
        scaled(k, column) == column,
{
    assert forall|i: int| 0 <= i < column.len() implies fields::modp(k * column[i]) == column[i] by {
        lemma_mul_mod_noop_left(k, column[i], P as int);
        assert(1 * column[i] == column[i]);
        lemma_small_mod(column[i] as nat, P as nat);
    }
    assert(scaled(k, column) =~= column);
}

} // verus!
