//! What the layers of a transform compute, with butterflies as kernels.
//!
//! A layer of the forward transform takes pairs of values to their sum and difference, one
//! of the two times a twiddle factor.  Together the layers evaluate a polynomial, and the
//! layers of the inverse transform give its coefficients back.

use crate::fft_schedule;
use crate::fields;
use crate::fields::P;
use vstd::arithmetic::div_mod::*;
use vstd::arithmetic::mul::*;
use vstd::arithmetic::power2::*;
use vstd::prelude::*;

verus! {

/// The block of a layer that an index lies in: blocks of layer `l` have `2^(l+1)` values.
pub open spec fn block_of(l: int, i: int) -> int {
    i / (2 * pow2(l as nat) as int)
}

/// The index lies in the lower half of its block.
pub open spec fn in_lower_half(l: int, i: int) -> bool {
    i % (2 * pow2(l as nat) as int) < pow2(l as nat)
}

/// A layer of butterflies: of two values `a, b` that are `2^l` apart within a block, the
/// first becomes `a + t b`, the second `a - t b`, where `t` is the block's twiddle factor.
pub open spec fn butterflies(tw: spec_fn(int, int) -> int) -> spec_fn(int, Seq<int>) -> Seq<int> {
    |l: int, c: Seq<int>|
        Seq::new(
            c.len(),
            |i: int|
                {
                    let h = pow2(l as nat) as int;
                    let t = tw(l, block_of(l, i));
                    if in_lower_half(l, i) {
                        fields::modp(c[i] + t * c[i + h])
                    } else {
                        fields::modp(c[i - h] - t * c[i])
                    }
                },
        )
}

/// A layer of inverse butterflies: `a, b` become `a + b` and `(a - b) t`.
pub open spec fn inverse_butterflies(itw: spec_fn(int, int) -> int) -> spec_fn(
    int,
    Seq<int>,
) -> Seq<int> {
    |l: int, c: Seq<int>|
        Seq::new(
            c.len(),
            |i: int|
                {
                    let h = pow2(l as nat) as int;
                    let t = itw(l, block_of(l, i));
                    if in_lower_half(l, i) {
                        fields::modp(c[i] + c[i + h])
                    } else {
                        fields::modp((c[i - h] - c[i]) * t)
                    }
                },
        )
}

/// The partner of an index is in range, in the same block, and in the other half.
proof fn lemma_partner(l: int, log_size: nat, i: int)
    requires
        0 <= l < log_size,
        0 <= i < pow2(log_size),
    ensures
        ({
            let h = pow2(l as nat) as int;
            &&& h > 0
            &&& in_lower_half(l, i) ==> i + h < pow2(log_size) && block_of(l, i + h) == block_of(
                l,
                i,
            ) && !in_lower_half(l, i + h)
            &&& !in_lower_half(l, i) ==> 0 <= i - h && block_of(l, i - h) == block_of(l, i)
                && in_lower_half(l, i - h)
        }),
{
    let h = pow2(l as nat) as int;
    let d = 2 * h;
    let n = pow2(log_size) as int;
    let q = pow2((log_size - l - 1) as nat) as int;
    lemma_pow2_pos(l as nat);
    lemma_pow2_unfold((l + 1) as nat);
    lemma_pow2_adds((l + 1) as nat, (log_size - l - 1) as nat);
    assert(n == d * q);
    let b = i / d;
    let r = i % d;
    lemma_fundamental_div_mod(i, d);
    lemma_mod_bound(i, d);
    lemma_div_pos_is_pos(i, d);
    if r < h {
        lemma_fundamental_div_mod_converse(i + h, d, b, r + h);
        assert(b < q) by (nonlinear_arith)
            requires
                d * b + r < d * q,
                r >= 0,
                d > 0,
        ;
        assert(d * b + d <= d * q) by (nonlinear_arith)
            requires
                b < q,
                d > 0,
        ;
    } else {
        lemma_fundamental_div_mod_converse(i - h, d, b, r - h);
        assert(d * b >= 0) by (nonlinear_arith)
            requires
                b >= 0,
                d > 0,
        ;
    }
}

/// A butterfly and its inverse double both values.
proof fn lemma_butterfly(a: int, b: int, t: int, s: int)
    requires
        fields::modp(t * s) == 1,
    ensures
        ({
            let u = fields::modp(a + t * b);
            let v = fields::modp(a - t * b);
            &&& fields::modp(u + v) == fields::modp(2 * a)
            &&& fields::modp((u - v) * s) == fields::modp(2 * b)
        }),
{
    let p = P as int;
    let x = a + t * b;
    let y = a - t * b;
    lemma_add_mod_noop(x, y, p);
    lemma_sub_mod_noop(x, y, p);
    let u = fields::modp(x);
    let v = fields::modp(y);
    assert(x + y == 2 * a);
    assert(x - y == 2 * (t * b));
    assert(fields::modp(u - v) == fields::modp(2 * (t * b)));
    lemma_mul_mod_noop_left(u - v, s, p);
    lemma_mul_mod_noop_left(2 * (t * b), s, p);
    assert((2 * (t * b)) * s == (t * s) * (2 * b)) by (nonlinear_arith);
    lemma_mul_mod_noop_left(t * s, 2 * b, p);
    assert(1 * (2 * b) == 2 * b);
}

/// Sums and scaled differences commute with multiplication by a constant.
proof fn lemma_inverse_butterfly_scales(a: int, x: int, y: int, s: int)
    ensures
        fields::modp(fields::modp(a * x) + fields::modp(a * y)) == fields::modp(
            a * fields::modp(x + y),
        ),
        fields::modp((fields::modp(a * x) - fields::modp(a * y)) * s) == fields::modp(
            a * fields::modp((x - y) * s),
        ),
{
    let p = P as int;
    lemma_add_mod_noop(a * x, a * y, p);
    lemma_mul_is_distributive_add(a, x, y);
    lemma_mul_mod_noop_right(a, x + y, p);
    let u = fields::modp(a * x);
    let v = fields::modp(a * y);
    lemma_sub_mod_noop(a * x, a * y, p);
    lemma_mul_is_distributive_sub(a, x, y);
    lemma_mul_mod_noop_left(u - v, s, p);
    lemma_mul_mod_noop_left(a * (x - y), s, p);
    lemma_mul_is_associative(a, x - y, s);
    lemma_mul_mod_noop_right(a, (x - y) * s, p);
}

/// For every block of every layer, the second factor is the inverse of the first.
pub open spec fn inverse_factors(
    tw: spec_fn(int, int) -> int,
    itw: spec_fn(int, int) -> int,
    log_size: nat,
) -> bool {
    forall|l: int, b: int|
        0 <= l < log_size && 0 <= b < pow2((log_size - 1 - l) as nat) ==> #[trigger] fields::modp(
            tw(l, b) * itw(l, b),
        ) == 1
}

/// An index lies in one of the layer's blocks.
pub proof fn lemma_block_in_range(l: int, log_size: nat, i: int)
    requires
        0 <= l < log_size,
        0 <= i < pow2(log_size),
    ensures
        0 <= block_of(l, i) < pow2((log_size - 1 - l) as nat),
{
    let d = 2 * pow2(l as nat) as int;
    let q = pow2((log_size - 1 - l) as nat) as int;
    lemma_pow2_pos(l as nat);
    lemma_pow2_unfold((l + 1) as nat);
    lemma_pow2_adds((l + 1) as nat, (log_size - 1 - l) as nat);
    assert(pow2(log_size) == d * q);
    lemma_mul_is_commutative(d, q);
    lemma_div_by_multiple_is_strongly_ordered(i, q * d, q, d);
    lemma_div_multiples_vanish(q, d);
    lemma_div_pos_is_pos(i, d);
}

/// Butterflies fit together with inverse butterflies whose factors are the inverses.
pub proof fn law_butterflies_fit(
    tw: spec_fn(int, int) -> int,
    itw: spec_fn(int, int) -> int,
    log_size: nat,
)
    requires
        inverse_factors(tw, itw, log_size),
    ensures
        fft_schedule::layers_fit(
            butterflies(tw),
            inverse_butterflies(itw),
            log_size as int,
            pow2(log_size),
        ),
{
    let f = butterflies(tw);
    let g = inverse_butterflies(itw);
    assert forall|l: int, c: Seq<int>|
        #![trigger f(l, c)]
        0 <= l < log_size && fft_schedule::canonical(c) && c.len() == pow2(
            log_size,
        ) implies fft_schedule::canonical(f(l, c)) && f(l, c).len() == pow2(log_size) by {}
    assert forall|l: int, c: Seq<int>|
        #![trigger g(l, f(l, c))]
        0 <= l < log_size && fft_schedule::canonical(c) && c.len() == pow2(log_size) implies g(
        l,
        f(l, c),
    ) == fft_schedule::scaled(2, c) by {
        let h = pow2(l as nat) as int;
        let doubled = fft_schedule::scaled(2, c);
        assert forall|i: int| 0 <= i < c.len() implies #[trigger] g(l, f(l, c))[i]
            == doubled[i] by {
            lemma_partner(l, log_size, i);
            lemma_block_in_range(l, log_size, i);
            let b = block_of(l, i);
            assert(fields::modp(tw(l, b) * itw(l, b)) == 1);
            if in_lower_half(l, i) {
                lemma_butterfly(c[i], c[i + h], tw(l, b), itw(l, b));
            } else {
                lemma_butterfly(c[i - h], c[i], tw(l, b), itw(l, b));
            }
        }
        assert(g(l, f(l, c)) =~= fft_schedule::scaled(2, c));
    }
    assert forall|l: int, a: int, c: Seq<int>|
        #![trigger g(l, fft_schedule::scaled(a, c))]
        0 <= l < log_size && fft_schedule::canonical(c) && c.len() == pow2(log_size) implies g(
        l,
        fft_schedule::scaled(a, c),
    ) == fft_schedule::scaled(a, g(l, c)) by {
        let h = pow2(l as nat) as int;
        let before = fft_schedule::scaled(a, c);
        let after = fft_schedule::scaled(a, g(l, c));
        assert forall|i: int| 0 <= i < c.len() implies #[trigger] g(l, before)[i] == after[i] by {
            lemma_partner(l, log_size, i);
            let b = block_of(l, i);
            if in_lower_half(l, i) {
                lemma_inverse_butterfly_scales(a, c[i], c[i + h], itw(l, b));
            } else {
                lemma_inverse_butterfly_scales(a, c[i - h], c[i], itw(l, b));
            }
        }
        assert(g(l, fft_schedule::scaled(a, c)) =~= fft_schedule::scaled(a, g(l, c)));
    }
}

/// With butterflies as kernels, and the inverses of the twiddle factors for the way back, the
/// inverse transform gives back the column that was transformed.
pub proof fn law_butterfly_roundtrip(
    tw: spec_fn(int, int) -> int,
    itw: spec_fn(int, int) -> int,
    log_size: nat,
    n_inv: int,
    column: Seq<int>,
)
    requires
        2 <= log_size < u32::MAX - 4,
        column.len() == pow2(log_size),
        fft_schedule::canonical(column),
        fields::modp(n_inv * pow2(log_size)) == 1,
        inverse_factors(tw, itw, log_size),
    ensures
        fft_schedule::scaled(
            n_inv,
            fft_schedule::apply_layers(
                inverse_butterflies(itw),
                fft_schedule::ifft_layers(log_size - 1),
                fft_schedule::apply_layers(
                    butterflies(tw),
                    fft_schedule::layers_of(fft_schedule::fft_steps(log_size - 1)),
                    column,
                ),
            ),
        ) == column,
{
    law_butterflies_fit(tw, itw, log_size);
    fft_schedule::law_ifft_undoes_fft(
        butterflies(tw),
        inverse_butterflies(itw),
        log_size,
        n_inv,
        column,
    );
}

/// An inverse butterfly and then the butterfly double both values.
proof fn lemma_butterfly_back(a: int, b: int, t: int, s: int)
    requires
        fields::modp(t * s) == 1,
    ensures
        ({
            let u = fields::modp(a + b);
            let v = fields::modp((a - b) * s);
            &&& fields::modp(u + t * v) == fields::modp(2 * a)
            &&& fields::modp(u - t * v) == fields::modp(2 * b)
        }),
{
    let p = P as int;
    let x = a + b;
    let w = (a - b) * s;
    let u = fields::modp(x);
    let v = fields::modp(w);
    lemma_mul_mod_noop_right(t, w, p);
    assert(t * w == (t * s) * (a - b)) by (nonlinear_arith)
        requires
            w == (a - b) * s,
    ;
    lemma_mul_mod_noop_left(t * s, a - b, p);
    assert(1 * (a - b) == a - b);
    assert(fields::modp(t * v) == fields::modp(a - b));
    lemma_add_mod_noop(u, t * v, p);
    lemma_add_mod_noop(x, a - b, p);
    lemma_sub_mod_noop(u, t * v, p);
    lemma_sub_mod_noop(x, a - b, p);
    lemma_mod_twice(x, p);
    assert(x + (a - b) == 2 * a);
    assert(x - (a - b) == 2 * b);
}

/// Butterflies commute with multiplication by a constant.
proof fn lemma_butterfly_scales(a: int, x: int, y: int, t: int)
    ensures
        fields::modp(fields::modp(a * x) + t * fields::modp(a * y)) == fields::modp(
            a * fields::modp(x + t * y),
        ),
        fields::modp(fields::modp(a * x) - t * fields::modp(a * y)) == fields::modp(
            a * fields::modp(x - t * y),
        ),
{
    let p = P as int;
    lemma_modp_inner(a * x, t, a * y);
    lemma_modp_inner(a * x, -t, a * y);
    assert(a * x + t * (a * y) == a * (x + t * y)) by (nonlinear_arith);
    assert(a * x + (-t) * (a * y) == a * (x - t * y)) by (nonlinear_arith);
    let v = fields::modp(a * y);
    assert((-t) * v == -(t * v)) by (nonlinear_arith);
    lemma_mul_mod_noop_right(a, x + t * y, p);
    lemma_mul_mod_noop_right(a, x - t * y, p);
}

/// Inverse butterflies fit together with butterflies whose factors are the inverses.
pub proof fn law_inverse_butterflies_fit(
    tw: spec_fn(int, int) -> int,
    itw: spec_fn(int, int) -> int,
    log_size: nat,
)
    requires
        inverse_factors(tw, itw, log_size),
    ensures
        fft_schedule::layers_fit(
            inverse_butterflies(itw),
            butterflies(tw),
            log_size as int,
            pow2(log_size),
        ),
{
    let f = butterflies(tw);
    let g = inverse_butterflies(itw);
    assert forall|l: int, c: Seq<int>|
        #![trigger g(l, c)]
        0 <= l < log_size && fft_schedule::canonical(c) && c.len() == pow2(
            log_size,
        ) implies fft_schedule::canonical(g(l, c)) && g(l, c).len() == pow2(log_size) by {}
    assert forall|l: int, c: Seq<int>|
        #![trigger f(l, g(l, c))]
        0 <= l < log_size && fft_schedule::canonical(c) && c.len() == pow2(log_size) implies f(
        l,
        g(l, c),
    ) == fft_schedule::scaled(2, c) by {
        let h = pow2(l as nat) as int;
        let doubled = fft_schedule::scaled(2, c);
        assert forall|i: int| 0 <= i < c.len() implies #[trigger] f(l, g(l, c))[i]
            == doubled[i] by {
            lemma_partner(l, log_size, i);
            lemma_block_in_range(l, log_size, i);
            let b = block_of(l, i);
            assert(fields::modp(tw(l, b) * itw(l, b)) == 1);
            if in_lower_half(l, i) {
                lemma_butterfly_back(c[i], c[i + h], tw(l, b), itw(l, b));
            } else {
                lemma_butterfly_back(c[i - h], c[i], tw(l, b), itw(l, b));
            }
        }
        assert(f(l, g(l, c)) =~= fft_schedule::scaled(2, c));
    }
    assert forall|l: int, a: int, c: Seq<int>|
        #![trigger f(l, fft_schedule::scaled(a, c))]
        0 <= l < log_size && fft_schedule::canonical(c) && c.len() == pow2(log_size) implies f(
        l,
        fft_schedule::scaled(a, c),
    ) == fft_schedule::scaled(a, f(l, c)) by {
        let h = pow2(l as nat) as int;
        let before = fft_schedule::scaled(a, c);
        let after = fft_schedule::scaled(a, f(l, c));
        assert forall|i: int| 0 <= i < c.len() implies #[trigger] f(l, before)[i] == after[i] by {
            lemma_partner(l, log_size, i);
            let b = block_of(l, i);
            if in_lower_half(l, i) {
                lemma_butterfly_scales(a, c[i], c[i + h], tw(l, b));
            } else {
                lemma_butterfly_scales(a, c[i - h], c[i], tw(l, b));
            }
        }
        assert(f(l, fft_schedule::scaled(a, c)) =~= fft_schedule::scaled(a, f(l, c)));
    }
}

/// With butterflies as kernels, and the inverses of the twiddle factors for the way there,
/// the transform gives back the column that was transformed inversely.
pub proof fn law_inverse_butterfly_roundtrip(
    tw: spec_fn(int, int) -> int,
    itw: spec_fn(int, int) -> int,
    log_size: nat,
    n_inv: int,
    column: Seq<int>,
)
    requires
        2 <= log_size < u32::MAX - 4,
        column.len() == pow2(log_size),
        fft_schedule::canonical(column),
        fields::modp(n_inv * pow2(log_size)) == 1,
        inverse_factors(tw, itw, log_size),
    ensures
        fft_schedule::apply_layers(
            butterflies(tw),
            fft_schedule::layers_of(fft_schedule::fft_steps(log_size - 1)),
            fft_schedule::scaled(
                n_inv,
                fft_schedule::apply_layers(
                    inverse_butterflies(itw),
                    fft_schedule::ifft_layers(log_size - 1),
                    column,
                ),
            ),
        ) == column,
{
    law_butterflies_fit(tw, itw, log_size);
    law_inverse_butterflies_fit(tw, itw, log_size);
    fft_schedule::law_fft_undoes_ifft(
        butterflies(tw),
        inverse_butterflies(itw),
        log_size,
        n_inv,
        column,
    );
}

/// The value of `2^k` coefficients: bit `l` of a coefficient's index stands for the factor
/// `f(l)`.
pub open spec fn folded(c: Seq<int>, f: spec_fn(int) -> int, k: nat) -> int
    decreases k,
{
    if k == 0 {
        c[0]
    } else {
        let half = pow2((k - 1) as nat) as int;
        fields::modp(
            folded(c.take(half), f, (k - 1) as nat) + f(k - 1) * folded(
                c.skip(half),
                f,
                (k - 1) as nat,
            ),
        )
    }
}

/// The factor that layer `l` contributes to the value at an index: the twiddle factor of
/// the index's block, negated in the upper half of the block.
pub open spec fn signed_factor(tw: spec_fn(int, int) -> int, i: int, l: int) -> int {
    if in_lower_half(l, i) {
        tw(l, block_of(l, i))
    } else {
        -tw(l, block_of(l, i))
    }
}

/// The factors that the layers contribute to the value at an index.
pub open spec fn factors_at(tw: spec_fn(int, int) -> int, i: int) -> spec_fn(int) -> int {
    |l: int| signed_factor(tw, i, l)
}

/// The twiddle factors of the upper half of a column of `2^(m+1)` values.
pub open spec fn upper_factors(tw: spec_fn(int, int) -> int, m: int) -> spec_fn(int, int) -> int {
    |l: int, b: int| tw(l, b + pow2((m - l - 1) as nat))
}

/// `a + t b`, value by value.
pub open spec fn combined(a: Seq<int>, t: int, b: Seq<int>) -> Seq<int> {
    Seq::new(a.len(), |i: int| fields::modp(a[i] + t * b[i]))
}

/// Only the factors of lower layers matter.
pub proof fn lemma_folded_by_factors(
    c: Seq<int>,
    f: spec_fn(int) -> int,
    g: spec_fn(int) -> int,
    k: nat,
)
    requires
        forall|l: int| 0 <= l < k ==> #[trigger] f(l) == g(l),
    ensures
        folded(c, f, k) == folded(c, g, k),
    decreases k,
{
    if k > 0 {
        let half = pow2((k - 1) as nat) as int;
        assert(f(k - 1) == g(k - 1));
        lemma_folded_by_factors(c.take(half), f, g, (k - 1) as nat);
        lemma_folded_by_factors(c.skip(half), f, g, (k - 1) as nat);
    }
}

proof fn lemma_regroup(l1: int, r1: int, l2: int, r2: int, t: int, f: int)
    ensures
        fields::modp(fields::modp(l1 + t * r1) + f * fields::modp(l2 + t * r2)) == fields::modp(
            fields::modp(l1 + f * l2) + t * fields::modp(r1 + f * r2),
        ),
{
    lemma_modp_inner(l1 + t * r1, f, l2 + t * r2);
    lemma_modp_inner(l1 + f * l2, t, r1 + f * r2);
    assert((l1 + t * r1) + f * (l2 + t * r2) == (l1 + f * l2) + t * (r1 + f * r2))
        by (nonlinear_arith);
}

/// Reducing the parts first does not change the residue.
proof fn lemma_modp_inner(a: int, f: int, b: int)
    ensures
        fields::modp(fields::modp(a) + f * fields::modp(b)) == fields::modp(a + f * b),
{
    let p = P as int;
    lemma_mul_mod_noop_right(f, b, p);
    lemma_add_mod_noop(a, f * b, p);
    lemma_add_mod_noop(fields::modp(a), f * fields::modp(b), p);
    lemma_mod_twice(a, p);
}

/// Folding is linear.
proof fn lemma_folded_linear(a: Seq<int>, t: int, b: Seq<int>, f: spec_fn(int) -> int, k: nat)
    requires
        a.len() == pow2(k),
        b.len() == pow2(k),
    ensures
        folded(combined(a, t, b), f, k) == fields::modp(folded(a, f, k) + t * folded(b, f, k)),
    decreases k,
{
    lemma_pow2_pos(k);
    if k > 0 {
        let m = (k - 1) as nat;
        let half = pow2(m) as int;
        lemma_pow2_unfold(k);
        let c = combined(a, t, b);
        assert(c.take(half) =~= combined(a.take(half), t, b.take(half)));
        assert(c.skip(half) =~= combined(a.skip(half), t, b.skip(half)));
        lemma_folded_linear(a.take(half), t, b.take(half), f, m);
        lemma_folded_linear(a.skip(half), t, b.skip(half), f, m);
        lemma_regroup(
            folded(a.take(half), f, m),
            folded(b.take(half), f, m),
            folded(a.skip(half), f, m),
            folded(b.skip(half), f, m),
            t,
            f(k - 1),
        );
    }
}

/// An index in the upper half of `2^(m+1)` values lies, in each lower layer, as far into its
/// block as the index below it, so many blocks further.
proof fn lemma_upper_index(l: int, m: nat, j: int)
    requires
        0 <= l < m,
        0 <= j < pow2(m),
    ensures
        block_of(l, pow2(m) + j) == block_of(l, j) + pow2((m - l - 1) as nat),
        in_lower_half(l, pow2(m) + j) == in_lower_half(l, j),
{
    let d = 2 * pow2(l as nat) as int;
    let q = pow2((m - l - 1) as nat) as int;
    lemma_pow2_pos(l as nat);
    lemma_pow2_unfold((l + 1) as nat);
    lemma_pow2_adds((l + 1) as nat, (m - l - 1) as nat);
    assert(pow2(m) == d * q);
    lemma_fundamental_div_mod(j, d);
    lemma_mod_bound(j, d);
    lemma_mul_is_distributive_add(d, q, j / d);
    lemma_fundamental_div_mod_converse(d * q + j, d, q + j / d, j % d);
}

/// A lower layer works on the two halves of a column separately.
proof fn lemma_layer_on_halves(
    tw: spec_fn(int, int) -> int,
    l: int,
    m: nat,
    a: Seq<int>,
    b: Seq<int>,
)
    requires
        0 <= l < m,
        a.len() == pow2(m),
        b.len() == pow2(m),
    ensures
        butterflies(tw)(l, a + b) == butterflies(tw)(l, a) + butterflies(
            upper_factors(tw, m as int),
        )(l, b),
        butterflies(tw)(l, a).len() == pow2(m),
        butterflies(upper_factors(tw, m as int))(l, b).len() == pow2(m),
{
    let up = upper_factors(tw, m as int);
    let both = butterflies(tw)(l, a + b);
    let parts = butterflies(tw)(l, a) + butterflies(up)(l, b);
    let n = pow2(m) as int;
    assert forall|i: int| 0 <= i < 2 * n implies both[i] == parts[i] by {
        if i < n {
            lemma_partner(l, m, i);
        } else {
            let j = i - n;
            lemma_partner(l, m, j);
            lemma_upper_index(l, m, j);
        }
    }
    assert(both =~= parts);
}

/// Lower layers work on the two halves of a column separately.
proof fn lemma_layers_on_halves(
    tw: spec_fn(int, int) -> int,
    layers: Seq<int>,
    m: nat,
    a: Seq<int>,
    b: Seq<int>,
)
    requires
        forall|i: int| 0 <= i < layers.len() ==> 0 <= #[trigger] layers[i] < m,
        a.len() == pow2(m),
        b.len() == pow2(m),
    ensures
        fft_schedule::apply_layers(butterflies(tw), layers, a + b) == fft_schedule::apply_layers(
            butterflies(tw),
            layers,
            a,
        ) + fft_schedule::apply_layers(butterflies(upper_factors(tw, m as int)), layers, b),
        fft_schedule::apply_layers(butterflies(tw), layers, a).len() == pow2(m),
        fft_schedule::apply_layers(butterflies(upper_factors(tw, m as int)), layers, b).len()
            == pow2(m),
    decreases layers.len(),
{
    if layers.len() > 0 {
        lemma_layers_on_halves(tw, layers.drop_last(), m, a, b);
        lemma_layer_on_halves(
            tw,
            layers.last(),
            m,
            fft_schedule::apply_layers(butterflies(tw), layers.drop_last(), a),
            fft_schedule::apply_layers(
                butterflies(upper_factors(tw, m as int)),
                layers.drop_last(),
                b,
            ),
        );
    }
}

/// The first layer can be taken off.
proof fn lemma_first_layer(
    layer: spec_fn(int, Seq<int>) -> Seq<int>,
    first: int,
    rest: Seq<int>,
    column: Seq<int>,
)
    ensures
        fft_schedule::apply_layers(layer, seq![first] + rest, column)
            == fft_schedule::apply_layers(layer, rest, layer(first, column)),
    decreases rest.len(),
{
    let all = seq![first] + rest;
    if rest.len() == 0 {
        assert(all.drop_last() =~= Seq::<int>::empty());
        assert(fft_schedule::apply_layers(layer, all.drop_last(), column) == column);
    } else {
        assert(all.drop_last() =~= seq![first] + rest.drop_last());
        lemma_first_layer(layer, first, rest.drop_last(), column);
    }
}

/// The layers from the highest down to the circle layer evaluate a polynomial: the value at
/// an index is that of the coefficients with the factors that belong to the index.
pub proof fn law_layers_evaluate(tw: spec_fn(int, int) -> int, log_size: nat, c: Seq<int>, i: int)
    requires
        c.len() == pow2(log_size),
        0 <= i < c.len(),
    ensures
        fft_schedule::apply_layers(
            butterflies(tw),
            fft_schedule::descending(log_size - 1, log_size),
            c,
        )[i] == folded(c, factors_at(tw, i), log_size),
    decreases log_size,
{
    lemma2_to64();
    let layers = fft_schedule::descending(log_size - 1, log_size);
    if log_size > 0 {
        let m = (log_size - 1) as nat;
        let n = pow2(m) as int;
        lemma_pow2_unfold(log_size);
        lemma_pow2_pos(m);
        let rest = fft_schedule::descending(m - 1, m);
        assert(layers =~= seq![m as int] + rest);
        lemma_first_layer(butterflies(tw), m as int, rest, c);
        let left = c.take(n);
        let right = c.skip(n);
        let t = tw(m as int, 0);
        let a = combined(left, t, right);
        let b = combined(left, -t, right);
        let first = butterflies(tw)(m as int, c);
        assert forall|k: int| 0 <= k < 2 * n implies #[trigger] first[k] == (a + b)[k] by {
            lemma_top_layer_index(m, k);
            if k >= n {
                assert((-t) * right[k - n] == -(t * right[k - n])) by (nonlinear_arith);
            }
        }
        assert(first =~= a + b);
        lemma_layers_on_halves(tw, rest, m, a, b);
        lemma_top_layer_index(m, i);
        let f = factors_at(tw, i);
        if i < n {
            law_layers_evaluate(tw, m, a, i);
            lemma_folded_linear(left, t, right, f, m);
        } else {
            let j = i - n;
            let up = upper_factors(tw, m as int);
            law_layers_evaluate(up, m, b, j);
            let g = factors_at(up, j);
            assert forall|l: int| 0 <= l < m implies #[trigger] g(l) == f(l) by {
                lemma_upper_index(l, m, j);
            }
            lemma_folded_by_factors(b, g, f, m);
            lemma_folded_linear(left, -t, right, f, m);
        }
    }
}

/// The top layer has one block.
proof fn lemma_top_layer_index(m: nat, i: int)
    requires
        0 <= i < 2 * pow2(m),
    ensures
        block_of(m as int, i) == 0,
        in_lower_half(m as int, i) == (i < pow2(m)),
{
    let d = 2 * pow2(m) as int;
    lemma_basic_div(i, d);
    lemma_small_mod(i as nat, d as nat);
}

/// The forward transform evaluates a polynomial at every point of the domain, by index.
pub proof fn law_fft_evaluates(tw: spec_fn(int, int) -> int, log_size: nat, c: Seq<int>, i: int)
    requires
        2 <= log_size < u32::MAX - 4,
        c.len() == pow2(log_size),
        0 <= i < c.len(),
    ensures
        fft_schedule::apply_layers(
            butterflies(tw),
            fft_schedule::layers_of(fft_schedule::fft_steps(log_size - 1)),
            c,
        )[i] == folded(c, factors_at(tw, i), log_size),
{
    fft_schedule::law_fft_layers_descend(log_size - 1);
    law_layers_evaluate(tw, log_size, c, i);
}

} // verus!
