//! The Mersenne-31 field and its degree-four extension.

use vstd::arithmetic::div_mod::*;
use vstd::arithmetic::mul::*;
use vstd::arithmetic::power2::*;
use vstd::prelude::*;

verus! {

/// The field's modulus, `2^31 - 1`.
pub const P: u32 = 0x7fff_ffff;

/// Number of base field coordinates of a [`SecureField`].
pub const SECURE_EXTENSION_DEGREE: usize = 4;

/// The canonical representative of `x` modulo `P`.
pub open spec fn modp(x: int) -> int {
    x % (P as int)
}

/// An element of the field of integers modulo `P`.
#[derive(Clone, Copy, Debug, PartialEq, Eq, Structural)]
pub struct BaseField(pub u32);

impl BaseField {
    /// The element's representative is the canonical one.
    pub open spec fn wf(self) -> bool {
        self.0 < P
    }

    /// Reduces a number modulo `P`.
    pub fn reduce(value: u64) -> (r: BaseField)
        ensures
            r.wf(),
            r.0 == modp(value as int),
    {
        BaseField((value % (P as u64)) as u32)
    }

    /// The element that a 32-bit number stands for.
    pub fn from_u32(value: u32) -> (r: BaseField)
        ensures
            r.wf(),
            r.0 == modp(value as int),
    {
        BaseField(value % P)
    }

    pub fn add(self, rhs: BaseField) -> (r: BaseField)
        requires
            self.wf(),
            rhs.wf(),
        ensures
            r.wf(),
            r.0 == modp(self.0 + rhs.0),
    {
        BaseField::reduce(self.0 as u64 + rhs.0 as u64)
    }

    pub fn sub(self, rhs: BaseField) -> (r: BaseField)
        requires
            self.wf(),
            rhs.wf(),
        ensures
            r.wf(),
            r.0 == modp(self.0 - rhs.0),
    {
        proof {
            lemma_mod_add_multiples_vanish(self.0 - rhs.0, P as int);
        }
        BaseField::reduce((self.0 as u64 + P as u64) - rhs.0 as u64)
    }

    pub fn mul(self, rhs: BaseField) -> (r: BaseField)
        requires
            self.wf(),
            rhs.wf(),
        ensures
            r.wf(),
            r.0 == modp(self.0 * rhs.0),
    {
        proof {
            lemma_product_bound(self.0, rhs.0);
        }
        BaseField::reduce(self.0 as u64 * rhs.0 as u64)
    }

    /// The representative of the multiplicative inverse of `2^log`.
    pub open spec fn spec_inverse_of_pow2(log: nat) -> u32 {
        if log == 0 {
            1
        } else {
            pow2((31 - log) as nat) as u32
        }
    }

    /// The multiplicative inverse of `2^log`.
    pub fn inverse_of_pow2(log: u32) -> (r: BaseField)
        requires
            log <= 31,
        ensures
            r.wf(),
            r.0 == BaseField::spec_inverse_of_pow2(log as nat),
            modp(r.0 * pow2(log as nat)) == 1,
    {
        proof {
            lemma2_to64();
            lemma_pow2_adds((31 - log) as nat, log as nat);
            assert(pow2(31) == P + 1);
        }
        if log == 0 {
            BaseField(1)
        } else {
            let k: u32 = 31 - log;
            proof {
                vstd::bits::lemma_u32_shl_is_mul(1, k);
                lemma_pow2_strictly_increases(k as nat, 31);
                if k < 30 {
                    lemma_pow2_strictly_increases(k as nat, 30);
                }
            }
            BaseField(1u32 << k)
        }
    }
}

proof fn lemma_product_bound(a: u32, b: u32)
    requires
        a < P,
        b < P,
    ensures
        0 <= a * b <= (P - 1) * (P - 1),
{
    lemma_mul_upper_bound(a as int, P - 1, b as int, P - 1);
    lemma_mul_nonnegative(a as int, b as int);
}

/// An element `(c0 + c1 i) + (c2 + c3 i) u` of the extension in which `i^2 = -1` and
/// `u^2 = 2 + i`.
#[derive(Clone, Copy, Debug, PartialEq, Eq, Structural)]
pub struct SecureField {
    pub c0: BaseField,
    pub c1: BaseField,
    pub c2: BaseField,
    pub c3: BaseField,
}

/// The coordinates of an extension element, before or after reduction.
pub struct Coords {
    pub c0: int,
    pub c1: int,
    pub c2: int,
    pub c3: int,
}

impl Coords {
    /// Every coordinate replaced by its canonical representative.
    pub open spec fn reduced(self) -> Coords {
        Coords { c0: modp(self.c0), c1: modp(self.c1), c2: modp(self.c2), c3: modp(self.c3) }
    }

    pub open spec fn plus(self, o: Coords) -> Coords {
        Coords { c0: self.c0 + o.c0, c1: self.c1 + o.c1, c2: self.c2 + o.c2, c3: self.c3 + o.c3 }
    }

    pub open spec fn minus(self, o: Coords) -> Coords {
        Coords { c0: self.c0 - o.c0, c1: self.c1 - o.c1, c2: self.c2 - o.c2, c3: self.c3 - o.c3 }
    }

    pub open spec fn scaled(self, k: int) -> Coords {
        Coords { c0: self.c0 * k, c1: self.c1 * k, c2: self.c2 * k, c3: self.c3 * k }
    }

    /// The product, from `i^2 = -1` and `u^2 = 2 + i`.
    pub open spec fn times(self, o: Coords) -> Coords {
        // The product of the two `u` parts is `p + q i`; times `u^2` it is
        // `(2 p - q) + (p + 2 q) i`.
        let p = self.c2 * o.c2 - self.c3 * o.c3;
        let q = self.c2 * o.c3 + self.c3 * o.c2;
        Coords {
            c0: self.c0 * o.c0 - self.c1 * o.c1 + 2 * p - q,
            c1: self.c0 * o.c1 + self.c1 * o.c0 + p + 2 * q,
            c2: self.c0 * o.c2 - self.c1 * o.c3 + self.c2 * o.c0 - self.c3 * o.c1,
            c3: self.c0 * o.c3 + self.c1 * o.c2 + self.c2 * o.c1 + self.c3 * o.c0,
        }
    }
}

/// Canonical coordinates as words.
pub open spec fn coords_words(c: Coords) -> Seq<u32> {
    seq![c.c0 as u32, c.c1 as u32, c.c2 as u32, c.c3 as u32]
}

/// The zero of the extension.
pub open spec fn coords_zero() -> Coords {
    Coords { c0: 0, c1: 0, c2: 0, c3: 0 }
}

/// The one of the extension.
pub open spec fn coords_one() -> Coords {
    Coords { c0: 1, c1: 0, c2: 0, c3: 0 }
}

impl View for SecureField {
    type V = Coords;

    open spec fn view(&self) -> Coords {
        Coords {
            c0: self.c0.0 as int,
            c1: self.c1.0 as int,
            c2: self.c2.0 as int,
            c3: self.c3.0 as int,
        }
    }
}

impl SecureField {
    /// Every coordinate is canonical.
    pub open spec fn wf(self) -> bool {
        self.c0.wf() && self.c1.wf() && self.c2.wf() && self.c3.wf()
    }

    /// The four coordinates as words.
    pub open spec fn words(self) -> Seq<u32> {
        seq![self.c0.0, self.c1.0, self.c2.0, self.c3.0]
    }

    pub fn from_m31_array(coords: [BaseField; 4]) -> (r: SecureField)
        ensures
            r.c0 == coords@[0],
            r.c1 == coords@[1],
            r.c2 == coords@[2],
            r.c3 == coords@[3],
    {
        SecureField { c0: coords[0], c1: coords[1], c2: coords[2], c3: coords[3] }
    }

    pub fn to_m31_array(self) -> (r: [BaseField; 4])
        ensures
            r@ =~= seq![self.c0, self.c1, self.c2, self.c3],
    {
        [self.c0, self.c1, self.c2, self.c3]
    }

    /// The extension element that a base field element is.
    pub fn from_base(value: BaseField) -> (r: SecureField)
        ensures
            r.c0 == value,
            r.c1.0 == 0,
            r.c2.0 == 0,
            r.c3.0 == 0,
    {
        SecureField { c0: value, c1: BaseField(0), c2: BaseField(0), c3: BaseField(0) }
    }

    pub fn zero() -> (r: SecureField)
        ensures
            r.wf(),
            r@ == coords_zero(),
    {
        SecureField::from_base(BaseField(0))
    }

    pub fn one() -> (r: SecureField)
        ensures
            r.wf(),
            r@ == coords_one(),
    {
        SecureField::from_base(BaseField(1))
    }

    pub fn add(self, rhs: SecureField) -> (r: SecureField)
        requires
            self.wf(),
            rhs.wf(),
        ensures
            r.wf(),
            r@ == self@.plus(rhs@).reduced(),
    {
        SecureField {
            c0: self.c0.add(rhs.c0),
            c1: self.c1.add(rhs.c1),
            c2: self.c2.add(rhs.c2),
            c3: self.c3.add(rhs.c3),
        }
    }

    pub fn sub(self, rhs: SecureField) -> (r: SecureField)
        requires
            self.wf(),
            rhs.wf(),
        ensures
            r.wf(),
            r@ == self@.minus(rhs@).reduced(),
    {
        SecureField {
            c0: self.c0.sub(rhs.c0),
            c1: self.c1.sub(rhs.c1),
            c2: self.c2.sub(rhs.c2),
            c3: self.c3.sub(rhs.c3),
        }
    }

    pub fn mul_base(self, rhs: BaseField) -> (r: SecureField)
        requires
            self.wf(),
            rhs.wf(),
        ensures
            r.wf(),
            r@ == self@.scaled(rhs.0 as int).reduced(),
    {
        SecureField {
            c0: self.c0.mul(rhs),
            c1: self.c1.mul(rhs),
            c2: self.c2.mul(rhs),
            c3: self.c3.mul(rhs),
        }
    }

    pub fn mul(self, rhs: SecureField) -> (r: SecureField)
        requires
            self.wf(),
            rhs.wf(),
        ensures
            r.wf(),
            r@ == self@.times(rhs@).reduced(),
    {
        let p00: u64 = product(self.c0, rhs.c0);
        let p01: u64 = product(self.c0, rhs.c1);
        let p02: u64 = product(self.c0, rhs.c2);
        let p03: u64 = product(self.c0, rhs.c3);
        let p10: u64 = product(self.c1, rhs.c0);
        let p11: u64 = product(self.c1, rhs.c1);
        let p12: u64 = product(self.c1, rhs.c2);
        let p13: u64 = product(self.c1, rhs.c3);
        let p20: u64 = product(self.c2, rhs.c0);
        let p21: u64 = product(self.c2, rhs.c1);
        let p22: u64 = product(self.c2, rhs.c2);
        let p23: u64 = product(self.c2, rhs.c3);
        let p30: u64 = product(self.c3, rhs.c0);
        let p31: u64 = product(self.c3, rhs.c1);
        let p32: u64 = product(self.c3, rhs.c2);
        let p33: u64 = product(self.c3, rhs.c3);
        SecureField {
            c0: reduce_difference(
                p00 as u128 + 2 * (p22 as u128),
                p11 as u128 + 2 * (p33 as u128) + p23 as u128 + p32 as u128,
            ),
            c1: reduce_difference(
                p01 as u128 + p10 as u128 + p22 as u128 + 2 * (p23 as u128) + 2 * (p32 as u128),
                p33 as u128,
            ),
            c2: reduce_difference(p02 as u128 + p20 as u128, p13 as u128 + p31 as u128),
            c3: reduce_difference(p03 as u128 + p12 as u128 + p21 as u128 + p30 as u128, 0),
        }
    }
}

/// The integer product of two canonical representatives.
fn product(a: BaseField, b: BaseField) -> (r: u64)
    requires
        a.wf(),
        b.wf(),
    ensures
        r == a.0 * b.0,
        r < 0x4000_0000_0000_0000,
{
    proof {
        lemma_product_bound(a.0, b.0);
    }
    a.0 as u64 * b.0 as u64
}

/// The field element congruent to `plus - minus`.
fn reduce_difference(plus: u128, minus: u128) -> (r: BaseField)
    requires
        plus <= 8 * 0x4000_0000_0000_0000,
        minus <= 8 * 0x4000_0000_0000_0000,
    ensures
        r.wf(),
        r.0 == modp(plus - minus),
{
    let lift: u128 = 0x8_0000_0000 * (P as u128);
    proof {
        lemma_mod_multiples_vanish(0x8_0000_0000, plus - minus, P as int);
        assert(P as int * 0x8_0000_0000 + (plus - minus) == lift + plus - minus);
    }
    let v: u128 = (lift + plus) - minus;
    BaseField((v % (P as u128)) as u32)
}

/// Reducing the terms of a sum or a difference does not change what it reduces to.
pub proof fn lemma_reduced_terms(a: Coords, b: Coords)
    ensures
        a.reduced().plus(b).reduced() == a.plus(b).reduced(),
        a.plus(b.reduced()).reduced() == a.plus(b).reduced(),
        a.reduced().plus(b.reduced()).reduced() == a.plus(b).reduced(),
        a.reduced().minus(b.reduced()).reduced() == a.minus(b).reduced(),
        a.reduced().reduced() == a.reduced(),
{
    lemma_mod_terms(a.c0, b.c0);
    lemma_mod_terms(a.c1, b.c1);
    lemma_mod_terms(a.c2, b.c2);
    lemma_mod_terms(a.c3, b.c3);
}

proof fn lemma_mod_terms(x: int, y: int)
    ensures
        modp(modp(x) + y) == modp(x + y),
        modp(x + modp(y)) == modp(x + y),
        modp(modp(x) + modp(y)) == modp(x + y),
        modp(modp(x) - modp(y)) == modp(x - y),
        modp(modp(x)) == modp(x),
{
    let p = P as int;
    lemma_add_mod_noop(x, y, p);
    lemma_add_mod_noop(modp(x), y, p);
    lemma_add_mod_noop(x, modp(y), p);
    lemma_sub_mod_noop(x, y, p);
    lemma_mod_twice(x, p);
    lemma_mod_twice(y, p);
}

/// An element of the base field in the extension.
pub open spec fn coords_base(x: int) -> Coords {
    Coords { c0: x, c1: 0, c2: 0, c3: 0 }
}

/// The extension is what it is made by: `i^2 = -1`, `u^2 = 2 + i`, the products of `1`, `i`,
/// `u` and `i u` follow, and base field elements multiply every coordinate.
pub proof fn law_extension_relations(x: int, a: Coords)
    ensures
        ({
            let i = Coords { c0: 0, c1: 1, c2: 0, c3: 0 };
            let u = Coords { c0: 0, c1: 0, c2: 1, c3: 0 };
            &&& i.times(i) == coords_base(-1)
            &&& u.times(u) == (Coords { c0: 2, c1: 1, c2: 0, c3: 0 })
            &&& i.times(u) == (Coords { c0: 0, c1: 0, c2: 0, c3: 1 })
            &&& coords_one().times(a) == a
            &&& a.times(coords_base(x)) == a.scaled(x)
        }),
{
    assert(a.c0 * 0 == 0 && a.c1 * 0 == 0 && a.c2 * 0 == 0 && a.c3 * 0 == 0);
}

/// The product does not depend on the order of its factors.
pub proof fn law_times_commutes(a: Coords, b: Coords)
    ensures
        a.times(b) == b.times(a),
{
    lemma_mul_is_commutative(a.c0, b.c0);
    lemma_mul_is_commutative(a.c0, b.c1);
    lemma_mul_is_commutative(a.c0, b.c2);
    lemma_mul_is_commutative(a.c0, b.c3);
    lemma_mul_is_commutative(a.c1, b.c0);
    lemma_mul_is_commutative(a.c1, b.c1);
    lemma_mul_is_commutative(a.c1, b.c2);
    lemma_mul_is_commutative(a.c1, b.c3);
    lemma_mul_is_commutative(a.c2, b.c0);
    lemma_mul_is_commutative(a.c2, b.c1);
    lemma_mul_is_commutative(a.c2, b.c2);
    lemma_mul_is_commutative(a.c2, b.c3);
    lemma_mul_is_commutative(a.c3, b.c0);
    lemma_mul_is_commutative(a.c3, b.c1);
    lemma_mul_is_commutative(a.c3, b.c2);
    lemma_mul_is_commutative(a.c3, b.c3);
}

/// The product of an element and a sum is the sum of the products.
pub proof fn law_times_distributes(a: Coords, b: Coords, c: Coords)
    ensures
        a.times(b.plus(c)) == a.times(b).plus(a.times(c)),
{
    broadcast use lemma_mul_is_distributive_add;

}

/// A number can be taken out of a product.
pub proof fn lemma_times_scaled(a: Coords, b: Coords, k: int)
    ensures
        a.times(b.scaled(k)) == a.times(b).scaled(k),
        a.scaled(k).times(b) == a.times(b).scaled(k),
{
    lemma_times_scaled_right(a, b, k);
    lemma_times_scaled_right(b, a, k);
    law_times_commutes(a.scaled(k), b);
    law_times_commutes(a, b);
}

proof fn lemma_times_scaled_right(a: Coords, b: Coords, k: int)
    ensures
        a.times(b.scaled(k)) == a.times(b).scaled(k),
{
    assert forall|x: int, y: int| #[trigger] (x * (y * k)) == (x * y) * k by {
        lemma_mul_is_associative(x, y, k);
    }
    let p = a.c2 * b.c2 - a.c3 * b.c3;
    let q = a.c2 * b.c3 + a.c3 * b.c2;
    let ab = a.times(b);
    let s = b.scaled(k);
    let p1 = a.c2 * s.c2 - a.c3 * s.c3;
    let q1 = a.c2 * s.c3 + a.c3 * s.c2;
    assert(p1 == p * k) by {
        lemma_mul_is_distributive_sub_other_way(k, a.c2 * b.c2, a.c3 * b.c3);
    }
    assert(q1 == q * k) by {
        lemma_mul_is_distributive_add_other_way(k, a.c2 * b.c3, a.c3 * b.c2);
    }
    assert(a.times(s).c0 == ab.c0 * k) by (nonlinear_arith)
        requires
            a.times(s).c0 == (a.c0 * b.c0) * k - (a.c1 * b.c1) * k + 2 * (p * k) - q * k,
            ab.c0 == a.c0 * b.c0 - a.c1 * b.c1 + 2 * p - q,
    ;
    assert(a.times(s).c1 == ab.c1 * k) by (nonlinear_arith)
        requires
            a.times(s).c1 == (a.c0 * b.c1) * k + (a.c1 * b.c0) * k + p * k + 2 * (q * k),
            ab.c1 == a.c0 * b.c1 + a.c1 * b.c0 + p + 2 * q,
    ;
    assert(a.times(s).c2 == ab.c2 * k) by (nonlinear_arith)
        requires
            a.times(s).c2 == (a.c0 * b.c2) * k - (a.c1 * b.c3) * k + (a.c2 * b.c0) * k - (a.c3
                * b.c1) * k,
            ab.c2 == a.c0 * b.c2 - a.c1 * b.c3 + a.c2 * b.c0 - a.c3 * b.c1,
    ;
    assert(a.times(s).c3 == ab.c3 * k) by (nonlinear_arith)
        requires
            a.times(s).c3 == (a.c0 * b.c3) * k + (a.c1 * b.c2) * k + (a.c2 * b.c1) * k + (a.c3
                * b.c0) * k,
            ab.c3 == a.c0 * b.c3 + a.c1 * b.c2 + a.c2 * b.c1 + a.c3 * b.c0,
    ;
}

/// The products of three elements agree, whichever two are multiplied first.
spec fn associate(a: Coords, b: Coords, c: Coords) -> bool {
    a.times(b).times(c) == a.times(b.times(c))
}

/// One of `1`, `i`, `u` and `i u`.
spec fn unit(k: int) -> Coords {
    Coords {
        c0: if k == 0 { 1 } else { 0 },
        c1: if k == 1 { 1 } else { 0 },
        c2: if k == 2 { 1 } else { 0 },
        c3: if k == 3 { 1 } else { 0 },
    }
}

/// An element is the sum of its coordinates' parts.
proof fn lemma_sum_of_units(a: Coords)
    ensures
        a == unit(0).scaled(a.c0).plus(unit(1).scaled(a.c1)).plus(
            unit(2).scaled(a.c2).plus(unit(3).scaled(a.c3)),
        ),
{
}

/// What holds of units in the first place holds of every element there.
proof fn lemma_associate_first(a: Coords, b: Coords, c: Coords)
    requires
        forall|k: int| 0 <= k < 4 ==> associate(#[trigger] unit(k), b, c),
    ensures
        associate(a, b, c),
{
    let e0 = unit(0).scaled(a.c0);
    let e1 = unit(1).scaled(a.c1);
    let e2 = unit(2).scaled(a.c2);
    let e3 = unit(3).scaled(a.c3);
    lemma_sum_of_units(a);
    lemma_associate_part(unit(0), a.c0, b, c);
    lemma_associate_part(unit(1), a.c1, b, c);
    lemma_associate_part(unit(2), a.c2, b, c);
    lemma_associate_part(unit(3), a.c3, b, c);
    lemma_associate_sum(e0, e1, b, c);
    lemma_associate_sum(e2, e3, b, c);
    lemma_associate_sum(e0.plus(e1), e2.plus(e3), b, c);
}

proof fn lemma_associate_part(e: Coords, k: int, b: Coords, c: Coords)
    requires
        associate(e, b, c),
    ensures
        associate(e.scaled(k), b, c),
{
    lemma_times_scaled(e, b, k);
    lemma_times_scaled(e.times(b), c, k);
    lemma_times_scaled(e, b.times(c), k);
}

proof fn lemma_associate_sum(x: Coords, y: Coords, b: Coords, c: Coords)
    requires
        associate(x, b, c),
        associate(y, b, c),
    ensures
        associate(x.plus(y), b, c),
{
    let s = x.plus(y);
    law_times_commutes(s, b);
    law_times_commutes(x, b);
    law_times_commutes(y, b);
    law_times_distributes(b, x, y);
    law_times_commutes(x.times(b).plus(y.times(b)), c);
    law_times_commutes(x.times(b), c);
    law_times_commutes(y.times(b), c);
    law_times_distributes(c, x.times(b), y.times(b));
    let d = b.times(c);
    law_times_commutes(s, d);
    law_times_commutes(x, d);
    law_times_commutes(y, d);
    law_times_distributes(d, x, y);
}

/// The order of the three can be turned round.
proof fn lemma_associate_turned(a: Coords, b: Coords, c: Coords)
    requires
        associate(a, b, c),
    ensures
        associate(c, b, a),
{
    law_times_commutes(a.times(b), c);
    law_times_commutes(a, b);
    law_times_commutes(a, b.times(c));
    law_times_commutes(b, c);
}

/// What a factor of zero or one leaves of an element's coordinates.
proof fn lemma_bit_factor(e: int, x: Coords)
    requires
        e == 0 || e == 1,
    ensures
        x.scaled(e) == if e == 1 { x } else { coords_zero() },
        e * x.c0 == x.scaled(e).c0,
        e * x.c1 == x.scaled(e).c1,
        e * x.c2 == x.scaled(e).c2,
        e * x.c3 == x.scaled(e).c3,
{
    lemma_mul_is_commutative(e, x.c0);
    lemma_mul_is_commutative(e, x.c1);
    lemma_mul_is_commutative(e, x.c2);
    lemma_mul_is_commutative(e, x.c3);
    lemma_mul_basics(x.c0);
    lemma_mul_basics(x.c1);
    lemma_mul_basics(x.c2);
    lemma_mul_basics(x.c3);
}

/// The product of an element with each of `1`, `i`, `u` and `i u`, where `i^2 = -1` and
/// `u^2 = 2 + i`.
proof fn lemma_unit_times(k: int, x: Coords)
    requires
        0 <= k < 4,
    ensures
        unit(k).times(x) == if k == 0 {
            x
        } else if k == 1 {
            Coords { c0: -x.c1, c1: x.c0, c2: -x.c3, c3: x.c2 }
        } else if k == 2 {
            Coords { c0: 2 * x.c2 - x.c3, c1: x.c2 + 2 * x.c3, c2: x.c0, c3: x.c1 }
        } else {
            Coords { c0: -x.c2 - 2 * x.c3, c1: 2 * x.c2 - x.c3, c2: -x.c1, c3: x.c0 }
        },
{
    let e = unit(k);
    lemma_bit_factor(e.c0, x);
    lemma_bit_factor(e.c1, x);
    lemma_bit_factor(e.c2, x);
    lemma_bit_factor(e.c3, x);
}

/// Units on either side of an element can be multiplied in either order.
proof fn lemma_associate_around(k: int, b: Coords, i: int)
    requires
        0 <= k < 4,
        0 <= i < 4,
    ensures
        associate(unit(k), b, unit(i)),
{
    let left = unit(k).times(b);
    let right = unit(i).times(b);
    lemma_unit_times(k, b);
    lemma_unit_times(i, left);
    law_times_commutes(left, unit(i));
    lemma_unit_times(i, b);
    lemma_unit_times(k, right);
    law_times_commutes(b, unit(i));
}

/// A product of three does not depend on which two are multiplied first.
pub proof fn law_times_associates(a: Coords, b: Coords, c: Coords)
    ensures
        a.times(b).times(c) == a.times(b.times(c)),
{
    assert forall|i: int| 0 <= i < 4 implies associate(#[trigger] unit(i), b, c) by {
        assert forall|k: int| 0 <= k < 4 implies associate(#[trigger] unit(k), b, unit(i)) by {
            lemma_associate_around(k, b, i);
        }
        lemma_associate_first(c, b, unit(i));
        lemma_associate_turned(c, b, unit(i));
    }
    lemma_associate_first(a, b, c);
}

/// Reducing a factor does not change what a product reduces to.
pub proof fn lemma_reduced_factors(a: Coords, b: Coords)
    ensures
        a.reduced().times(b).reduced() == a.times(b).reduced(),
        a.times(b.reduced()).reduced() == a.times(b).reduced(),
{
    lemma_reduced_left(a, b);
    lemma_reduced_left(b, a);
    law_times_commutes(a, b.reduced());
    law_times_commutes(a, b);
}

/// A coordinate is its remainder and a multiple of the modulus.
proof fn lemma_reduced_left(a: Coords, b: Coords)
    ensures
        a.reduced().times(b).reduced() == a.times(b).reduced(),
{
    let p = P as int;
    let q = Coords { c0: a.c0 / p, c1: a.c1 / p, c2: a.c2 / p, c3: a.c3 / p };
    let r = a.reduced();
    lemma_fundamental_div_mod(a.c0, p);
    lemma_fundamental_div_mod(a.c1, p);
    lemma_fundamental_div_mod(a.c2, p);
    lemma_fundamental_div_mod(a.c3, p);
    assert(a == r.plus(q.scaled(p)));
    law_times_commutes(a, b);
    law_times_commutes(r, b);
    law_times_distributes(b, r, q.scaled(p));
    let m = b.times(q);
    lemma_times_scaled(b, q, p);
    let t = r.times(b);
    lemma_mod_multiples_vanish(m.c0, t.c0, p);
    lemma_mod_multiples_vanish(m.c1, t.c1, p);
    lemma_mod_multiples_vanish(m.c2, t.c2, p);
    lemma_mod_multiples_vanish(m.c3, t.c3, p);
    lemma_mul_is_commutative(m.c0, p);
    lemma_mul_is_commutative(m.c1, p);
    lemma_mul_is_commutative(m.c2, p);
    lemma_mul_is_commutative(m.c3, p);
}

} // verus!
