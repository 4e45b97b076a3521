//! Recording of constraints as bytecode.
//!
//! [`BytecodeGenerator`] stands in for a row evaluator: instead of values it hands out
//! handles that record what is done with them, and [`BytecodeGenerator::compile`] turns
//! the recorded constraints into a program for the stack machine.

use crate::bytecode;
use crate::bytecode::{BytecodeProgram, Instruction};
use crate::fields;
use crate::fields::{BaseField, SecureField, P};
use crate::vm;
use vstd::prelude::*;

verus! {

/// Index of the interaction whose columns hold lookup sums.
pub const INTERACTION_TRACE_IDX: usize = 2;

/// Expression over the base field.
#[derive(Debug)]
pub enum M31Expr {
    /// Load from a trace column.
    LoadTrace { interaction: u8, col_idx: u16, offset: i16 },
    /// Constant value.
    Const(u32),
    Add(Box<M31Expr>, Box<M31Expr>),
    Sub(Box<M31Expr>, Box<M31Expr>),
    Mul(Box<M31Expr>, Box<M31Expr>),
    Neg(Box<M31Expr>),
    Square(Box<M31Expr>),
    Inv(Box<M31Expr>),
}

/// Expression over the extension field.
#[derive(Debug)]
pub enum QM31Expr {
    /// Load from four consecutive trace columns.
    LoadTrace { interaction: u8, col_idx: u16, offset: i16 },
    /// Constant value.
    Const([u32; 4]),
    /// Random coefficient.
    RandomCoeff(u16),
    Add(Box<QM31Expr>, Box<QM31Expr>),
    Sub(Box<QM31Expr>, Box<QM31Expr>),
    Mul(Box<QM31Expr>, Box<QM31Expr>),
    Neg(Box<QM31Expr>),
    Square(Box<QM31Expr>),
    Inv(Box<QM31Expr>),
    /// Base field value as an extension field value.
    FromM31(Box<M31Expr>),
    /// Four base field values as the coordinates of an extension field value.
    CombineEF(Box<M31Expr>, Box<M31Expr>, Box<M31Expr>, Box<M31Expr>),
    /// Product with a base field value.
    MulM31(Box<QM31Expr>, Box<M31Expr>),
    /// Sum with a base field value.
    AddM31(Box<QM31Expr>, Box<M31Expr>),
    /// Product with a constant.
    MulSecureField(Box<QM31Expr>, [u32; 4]),
    /// Sum with a constant.
    AddSecureField(Box<QM31Expr>, [u32; 4]),
}

impl Clone for M31Expr {
    fn clone(&self) -> (r: M31Expr)
        ensures
            r == *self,
        decreases self,
    {
        match self {
            M31Expr::LoadTrace { interaction, col_idx, offset } => M31Expr::LoadTrace {
                interaction: *interaction,
                col_idx: *col_idx,
                offset: *offset,
            },
            M31Expr::Const(value) => M31Expr::Const(*value),
            M31Expr::Add(a, b) => M31Expr::Add(Box::new((**a).clone()), Box::new((**b).clone())),
            M31Expr::Sub(a, b) => M31Expr::Sub(Box::new((**a).clone()), Box::new((**b).clone())),
            M31Expr::Mul(a, b) => M31Expr::Mul(Box::new((**a).clone()), Box::new((**b).clone())),
            M31Expr::Neg(a) => M31Expr::Neg(Box::new((**a).clone())),
            M31Expr::Square(a) => M31Expr::Square(Box::new((**a).clone())),
            M31Expr::Inv(a) => M31Expr::Inv(Box::new((**a).clone())),
        }
    }
}

impl Clone for QM31Expr {
    fn clone(&self) -> (r: QM31Expr)
        ensures
            r == *self,
        decreases self,
    {
        match self {
            QM31Expr::LoadTrace { interaction, col_idx, offset } => QM31Expr::LoadTrace {
                interaction: *interaction,
                col_idx: *col_idx,
                offset: *offset,
            },
            QM31Expr::Const(values) => QM31Expr::Const(*values),
            QM31Expr::RandomCoeff(index) => QM31Expr::RandomCoeff(*index),
            QM31Expr::Add(a, b) => QM31Expr::Add(
                Box::new((**a).clone()),
                Box::new((**b).clone()),
            ),
            QM31Expr::Sub(a, b) => QM31Expr::Sub(
                Box::new((**a).clone()),
                Box::new((**b).clone()),
            ),
            QM31Expr::Mul(a, b) => QM31Expr::Mul(
                Box::new((**a).clone()),
                Box::new((**b).clone()),
            ),
            QM31Expr::Neg(a) => QM31Expr::Neg(Box::new((**a).clone())),
            QM31Expr::Square(a) => QM31Expr::Square(Box::new((**a).clone())),
            QM31Expr::Inv(a) => QM31Expr::Inv(Box::new((**a).clone())),
            QM31Expr::FromM31(a) => QM31Expr::FromM31(Box::new((**a).clone())),
            QM31Expr::CombineEF(a, b, c, d) => QM31Expr::CombineEF(
                Box::new((**a).clone()),
                Box::new((**b).clone()),
                Box::new((**c).clone()),
                Box::new((**d).clone()),
            ),
            QM31Expr::MulM31(a, b) => QM31Expr::MulM31(
                Box::new((**a).clone()),
                Box::new((**b).clone()),
            ),
            QM31Expr::AddM31(a, b) => QM31Expr::AddM31(
                Box::new((**a).clone()),
                Box::new((**b).clone()),
            ),
            QM31Expr::MulSecureField(a, values) => QM31Expr::MulSecureField(
                Box::new((**a).clone()),
                *values,
            ),
            QM31Expr::AddSecureField(a, values) => QM31Expr::AddSecureField(
                Box::new((**a).clone()),
                *values,
            ),
        }
    }
}

/// Handle of a base field expression.
#[derive(Debug)]
pub struct M31Handle {
    pub expr: M31Expr,
}

/// Handle of an extension field expression.
#[derive(Debug)]
pub struct QM31Handle {
    pub expr: QM31Expr,
}

impl Clone for M31Handle {
    fn clone(&self) -> (r: M31Handle)
        ensures
            r == *self,
    {
        M31Handle { expr: self.expr.clone() }
    }
}

impl Clone for QM31Handle {
    fn clone(&self) -> (r: QM31Handle)
        ensures
            r == *self,
    {
        QM31Handle { expr: self.expr.clone() }
    }
}

/// The coordinates of an extension field constant, as an instruction holds them.
pub open spec fn spec_const_words(value: SecureField) -> [u32; 4] {
    [value.c0.0, value.c1.0, value.c2.0, value.c3.0]
}

fn const_words(value: SecureField) -> (r: [u32; 4])
    ensures
        r == spec_const_words(value),
{
    let m31_array = value.to_m31_array();
    [m31_array[0].0, m31_array[1].0, m31_array[2].0, m31_array[3].0]
}

/// The word that is added in place of a subtracted one: the negated field element.
pub open spec fn negated_word(x: u32) -> u32 {
    fields::modp(-(x as int)) as u32
}

/// The coordinates of the negated constant, as an instruction holds them.
pub open spec fn spec_negated_words(value: SecureField) -> [u32; 4] {
    [
        negated_word(value.c0.0),
        negated_word(value.c1.0),
        negated_word(value.c2.0),
        negated_word(value.c3.0),
    ]
}

fn negated(x: u32) -> (r: u32)
    ensures
        r == negated_word(x),
{
    let rest: u32 = x % P;
    let r: u32 = if rest == 0 {
        0
    } else {
        P - rest
    };
    proof {
        let q = x as int / P as int;
        vstd::arithmetic::div_mod::lemma_fundamental_div_mod(x as int, P as int);
        if rest == 0 {
            vstd::arithmetic::div_mod::lemma_fundamental_div_mod_converse(
                -(x as int),
                P as int,
                -q,
                0,
            );
        } else {
            vstd::arithmetic::div_mod::lemma_fundamental_div_mod_converse(
                -(x as int),
                P as int,
                -q - 1,
                P - rest,
            );
        }
    }
    r
}

impl vstd::std_specs::ops::AddSpecImpl for M31Handle {
    open spec fn obeys_add_spec() -> bool {
        true
    }

    open spec fn add_req(self, rhs: M31Handle) -> bool {
        true
    }

    open spec fn add_spec(self, rhs: M31Handle) -> M31Handle {
        M31Handle { expr: M31Expr::Add(Box::new(self.expr), Box::new(rhs.expr)) }
    }
}

impl core::ops::Add for M31Handle {
    type Output = M31Handle;

    fn add(self, rhs: M31Handle) -> (r: M31Handle) {
        M31Handle { expr: M31Expr::Add(Box::new(self.expr), Box::new(rhs.expr)) }
    }
}

impl vstd::std_specs::ops::SubSpecImpl for M31Handle {
    open spec fn obeys_sub_spec() -> bool {
        true
    }

    open spec fn sub_req(self, rhs: M31Handle) -> bool {
        true
    }

    open spec fn sub_spec(self, rhs: M31Handle) -> M31Handle {
        M31Handle { expr: M31Expr::Sub(Box::new(self.expr), Box::new(rhs.expr)) }
    }
}

impl core::ops::Sub for M31Handle {
    type Output = M31Handle;

    fn sub(self, rhs: M31Handle) -> (r: M31Handle) {
        M31Handle { expr: M31Expr::Sub(Box::new(self.expr), Box::new(rhs.expr)) }
    }
}

impl vstd::std_specs::ops::MulSpecImpl for M31Handle {
    open spec fn obeys_mul_spec() -> bool {
        true
    }

    open spec fn mul_req(self, rhs: M31Handle) -> bool {
        true
    }

    open spec fn mul_spec(self, rhs: M31Handle) -> M31Handle {
        M31Handle { expr: M31Expr::Mul(Box::new(self.expr), Box::new(rhs.expr)) }
    }
}

impl core::ops::Mul for M31Handle {
    type Output = M31Handle;

    fn mul(self, rhs: M31Handle) -> (r: M31Handle) {
        M31Handle { expr: M31Expr::Mul(Box::new(self.expr), Box::new(rhs.expr)) }
    }
}

impl vstd::std_specs::ops::NegSpecImpl for M31Handle {
    open spec fn obeys_neg_spec() -> bool {
        true
    }

    open spec fn neg_req(self) -> bool {
        true
    }

    open spec fn neg_spec(self) -> M31Handle {
        M31Handle { expr: M31Expr::Neg(Box::new(self.expr)) }
    }
}

impl core::ops::Neg for M31Handle {
    type Output = M31Handle;

    fn neg(self) -> (r: M31Handle) {
        M31Handle { expr: M31Expr::Neg(Box::new(self.expr)) }
    }
}

impl vstd::std_specs::ops::AddSpecImpl for QM31Handle {
    open spec fn obeys_add_spec() -> bool {
        true
    }

    open spec fn add_req(self, rhs: QM31Handle) -> bool {
        true
    }

    open spec fn add_spec(self, rhs: QM31Handle) -> QM31Handle {
        QM31Handle { expr: QM31Expr::Add(Box::new(self.expr), Box::new(rhs.expr)) }
    }
}

impl core::ops::Add for QM31Handle {
    type Output = QM31Handle;

    fn add(self, rhs: QM31Handle) -> (r: QM31Handle) {
        QM31Handle { expr: QM31Expr::Add(Box::new(self.expr), Box::new(rhs.expr)) }
    }
}

impl vstd::std_specs::ops::SubSpecImpl for QM31Handle {
    open spec fn obeys_sub_spec() -> bool {
        true
    }

    open spec fn sub_req(self, rhs: QM31Handle) -> bool {
        true
    }

    open spec fn sub_spec(self, rhs: QM31Handle) -> QM31Handle {
        QM31Handle { expr: QM31Expr::Sub(Box::new(self.expr), Box::new(rhs.expr)) }
    }
}

impl core::ops::Sub for QM31Handle {
    type Output = QM31Handle;

    fn sub(self, rhs: QM31Handle) -> (r: QM31Handle) {
        QM31Handle { expr: QM31Expr::Sub(Box::new(self.expr), Box::new(rhs.expr)) }
    }
}

impl vstd::std_specs::ops::MulSpecImpl for QM31Handle {
    open spec fn obeys_mul_spec() -> bool {
        true
    }

    open spec fn mul_req(self, rhs: QM31Handle) -> bool {
        true
    }

    open spec fn mul_spec(self, rhs: QM31Handle) -> QM31Handle {
        QM31Handle { expr: QM31Expr::Mul(Box::new(self.expr), Box::new(rhs.expr)) }
    }
}

impl core::ops::Mul for QM31Handle {
    type Output = QM31Handle;

    fn mul(self, rhs: QM31Handle) -> (r: QM31Handle) {
        QM31Handle { expr: QM31Expr::Mul(Box::new(self.expr), Box::new(rhs.expr)) }
    }
}

impl vstd::std_specs::ops::NegSpecImpl for QM31Handle {
    open spec fn obeys_neg_spec() -> bool {
        true
    }

    open spec fn neg_req(self) -> bool {
        true
    }

    open spec fn neg_spec(self) -> QM31Handle {
        QM31Handle { expr: QM31Expr::Neg(Box::new(self.expr)) }
    }
}

impl core::ops::Neg for QM31Handle {
    type Output = QM31Handle;

    fn neg(self) -> (r: QM31Handle) {
        QM31Handle { expr: QM31Expr::Neg(Box::new(self.expr)) }
    }
}

impl vstd::std_specs::ops::MulSpecImpl<BaseField> for M31Handle {
    open spec fn obeys_mul_spec() -> bool {
        true
    }

    open spec fn mul_req(self, rhs: BaseField) -> bool {
        true
    }

    open spec fn mul_spec(self, rhs: BaseField) -> M31Handle {
        M31Handle { expr: M31Expr::Mul(Box::new(self.expr), Box::new(M31Expr::Const(rhs.0))) }
    }
}

impl core::ops::Mul<BaseField> for M31Handle {
    type Output = M31Handle;

    fn mul(self, rhs: BaseField) -> (r: M31Handle) {
        M31Handle { expr: M31Expr::Mul(Box::new(self.expr), Box::new(M31Expr::Const(rhs.0))) }
    }
}

impl vstd::std_specs::ops::MulSpecImpl<BaseField> for QM31Handle {
    open spec fn obeys_mul_spec() -> bool {
        true
    }

    open spec fn mul_req(self, rhs: BaseField) -> bool {
        true
    }

    open spec fn mul_spec(self, rhs: BaseField) -> QM31Handle {
        QM31Handle { expr: QM31Expr::MulSecureField(Box::new(self.expr), [rhs.0, 0, 0, 0]) }
    }
}

impl core::ops::Mul<BaseField> for QM31Handle {
    type Output = QM31Handle;

    fn mul(self, rhs: BaseField) -> (r: QM31Handle) {
        QM31Handle { expr: QM31Expr::MulSecureField(Box::new(self.expr), [rhs.0, 0, 0, 0]) }
    }
}

impl vstd::std_specs::ops::AddSpecImpl<BaseField> for QM31Handle {
    open spec fn obeys_add_spec() -> bool {
        true
    }

    open spec fn add_req(self, rhs: BaseField) -> bool {
        true
    }

    open spec fn add_spec(self, rhs: BaseField) -> QM31Handle {
        QM31Handle { expr: QM31Expr::AddSecureField(Box::new(self.expr), [rhs.0, 0, 0, 0]) }
    }
}

impl core::ops::Add<BaseField> for QM31Handle {
    type Output = QM31Handle;

    fn add(self, rhs: BaseField) -> (r: QM31Handle) {
        QM31Handle { expr: QM31Expr::AddSecureField(Box::new(self.expr), [rhs.0, 0, 0, 0]) }
    }
}

impl vstd::std_specs::ops::AddSpecImpl<SecureField> for M31Handle {
    open spec fn obeys_add_spec() -> bool {
        true
    }

    open spec fn add_req(self, rhs: SecureField) -> bool {
        true
    }

    open spec fn add_spec(self, rhs: SecureField) -> QM31Handle {
        QM31Handle {
            expr: QM31Expr::AddM31(
                Box::new(QM31Expr::Const(spec_const_words(rhs))),
                Box::new(self.expr),
            ),
        }
    }
}

impl core::ops::Add<SecureField> for M31Handle {
    type Output = QM31Handle;

    fn add(self, rhs: SecureField) -> (r: QM31Handle) {
        QM31Handle {
            expr: QM31Expr::AddM31(
                Box::new(QM31Expr::Const(const_words(rhs))),
                Box::new(self.expr),
            ),
        }
    }
}

impl vstd::std_specs::ops::AddSpecImpl<SecureField> for QM31Handle {
    open spec fn obeys_add_spec() -> bool {
        true
    }

    open spec fn add_req(self, rhs: SecureField) -> bool {
        true
    }

    open spec fn add_spec(self, rhs: SecureField) -> QM31Handle {
        QM31Handle { expr: QM31Expr::AddSecureField(Box::new(self.expr), spec_const_words(rhs)) }
    }
}

impl core::ops::Add<SecureField> for QM31Handle {
    type Output = QM31Handle;

    fn add(self, rhs: SecureField) -> (r: QM31Handle) {
        QM31Handle { expr: QM31Expr::AddSecureField(Box::new(self.expr), const_words(rhs)) }
    }
}

impl vstd::std_specs::ops::SubSpecImpl<SecureField> for QM31Handle {
    open spec fn obeys_sub_spec() -> bool {
        true
    }

    open spec fn sub_req(self, rhs: SecureField) -> bool {
        true
    }

    open spec fn sub_spec(self, rhs: SecureField) -> QM31Handle {
        QM31Handle {
            expr: QM31Expr::AddSecureField(Box::new(self.expr), spec_negated_words(rhs)),
        }
    }
}

impl core::ops::Sub<SecureField> for QM31Handle {
    type Output = QM31Handle;

    /// Adds the negated constant.
    fn sub(self, rhs: SecureField) -> (r: QM31Handle) {
        let words = [
            negated(rhs.c0.0),
            negated(rhs.c1.0),
            negated(rhs.c2.0),
            negated(rhs.c3.0),
        ];
        QM31Handle { expr: QM31Expr::AddSecureField(Box::new(self.expr), words) }
    }
}

impl vstd::std_specs::ops::MulSpecImpl<SecureField> for M31Handle {
    open spec fn obeys_mul_spec() -> bool {
        true
    }

    open spec fn mul_req(self, rhs: SecureField) -> bool {
        true
    }

    open spec fn mul_spec(self, rhs: SecureField) -> QM31Handle {
        QM31Handle {
            expr: QM31Expr::MulM31(
                Box::new(QM31Expr::Const(spec_const_words(rhs))),
                Box::new(self.expr),
            ),
        }
    }
}

impl core::ops::Mul<SecureField> for M31Handle {
    type Output = QM31Handle;

    fn mul(self, rhs: SecureField) -> (r: QM31Handle) {
        QM31Handle {
            expr: QM31Expr::MulM31(
                Box::new(QM31Expr::Const(const_words(rhs))),
                Box::new(self.expr),
            ),
        }
    }
}

impl vstd::std_specs::ops::MulSpecImpl<SecureField> for QM31Handle {
    open spec fn obeys_mul_spec() -> bool {
        true
    }

    open spec fn mul_req(self, rhs: SecureField) -> bool {
        true
    }

    open spec fn mul_spec(self, rhs: SecureField) -> QM31Handle {
        QM31Handle { expr: QM31Expr::MulSecureField(Box::new(self.expr), spec_const_words(rhs)) }
    }
}

impl core::ops::Mul<SecureField> for QM31Handle {
    type Output = QM31Handle;

    fn mul(self, rhs: SecureField) -> (r: QM31Handle) {
        QM31Handle { expr: QM31Expr::MulSecureField(Box::new(self.expr), const_words(rhs)) }
    }
}

impl vstd::std_specs::ops::AddSpecImpl<M31Handle> for QM31Handle {
    open spec fn obeys_add_spec() -> bool {
        true
    }

    open spec fn add_req(self, rhs: M31Handle) -> bool {
        true
    }

    open spec fn add_spec(self, rhs: M31Handle) -> QM31Handle {
        QM31Handle { expr: QM31Expr::AddM31(Box::new(self.expr), Box::new(rhs.expr)) }
    }
}

impl core::ops::Add<M31Handle> for QM31Handle {
    type Output = QM31Handle;

    fn add(self, rhs: M31Handle) -> (r: QM31Handle) {
        QM31Handle { expr: QM31Expr::AddM31(Box::new(self.expr), Box::new(rhs.expr)) }
    }
}

impl vstd::std_specs::ops::MulSpecImpl<M31Handle> for QM31Handle {
    open spec fn obeys_mul_spec() -> bool {
        true
    }

    open spec fn mul_req(self, rhs: M31Handle) -> bool {
        true
    }

    open spec fn mul_spec(self, rhs: M31Handle) -> QM31Handle {
        QM31Handle { expr: QM31Expr::MulM31(Box::new(self.expr), Box::new(rhs.expr)) }
    }
}

impl core::ops::Mul<M31Handle> for QM31Handle {
    type Output = QM31Handle;

    fn mul(self, rhs: M31Handle) -> (r: QM31Handle) {
        QM31Handle { expr: QM31Expr::MulM31(Box::new(self.expr), Box::new(rhs.expr)) }
    }
}

impl vstd::std_specs::convert::FromSpecImpl<BaseField> for M31Handle {
    open spec fn obeys_from_spec() -> bool {
        true
    }

    open spec fn from_spec(value: BaseField) -> M31Handle {
        M31Handle { expr: M31Expr::Const(value.0) }
    }
}

impl From<BaseField> for M31Handle {
    fn from(value: BaseField) -> (r: M31Handle) {
        M31Handle { expr: M31Expr::Const(value.0) }
    }
}

impl vstd::std_specs::convert::FromSpecImpl<SecureField> for QM31Handle {
    open spec fn obeys_from_spec() -> bool {
        true
    }

    open spec fn from_spec(value: SecureField) -> QM31Handle {
        QM31Handle { expr: QM31Expr::Const(spec_const_words(value)) }
    }
}

impl From<SecureField> for QM31Handle {
    fn from(value: SecureField) -> (r: QM31Handle) {
        QM31Handle { expr: QM31Expr::Const(const_words(value)) }
    }
}

impl vstd::std_specs::convert::FromSpecImpl<M31Handle> for QM31Handle {
    open spec fn obeys_from_spec() -> bool {
        true
    }

    open spec fn from_spec(value: M31Handle) -> QM31Handle {
        QM31Handle { expr: QM31Expr::FromM31(Box::new(value.expr)) }
    }
}

impl From<M31Handle> for QM31Handle {
    fn from(value: M31Handle) -> (r: QM31Handle) {
        QM31Handle { expr: QM31Expr::FromM31(Box::new(value.expr)) }
    }
}

impl core::ops::AddAssign for M31Handle {
    fn add_assign(&mut self, rhs: M31Handle)
        ensures
            final(self).expr == M31Expr::Add(Box::new(old(self).expr), Box::new(rhs.expr)),
    {
        self.expr = M31Expr::Add(Box::new(self.expr.clone()), Box::new(rhs.expr));
    }
}

impl core::ops::AddAssign for QM31Handle {
    fn add_assign(&mut self, rhs: QM31Handle)
        ensures
            final(self).expr == QM31Expr::Add(Box::new(old(self).expr), Box::new(rhs.expr)),
    {
        self.expr = QM31Expr::Add(Box::new(self.expr.clone()), Box::new(rhs.expr));
    }
}

impl core::ops::AddAssign<BaseField> for M31Handle {
    fn add_assign(&mut self, rhs: BaseField)
        ensures
            final(self).expr == M31Expr::Add(Box::new(old(self).expr), Box::new(M31Expr::Const(rhs.0))),
    {
        self.expr = M31Expr::Add(Box::new(self.expr.clone()), Box::new(M31Expr::Const(rhs.0)));
    }
}

impl core::ops::AddAssign<BaseField> for QM31Handle {
    fn add_assign(&mut self, rhs: BaseField)
        ensures
            final(self).expr == QM31Expr::AddSecureField(Box::new(old(self).expr), [rhs.0, 0, 0, 0]),
    {
        self.expr = QM31Expr::AddSecureField(Box::new(self.expr.clone()), [rhs.0, 0, 0, 0]);
    }
}

impl core::ops::MulAssign for M31Handle {
    fn mul_assign(&mut self, rhs: M31Handle)
        ensures
            final(self).expr == M31Expr::Mul(Box::new(old(self).expr), Box::new(rhs.expr)),
    {
        self.expr = M31Expr::Mul(Box::new(self.expr.clone()), Box::new(rhs.expr));
    }
}

impl core::ops::MulAssign for QM31Handle {
    fn mul_assign(&mut self, rhs: QM31Handle)
        ensures
            final(self).expr == QM31Expr::Mul(Box::new(old(self).expr), Box::new(rhs.expr)),
    {
        self.expr = QM31Expr::Mul(Box::new(self.expr.clone()), Box::new(rhs.expr));
    }
}

impl M31Handle {
    pub fn zero() -> (r: M31Handle)
        ensures
            r.expr == M31Expr::Const(0),
    {
        M31Handle { expr: M31Expr::Const(0) }
    }

    /// Never true: a handle records an expression and knows no value.
    pub fn is_zero(&self) -> (r: bool)
        ensures
            !r,
    {
        false
    }

    pub fn one() -> (r: M31Handle)
        ensures
            r.expr == M31Expr::Const(1),
    {
        M31Handle { expr: M31Expr::Const(1) }
    }

    pub fn square(&self) -> (r: M31Handle)
        ensures
            r.expr == M31Expr::Square(Box::new(self.expr)),
    {
        M31Handle { expr: M31Expr::Square(Box::new(self.expr.clone())) }
    }

    pub fn inverse(&self) -> (r: M31Handle)
        ensures
            r.expr == M31Expr::Inv(Box::new(self.expr)),
    {
        M31Handle { expr: M31Expr::Inv(Box::new(self.expr.clone())) }
    }
}

impl QM31Handle {
    pub fn zero() -> (r: QM31Handle)
        ensures
            r.expr == QM31Expr::Const([0, 0, 0, 0]),
    {
        QM31Handle { expr: QM31Expr::Const([0, 0, 0, 0]) }
    }

    /// Never true: a handle records an expression and knows no value.
    pub fn is_zero(&self) -> (r: bool)
        ensures
            !r,
    {
        false
    }

    pub fn one() -> (r: QM31Handle)
        ensures
            r.expr == QM31Expr::Const([1, 0, 0, 0]),
    {
        QM31Handle { expr: QM31Expr::Const([1, 0, 0, 0]) }
    }

    pub fn square(&self) -> (r: QM31Handle)
        ensures
            r.expr == QM31Expr::Square(Box::new(self.expr)),
    {
        QM31Handle { expr: QM31Expr::Square(Box::new(self.expr.clone())) }
    }

    pub fn inverse(&self) -> (r: QM31Handle)
        ensures
            r.expr == QM31Expr::Inv(Box::new(self.expr)),
    {
        QM31Handle { expr: QM31Expr::Inv(Box::new(self.expr.clone())) }
    }
}

/// A value that can be recorded as a constraint.
pub trait ConstraintValue: Sized {
    /// The expression that is recorded.
    spec fn spec_constraint_expr(self) -> QM31Expr;

    fn constraint_expr(self) -> (r: QM31Expr)
        ensures
            r == self.spec_constraint_expr(),
    ;
}

impl ConstraintValue for QM31Handle {
    open spec fn spec_constraint_expr(self) -> QM31Expr {
        self.expr
    }

    fn constraint_expr(self) -> (r: QM31Expr) {
        self.expr
    }
}

impl ConstraintValue for M31Handle {
    open spec fn spec_constraint_expr(self) -> QM31Expr {
        QM31Expr::FromM31(Box::new(self.expr))
    }

    fn constraint_expr(self) -> (r: QM31Expr) {
        QM31Handle::from(self).expr
    }
}

impl ConstraintValue for SecureField {
    open spec fn spec_constraint_expr(self) -> QM31Expr {
        QM31Expr::Const(spec_const_words(self))
    }

    fn constraint_expr(self) -> (r: QM31Expr) {
        QM31Handle::from(self).expr
    }
}

/// A numerator over a denominator.
#[derive(Debug)]
pub struct Fraction<N, D> {
    pub numerator: N,
    pub denominator: D,
}

/// What a row evaluator knows of the lookup sums.
#[derive(Debug, Clone, Copy)]
pub struct LogupAtRow {
    /// Interaction whose columns hold the sums.
    pub interaction: usize,
    /// Total over all rows.
    pub claimed_sum: SecureField,
    /// Binary logarithm of the number of rows.
    pub log_size: u32,
}

impl LogupAtRow {
    pub fn new(interaction: usize, claimed_sum: SecureField, log_size: u32) -> (r: LogupAtRow)
        ensures
            r == (LogupAtRow { interaction, claimed_sum, log_size }),
    {
        LogupAtRow { interaction, claimed_sum, log_size }
    }
}

/// The code that leaves the value of a base field expression on its stack.
pub open spec fn m31_code(expr: M31Expr) -> Seq<Instruction>
    decreases expr,
{
    match expr {
        M31Expr::LoadTrace { interaction, col_idx, offset } => seq![
            Instruction::LoadTraceM31 { interaction, col_idx, offset },
        ],
        M31Expr::Const(value) => seq![Instruction::LoadConstM31 { value }],
        M31Expr::Add(a, b) => m31_code(*a) + m31_code(*b) + seq![Instruction::AddM31],
        M31Expr::Sub(a, b) => m31_code(*a) + m31_code(*b) + seq![Instruction::SubM31],
        M31Expr::Mul(a, b) => m31_code(*a) + m31_code(*b) + seq![Instruction::MulM31],
        M31Expr::Neg(a) => m31_code(*a) + seq![Instruction::NegM31],
        M31Expr::Square(a) => m31_code(*a) + seq![Instruction::SquareM31],
        M31Expr::Inv(a) => m31_code(*a) + seq![Instruction::InvM31],
    }
}

/// The code that leaves the value of an extension field expression on its stack.
pub open spec fn qm31_code(expr: QM31Expr) -> Seq<Instruction>
    decreases expr,
{
    match expr {
        QM31Expr::LoadTrace { interaction, col_idx, offset } => seq![
            Instruction::LoadTraceQM31 { interaction, col_idx, offset },
        ],
        QM31Expr::Const(values) => seq![Instruction::LoadConstQM31 { values }],
        QM31Expr::RandomCoeff(index) => seq![Instruction::LoadRandomCoeff { index }],
        QM31Expr::Add(a, b) => qm31_code(*a) + qm31_code(*b) + seq![Instruction::AddQM31],
        QM31Expr::Sub(a, b) => qm31_code(*a) + qm31_code(*b) + seq![Instruction::SubQM31],
        QM31Expr::Mul(a, b) => qm31_code(*a) + qm31_code(*b) + seq![Instruction::MulQM31],
        QM31Expr::Neg(a) => qm31_code(*a) + seq![Instruction::NegQM31],
        QM31Expr::Square(a) => qm31_code(*a) + seq![Instruction::SquareQM31],
        QM31Expr::Inv(a) => qm31_code(*a) + seq![Instruction::InvQM31],
        QM31Expr::FromM31(a) => m31_code(*a) + seq![Instruction::M31ToQM31],
        QM31Expr::CombineEF(a, b, c, d) => m31_code(*a) + m31_code(*b) + m31_code(*c) + m31_code(
            *d,
        ) + seq![Instruction::CombineEF],
        QM31Expr::MulM31(a, b) => m31_code(*b) + qm31_code(*a) + seq![Instruction::MulM31QM31],
        QM31Expr::AddM31(a, b) => m31_code(*b) + qm31_code(*a) + seq![Instruction::AddM31QM31],
        QM31Expr::MulSecureField(a, values) => qm31_code(*a) + seq![
            Instruction::LoadConstQM31 { values },
        ] + seq![Instruction::MulQM31],
        QM31Expr::AddSecureField(a, values) => qm31_code(*a) + seq![
            Instruction::LoadConstQM31 { values },
        ] + seq![Instruction::AddQM31],
    }
}

/// The code that submits each constraint in turn.
pub open spec fn constraints_code(constraints: Seq<QM31Expr>) -> Seq<Instruction>
    decreases constraints.len(),
{
    if constraints.len() == 0 {
        Seq::empty()
    } else {
        constraints_code(constraints.drop_last()) + (qm31_code(constraints.last()) + seq![
            Instruction::AddConstraint,
        ])
    }
}

/// The code of a whole program.
pub open spec fn program_code(constraints: Seq<QM31Expr>) -> Seq<Instruction> {
    constraints_code(constraints) + seq![Instruction::ProgramEnd]
}

/// What compiling `code` from the stack heights `h` makes of a program.
pub open spec fn compiled(
    before: BytecodeProgram,
    after: BytecodeProgram,
    code: Seq<Instruction>,
    h: vm::Heights,
) -> bool {
    let top = vm::peak(code, h);
    &&& after.bytes@ == before.bytes@ + bytecode::encode_all(code)
    &&& after.max_m31_stack_depth == vstd::math::max(before.max_m31_stack_depth as int, top.m31)
    &&& after.max_qm31_stack_depth == vstd::math::max(
        before.max_qm31_stack_depth as int,
        top.qm31,
    )
}

/// An evaluator that records constraints.
pub struct BytecodeGenerator {
    /// Program being built.
    pub program: BytecodeProgram,
    /// Column to read next, for each interaction.
    pub column_index_per_interaction: Vec<usize>,
    /// State of the lookup argument, which is not compiled.
    pub logup: LogupAtRow,
    /// Constraints to compile.
    pub constraints: Vec<QM31Expr>,
}

/// Compiling two pieces of code in a row compiles their concatenation.
proof fn lemma_compiled_concat(
    p0: BytecodeProgram,
    p1: BytecodeProgram,
    p2: BytecodeProgram,
    a: Seq<Instruction>,
    b: Seq<Instruction>,
    h: vm::Heights,
)
    requires
        compiled(p0, p1, a, h),
        compiled(p1, p2, b, vm::heights(a, h)),
    ensures
        compiled(p0, p2, a + b, h),
{
    vm::lemma_heights_concat(a, b, h);
    bytecode::lemma_encode_all_concat(a, b);
    assert(p2.bytes@ =~= p0.bytes@ + bytecode::encode_all(a + b));
}

/// Appending one instruction, and raising the recorded depths as far as it needs them,
/// compiles it.
proof fn lemma_compiled_one(
    p0: BytecodeProgram,
    p1: BytecodeProgram,
    instr: Instruction,
    h: vm::Heights,
)
    requires
        p1.bytes@ == p0.bytes@ + instr.encoding(),
        p0.max_m31_stack_depth >= h.m31,
        p0.max_qm31_stack_depth >= h.qm31,
        p1.max_m31_stack_depth == vstd::math::max(
            p0.max_m31_stack_depth as int,
            vm::step_heights(instr, h).m31,
        ),
        p1.max_qm31_stack_depth == vstd::math::max(
            p0.max_qm31_stack_depth as int,
            vm::step_heights(instr, h).qm31,
        ),
    ensures
        compiled(p0, p1, seq![instr], h),
        p1.bytes.len() > p0.bytes.len(),
        vm::heights(seq![instr], h) == vm::step_heights(instr, h),
{
    vm::lemma_heights_one(instr, h);
    bytecode::lemma_encoding_len(instr);
    reveal_with_fuel(bytecode::encode_all, 2);
    assert(seq![instr].drop_last() =~= Seq::<Instruction>::empty());
    assert(bytecode::encode_all(seq![instr]) =~= instr.encoding());
}

/// Appending one instruction after compiled code.
proof fn lemma_compiled_then(
    p0: BytecodeProgram,
    p1: BytecodeProgram,
    p2: BytecodeProgram,
    code: Seq<Instruction>,
    instr: Instruction,
    h: vm::Heights,
)
    requires
        compiled(p0, p1, code, h),
        p2.bytes@ == p1.bytes@ + instr.encoding(),
        p2.max_m31_stack_depth == vstd::math::max(
            p1.max_m31_stack_depth as int,
            vm::step_heights(instr, vm::heights(code, h)).m31,
        ),
        p2.max_qm31_stack_depth == vstd::math::max(
            p1.max_qm31_stack_depth as int,
            vm::step_heights(instr, vm::heights(code, h)).qm31,
        ),
    ensures
        compiled(p0, p2, code + seq![instr], h),
        vm::heights(code + seq![instr], h) == vm::step_heights(instr, vm::heights(code, h)),
        p2.bytes.len() > p1.bytes.len(),
{
    vm::lemma_peak_bounds(code, h);
    lemma_compiled_one(p1, p2, instr, vm::heights(code, h));
    lemma_compiled_concat(p0, p1, p2, code, seq![instr], h);
    vm::lemma_heights_concat(code, seq![instr], h);
}

/// Compiling a second piece of code after a first.
proof fn lemma_compiled_both(
    p0: BytecodeProgram,
    p1: BytecodeProgram,
    p2: BytecodeProgram,
    a: Seq<Instruction>,
    b: Seq<Instruction>,
    h: vm::Heights,
    h1: vm::Heights,
)
    requires
        compiled(p0, p1, a, h),
        vm::heights(a, h) == h1,
        compiled(p1, p2, b, h1),
    ensures
        compiled(p0, p2, a + b, h),
        vm::heights(a + b, h) == vm::heights(b, h1),
{
    lemma_compiled_concat(p0, p1, p2, a, b, h);
    vm::lemma_heights_concat(a, b, h);
}

/// The code of a base field expression leaves one more value on the base field stack.
pub proof fn lemma_m31_code_heights(expr: M31Expr, h: vm::Heights)
    ensures
        vm::heights(m31_code(expr), h) == h.moved(1, 0),
        m31_code(expr).len() >= 1,
    decreases expr,
{
    match expr {
        M31Expr::Add(a, b) | M31Expr::Sub(a, b) | M31Expr::Mul(a, b) => {
            lemma_m31_code_heights(*a, h);
            lemma_m31_code_heights(*b, h.moved(1, 0));
            vm::lemma_heights_concat(m31_code(*a), m31_code(*b), h);
            let last = m31_code(expr).last();
            vm::lemma_heights_concat(m31_code(*a) + m31_code(*b), seq![last], h);
            vm::lemma_heights_one(last, h.moved(2, 0));
        },
        M31Expr::Neg(a) | M31Expr::Square(a) | M31Expr::Inv(a) => {
            lemma_m31_code_heights(*a, h);
            let last = m31_code(expr).last();
            vm::lemma_heights_concat(m31_code(*a), seq![last], h);
            vm::lemma_heights_one(last, h.moved(1, 0));
        },
        _ => {
            vm::lemma_heights_one(m31_code(expr)[0], h);
        },
    }
}

/// The code of an extension field expression leaves one more value on the extension
/// field stack.
pub proof fn lemma_qm31_code_heights(expr: QM31Expr, h: vm::Heights)
    ensures
        vm::heights(qm31_code(expr), h) == h.moved(0, 1),
        qm31_code(expr).len() >= 1,
    decreases expr,
{
    match expr {
        QM31Expr::Add(a, b) | QM31Expr::Sub(a, b) | QM31Expr::Mul(a, b) => {
            lemma_qm31_code_heights(*a, h);
            lemma_qm31_code_heights(*b, h.moved(0, 1));
            vm::lemma_heights_concat(qm31_code(*a), qm31_code(*b), h);
            let last = qm31_code(expr).last();
            vm::lemma_heights_concat(qm31_code(*a) + qm31_code(*b), seq![last], h);
            vm::lemma_heights_one(last, h.moved(0, 2));
        },
        QM31Expr::Neg(a) | QM31Expr::Square(a) | QM31Expr::Inv(a) => {
            lemma_qm31_code_heights(*a, h);
            let last = qm31_code(expr).last();
            vm::lemma_heights_concat(qm31_code(*a), seq![last], h);
            vm::lemma_heights_one(last, h.moved(0, 1));
        },
        QM31Expr::FromM31(a) => {
            lemma_m31_code_heights(*a, h);
            vm::lemma_heights_concat(m31_code(*a), seq![Instruction::M31ToQM31], h);
            vm::lemma_heights_one(Instruction::M31ToQM31, h.moved(1, 0));
        },
        QM31Expr::CombineEF(a, b, c, d) => {
            lemma_m31_code_heights(*a, h);
            lemma_m31_code_heights(*b, h.moved(1, 0));
            lemma_m31_code_heights(*c, h.moved(2, 0));
            lemma_m31_code_heights(*d, h.moved(3, 0));
            let ab = m31_code(*a) + m31_code(*b);
            let abc = ab + m31_code(*c);
            vm::lemma_heights_concat(m31_code(*a), m31_code(*b), h);
            vm::lemma_heights_concat(ab, m31_code(*c), h);
            vm::lemma_heights_concat(abc, m31_code(*d), h);
            vm::lemma_heights_concat(abc + m31_code(*d), seq![Instruction::CombineEF], h);
            vm::lemma_heights_one(Instruction::CombineEF, h.moved(4, 0));
        },
        QM31Expr::MulM31(a, b) | QM31Expr::AddM31(a, b) => {
            lemma_m31_code_heights(*b, h);
            lemma_qm31_code_heights(*a, h.moved(1, 0));
            vm::lemma_heights_concat(m31_code(*b), qm31_code(*a), h);
            let last = qm31_code(expr).last();
            vm::lemma_heights_concat(m31_code(*b) + qm31_code(*a), seq![last], h);
            vm::lemma_heights_one(last, h.moved(1, 1));
        },
        QM31Expr::MulSecureField(a, values) | QM31Expr::AddSecureField(a, values) => {
            lemma_qm31_code_heights(*a, h);
            let load = Instruction::LoadConstQM31 { values };
            let last = qm31_code(expr).last();
            vm::lemma_heights_concat(qm31_code(*a), seq![load], h);
            vm::lemma_heights_concat(qm31_code(*a) + seq![load], seq![last], h);
            vm::lemma_heights_one(load, h.moved(0, 1));
            vm::lemma_heights_one(last, h.moved(0, 2));
        },
        _ => {
            vm::lemma_heights_one(qm31_code(expr)[0], h);
        },
    }
}

/// The stack heights that two depth counters stand for.
pub open spec fn depths(m31_depth: usize, qm31_depth: usize) -> vm::Heights {
    vm::Heights { m31: m31_depth as int, qm31: qm31_depth as int }
}

/// Compiles a base field expression, leaving its value on the base field stack.
#[verifier::rlimit(20)]
fn compile_m31_expr(
    program: &mut BytecodeProgram,
    expr: &M31Expr,
    m31_depth: &mut usize,
    qm31_depth: &mut usize,
)
    requires
        old(program).max_m31_stack_depth >= *old(m31_depth),
        old(program).max_qm31_stack_depth >= *old(qm31_depth),
        *old(m31_depth) + *old(qm31_depth) <= old(program).bytes.len(),
    ensures
        compiled(
            *old(program),
            *final(program),
            m31_code(*expr),
            depths(*old(m31_depth), *old(qm31_depth)),
        ),
        final(program).n_constraints == old(program).n_constraints,
        *final(m31_depth) == *old(m31_depth) + 1,
        *final(qm31_depth) == *old(qm31_depth),
        final(program).max_m31_stack_depth >= *final(m31_depth),
        final(program).max_qm31_stack_depth >= *final(qm31_depth),
        *final(m31_depth) + *final(qm31_depth) <= final(program).bytes.len(),
    decreases expr,
{
    let ghost h = depths(*m31_depth, *qm31_depth);
    let ghost h1 = h.moved(1, 0);
    match expr {
        M31Expr::LoadTrace { interaction, col_idx, offset } => {
            let instr = Instruction::LoadTraceM31 {
                interaction: *interaction,
                col_idx: *col_idx,
                offset: *offset,
            };
            program.encode(instr);
            *m31_depth += 1;
            program.update_stack_depth(*m31_depth, *qm31_depth);
            proof {
                lemma_compiled_one(*old(program), *program, instr, h);
            }
        },
        M31Expr::Const(value) => {
            let instr = Instruction::LoadConstM31 { value: *value };
            program.encode(instr);
            *m31_depth += 1;
            program.update_stack_depth(*m31_depth, *qm31_depth);
            proof {
                lemma_compiled_one(*old(program), *program, instr, h);
            }
        },
        M31Expr::Add(a, b) => {
            compile_m31_expr(program, a, m31_depth, qm31_depth);
            let ghost p1 = *program;
            compile_m31_expr(program, b, m31_depth, qm31_depth);
            let ghost p2 = *program;
            program.encode(Instruction::AddM31);
            *m31_depth -= 1;
            proof {
                let (ca, cb) = (m31_code(**a), m31_code(**b));
                lemma_m31_code_heights(**a, h);
                lemma_m31_code_heights(**b, h1);
                lemma_compiled_both(*old(program), p1, p2, ca, cb, h, h1);
                lemma_compiled_then(
                    *old(program),
                    p2,
                    *program,
                    ca + cb,
                    Instruction::AddM31,
                    h,
                );
            }
        },
        M31Expr::Sub(a, b) => {
            compile_m31_expr(program, a, m31_depth, qm31_depth);
            let ghost p1 = *program;
            compile_m31_expr(program, b, m31_depth, qm31_depth);
            let ghost p2 = *program;
            program.encode(Instruction::SubM31);
            *m31_depth -= 1;
            proof {
                let (ca, cb) = (m31_code(**a), m31_code(**b));
                lemma_m31_code_heights(**a, h);
                lemma_m31_code_heights(**b, h1);
                lemma_compiled_both(*old(program), p1, p2, ca, cb, h, h1);
                lemma_compiled_then(
                    *old(program),
                    p2,
                    *program,
                    ca + cb,
                    Instruction::SubM31,
                    h,
                );
            }
        },
        M31Expr::Mul(a, b) => {
            compile_m31_expr(program, a, m31_depth, qm31_depth);
            let ghost p1 = *program;
            compile_m31_expr(program, b, m31_depth, qm31_depth);
            let ghost p2 = *program;
            program.encode(Instruction::MulM31);
            *m31_depth -= 1;
            proof {
                let (ca, cb) = (m31_code(**a), m31_code(**b));
                lemma_m31_code_heights(**a, h);
                lemma_m31_code_heights(**b, h1);
                lemma_compiled_both(*old(program), p1, p2, ca, cb, h, h1);
                lemma_compiled_then(
                    *old(program),
                    p2,
                    *program,
                    ca + cb,
                    Instruction::MulM31,
                    h,
                );
            }
        },
        M31Expr::Neg(a) => {
            compile_m31_expr(program, a, m31_depth, qm31_depth);
            let ghost p1 = *program;
            program.encode(Instruction::NegM31);
            proof {
                lemma_m31_code_heights(**a, h);
                lemma_compiled_then(
                    *old(program),
                    p1,
                    *program,
                    m31_code(**a),
                    Instruction::NegM31,
                    h,
                );
            }
        },
        M31Expr::Square(a) => {
            compile_m31_expr(program, a, m31_depth, qm31_depth);
            let ghost p1 = *program;
            program.encode(Instruction::SquareM31);
            proof {
                lemma_m31_code_heights(**a, h);
                lemma_compiled_then(
                    *old(program),
                    p1,
                    *program,
                    m31_code(**a),
                    Instruction::SquareM31,
                    h,
                );
            }
        },
        M31Expr::Inv(a) => {
            compile_m31_expr(program, a, m31_depth, qm31_depth);
            let ghost p1 = *program;
            program.encode(Instruction::InvM31);
            proof {
                lemma_m31_code_heights(**a, h);
                lemma_compiled_then(
                    *old(program),
                    p1,
                    *program,
                    m31_code(**a),
                    Instruction::InvM31,
                    h,
                );
            }
        },
    }
}

/// Compiles an extension field expression, leaving its value on the extension field
/// stack.
#[verifier::rlimit(40)]
fn compile_qm31_expr(
    program: &mut BytecodeProgram,
    expr: &QM31Expr,
    m31_depth: &mut usize,
    qm31_depth: &mut usize,
)
    requires
        old(program).max_m31_stack_depth >= *old(m31_depth),
        old(program).max_qm31_stack_depth >= *old(qm31_depth),
        *old(m31_depth) + *old(qm31_depth) <= old(program).bytes.len(),
    ensures
        compiled(
            *old(program),
            *final(program),
            qm31_code(*expr),
            depths(*old(m31_depth), *old(qm31_depth)),
        ),
        final(program).n_constraints == old(program).n_constraints,
        *final(m31_depth) == *old(m31_depth),
        *final(qm31_depth) == *old(qm31_depth) + 1,
        final(program).max_m31_stack_depth >= *final(m31_depth),
        final(program).max_qm31_stack_depth >= *final(qm31_depth),
        *final(m31_depth) + *final(qm31_depth) <= final(program).bytes.len(),
    decreases expr,
{
    let ghost h = depths(*m31_depth, *qm31_depth);
    let ghost h1 = h.moved(0, 1);
    match expr {
        QM31Expr::LoadTrace { interaction, col_idx, offset } => {
            let instr = Instruction::LoadTraceQM31 {
                interaction: *interaction,
                col_idx: *col_idx,
                offset: *offset,
            };
            program.encode(instr);
            *qm31_depth += 1;
            program.update_stack_depth(*m31_depth, *qm31_depth);
            proof {
                lemma_compiled_one(*old(program), *program, instr, h);
            }
        },
        QM31Expr::Const(values) => {
            let instr = Instruction::LoadConstQM31 { values: *values };
            program.encode(instr);
            *qm31_depth += 1;
            program.update_stack_depth(*m31_depth, *qm31_depth);
            proof {
                lemma_compiled_one(*old(program), *program, instr, h);
            }
        },
        QM31Expr::RandomCoeff(index) => {
            let instr = Instruction::LoadRandomCoeff { index: *index };
            program.encode(instr);
            *qm31_depth += 1;
            program.update_stack_depth(*m31_depth, *qm31_depth);
            proof {
                lemma_compiled_one(*old(program), *program, instr, h);
            }
        },
        QM31Expr::Add(a, b) => {
            compile_qm31_expr(program, a, m31_depth, qm31_depth);
            let ghost p1 = *program;
            compile_qm31_expr(program, b, m31_depth, qm31_depth);
            let ghost p2 = *program;
            program.encode(Instruction::AddQM31);
            *qm31_depth -= 1;
            proof {
                let (ca, cb) = (qm31_code(**a), qm31_code(**b));
                lemma_qm31_code_heights(**a, h);
                lemma_qm31_code_heights(**b, h1);
                lemma_compiled_both(*old(program), p1, p2, ca, cb, h, h1);
                lemma_compiled_then(
                    *old(program),
                    p2,
                    *program,
                    ca + cb,
                    Instruction::AddQM31,
                    h,
                );
            }
        },
        QM31Expr::Sub(a, b) => {
            compile_qm31_expr(program, a, m31_depth, qm31_depth);
            let ghost p1 = *program;
            compile_qm31_expr(program, b, m31_depth, qm31_depth);
            let ghost p2 = *program;
            program.encode(Instruction::SubQM31);
            *qm31_depth -= 1;
            proof {
                let (ca, cb) = (qm31_code(**a), qm31_code(**b));
                lemma_qm31_code_heights(**a, h);
                lemma_qm31_code_heights(**b, h1);
                lemma_compiled_both(*old(program), p1, p2, ca, cb, h, h1);
                lemma_compiled_then(
                    *old(program),
                    p2,
                    *program,
                    ca + cb,
                    Instruction::SubQM31,
                    h,
                );
            }
        },
        QM31Expr::Mul(a, b) => {
            compile_qm31_expr(program, a, m31_depth, qm31_depth);
            let ghost p1 = *program;
            compile_qm31_expr(program, b, m31_depth, qm31_depth);
            let ghost p2 = *program;
            program.encode(Instruction::MulQM31);
            *qm31_depth -= 1;
            proof {
                let (ca, cb) = (qm31_code(**a), qm31_code(**b));
                lemma_qm31_code_heights(**a, h);
                lemma_qm31_code_heights(**b, h1);
                lemma_compiled_both(*old(program), p1, p2, ca, cb, h, h1);
                lemma_compiled_then(
                    *old(program),
                    p2,
                    *program,
                    ca + cb,
                    Instruction::MulQM31,
                    h,
                );
            }
        },
        QM31Expr::Neg(a) => {
            compile_qm31_expr(program, a, m31_depth, qm31_depth);
            let ghost p1 = *program;
            program.encode(Instruction::NegQM31);
            proof {
                lemma_qm31_code_heights(**a, h);
                lemma_compiled_then(
                    *old(program),
                    p1,
                    *program,
                    qm31_code(**a),
                    Instruction::NegQM31,
                    h,
                );
            }
        },
        QM31Expr::Square(a) => {
            compile_qm31_expr(program, a, m31_depth, qm31_depth);
            let ghost p1 = *program;
            program.encode(Instruction::SquareQM31);
            proof {
                lemma_qm31_code_heights(**a, h);
                lemma_compiled_then(
                    *old(program),
                    p1,
                    *program,
                    qm31_code(**a),
                    Instruction::SquareQM31,
                    h,
                );
            }
        },
        QM31Expr::Inv(a) => {
            compile_qm31_expr(program, a, m31_depth, qm31_depth);
            let ghost p1 = *program;
            program.encode(Instruction::InvQM31);
            proof {
                lemma_qm31_code_heights(**a, h);
                lemma_compiled_then(
                    *old(program),
                    p1,
                    *program,
                    qm31_code(**a),
                    Instruction::InvQM31,
                    h,
                );
            }
        },
        QM31Expr::FromM31(a) => {
            compile_m31_expr(program, a, m31_depth, qm31_depth);
            let ghost p1 = *program;
            program.encode(Instruction::M31ToQM31);
            *m31_depth -= 1;
            *qm31_depth += 1;
            program.update_stack_depth(*m31_depth, *qm31_depth);
            proof {
                lemma_m31_code_heights(**a, h);
                lemma_compiled_then(
                    *old(program),
                    p1,
                    *program,
                    m31_code(**a),
                    Instruction::M31ToQM31,
                    h,
                );
            }
        },
        QM31Expr::CombineEF(a, b, c, d) => {
            compile_m31_expr(program, a, m31_depth, qm31_depth);
            let ghost p1 = *program;
            compile_m31_expr(program, b, m31_depth, qm31_depth);
            let ghost p2 = *program;
            compile_m31_expr(program, c, m31_depth, qm31_depth);
            let ghost p3 = *program;
            compile_m31_expr(program, d, m31_depth, qm31_depth);
            let ghost p4 = *program;
            program.encode(Instruction::CombineEF);
            *m31_depth -= 4;
            *qm31_depth += 1;
            program.update_stack_depth(*m31_depth, *qm31_depth);
            proof {
                let p0 = *old(program);
                let (ca, cb) = (m31_code(**a), m31_code(**b));
                let (cc, cd) = (m31_code(**c), m31_code(**d));
                lemma_m31_code_heights(**a, h);
                lemma_m31_code_heights(**b, h.moved(1, 0));
                lemma_m31_code_heights(**c, h.moved(2, 0));
                lemma_m31_code_heights(**d, h.moved(3, 0));
                lemma_compiled_both(p0, p1, p2, ca, cb, h, h.moved(1, 0));
                lemma_compiled_both(p0, p2, p3, ca + cb, cc, h, h.moved(2, 0));
                lemma_compiled_both(p0, p3, p4, ca + cb + cc, cd, h, h.moved(3, 0));
                lemma_compiled_then(
                    p0,
                    p4,
                    *program,
                    ca + cb + cc + cd,
                    Instruction::CombineEF,
                    h,
                );
            }
        },
        QM31Expr::MulM31(a, b) => {
            compile_m31_expr(program, b, m31_depth, qm31_depth);
            let ghost p1 = *program;
            compile_qm31_expr(program, a, m31_depth, qm31_depth);
            let ghost p2 = *program;
            program.encode(Instruction::MulM31QM31);
            *m31_depth -= 1;
            proof {
                let (cb, ca) = (m31_code(**b), qm31_code(**a));
                lemma_m31_code_heights(**b, h);
                lemma_qm31_code_heights(**a, h.moved(1, 0));
                lemma_compiled_both(*old(program), p1, p2, cb, ca, h, h.moved(1, 0));
                lemma_compiled_then(
                    *old(program),
                    p2,
                    *program,
                    cb + ca,
                    Instruction::MulM31QM31,
                    h,
                );
            }
        },
        QM31Expr::AddM31(a, b) => {
            compile_m31_expr(program, b, m31_depth, qm31_depth);
            let ghost p1 = *program;
            compile_qm31_expr(program, a, m31_depth, qm31_depth);
            let ghost p2 = *program;
            program.encode(Instruction::AddM31QM31);
            *m31_depth -= 1;
            proof {
                let (cb, ca) = (m31_code(**b), qm31_code(**a));
                lemma_m31_code_heights(**b, h);
                lemma_qm31_code_heights(**a, h.moved(1, 0));
                lemma_compiled_both(*old(program), p1, p2, cb, ca, h, h.moved(1, 0));
                lemma_compiled_then(
                    *old(program),
                    p2,
                    *program,
                    cb + ca,
                    Instruction::AddM31QM31,
                    h,
                );
            }
        },
        QM31Expr::MulSecureField(a, values) => {
            compile_qm31_expr(program, a, m31_depth, qm31_depth);
            let ghost p1 = *program;
            let load = Instruction::LoadConstQM31 { values: *values };
            program.encode(load);
            *qm31_depth += 1;
            program.update_stack_depth(*m31_depth, *qm31_depth);
            let ghost p2 = *program;
            program.encode(Instruction::MulQM31);
            *qm31_depth -= 1;
            proof {
                let ca = qm31_code(**a);
                lemma_qm31_code_heights(**a, h);
                lemma_compiled_then(*old(program), p1, p2, ca, load, h);
                lemma_compiled_then(
                    *old(program),
                    p2,
                    *program,
                    ca + seq![load],
                    Instruction::MulQM31,
                    h,
                );
            }
        },
        QM31Expr::AddSecureField(a, values) => {
            compile_qm31_expr(program, a, m31_depth, qm31_depth);
            let ghost p1 = *program;
            let load = Instruction::LoadConstQM31 { values: *values };
            program.encode(load);
            *qm31_depth += 1;
            program.update_stack_depth(*m31_depth, *qm31_depth);
            let ghost p2 = *program;
            program.encode(Instruction::AddQM31);
            *qm31_depth -= 1;
            proof {
                let ca = qm31_code(**a);
                lemma_qm31_code_heights(**a, h);
                lemma_compiled_then(*old(program), p1, p2, ca, load, h);
                lemma_compiled_then(
                    *old(program),
                    p2,
                    *program,
                    ca + seq![load],
                    Instruction::AddQM31,
                    h,
                );
            }
        },
    }
}

impl BytecodeGenerator {
    /// The constraints recorded so far.
    pub open spec fn recorded(&self) -> Seq<QM31Expr> {
        self.constraints@
    }

    /// The column that each interaction reads next.
    pub open spec fn next_columns(&self) -> Seq<usize> {
        self.column_index_per_interaction@
    }

    pub fn new(n_interactions: usize, log_size: u32, claimed_sum: SecureField) -> (r:
        BytecodeGenerator)
        ensures
            r.program.bytes@ == Seq::<u8>::empty(),
            r.program.n_constraints == 0,
            r.program.max_m31_stack_depth == 0,
            r.program.max_qm31_stack_depth == 0,
            r.next_columns() == Seq::new(n_interactions as nat, |i: int| 0usize),
            r.recorded() == Seq::<QM31Expr>::empty(),
            r.logup == (LogupAtRow { interaction: INTERACTION_TRACE_IDX, claimed_sum, log_size }),
    {
        let r = BytecodeGenerator {
            program: BytecodeProgram::new(),
            column_index_per_interaction: vec![0; n_interactions],
            logup: LogupAtRow::new(INTERACTION_TRACE_IDX, claimed_sum, log_size),
            constraints: Vec::new(),
        };
        assert(r.next_columns() =~= Seq::new(n_interactions as nat, |i: int| 0usize));
        r
    }

    /// Compiles all constraints, and marks the end of the program.
    pub fn compile(&mut self)
        requires
            old(self).program.n_constraints + old(self).recorded().len() <= usize::MAX,
        ensures
            compiled(
                old(self).program,
                final(self).program,
                program_code(old(self).recorded()),
                depths(0, 0),
            ),
            final(self).program.n_constraints == old(self).program.n_constraints + old(
                self,
            ).recorded().len(),
            final(self).recorded() == old(self).recorded(),
            final(self).next_columns() == old(self).next_columns(),
            final(self).logup == old(self).logup,
    {
        let mut m31_depth: usize = 0;
        let mut qm31_depth: usize = 0;
        let ghost p0 = self.program;
        let ghost h = depths(0, 0);
        let ghost all = self.constraints@;
        proof {
            assert(self.program.bytes@ =~= p0.bytes@ + bytecode::encode_all(
                constraints_code(all.take(0)),
            ));
        }
        let n: usize = self.constraints.len();
        for i in 0..n
            invariant
                n == all.len(),
                self.constraints@ == all,
                self.column_index_per_interaction == old(self).column_index_per_interaction,
                self.logup == old(self).logup,
                m31_depth == 0,
                qm31_depth == 0,
                h == depths(0, 0),
                p0.n_constraints + all.len() <= usize::MAX,
                compiled(p0, self.program, constraints_code(all.take(i as int)), h),
                vm::heights(constraints_code(all.take(i as int)), h) == h,
                self.program.n_constraints == p0.n_constraints + i,
        {
            let ghost p1 = self.program;
            let ghost done = constraints_code(all.take(i as int));
            let ghost expr = all[i as int];
            compile_qm31_expr(
                &mut self.program,
                &self.constraints[i],
                &mut m31_depth,
                &mut qm31_depth,
            );
            let ghost p2 = self.program;
            self.program.encode(Instruction::AddConstraint);
            qm31_depth -= 1;
            proof {
                let code = qm31_code(expr);
                lemma_qm31_code_heights(expr, h);
                lemma_compiled_then(p1, p2, self.program, code, Instruction::AddConstraint, h);
                lemma_compiled_both(
                    p0,
                    p1,
                    self.program,
                    done,
                    code + seq![Instruction::AddConstraint],
                    h,
                    h,
                );
                assert(all.take(i + 1).drop_last() =~= all.take(i as int));
            }
        }
        let ghost p1 = self.program;
        self.program.encode(Instruction::ProgramEnd);
        proof {
            assert(all.take(all.len() as int) =~= all);
            lemma_compiled_then(
                p0,
                p1,
                self.program,
                constraints_code(all),
                Instruction::ProgramEnd,
                h,
            );
        }
    }

    /// Handles of the values at the given row offsets in the next column of an
    /// interaction.
    pub fn next_interaction_mask(&mut self, interaction: usize, offsets: &[isize]) -> (r: Vec<
        M31Handle,
    >)
        requires
            interaction < old(self).next_columns().len(),
            old(self).next_columns()[interaction as int] < usize::MAX,
        ensures
            r.len() == offsets.len(),
            forall|i: int|
                0 <= i < offsets.len() ==> (#[trigger] r[i]).expr == (M31Expr::LoadTrace {
                    interaction: interaction as u8,
                    col_idx: old(self).next_columns()[interaction as int] as u16,
                    offset: offsets[i] as i16,
                }),
            final(self).next_columns() == old(self).next_columns().update(
                interaction as int,
                (old(self).next_columns()[interaction as int] + 1) as usize,
            ),
            final(self).recorded() == old(self).recorded(),
            final(self).program == old(self).program,
            final(self).logup == old(self).logup,
    {
        let col_idx: usize = self.column_index_per_interaction[interaction];
        self.column_index_per_interaction[interaction] = col_idx + 1;
        let mut handles: Vec<M31Handle> = Vec::new();
        for i in 0..offsets.len()
            invariant
                handles.len() == i,
                forall|k: int|
                    0 <= k < i ==> (#[trigger] handles[k]).expr == (M31Expr::LoadTrace {
                        interaction: interaction as u8,
                        col_idx: col_idx as u16,
                        offset: offsets[k] as i16,
                    }),
        {
            handles.push(
                M31Handle {
                    expr: M31Expr::LoadTrace {
                        interaction: interaction as u8,
                        col_idx: col_idx as u16,
                        offset: offsets[i] as i16,
                    },
                },
            );
        }
        handles
    }

    /// Records a constraint.
    pub fn add_constraint<G: ConstraintValue>(&mut self, constraint: G)
        ensures
            final(self).recorded() == old(self).recorded().push(constraint.spec_constraint_expr()),
            final(self).next_columns() == old(self).next_columns(),
            final(self).program == old(self).program,
            final(self).logup == old(self).logup,
    {
        self.constraints.push(constraint.constraint_expr());
    }

    /// The extension field value with the given coordinates.
    pub fn combine_ef(values: [M31Handle; 4]) -> (r: QM31Handle)
        ensures
            r.expr == QM31Expr::CombineEF(
                Box::new(values[0].expr),
                Box::new(values[1].expr),
                Box::new(values[2].expr),
                Box::new(values[3].expr),
            ),
    {
        QM31Handle {
            expr: QM31Expr::CombineEF(
                Box::new(values[0].expr.clone()),
                Box::new(values[1].expr.clone()),
                Box::new(values[2].expr.clone()),
                Box::new(values[3].expr.clone()),
            ),
        }
    }

    /// Lookup fractions are not compiled: the call has no effect.
    pub fn write_logup_frac(&mut self, _fraction: Fraction<QM31Handle, QM31Handle>)
        ensures
            *final(self) == *old(self),
    {
    }

    /// Lookup fractions are not compiled: the call has no effect.
    pub fn finalize_logup_batched(&mut self, _batching: &Vec<usize>)
        ensures
            *final(self) == *old(self),
    {
    }

    /// Lookup fractions are not compiled: the call has no effect.
    pub fn finalize_logup(&mut self)
        ensures
            *final(self) == *old(self),
    {
    }

    /// Lookup fractions are not compiled: the call has no effect.
    pub fn finalize_logup_in_pairs(&mut self)
        ensures
            *final(self) == *old(self),
    {
    }
}

/// The value of a base field expression.
pub open spec fn m31_value<B, E>(alg: vm::Algebra<B, E>, expr: M31Expr) -> B
    decreases expr,
{
    match expr {
        M31Expr::LoadTrace { interaction, col_idx, offset } => (alg.trace)(
            interaction,
            col_idx,
            offset,
        ),
        M31Expr::Const(value) => (alg.constant)(value),
        M31Expr::Add(a, b) => (alg.plus)(m31_value(alg, *a), m31_value(alg, *b)),
        M31Expr::Sub(a, b) => (alg.minus)(m31_value(alg, *a), m31_value(alg, *b)),
        M31Expr::Mul(a, b) => (alg.times)(m31_value(alg, *a), m31_value(alg, *b)),
        M31Expr::Neg(a) => (alg.negated)(m31_value(alg, *a)),
        M31Expr::Square(a) => (alg.squared)(m31_value(alg, *a)),
        M31Expr::Inv(a) => (alg.inverted)(m31_value(alg, *a)),
    }
}

/// The value of an extension field expression.
pub open spec fn qm31_value<B, E>(alg: vm::Algebra<B, E>, expr: QM31Expr) -> E
    decreases expr,
{
    match expr {
        QM31Expr::LoadTrace { interaction, col_idx, offset } => (alg.ext_trace)(
            interaction,
            col_idx,
            offset,
        ),
        QM31Expr::Const(values) => (alg.ext_constant)(values),
        QM31Expr::RandomCoeff(index) => (alg.ext_coeff)(index),
        QM31Expr::Add(a, b) => (alg.ext_plus)(qm31_value(alg, *a), qm31_value(alg, *b)),
        QM31Expr::Sub(a, b) => (alg.ext_minus)(qm31_value(alg, *a), qm31_value(alg, *b)),
        QM31Expr::Mul(a, b) => (alg.ext_times)(qm31_value(alg, *a), qm31_value(alg, *b)),
        QM31Expr::Neg(a) => (alg.ext_negated)(qm31_value(alg, *a)),
        QM31Expr::Square(a) => (alg.ext_squared)(qm31_value(alg, *a)),
        QM31Expr::Inv(a) => (alg.ext_inverted)(qm31_value(alg, *a)),
        QM31Expr::FromM31(a) => (alg.embed)(m31_value(alg, *a)),
        QM31Expr::CombineEF(a, b, c, d) => (alg.combine)(
            m31_value(alg, *a),
            m31_value(alg, *b),
            m31_value(alg, *c),
            m31_value(alg, *d),
        ),
        QM31Expr::MulM31(a, b) => (alg.mixed_times)(qm31_value(alg, *a), m31_value(alg, *b)),
        QM31Expr::AddM31(a, b) => (alg.mixed_plus)(qm31_value(alg, *a), m31_value(alg, *b)),
        QM31Expr::MulSecureField(a, values) => (alg.ext_times)(
            qm31_value(alg, *a),
            (alg.ext_constant)(values),
        ),
        QM31Expr::AddSecureField(a, values) => (alg.ext_plus)(
            qm31_value(alg, *a),
            (alg.ext_constant)(values),
        ),
    }
}

/// A run of code followed by one instruction.
proof fn lemma_run_two<B, E>(
    alg: vm::Algebra<B, E>,
    a: Seq<Instruction>,
    instr: Instruction,
    s: vm::Machine<B, E>,
    s1: vm::Machine<B, E>,
)
    requires
        vm::run(alg, a, s) == Some(s1),
    ensures
        vm::run(alg, a + seq![instr], s) == vm::step(alg, instr, s1),
{
    vm::lemma_run_concat(alg, a, seq![instr], s);
    vm::lemma_run_one(alg, instr, s1);
}

/// A run of two pieces of code followed by one instruction.
proof fn lemma_run_three<B, E>(
    alg: vm::Algebra<B, E>,
    a: Seq<Instruction>,
    b: Seq<Instruction>,
    instr: Instruction,
    s: vm::Machine<B, E>,
    s1: vm::Machine<B, E>,
    s2: vm::Machine<B, E>,
)
    requires
        vm::run(alg, a, s) == Some(s1),
        vm::run(alg, b, s1) == Some(s2),
    ensures
        vm::run(alg, a + b + seq![instr], s) == vm::step(alg, instr, s2),
{
    vm::lemma_run_concat(alg, a, b, s);
    lemma_run_two(alg, a + b, instr, s, s2);
}

/// Running the code of a base field expression pushes the expression's value, and changes
/// nothing else.
pub proof fn law_m31_code_pushes_value<B, E>(
    alg: vm::Algebra<B, E>,
    expr: M31Expr,
    s: vm::Machine<B, E>,
)
    ensures
        vm::run(alg, m31_code(expr), s) == Some(s.replace_m(0, seq![m31_value(alg, expr)])),
    decreases expr,
{
    let end = s.replace_m(0, seq![m31_value(alg, expr)]);
    match expr {
        M31Expr::Add(a, b) => {
            let s1 = s.replace_m(0, seq![m31_value(alg, *a)]);
            let s2 = s1.replace_m(0, seq![m31_value(alg, *b)]);
            law_m31_code_pushes_value(alg, *a, s);
            law_m31_code_pushes_value(alg, *b, s1);
            assert(vm::step(alg, Instruction::AddM31, s2)->0 =~= end);
            lemma_run_three(alg, m31_code(*a), m31_code(*b), Instruction::AddM31, s, s1, s2);
        },
        M31Expr::Sub(a, b) => {
            let s1 = s.replace_m(0, seq![m31_value(alg, *a)]);
            let s2 = s1.replace_m(0, seq![m31_value(alg, *b)]);
            law_m31_code_pushes_value(alg, *a, s);
            law_m31_code_pushes_value(alg, *b, s1);
            assert(vm::step(alg, Instruction::SubM31, s2)->0 =~= end);
            lemma_run_three(alg, m31_code(*a), m31_code(*b), Instruction::SubM31, s, s1, s2);
        },
        M31Expr::Mul(a, b) => {
            let s1 = s.replace_m(0, seq![m31_value(alg, *a)]);
            let s2 = s1.replace_m(0, seq![m31_value(alg, *b)]);
            law_m31_code_pushes_value(alg, *a, s);
            law_m31_code_pushes_value(alg, *b, s1);
            assert(vm::step(alg, Instruction::MulM31, s2)->0 =~= end);
            lemma_run_three(alg, m31_code(*a), m31_code(*b), Instruction::MulM31, s, s1, s2);
        },
        M31Expr::Neg(a) => {
            let s1 = s.replace_m(0, seq![m31_value(alg, *a)]);
            law_m31_code_pushes_value(alg, *a, s);
            assert(vm::step(alg, Instruction::NegM31, s1)->0 =~= end);
            lemma_run_two(alg, m31_code(*a), Instruction::NegM31, s, s1);
        },
        M31Expr::Square(a) => {
            let s1 = s.replace_m(0, seq![m31_value(alg, *a)]);
            law_m31_code_pushes_value(alg, *a, s);
            assert(vm::step(alg, Instruction::SquareM31, s1)->0 =~= end);
            lemma_run_two(alg, m31_code(*a), Instruction::SquareM31, s, s1);
        },
        M31Expr::Inv(a) => {
            let s1 = s.replace_m(0, seq![m31_value(alg, *a)]);
            law_m31_code_pushes_value(alg, *a, s);
            assert(vm::step(alg, Instruction::InvM31, s1)->0 =~= end);
            lemma_run_two(alg, m31_code(*a), Instruction::InvM31, s, s1);
        },
        _ => {
            vm::lemma_run_one(alg, m31_code(expr)[0], s);
        },
    }
}

/// Running the code of an extension field expression pushes the expression's value, and
/// changes nothing else.
#[verifier::rlimit(30)]
pub proof fn law_qm31_code_pushes_value<B, E>(
    alg: vm::Algebra<B, E>,
    expr: QM31Expr,
    s: vm::Machine<B, E>,
)
    ensures
        vm::run(alg, qm31_code(expr), s) == Some(s.replace_q(0, seq![qm31_value(alg, expr)])),
    decreases expr,
{
    let end = s.replace_q(0, seq![qm31_value(alg, expr)]);
    match expr {
        QM31Expr::Add(a, b) => {
            let s1 = s.replace_q(0, seq![qm31_value(alg, *a)]);
            let s2 = s1.replace_q(0, seq![qm31_value(alg, *b)]);
            law_qm31_code_pushes_value(alg, *a, s);
            law_qm31_code_pushes_value(alg, *b, s1);
            assert(vm::step(alg, Instruction::AddQM31, s2)->0 =~= end);
            lemma_run_three(alg, qm31_code(*a), qm31_code(*b), Instruction::AddQM31, s, s1, s2);
        },
        QM31Expr::Sub(a, b) => {
            let s1 = s.replace_q(0, seq![qm31_value(alg, *a)]);
            let s2 = s1.replace_q(0, seq![qm31_value(alg, *b)]);
            law_qm31_code_pushes_value(alg, *a, s);
            law_qm31_code_pushes_value(alg, *b, s1);
            assert(vm::step(alg, Instruction::SubQM31, s2)->0 =~= end);
            lemma_run_three(alg, qm31_code(*a), qm31_code(*b), Instruction::SubQM31, s, s1, s2);
        },
        QM31Expr::Mul(a, b) => {
            let s1 = s.replace_q(0, seq![qm31_value(alg, *a)]);
            let s2 = s1.replace_q(0, seq![qm31_value(alg, *b)]);
            law_qm31_code_pushes_value(alg, *a, s);
            law_qm31_code_pushes_value(alg, *b, s1);
            assert(vm::step(alg, Instruction::MulQM31, s2)->0 =~= end);
            lemma_run_three(alg, qm31_code(*a), qm31_code(*b), Instruction::MulQM31, s, s1, s2);
        },
        QM31Expr::Neg(a) => {
            let s1 = s.replace_q(0, seq![qm31_value(alg, *a)]);
            law_qm31_code_pushes_value(alg, *a, s);
            assert(vm::step(alg, Instruction::NegQM31, s1)->0 =~= end);
            lemma_run_two(alg, qm31_code(*a), Instruction::NegQM31, s, s1);
        },
        QM31Expr::Square(a) => {
            let s1 = s.replace_q(0, seq![qm31_value(alg, *a)]);
            law_qm31_code_pushes_value(alg, *a, s);
            assert(vm::step(alg, Instruction::SquareQM31, s1)->0 =~= end);
            lemma_run_two(alg, qm31_code(*a), Instruction::SquareQM31, s, s1);
        },
        QM31Expr::Inv(a) => {
            let s1 = s.replace_q(0, seq![qm31_value(alg, *a)]);
            law_qm31_code_pushes_value(alg, *a, s);
            assert(vm::step(alg, Instruction::InvQM31, s1)->0 =~= end);
            lemma_run_two(alg, qm31_code(*a), Instruction::InvQM31, s, s1);
        },
        QM31Expr::FromM31(a) => {
            let s1 = s.replace_m(0, seq![m31_value(alg, *a)]);
            law_m31_code_pushes_value(alg, *a, s);
            assert(vm::step(alg, Instruction::M31ToQM31, s1)->0 =~= end);
            lemma_run_two(alg, m31_code(*a), Instruction::M31ToQM31, s, s1);
        },
        QM31Expr::CombineEF(a, b, c, d) => {
            let s1 = s.replace_m(0, seq![m31_value(alg, *a)]);
            let s2 = s1.replace_m(0, seq![m31_value(alg, *b)]);
            let s3 = s2.replace_m(0, seq![m31_value(alg, *c)]);
            let s4 = s3.replace_m(0, seq![m31_value(alg, *d)]);
            let ab = m31_code(*a) + m31_code(*b);
            law_m31_code_pushes_value(alg, *a, s);
            law_m31_code_pushes_value(alg, *b, s1);
            law_m31_code_pushes_value(alg, *c, s2);
            law_m31_code_pushes_value(alg, *d, s3);
            vm::lemma_run_concat(alg, m31_code(*a), m31_code(*b), s);
            vm::lemma_run_concat(alg, ab, m31_code(*c), s);
            assert(vm::step(alg, Instruction::CombineEF, s4)->0 =~= end);
            lemma_run_three(
                alg,
                ab + m31_code(*c),
                m31_code(*d),
                Instruction::CombineEF,
                s,
                s3,
                s4,
            );
        },
        QM31Expr::MulM31(a, b) => {
            let s1 = s.replace_m(0, seq![m31_value(alg, *b)]);
            let s2 = s1.replace_q(0, seq![qm31_value(alg, *a)]);
            law_m31_code_pushes_value(alg, *b, s);
            law_qm31_code_pushes_value(alg, *a, s1);
            assert(vm::step(alg, Instruction::MulM31QM31, s2)->0 =~= end);
            lemma_run_three(alg, m31_code(*b), qm31_code(*a), Instruction::MulM31QM31, s, s1, s2);
        },
        QM31Expr::AddM31(a, b) => {
            let s1 = s.replace_m(0, seq![m31_value(alg, *b)]);
            let s2 = s1.replace_q(0, seq![qm31_value(alg, *a)]);
            law_m31_code_pushes_value(alg, *b, s);
            law_qm31_code_pushes_value(alg, *a, s1);
            assert(vm::step(alg, Instruction::AddM31QM31, s2)->0 =~= end);
            lemma_run_three(alg, m31_code(*b), qm31_code(*a), Instruction::AddM31QM31, s, s1, s2);
        },
        QM31Expr::MulSecureField(a, values) => {
            let load = Instruction::LoadConstQM31 { values };
            let s1 = s.replace_q(0, seq![qm31_value(alg, *a)]);
            let s2 = s1.replace_q(0, seq![(alg.ext_constant)(values)]);
            law_qm31_code_pushes_value(alg, *a, s);
            vm::lemma_run_one(alg, load, s1);
            assert(vm::step(alg, Instruction::MulQM31, s2)->0 =~= end);
            lemma_run_three(alg, qm31_code(*a), seq![load], Instruction::MulQM31, s, s1, s2);
        },
        QM31Expr::AddSecureField(a, values) => {
            let load = Instruction::LoadConstQM31 { values };
            let s1 = s.replace_q(0, seq![qm31_value(alg, *a)]);
            let s2 = s1.replace_q(0, seq![(alg.ext_constant)(values)]);
            law_qm31_code_pushes_value(alg, *a, s);
            vm::lemma_run_one(alg, load, s1);
            assert(vm::step(alg, Instruction::AddQM31, s2)->0 =~= end);
            lemma_run_three(alg, qm31_code(*a), seq![load], Instruction::AddQM31, s, s1, s2);
        },
        _ => {
            vm::lemma_run_one(alg, qm31_code(expr)[0], s);
        },
    }
}

/// Running a compiled program submits the values of the constraints, in the order in which
/// they were recorded, and leaves both stacks as it found them.
pub proof fn law_program_submits_constraints<B, E>(
    alg: vm::Algebra<B, E>,
    constraints: Seq<QM31Expr>,
    s: vm::Machine<B, E>,
)
    ensures
        vm::run(alg, program_code(constraints), s) == Some(
            (vm::Machine {
                submitted: s.submitted + constraints.map_values(|c: QM31Expr| qm31_value(alg, c)),
                ..s
            }),
        ),
{
    let end = vm::Machine {
        submitted: s.submitted + constraints.map_values(|c: QM31Expr| qm31_value(alg, c)),
        ..s
    };
    lemma_constraints_submitted(alg, constraints, s);
    vm::lemma_run_concat(alg, constraints_code(constraints), seq![Instruction::ProgramEnd], s);
    vm::lemma_run_one(alg, Instruction::ProgramEnd, end);
}

proof fn lemma_constraints_submitted<B, E>(
    alg: vm::Algebra<B, E>,
    constraints: Seq<QM31Expr>,
    s: vm::Machine<B, E>,
)
    ensures
        vm::run(alg, constraints_code(constraints), s) == Some(
            (vm::Machine {
                submitted: s.submitted + constraints.map_values(|c: QM31Expr| qm31_value(alg, c)),
                ..s
            }),
        ),
    decreases constraints.len(),
{
    let value = |c: QM31Expr| qm31_value(alg, c);
    let end = vm::Machine { submitted: s.submitted + constraints.map_values(value), ..s };
    if constraints.len() == 0 {
        assert(end =~= s);
    } else {
        let init = constraints.drop_last();
        let c = constraints.last();
        let submit = seq![Instruction::AddConstraint];
        lemma_constraints_submitted(alg, init, s);
        let s1 = vm::Machine { submitted: s.submitted + init.map_values(value), ..s };
        let s2 = s1.replace_q(0, seq![qm31_value(alg, c)]);
        law_qm31_code_pushes_value(alg, c, s1);
        vm::lemma_run_concat(alg, constraints_code(init), qm31_code(c) + submit, s);
        vm::lemma_run_concat(alg, qm31_code(c), submit, s1);
        vm::lemma_run_one(alg, Instruction::AddConstraint, s2);
        assert(vm::step(alg, Instruction::AddConstraint, s2)->0 =~= end);
    }
}

/// Two lists of constraints with the same bytecode submit the same values on every row.
pub proof fn law_bytecode_determines_constraints<B, E>(
    alg: vm::Algebra<B, E>,
    a: Seq<QM31Expr>,
    b: Seq<QM31Expr>,
)
    requires
        bytecode::encode_all(program_code(a)) == bytecode::encode_all(program_code(b)),
    ensures
        a.map_values(|c: QM31Expr| qm31_value(alg, c)) == b.map_values(
            |c: QM31Expr| qm31_value(alg, c),
        ),
{
    let s = vm::Machine { m31: Seq::empty(), qm31: Seq::empty(), submitted: Seq::empty() };
    bytecode::law_bytecode_uniquely_decodable(program_code(a), program_code(b));
    law_program_submits_constraints(alg, a, s);
    law_program_submits_constraints(alg, b, s);
    let va = a.map_values(|c: QM31Expr| qm31_value(alg, c));
    let vb = b.map_values(|c: QM31Expr| qm31_value(alg, c));
    assert(s.submitted + va =~= va);
    assert(s.submitted + vb =~= vb);
}

/// The word that stands for a subtracted coordinate is canonical, and cancels it.
pub proof fn law_negated_word_cancels(x: u32)
    ensures
        negated_word(x) < P,
        fields::modp(negated_word(x) + x) == 0,
{
    vstd::arithmetic::div_mod::lemma_mod_bound(-(x as int), P as int);
    vstd::arithmetic::div_mod::lemma_add_mod_noop(-(x as int), x as int, P as int);
    vstd::arithmetic::div_mod::lemma_add_mod_noop(
        fields::modp(-(x as int)),
        x as int,
        P as int,
    );
    vstd::arithmetic::div_mod::lemma_mod_twice(-(x as int), P as int);
}

/// Constants and sums of the extension field are what they are in an algebra.
pub open spec fn adds_in_extension<B>(alg: vm::Algebra<B, fields::Coords>) -> bool {
    &&& forall|w: [u32; 4]| #[trigger]
        (alg.ext_constant)(w) == (fields::Coords {
            c0: w[0] as int,
            c1: w[1] as int,
            c2: w[2] as int,
            c3: w[3] as int,
        })
    &&& forall|a: fields::Coords, b: fields::Coords| #[trigger]
        (alg.ext_plus)(a, b) == a.plus(b).reduced()
}

/// Subtracting a constant is undone by adding it: the value of the difference plus the
/// constant is the value of the expression.
pub proof fn law_subtraction_is_undone<B>(
    alg: vm::Algebra<B, fields::Coords>,
    handle: QM31Handle,
    constant: SecureField,
)
    requires
        adds_in_extension(alg),
    ensures
        (alg.ext_plus)(
            qm31_value(
                alg,
                vstd::std_specs::ops::SubSpec::<SecureField>::sub_spec(handle, constant).expr,
            ),
            (alg.ext_constant)(spec_const_words(constant)),
        ) == qm31_value(alg, handle.expr).reduced(),
{
    let v = qm31_value(alg, handle.expr);
    let words = spec_negated_words(constant);
    let difference = vstd::std_specs::ops::SubSpec::<SecureField>::sub_spec(handle, constant);
    assert(difference.expr == QM31Expr::AddSecureField(Box::new(handle.expr), words));
    lemma_subtracted_coordinate(v.c0, constant.c0.0);
    lemma_subtracted_coordinate(v.c1, constant.c1.0);
    lemma_subtracted_coordinate(v.c2, constant.c2.0);
    lemma_subtracted_coordinate(v.c3, constant.c3.0);
}

proof fn lemma_subtracted_coordinate(v: int, x: u32)
    ensures
        fields::modp(fields::modp(v + negated_word(x)) + x) == fields::modp(v),
{
    let p = P as int;
    let w = negated_word(x) as int;
    law_negated_word_cancels(x);
    vstd::arithmetic::div_mod::lemma_add_mod_noop(v + w, x as int, p);
    vstd::arithmetic::div_mod::lemma_add_mod_noop(fields::modp(v + w), x as int, p);
    vstd::arithmetic::div_mod::lemma_mod_twice(v + w, p);
    vstd::arithmetic::div_mod::lemma_add_mod_noop(v, w + x, p);
    vstd::arithmetic::div_mod::lemma_mod_twice(v, p);
    assert(v + w + x == v + (w + x));
    assert(fields::modp(v) + 0 == fields::modp(v));
}

/// The operators on base field handles are the algebra's operations on their values.
pub proof fn law_base_operators_compute<B, E>(
    alg: vm::Algebra<B, E>,
    a: M31Handle,
    b: M31Handle,
    k: BaseField,
)
    ensures
        m31_value(alg, vstd::std_specs::ops::AddSpec::<M31Handle>::add_spec(a, b).expr) == (
        alg.plus)(m31_value(alg, a.expr), m31_value(alg, b.expr)),
        m31_value(alg, vstd::std_specs::ops::SubSpec::<M31Handle>::sub_spec(a, b).expr) == (
        alg.minus)(m31_value(alg, a.expr), m31_value(alg, b.expr)),
        m31_value(alg, vstd::std_specs::ops::MulSpec::<M31Handle>::mul_spec(a, b).expr) == (
        alg.times)(m31_value(alg, a.expr), m31_value(alg, b.expr)),
        m31_value(alg, vstd::std_specs::ops::NegSpec::neg_spec(a).expr) == (alg.negated)(
            m31_value(alg, a.expr),
        ),
        m31_value(alg, vstd::std_specs::ops::MulSpec::<BaseField>::mul_spec(a, k).expr) == (
        alg.times)(m31_value(alg, a.expr), (alg.constant)(k.0)),
        m31_value(
            alg,
            <M31Handle as vstd::std_specs::convert::FromSpec<BaseField>>::from_spec(k).expr,
        ) == (alg.constant)(k.0),
{
    reveal_with_fuel(m31_value, 3);
}

/// The operators on extension field handles are the algebra's operations on their values.
pub proof fn law_extension_operators_compute<B, E>(
    alg: vm::Algebra<B, E>,
    a: QM31Handle,
    b: QM31Handle,
    m: M31Handle,
)
    ensures
        qm31_value(alg, vstd::std_specs::ops::AddSpec::<QM31Handle>::add_spec(a, b).expr) == (
        alg.ext_plus)(qm31_value(alg, a.expr), qm31_value(alg, b.expr)),
        qm31_value(alg, vstd::std_specs::ops::SubSpec::<QM31Handle>::sub_spec(a, b).expr) == (
        alg.ext_minus)(qm31_value(alg, a.expr), qm31_value(alg, b.expr)),
        qm31_value(alg, vstd::std_specs::ops::MulSpec::<QM31Handle>::mul_spec(a, b).expr) == (
        alg.ext_times)(qm31_value(alg, a.expr), qm31_value(alg, b.expr)),
        qm31_value(alg, vstd::std_specs::ops::NegSpec::neg_spec(a).expr) == (alg.ext_negated)(
            qm31_value(alg, a.expr),
        ),
        qm31_value(alg, vstd::std_specs::ops::AddSpec::<M31Handle>::add_spec(a, m).expr) == (
        alg.mixed_plus)(qm31_value(alg, a.expr), m31_value(alg, m.expr)),
        qm31_value(alg, vstd::std_specs::ops::MulSpec::<M31Handle>::mul_spec(a, m).expr) == (
        alg.mixed_times)(qm31_value(alg, a.expr), m31_value(alg, m.expr)),
        qm31_value(
            alg,
            <QM31Handle as vstd::std_specs::convert::FromSpec<M31Handle>>::from_spec(m).expr,
        ) == (alg.embed)(m31_value(alg, m.expr)),
        qm31_value(alg, a.spec_constraint_expr()) == qm31_value(alg, a.expr),
        qm31_value(alg, m.spec_constraint_expr()) == (alg.embed)(m31_value(alg, m.expr)),
{
    reveal_with_fuel(qm31_value, 3);
}

/// A mixed operation is that of the extension on the embedded base field value, and the
/// constants are those of the extension.
pub open spec fn extends(alg: vm::Algebra<int, fields::Coords>) -> bool {
    &&& adds_in_extension(alg)
    &&& forall|a: fields::Coords, b: fields::Coords| #[trigger]
        (alg.ext_times)(a, b) == a.times(b).reduced()
    &&& forall|x: int| #[trigger] (alg.embed)(x) == fields::coords_base(x)
    &&& forall|a: fields::Coords, x: int| #[trigger]
        (alg.mixed_plus)(a, x) == a.plus(fields::coords_base(x)).reduced()
    &&& forall|a: fields::Coords, x: int| #[trigger]
        (alg.mixed_times)(a, x) == a.times(fields::coords_base(x)).reduced()
}

/// Adding or multiplying by a field element computes the sum or the product with it,
/// and a constant's value is the element.
pub proof fn law_constants_stand_for_elements(
    alg: vm::Algebra<int, fields::Coords>,
    a: QM31Handle,
    m: M31Handle,
    k: BaseField,
    c: SecureField,
)
    requires
        extends(alg),
    ensures
        qm31_value(alg, vstd::std_specs::ops::AddSpec::<BaseField>::add_spec(a, k).expr)
            == qm31_value(alg, a.expr).plus(fields::coords_base(k.0 as int)).reduced(),
        qm31_value(alg, vstd::std_specs::ops::MulSpec::<BaseField>::mul_spec(a, k).expr)
            == qm31_value(alg, a.expr).times(fields::coords_base(k.0 as int)).reduced(),
        qm31_value(alg, vstd::std_specs::ops::AddSpec::<SecureField>::add_spec(a, c).expr)
            == qm31_value(alg, a.expr).plus(c@).reduced(),
        qm31_value(alg, vstd::std_specs::ops::MulSpec::<SecureField>::mul_spec(a, c).expr)
            == qm31_value(alg, a.expr).times(c@).reduced(),
        qm31_value(alg, vstd::std_specs::ops::AddSpec::<SecureField>::add_spec(m, c).expr)
            == c@.plus(fields::coords_base(m31_value(alg, m.expr))).reduced(),
        qm31_value(alg, vstd::std_specs::ops::MulSpec::<SecureField>::mul_spec(m, c).expr)
            == c@.times(fields::coords_base(m31_value(alg, m.expr))).reduced(),
        qm31_value(
            alg,
            <QM31Handle as vstd::std_specs::convert::FromSpec<SecureField>>::from_spec(c).expr,
        ) == c@,
        qm31_value(alg, c.spec_constraint_expr()) == c@,
{
    reveal_with_fuel(qm31_value, 3);
    let base: [u32; 4] = [k.0, 0, 0, 0];
    assert((alg.ext_constant)(base) == fields::coords_base(k.0 as int));
    assert((alg.ext_constant)(spec_const_words(c)) == c@);
}

} // verus!
