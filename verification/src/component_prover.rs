//! Evaluation of a component's constraint quotients on the evaluation domain.

use crate::columns::SecureColumnByCoords;
use crate::fields;
use crate::fields::{BaseField, SecureField};
use crate::utils;
use crate::utils::{bit_reverse, pow2_usize};
use vstd::arithmetic::div_mod::*;
use vstd::arithmetic::mul::*;
use vstd::arithmetic::power2::*;
use vstd::prelude::*;
use vstd::slice::slice_to_vec;

verus! {

/// Binary logarithm of the number of lanes of a vector.
pub const LOG_N_LANES: u32 = 4;

/// Binary logarithm of the number of vectors that are evaluated at once.
pub const LOG_N_VERY_PACKED_ELEMS: u32 = 2;

/// Binary logarithm of the number of rows that are evaluated at once.
pub const LOG_N_PACKED_ROWS: u32 = 6;

/// The columns of a tree that a component names by their indices.
pub fn select_columns<T: Copy>(columns: &[T], indices: &[usize]) -> (r: Vec<T>)
    requires
        forall|i: int| 0 <= i < indices.len() ==> #[trigger] indices[i] < columns.len(),
    ensures
        r@ == Seq::new(indices@.len(), |i: int| columns@[indices@[i] as int]),
{
    let mut out: Vec<T> = Vec::new();
    for i in 0..indices.len()
        invariant
            forall|k: int| 0 <= k < indices.len() ==> #[trigger] indices[k] < columns.len(),
            out@ == Seq::new(i as nat, |k: int| columns@[indices@[k] as int]),
    {
        assert(indices[i as int] < columns.len());
        out.push(columns[indices[i]]);
        assert(out@ =~= Seq::new((i + 1) as nat, |k: int| columns@[indices@[k] as int]));
    }
    out
}

/// Whether a column of the trace is not on the evaluation domain yet.
pub fn need_to_extend(log_sizes: &[Vec<u32>], eval_log_size: u32) -> (r: bool)
    ensures
        r <==> exists|t: int, c: int|
            0 <= t < log_sizes.len() && 0 <= c < log_sizes@[t]@.len()
                && #[trigger] log_sizes@[t]@[c] != eval_log_size,
{
    for t in 0..log_sizes.len()
        invariant
            forall|s: int, c: int|
                0 <= s < t && 0 <= c < log_sizes@[s]@.len() ==> #[trigger] log_sizes@[s]@[c]
                    == eval_log_size,
    {
        let tree: &Vec<u32> = &log_sizes[t];
        for c in 0..tree.len()
            invariant
                t < log_sizes.len(),
                tree@ == log_sizes@[t as int]@,
                forall|k: int| 0 <= k < c ==> #[trigger] tree@[k] == eval_log_size,
        {
            if tree[c] != eval_log_size {
                assert(log_sizes@[t as int]@[c as int] != eval_log_size);
                return true;
            }
        }
        assert forall|s: int, c: int|
            0 <= s < t + 1 && 0 <= c < log_sizes@[s]@.len() implies #[trigger] log_sizes@[s]@[c]
            == eval_log_size by {
            if s == t {
                assert(tree@[c] == eval_log_size);
            }
        }
    }
    false
}

/// What a row of the accumulator becomes: the row's constraint value over the row's
/// denominator is added.
pub open spec fn accumulated(
    before: fields::Coords,
    row_res: fields::Coords,
    denom_inv: BaseField,
) -> fields::Coords {
    before.plus(row_res.scaled(denom_inv.0 as int).reduced()).reduced()
}

/// The inverse of a row's denominator.
pub open spec fn row_denominator(
    denom_invs: Seq<BaseField>,
    trace_log_size: u32,
    eval_log_size: u32,
    row: int,
) -> BaseField {
    utils::bit_reverse_seq(denom_invs, (eval_log_size - trace_log_size) as nat)[row / pow2(
        trace_log_size as nat,
    ) as int]
}

/// The row's value comes from the evaluation of that row.
pub open spec fn scalar_value<E: Fn(usize, &Vec<SecureField>) -> SecureField>(
    eval_row: E,
    coeffs: Vec<SecureField>,
    row: int,
    value: SecureField,
) -> bool {
    call_ensures(eval_row, (row as usize, &coeffs), value)
}

/// The row's value comes from its lane of the evaluation of the rows around it.
pub open spec fn packed_value<V: Fn(usize, &Vec<SecureField>) -> Vec<SecureField>>(
    eval_rows: V,
    coeffs: Vec<SecureField>,
    row: int,
    value: SecureField,
) -> bool {
    exists|values: Vec<SecureField>|
        #[trigger] call_ensures(eval_rows, ((row / 64) as usize, &coeffs), values)
            && values[row % 64] == value
}

/// Whether rows are evaluated one by one: the trace is too short for vectors.
pub open spec fn one_by_one(trace_log_size: u32) -> bool {
    trace_log_size < LOG_N_LANES + LOG_N_VERY_PACKED_ELEMS
}

/// The random coefficients in reverse.
fn reversed(powers: &[SecureField]) -> (r: Vec<SecureField>)
    ensures
        r@ == powers@.reverse(),
{
    let mut out: Vec<SecureField> = Vec::new();
    let n: usize = powers.len();
    for i in 0..n
        invariant
            n == powers.len(),
            out@ == powers@.reverse().take(i as int),
    {
        out.push(powers[n - 1 - i]);
        assert(out@ =~= powers@.reverse().take(i + 1));
    }
    assert(out@ =~= powers@.reverse());
    out
}

/// Adds a row's constraint value over the row's denominator to the accumulator.
fn accumulate_row(
    col: &mut SecureColumnByCoords,
    row: usize,
    row_res: SecureField,
    denom_inv: BaseField,
)
    requires
        old(col).wf(),
        old(col).canonical(),
        row < old(col)@.len(),
        row_res.wf(),
        denom_inv.wf(),
    ensures
        final(col).wf(),
        final(col).canonical(),
        final(col)@.len() == old(col)@.len(),
        final(col)@[row as int]@ == accumulated(old(col)@[row as int]@, row_res@, denom_inv),
        forall|k: int| 0 <= k < old(col)@.len() && k != row ==> #[trigger] final(col)@[k] == old(
            col,
        )@[k],
{
    assert(col@[row as int].wf());
    let sum = col.at(row).add(row_res.mul_base(denom_inv));
    let ghost was = col@;
    col.set(row, sum);
    assert forall|k: int| 0 <= k < col@.len() implies (#[trigger] col@[k]).wf() by {
        if k != row {
            assert(was[k].wf());
        }
    }
}

/// Adds a component's constraint quotients to an accumulator over the evaluation domain.
///
/// `denom_invs` are the inverses of the vanishing polynomial of the trace domain, one for
/// each of its cosets in the evaluation domain.  `eval_row` gives the random combination of
/// the constraints on a row, `eval_rows` those of 64 rows at once; both are given the
/// random coefficients in reverse.
pub fn evaluate_constraint_quotients_on_domain<
    E: Fn(usize, &Vec<SecureField>) -> SecureField,
    V: Fn(usize, &Vec<SecureField>) -> Vec<SecureField>,
>(
    col: &mut SecureColumnByCoords,
    n_constraints: usize,
    trace_log_size: u32,
    eval_log_size: u32,
    denom_invs: &[BaseField],
    random_coeff_powers: &[SecureField],
    eval_row: E,
    eval_rows: V,
)
    requires
        old(col).wf(),
        old(col).canonical(),
        n_constraints > 0 ==> {
            &&& trace_log_size <= eval_log_size <= 31
            &&& old(col)@.len() == pow2(eval_log_size as nat)
            &&& denom_invs.len() == pow2((eval_log_size - trace_log_size) as nat)
        },
        forall|i: int| 0 <= i < denom_invs.len() ==> (#[trigger] denom_invs[i]).wf(),
        n_constraints > 0 && one_by_one(trace_log_size) ==> {
            &&& forall|row: usize, coeffs: Vec<SecureField>|
                row < old(col)@.len() && is_reverse_of(coeffs, random_coeff_powers@)
                    ==> #[trigger] call_requires(eval_row, (row, &coeffs))
            &&& forall|row: usize, coeffs: Vec<SecureField>, value: SecureField|
                row < old(col)@.len() && is_reverse_of(coeffs, random_coeff_powers@)
                    && #[trigger] call_ensures(eval_row, (row, &coeffs), value) ==> value.wf()
        },
        n_constraints > 0 && !one_by_one(trace_log_size) ==> {
            &&& forall|row: usize, coeffs: Vec<SecureField>|
                64 * row < old(col)@.len() && is_reverse_of(coeffs, random_coeff_powers@)
                    ==> #[trigger] call_requires(eval_rows, (row, &coeffs))
            &&& forall|row: usize, coeffs: Vec<SecureField>, values: Vec<SecureField>|
                64 * row < old(col)@.len() && is_reverse_of(coeffs, random_coeff_powers@)
                    && #[trigger] call_ensures(eval_rows, (row, &coeffs), values)
                    ==> values.len() == 64 && forall|i: int|
                    0 <= i < 64 ==> (#[trigger] values[i]).wf()
        },
    ensures
        final(col).wf(),
        final(col).canonical(),
        final(col)@.len() == old(col)@.len(),
        n_constraints == 0 ==> final(col)@ == old(col)@,
        n_constraints > 0 ==> exists|coeffs: Vec<SecureField>|
            #[trigger] is_reverse_of(coeffs, random_coeff_powers@) && forall|row: int|
                0 <= row < final(col)@.len() ==> #[trigger] row_done(
                    eval_row,
                    eval_rows,
                    coeffs,
                    denom_invs@,
                    trace_log_size,
                    eval_log_size,
                    row,
                    old(col)@[row]@,
                    final(col)@[row]@,
                ),
{
    if n_constraints == 0 {
        return ;
    }
    let ghost before = col@;
    let ghost log_expand = (eval_log_size - trace_log_size) as nat;
    let mut denom_inv: Vec<BaseField> = slice_to_vec(denom_invs);
    proof {
        utils::lemma_floor_log2_of_pow2(log_expand);
        lemma_pow2_pos(log_expand);
        lemma_pow2_pos(trace_log_size as nat);
        lemma_pow2_adds(log_expand, trace_log_size as nat);
        lemma2_to64();
        if eval_log_size < 31 {
            lemma_pow2_strictly_increases(eval_log_size as nat, 31);
        }
        if trace_log_size < 31 {
            lemma_pow2_strictly_increases(trace_log_size as nat, 31);
        }
    }
    bit_reverse(&mut denom_inv);
    proof {
        assert forall|i: int| 0 <= i < denom_inv@.len() implies (#[trigger] denom_inv@[i]).wf() by {
            utils::lemma_bit_reversed_bound(i, log_expand);
            assert(denom_invs[utils::bit_reversed(i, log_expand)].wf());
        }
    }
    let coeffs = reversed(random_coeff_powers);
    assert(is_reverse_of(coeffs, random_coeff_powers@));
    let rows: usize = pow2_usize(eval_log_size);
    let per_coset: usize = pow2_usize(trace_log_size);
    if trace_log_size < LOG_N_LANES + LOG_N_VERY_PACKED_ELEMS {
        for row in 0..rows
            invariant
                one_by_one(trace_log_size),
                rows == pow2(eval_log_size as nat),
                per_coset == pow2(trace_log_size as nat),
                per_coset > 0,
                rows == pow2(log_expand) * per_coset,
                log_expand == (eval_log_size - trace_log_size) as nat,
                denom_inv@ == utils::bit_reverse_seq(denom_invs@, log_expand),
                denom_inv@.len() == pow2(log_expand),
                forall|i: int| 0 <= i < denom_inv@.len() ==> (#[trigger] denom_inv@[i]).wf(),
                is_reverse_of(coeffs, random_coeff_powers@),
                forall|r: usize, cs: Vec<SecureField>|
                    r < rows && is_reverse_of(cs, random_coeff_powers@)
                        ==> #[trigger] call_requires(eval_row, (r, &cs)),
                forall|r: usize, cs: Vec<SecureField>, value: SecureField|
                    r < rows && is_reverse_of(cs, random_coeff_powers@)
                        && #[trigger] call_ensures(eval_row, (r, &cs), value) ==> value.wf(),
                col.wf(),
                col.canonical(),
                col@.len() == rows,
                before.len() == rows,
                forall|r: int| row <= r < rows ==> #[trigger] col@[r] == before[r],
                forall|r: int|
                    0 <= r < row ==> #[trigger] row_done(
                        eval_row,
                        eval_rows,
                        coeffs,
                        denom_invs@,
                        trace_log_size,
                        eval_log_size,
                        r,
                        before[r]@,
                        col@[r]@,
                    ),
        {
            proof {
                lemma_coset_in_range(row as int, per_coset as int, pow2(log_expand) as int);
            }
            let ghost was = col@;
            let coset: usize = row / per_coset;
            let row_res = eval_row(row, &coeffs);
            assert(scalar_value(eval_row, coeffs, row as int, row_res));
            assert(denom_inv@[coset as int].wf());
            accumulate_row(col, row, row_res, denom_inv[coset]);
            proof {
                assert(value_of_row(
                    eval_row,
                    eval_rows,
                    coeffs,
                    trace_log_size,
                    row as int,
                    row_res,
                ));
                assert forall|r: int| 0 <= r < row + 1 implies #[trigger] row_done(
                    eval_row,
                    eval_rows,
                    coeffs,
                    denom_invs@,
                    trace_log_size,
                    eval_log_size,
                    r,
                    before[r]@,
                    col@[r]@,
                ) by {
                    if r < row {
                        assert(col@[r] == was[r]);
                        assert(row_done(
                            eval_row,
                            eval_rows,
                            coeffs,
                            denom_invs@,
                            trace_log_size,
                            eval_log_size,
                            r,
                            before[r]@,
                            was[r]@,
                        ));
                    }
                }
            }
        }
        return ;
    }
    proof {
        lemma_pow2_adds(6, (trace_log_size - 6) as nat);
        lemma_pow2_pos((trace_log_size - 6) as nat);
        lemma_mul_is_associative(
            pow2(log_expand) as int,
            64,
            pow2((trace_log_size - 6) as nat) as int,
        );
        lemma_packed_row_count(
            rows as int,
            pow2(log_expand) as int,
            pow2((trace_log_size - 6) as nat) as int,
        );
    }
    let vec_rows: usize = rows / 64;
    let vecs_per_coset: usize = pow2_usize(trace_log_size - LOG_N_PACKED_ROWS);
    for vec_row in 0..vec_rows
        invariant
            !one_by_one(trace_log_size),
            rows == pow2(eval_log_size as nat),
            vec_rows * 64 == rows,
            per_coset == pow2(trace_log_size as nat),
            per_coset == 64 * vecs_per_coset,
            vecs_per_coset > 0,
            vec_rows == pow2(log_expand) * vecs_per_coset,
            log_expand == (eval_log_size - trace_log_size) as nat,
            denom_inv@ == utils::bit_reverse_seq(denom_invs@, log_expand),
            denom_inv@.len() == pow2(log_expand),
            forall|i: int| 0 <= i < denom_inv@.len() ==> (#[trigger] denom_inv@[i]).wf(),
            is_reverse_of(coeffs, random_coeff_powers@),
            forall|r: usize, cs: Vec<SecureField>|
                64 * r < rows && is_reverse_of(cs, random_coeff_powers@)
                    ==> #[trigger] call_requires(eval_rows, (r, &cs)),
            forall|r: usize, cs: Vec<SecureField>, values: Vec<SecureField>|
                64 * r < rows && is_reverse_of(cs, random_coeff_powers@)
                    && #[trigger] call_ensures(eval_rows, (r, &cs), values) ==> values.len() == 64
                    && forall|i: int| 0 <= i < 64 ==> (#[trigger] values[i]).wf(),
            col.wf(),
            col.canonical(),
            col@.len() == rows,
            before.len() == rows,
            forall|r: int| 64 * vec_row <= r < rows ==> #[trigger] col@[r] == before[r],
            forall|r: int|
                0 <= r < 64 * vec_row ==> #[trigger] row_done(
                    eval_row,
                    eval_rows,
                    coeffs,
                    denom_invs@,
                    trace_log_size,
                    eval_log_size,
                    r,
                    before[r]@,
                    col@[r]@,
                ),
    {
        proof {
            lemma_coset_in_range(vec_row as int, vecs_per_coset as int, pow2(log_expand) as int);
        }
        let row_res = eval_rows(vec_row, &coeffs);
        let coset: usize = vec_row / vecs_per_coset;
        assert(denom_inv@[coset as int].wf());
        let broadcast: BaseField = denom_inv[coset];
        for lane in 0..64usize
            invariant
                !one_by_one(trace_log_size),
                vec_row < vec_rows,
                vec_rows * 64 == rows,
                per_coset == pow2(trace_log_size as nat),
                per_coset == 64 * vecs_per_coset,
                vecs_per_coset > 0,
                coset == vec_row / vecs_per_coset,
                broadcast.wf(),
                broadcast == denom_inv@[coset as int],
                log_expand == (eval_log_size - trace_log_size) as nat,
                denom_inv@ == utils::bit_reverse_seq(denom_invs@, log_expand),
                call_ensures(eval_rows, (vec_row, &coeffs), row_res),
                row_res.len() == 64,
                forall|i: int| 0 <= i < 64 ==> (#[trigger] row_res[i]).wf(),
                col.wf(),
                col.canonical(),
                col@.len() == rows,
                before.len() == rows,
                forall|r: int| 64 * vec_row + lane <= r < rows ==> #[trigger] col@[r] == before[r],
                forall|r: int|
                    0 <= r < 64 * vec_row + lane ==> #[trigger] row_done(
                        eval_row,
                        eval_rows,
                        coeffs,
                        denom_invs@,
                        trace_log_size,
                        eval_log_size,
                        r,
                        before[r]@,
                        col@[r]@,
                    ),
        {
            let row: usize = 64 * vec_row + lane;
            let ghost was = col@;
            assert(row_res[lane as int].wf());
            accumulate_row(col, row, row_res[lane], broadcast);
            proof {
                law_packed_denominator_is_row_denominator(row as int, vecs_per_coset as int);
                assert(row as int / 64 == vec_row && row as int % 64 == lane);
                assert(packed_value(eval_rows, coeffs, row as int, row_res[lane as int]));
                assert(value_of_row(
                    eval_row,
                    eval_rows,
                    coeffs,
                    trace_log_size,
                    row as int,
                    row_res[lane as int],
                ));
                assert forall|r: int| 0 <= r < row + 1 implies #[trigger] row_done(
                    eval_row,
                    eval_rows,
                    coeffs,
                    denom_invs@,
                    trace_log_size,
                    eval_log_size,
                    r,
                    before[r]@,
                    col@[r]@,
                ) by {
                    if r < row {
                        assert(col@[r] == was[r]);
                        assert(row_done(
                            eval_row,
                            eval_rows,
                            coeffs,
                            denom_invs@,
                            trace_log_size,
                            eval_log_size,
                            r,
                            before[r]@,
                            was[r]@,
                        ));
                    }
                }
            }
        }
    }
}

/// The coefficients are the powers in reverse.
pub open spec fn is_reverse_of(coeffs: Vec<SecureField>, powers: Seq<SecureField>) -> bool {
    coeffs@ == powers.reverse()
}

/// The row's value, by itself or by its lane.
pub open spec fn value_of_row<
    E: Fn(usize, &Vec<SecureField>) -> SecureField,
    V: Fn(usize, &Vec<SecureField>) -> Vec<SecureField>,
>(
    eval_row: E,
    eval_rows: V,
    coeffs: Vec<SecureField>,
    trace_log_size: u32,
    row: int,
    value: SecureField,
) -> bool {
    if one_by_one(trace_log_size) {
        scalar_value(eval_row, coeffs, row, value)
    } else {
        packed_value(eval_rows, coeffs, row, value)
    }
}

/// A row of the accumulator went from one value to another by the row's quotient.
pub open spec fn row_done<
    E: Fn(usize, &Vec<SecureField>) -> SecureField,
    V: Fn(usize, &Vec<SecureField>) -> Vec<SecureField>,
>(
    eval_row: E,
    eval_rows: V,
    coeffs: Vec<SecureField>,
    denom_invs: Seq<BaseField>,
    trace_log_size: u32,
    eval_log_size: u32,
    row: int,
    before: fields::Coords,
    after: fields::Coords,
) -> bool {
    exists|value: SecureField|
        #[trigger] value_of_row(eval_row, eval_rows, coeffs, trace_log_size, row, value) && after
            == accumulated(
            before,
            value@,
            row_denominator(denom_invs, trace_log_size, eval_log_size, row),
        )
}

proof fn lemma_coset_in_range(row: int, per_coset: int, cosets: int)
    requires
        per_coset > 0,
        0 <= row < cosets * per_coset,
    ensures
        0 <= row / per_coset < cosets,
{
    lemma_div_by_multiple_is_strongly_ordered(row, cosets * per_coset, cosets, per_coset);
    lemma_div_multiples_vanish(cosets, per_coset);
    lemma_mul_is_commutative(cosets, per_coset);
    lemma_div_pos_is_pos(row, per_coset);
}

proof fn lemma_packed_row_count(rows: int, cosets: int, vecs_per_coset: int)
    requires
        rows == cosets * (64 * vecs_per_coset),
    ensures
        rows / 64 == cosets * vecs_per_coset,
        (rows / 64) * 64 == rows,
{
    assert(rows == 64 * (cosets * vecs_per_coset)) by (nonlinear_arith)
        requires
            rows == cosets * (64 * vecs_per_coset),
    ;
}

/// Rows that are evaluated together share a denominator, and it is that of each of them.
pub proof fn law_packed_denominator_is_row_denominator(row: int, vecs_per_coset: int)
    requires
        row >= 0,
        vecs_per_coset > 0,
    ensures
        (row / 64) / vecs_per_coset == row / (64 * vecs_per_coset),
{
    lemma_div_denominator(row, 64, vecs_per_coset);
}

/// A change by a quotient, in one coordinate: times the denominator it is the value.
proof fn lemma_change_is_quotient(before: int, value: int, inverse: int, denominator: int)
    requires
        0 <= value < fields::P,
        fields::modp(denominator * inverse) == 1,
    ensures
        ({
            let after = fields::modp(before + fields::modp(value * inverse));
            fields::modp((after - before) * denominator) == value
        }),
{
    let p = fields::P as int;
    let part = fields::modp(value * inverse);
    let after = fields::modp(before + part);
    // The change is congruent to the quotient.
    lemma_sub_mod_noop(before + part, before, p);
    lemma_sub_mod_noop(after, before, p);
    lemma_mod_twice(before + part, p);
    lemma_mod_twice(value * inverse, p);
    assert((after - before) % p == (value * inverse) % p);
    lemma_mul_mod_noop_left(after - before, denominator, p);
    lemma_mul_mod_noop_left(value * inverse, denominator, p);
    assert((value * inverse) * denominator == value * (denominator * inverse)) by (nonlinear_arith);
    lemma_mul_mod_noop_right(value, denominator * inverse, p);
    assert(value * 1 == value);
    lemma_small_mod(value as nat, fields::P as nat);
}

/// The change of a row of the accumulator is a quotient: times the row's denominator, it is
/// the row's value, in every coordinate.  It is also the product of the value and the inverse
/// as an element of the extension field.
pub proof fn law_row_change_is_quotient(
    before: fields::Coords,
    value: SecureField,
    denom_inv: BaseField,
    denominator: int,
)
    requires
        value.wf(),
        fields::modp(denominator * denom_inv.0) == 1,
    ensures
        ({
            let after = accumulated(before, value@, denom_inv);
            let inverse = fields::Coords { c0: denom_inv.0 as int, c1: 0, c2: 0, c3: 0 };
            &&& after.minus(before).scaled(denominator).reduced() == value@
            &&& after == before.plus(value@.times(inverse)).reduced()
        }),
{
    let k = denom_inv.0 as int;
    lemma_change_is_quotient(before.c0, value.c0.0 as int, k, denominator);
    lemma_change_is_quotient(before.c1, value.c1.0 as int, k, denominator);
    lemma_change_is_quotient(before.c2, value.c2.0 as int, k, denominator);
    lemma_change_is_quotient(before.c3, value.c3.0 as int, k, denominator);
    fields::lemma_reduced_terms(before, value@.scaled(k));
    let inverse = fields::Coords { c0: k, c1: 0, c2: 0, c3: 0 };
    let v = value@;
    assert(v.times(inverse) == v.scaled(k)) by {
        assert(v.c0 * 0 == 0 && v.c1 * 0 == 0 && v.c2 * 0 == 0 && v.c3 * 0 == 0);
    }
}

/// The natural index of a row, modulo the number of cosets, is the number of its coset,
/// reversed.
proof fn lemma_row_of_coset(row: int, trace_log: nat, log_expand: nat)
    requires
        0 <= row,
    ensures
        utils::bit_reversed(row, trace_log + log_expand) % (pow2(log_expand) as int)
            == utils::bit_reversed(row / pow2(trace_log) as int, log_expand),
    decreases trace_log,
{
    let e = pow2(log_expand) as int;
    lemma_pow2_pos(log_expand);
    lemma2_to64();
    if trace_log == 0 {
        utils::lemma_bit_reversed_bound(row, log_expand);
        lemma_small_mod(utils::bit_reversed(row, log_expand) as nat, pow2(log_expand));
        assert(row / 1 == row);
    } else {
        let t = (trace_log - 1) as nat;
        lemma_row_of_coset(row / 2, t, log_expand);
        lemma_pow2_adds(t, log_expand);
        lemma_pow2_unfold(trace_log);
        lemma_pow2_pos(t);
        lemma_div_denominator(row, 2, pow2(t) as int);
        let rest = utils::bit_reversed(row / 2, t + log_expand);
        let top = (row % 2) * pow2(t);
        assert((row % 2) * pow2(t + log_expand) == e * top) by (nonlinear_arith)
            requires
                pow2(t + log_expand) == pow2(t) * pow2(log_expand),
                e == pow2(log_expand),
                top == (row % 2) * pow2(t),
        ;
        lemma_mod_multiples_vanish(top, rest, e);
    }
}

/// A row's denominator is that of the row's point: rows are in bit-reversed order, and the
/// inverses repeat along the points in natural order.
pub proof fn law_row_denominator_of_point(
    denom_invs: Seq<BaseField>,
    trace_log_size: u32,
    eval_log_size: u32,
    row: int,
)
    requires
        trace_log_size <= eval_log_size,
        denom_invs.len() == pow2((eval_log_size - trace_log_size) as nat),
        0 <= row < pow2(eval_log_size as nat),
    ensures
        row_denominator(denom_invs, trace_log_size, eval_log_size, row)
            == denom_invs[utils::bit_reversed(row, eval_log_size as nat) % (denom_invs.len()
            as int)],
{
    let e = (eval_log_size - trace_log_size) as nat;
    let t = trace_log_size as nat;
    lemma_row_of_coset(row, t, e);
    lemma_pow2_adds(e, t);
    lemma_pow2_pos(t);
    lemma_coset_in_range(row, pow2(t) as int, pow2(e) as int);
}

/// What becomes of a row of the accumulator: its change, times the denominator of the row's
/// point, is the row's constraint value.
pub proof fn law_rows_gain_quotients<
    E: Fn(usize, &Vec<SecureField>) -> SecureField,
    V: Fn(usize, &Vec<SecureField>) -> Vec<SecureField>,
>(
    eval_row: E,
    eval_rows: V,
    coeffs: Vec<SecureField>,
    denom_invs: Seq<BaseField>,
    denominators: Seq<int>,
    trace_log_size: u32,
    eval_log_size: u32,
    row: int,
    before: fields::Coords,
    after: fields::Coords,
)
    requires
        trace_log_size <= eval_log_size,
        denom_invs.len() == pow2((eval_log_size - trace_log_size) as nat),
        denominators.len() == denom_invs.len(),
        forall|i: int|
            0 <= i < denom_invs.len() ==> fields::modp(
                #[trigger] denominators[i] * denom_invs[i].0,
            ) == 1,
        0 <= row < pow2(eval_log_size as nat),
        forall|value: SecureField| #[trigger]
            value_of_row(eval_row, eval_rows, coeffs, trace_log_size, row, value) ==> value.wf(),
        row_done(
            eval_row,
            eval_rows,
            coeffs,
            denom_invs,
            trace_log_size,
            eval_log_size,
            row,
            before,
            after,
        ),
    ensures
        ({
            let point = utils::bit_reversed(row, eval_log_size as nat);
            exists|value: SecureField|
                #[trigger] value_of_row(eval_row, eval_rows, coeffs, trace_log_size, row, value)
                    && after.minus(before).scaled(
                    denominators[point % (denom_invs.len() as int)],
                ).reduced() == value@
        }),
{
    let value = choose|value: SecureField|
        #[trigger] value_of_row(eval_row, eval_rows, coeffs, trace_log_size, row, value) && after
            == accumulated(
            before,
            value@,
            row_denominator(denom_invs, trace_log_size, eval_log_size, row),
        );
    let point = utils::bit_reversed(row, eval_log_size as nat);
    let k = point % (denom_invs.len() as int);
    law_row_denominator_of_point(denom_invs, trace_log_size, eval_log_size, row);
    lemma_pow2_pos((eval_log_size - trace_log_size) as nat);
    lemma_mod_bound(point, denom_invs.len() as int);
    assert(fields::modp(denominators[k] * denom_invs[k].0) == 1);
    law_row_change_is_quotient(before, value, denom_invs[k], denominators[k]);
}

/// Rows that are evaluated together get the values that they get one by one: where row `r`
/// has the value `values(r)`, and 64 rows at once have theirs in order, the value that is
/// used for a row is its own.
pub proof fn law_packed_rows_get_their_own_values<
    E: Fn(usize, &Vec<SecureField>) -> SecureField,
    V: Fn(usize, &Vec<SecureField>) -> Vec<SecureField>,
>(
    eval_row: E,
    eval_rows: V,
    values: spec_fn(int) -> SecureField,
    coeffs: Vec<SecureField>,
    trace_log_size: u32,
    row: int,
    value: SecureField,
)
    requires
        0 <= row <= usize::MAX,
        forall|r: usize, found: SecureField| #[trigger]
            call_ensures(eval_row, (r, &coeffs), found) ==> found == values(r as int),
        forall|r: usize, found: Vec<SecureField>, lane: int|
            #![trigger call_ensures(eval_rows, (r, &coeffs), found), found[lane]]
            call_ensures(eval_rows, (r, &coeffs), found) && 0 <= lane < 64 ==> found[lane]
                == values(64 * r + lane),
        value_of_row(eval_row, eval_rows, coeffs, trace_log_size, row, value),
    ensures
        value == values(row),
{
    if !one_by_one(trace_log_size) {
        let found = choose|found: Vec<SecureField>|
            #[trigger] call_ensures(eval_rows, ((row / 64) as usize, &coeffs), found)
                && found[row % 64] == value;
        assert(found[row % 64] == values(64 * (row / 64) + row % 64));
    }
}

/// The constraints get the powers from the highest down: the first constraint gets the last
/// power, and the last constraint the first.
pub proof fn law_first_constraint_gets_last_power(
    coeffs: Vec<SecureField>,
    powers: Seq<SecureField>,
    i: int,
)
    requires
        is_reverse_of(coeffs, powers),
        0 <= i < powers.len(),
    ensures
        coeffs@.len() == powers.len(),
        coeffs@[i] == powers[powers.len() - 1 - i],
{
}

} // verus!
