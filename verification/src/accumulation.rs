//! Accumulation of columns and powers of a random element.

use crate::columns::SecureColumnByCoords;
use crate::fields;
use crate::fields::{BaseField, SecureField};
use crate::kernel;
use crate::kernel::{threads_for, whole, Arg, Kernel, Plan, Source};
use vstd::prelude::*;

verus! {

/// Least length of columns that are accumulated on the device.
pub const MIN_GPU_ACCUMULATE_SIZE: usize = 1024;

/// The launch that adds coordinate `i` of one column to that of the other.
pub open spec fn accumulate_dispatch(len: nat, i: int) -> kernel::DispatchView {
    kernel::DispatchView {
        kernel: Kernel::AccumulateM31,
        args: seq![
            kernel::spec_whole(i as usize),
            kernel::spec_whole((4 + i) as usize),
            Arg::U32(len as u32),
        ],
        grid: kernel::spec_threads_for(len as u64),
    }
}

/// Accumulation on the device: the caller's buffers 0 to 3 are the coordinates of the
/// column that is added to, 4 to 7 those of the other column.
pub open spec fn accumulate_plan(len: nat) -> kernel::PlanView {
    kernel::PlanView {
        buffers: Seq::new(8, |i: int| kernel::SourceView::Input(i as usize)),
        dispatches: Seq::new(4, |i: int| accumulate_dispatch(len, i)),
    }
}

/// The sum of two columns, element by element.
pub open spec fn column_sum(a: Seq<SecureField>, b: Seq<SecureField>, i: int) -> fields::Coords {
    a[i]@.plus(b[i]@).reduced()
}

/// Adds a column to another.  Short columns are added here; for long ones the addition on
/// the device is planned and `column` is left as it is.
pub fn accumulate(column: &mut SecureColumnByCoords, other: &SecureColumnByCoords) -> (r: Option<
    Plan,
>)
    requires
        old(column).wf(),
        other.wf(),
        old(column)@.len() == other@.len(),
        old(column).canonical(),
        other.canonical(),
    ensures
        final(column).wf(),
        final(column)@.len() == old(column)@.len(),
        r is Some <==> old(column)@.len() >= MIN_GPU_ACCUMULATE_SIZE,
        r matches Some(plan) ==> {
            &&& final(column)@ == old(column)@
            &&& plan@.wf()
            &&& plan@ == accumulate_plan(old(column)@.len())
        },
        r is None ==> final(column).canonical() && forall|i: int|
            0 <= i < final(column)@.len() ==> (#[trigger] final(column)@[i])@ == column_sum(
                old(column)@,
                other@,
                i,
            ),
{
    let len: usize = column.len();
    if len >= MIN_GPU_ACCUMULATE_SIZE {
        let plan = plan_accumulate(len);
        return Some(plan);
    }
    let ghost before = column@;
    for i in 0..len
        invariant
            len == before.len(),
            other@.len() == len,
            other.wf(),
            other.canonical(),
            column.wf(),
            column@.len() == len,
            column.canonical(),
            forall|k: int|
                0 <= k < i ==> (#[trigger] column@[k])@ == column_sum(before, other@, k),
            forall|k: int| i <= k < len ==> #[trigger] column@[k] == before[k],
    {
        let ghost was = column@;
        assert(column@[i as int].wf());
        assert(other@[i as int].wf());
        let sum = column.at(i).add(other.at(i));
        column.set(i, sum);
        assert(column@ == was.update(i as int, sum));
        assert forall|k: int| 0 <= k < column@.len() implies (#[trigger] column@[k]).wf() by {
            if k != i {
                assert(was[k].wf());
            }
        }
    }
    None
}

/// Plans the accumulation of columns of a length.
fn plan_accumulate(len: usize) -> (r: Plan)
    ensures
        r@.wf(),
        r@ == accumulate_plan(len as nat),
{
    let mut plan = Plan::new();
    for i in 0..8usize
        invariant
            plan@.buffers == Seq::new(i as nat, |k: int| kernel::SourceView::Input(k as usize)),
            plan@.dispatches == Seq::<kernel::DispatchView>::empty(),
    {
        plan.add_buffer(Source::Input(i));
        assert(plan@.buffers =~= Seq::new(
            (i + 1) as nat,
            |k: int| kernel::SourceView::Input(k as usize),
        ));
    }
    for i in 0..4usize
        invariant
            plan@.buffers == Seq::new(8, |k: int| kernel::SourceView::Input(k as usize)),
            plan@.dispatches == Seq::new(i as nat, |k: int| accumulate_dispatch(len as nat, k)),
    {
        let args = vec![whole(i), whole(4 + i), Arg::U32(len as u32)];
        assert(args@ =~= accumulate_dispatch(len as nat, i as int).args);
        plan.dispatch(Kernel::AccumulateM31, args, threads_for(len as u64));
        assert(plan@.dispatches =~= Seq::new(
            (i + 1) as nat,
            |k: int| accumulate_dispatch(len as nat, k),
        ));
    }
    assert(plan@ =~= accumulate_plan(len as nat));
    plan
}

/// The buffers after a launch that adds the values of one to those of another.
pub open spec fn added(
    buffers: Seq<Seq<BaseField>>,
    d: kernel::DispatchView,
) -> Seq<Seq<BaseField>> {
    match (d.kernel, d.args[0], d.args[1], d.args[2]) {
        (
            Kernel::AccumulateM31,
            Arg::Buffer { slot: to, offset: 0 },
            Arg::Buffer { slot: from, offset: 0 },
            Arg::U32(n),
        ) => buffers.update(
            to as int,
            Seq::new(
                buffers[to as int].len(),
                |i: int|
                    if i < n && i < kernel::launched(d.grid) {
                        BaseField(
                            fields::modp(
                                buffers[to as int][i].0 + buffers[from as int][i].0,
                            ) as u32,
                        )
                    } else {
                        buffers[to as int][i]
                    },
            ),
        ),
        _ => buffers,
    }
}

/// The buffers after the first `k` launches.
pub open spec fn added_upto(
    buffers: Seq<Seq<BaseField>>,
    dispatches: Seq<kernel::DispatchView>,
    k: nat,
) -> Seq<Seq<BaseField>>
    decreases k,
{
    if k == 0 {
        buffers
    } else {
        added(added_upto(buffers, dispatches, (k - 1) as nat), dispatches[k - 1])
    }
}

/// The device adds up columns as the processor does: performing the plan leaves in the first
/// four buffers the coordinates of the sums.
pub proof fn law_device_sums(
    a: SecureColumnByCoords,
    b: SecureColumnByCoords,
    buffers: Seq<Seq<BaseField>>,
    i: int,
)
    requires
        a.wf(),
        b.wf(),
        a@.len() == b@.len() <= u32::MAX,
        0 <= i < a@.len(),
        buffers == seq![a.c0@, a.c1@, a.c2@, a.c3@, b.c0@, b.c1@, b.c2@, b.c3@],
    ensures
        ({
            let plan = accumulate_plan(a@.len());
            let out = added_upto(buffers, plan.dispatches, plan.dispatches.len());
            let sum = a@[i]@.plus(b@[i]@).reduced();
            &&& plan.buffers.len() == 8
            &&& forall|s: int|
                0 <= s < 8 ==> #[trigger] plan.buffers[s] == kernel::SourceView::Input(s as usize)
            &&& column_sum(a@, b@, i) == sum
            &&& out[0][i].0 == sum.c0
            &&& out[1][i].0 == sum.c1
            &&& out[2][i].0 == sum.c2
            &&& out[3][i].0 == sum.c3
        }),
{
    let ds = accumulate_plan(a@.len()).dispatches;
    assert forall|k: int| 0 <= k < 4 implies (#[trigger] ds[k]).args == seq![
        kernel::spec_whole(k as usize),
        kernel::spec_whole((4 + k) as usize),
        Arg::U32(a@.len() as u32),
    ] && ds[k].kernel == Kernel::AccumulateM31 && kernel::launched(ds[k].grid) == a@.len() by {}
    let b1 = added_upto(buffers, ds, 1);
    let b2 = added_upto(buffers, ds, 2);
    let b3 = added_upto(buffers, ds, 3);
    let b4 = added_upto(buffers, ds, 4);
    reveal_with_fuel(added_upto, 2);
    assert(b1 == added(buffers, ds[0]));
    assert(b2 == added(b1, ds[1]));
    assert(b3 == added(b2, ds[2]));
    assert(b4 == added(b3, ds[3]));
}

/// A power of an extension field element.
pub open spec fn power(felt: fields::Coords, n: nat) -> fields::Coords
    decreases n,
{
    if n == 0 {
        fields::coords_one()
    } else {
        power(felt, (n - 1) as nat).times(felt).reduced()
    }
}

/// The first powers of an element, from the zeroth on.
pub fn generate_secure_powers(felt: SecureField, n_powers: usize) -> (r: Vec<SecureField>)
    requires
        felt.wf(),
    ensures
        r.len() == n_powers,
        forall|i: int|
            #![trigger r[i]]
            0 <= i < n_powers ==> r[i].wf() && r[i]@ == power(felt@, i as nat),
{
    let mut out: Vec<SecureField> = Vec::new();
    let mut next = SecureField::one();
    for i in 0..n_powers
        invariant
            felt.wf(),
            out.len() == i,
            next.wf(),
            next@ == power(felt@, i as nat),
            forall|k: int|
                #![trigger out[k]]
                0 <= k < i ==> out[k].wf() && out[k]@ == power(felt@, k as nat),
    {
        out.push(next);
        next = next.mul(felt);
    }
    out
}

/// Powers are canonical.
proof fn lemma_power_reduced(felt: fields::Coords, n: nat)
    ensures
        power(felt, n).reduced() == power(felt, n),
{
    if n > 0 {
        fields::lemma_reduced_terms(
            power(felt, (n - 1) as nat).times(felt),
            fields::coords_zero(),
        );
    }
}

/// The zeroth power is one, and the first is the element.
pub proof fn law_first_powers(felt: SecureField)
    requires
        felt.wf(),
    ensures
        power(felt@, 0) == fields::coords_one(),
        power(felt@, 1) == felt@,
{
    reveal_with_fuel(power, 2);
    fields::law_extension_relations(0, felt@);
}

/// Exponents add up: the product of two powers is the power with both exponents.
pub proof fn law_powers_multiply(felt: fields::Coords, m: nat, n: nat)
    ensures
        power(felt, m + n) == power(felt, m).times(power(felt, n)).reduced(),
    decreases n,
{
    let a = power(felt, m);
    if n == 0 {
        fields::law_times_commutes(a, fields::coords_one());
        fields::law_extension_relations(0, a);
        lemma_power_reduced(felt, m);
    } else {
        let b = power(felt, (n - 1) as nat);
        law_powers_multiply(felt, m, (n - 1) as nat);
        fields::lemma_reduced_factors(a.times(b), felt);
        fields::law_times_associates(a, b, felt);
        fields::lemma_reduced_factors(a, b.times(felt));
        assert(power(felt, m + n) == power(felt, (m + n - 1) as nat).times(felt).reduced());
    }
}

} // verus!
