//! What bytecode means: a model of the stack machine, over any algebra of values.

use crate::bytecode::Instruction;
use vstd::prelude::*;

verus! {

/// Numbers of values on the two stacks.
pub struct Heights {
    pub m31: int,
    pub qm31: int,
}

impl Heights {
    pub open spec fn moved(self, m31: int, qm31: int) -> Heights {
        Heights { m31: self.m31 + m31, qm31: self.qm31 + qm31 }
    }

    /// The larger number on each stack.
    pub open spec fn max(self, o: Heights) -> Heights {
        Heights {
            m31: vstd::math::max(self.m31, o.m31),
            qm31: vstd::math::max(self.qm31, o.qm31),
        }
    }
}

/// How an instruction changes the stack heights.
pub open spec fn step_heights(instr: Instruction, h: Heights) -> Heights {
    match instr {
        Instruction::LoadTraceM31 { .. } | Instruction::LoadConstM31 { .. }
        | Instruction::DupM31 { .. } => h.moved(1, 0),
        Instruction::PopM31 => h.moved(-1, 0),
        Instruction::AddM31 | Instruction::SubM31 | Instruction::MulM31 => h.moved(-1, 0),
        Instruction::LoadTraceQM31 { .. } | Instruction::LoadConstQM31 { .. }
        | Instruction::DupQM31 { .. } | Instruction::LoadRandomCoeff { .. } => h.moved(0, 1),
        Instruction::PopQM31 => h.moved(0, -1),
        Instruction::AddQM31 | Instruction::SubQM31 | Instruction::MulQM31 => h.moved(0, -1),
        Instruction::M31ToQM31 => h.moved(-1, 1),
        Instruction::CombineEF => h.moved(-4, 1),
        Instruction::MulM31QM31 | Instruction::AddM31QM31 => h.moved(-1, 0),
        Instruction::AddConstraint => h.moved(0, -1),
        Instruction::WriteLogupFrac => h.moved(0, -2),
        _ => h,
    }
}

/// The stack heights after a sequence of instructions.
pub open spec fn heights(instrs: Seq<Instruction>, h: Heights) -> Heights
    decreases instrs.len(),
{
    if instrs.len() == 0 {
        h
    } else {
        step_heights(instrs.last(), heights(instrs.drop_last(), h))
    }
}

/// The largest heights reached while a sequence of instructions runs.
pub open spec fn peak(instrs: Seq<Instruction>, h: Heights) -> Heights
    decreases instrs.len(),
{
    if instrs.len() == 0 {
        h
    } else {
        peak(instrs.drop_last(), h).max(heights(instrs, h))
    }
}

/// The operations of the two fields, the trace and the random coefficients, as one
/// row sees them.
#[verifier::reject_recursive_types(B)]
#[verifier::reject_recursive_types(E)]
pub struct Algebra<B, E> {
    pub trace: spec_fn(u8, u16, i16) -> B,
    pub constant: spec_fn(u32) -> B,
    pub plus: spec_fn(B, B) -> B,
    pub minus: spec_fn(B, B) -> B,
    pub times: spec_fn(B, B) -> B,
    pub negated: spec_fn(B) -> B,
    pub squared: spec_fn(B) -> B,
    pub inverted: spec_fn(B) -> B,
    pub ext_trace: spec_fn(u8, u16, i16) -> E,
    pub ext_constant: spec_fn([u32; 4]) -> E,
    pub ext_coeff: spec_fn(u16) -> E,
    pub ext_plus: spec_fn(E, E) -> E,
    pub ext_minus: spec_fn(E, E) -> E,
    pub ext_times: spec_fn(E, E) -> E,
    pub ext_negated: spec_fn(E) -> E,
    pub ext_squared: spec_fn(E) -> E,
    pub ext_inverted: spec_fn(E) -> E,
    pub embed: spec_fn(B) -> E,
    pub combine: spec_fn(B, B, B, B) -> E,
    pub mixed_times: spec_fn(E, B) -> E,
    pub mixed_plus: spec_fn(E, B) -> E,
}

/// The machine's state: two stacks, topmost value last, and the constraint values
/// submitted so far.
#[verifier::ext_equal]
pub struct Machine<B, E> {
    pub m31: Seq<B>,
    pub qm31: Seq<E>,
    pub submitted: Seq<E>,
}

impl<B, E> Machine<B, E> {
    pub open spec fn heights(self) -> Heights {
        Heights { m31: self.m31.len() as int, qm31: self.qm31.len() as int }
    }

    /// The base field value at a depth; depth 0 is the top.
    pub open spec fn m(self, depth: int) -> B {
        self.m31[self.m31.len() - 1 - depth]
    }

    /// The extension field value at a depth; depth 0 is the top.
    pub open spec fn q(self, depth: int) -> E {
        self.qm31[self.qm31.len() - 1 - depth]
    }

    /// Pops `n` base field values and pushes `values`.
    pub open spec fn replace_m(self, n: int, values: Seq<B>) -> Machine<B, E> {
        Machine { m31: self.m31.take(self.m31.len() - n) + values, ..self }
    }

    /// Pops `n` extension field values and pushes `values`.
    pub open spec fn replace_q(self, n: int, values: Seq<E>) -> Machine<B, E> {
        Machine { qm31: self.qm31.take(self.qm31.len() - n) + values, ..self }
    }
}

/// One step of the machine.  There is no next state where a stack holds too few values,
/// nor for the instructions that straight-line programs do not contain.
pub open spec fn step<B, E>(alg: Algebra<B, E>, instr: Instruction, s: Machine<B, E>) -> Option<
    Machine<B, E>,
> {
    let nm = s.m31.len();
    let nq = s.qm31.len();
    match instr {
        Instruction::LoadTraceM31 { interaction, col_idx, offset } => Some(
            s.replace_m(0, seq![(alg.trace)(interaction, col_idx, offset)]),
        ),
        Instruction::LoadConstM31 { value } => Some(s.replace_m(0, seq![(alg.constant)(value)])),
        Instruction::DupM31 { depth } => if depth < nm {
            Some(s.replace_m(0, seq![s.m(depth as int)]))
        } else {
            None
        },
        Instruction::PopM31 => if nm >= 1 {
            Some(s.replace_m(1, seq![]))
        } else {
            None
        },
        Instruction::SwapM31 { depth1, depth2 } => if depth1 < nm && depth2 < nm {
            Some(
                Machine {
                    m31: s.m31.update(nm - 1 - depth1, s.m(depth2 as int)).update(
                        nm - 1 - depth2,
                        s.m(depth1 as int),
                    ),
                    ..s
                },
            )
        } else {
            None
        },
        Instruction::AddM31 => if nm >= 2 {
            Some(s.replace_m(2, seq![(alg.plus)(s.m(1), s.m(0))]))
        } else {
            None
        },
        Instruction::SubM31 => if nm >= 2 {
            Some(s.replace_m(2, seq![(alg.minus)(s.m(1), s.m(0))]))
        } else {
            None
        },
        Instruction::MulM31 => if nm >= 2 {
            Some(s.replace_m(2, seq![(alg.times)(s.m(1), s.m(0))]))
        } else {
            None
        },
        Instruction::NegM31 => if nm >= 1 {
            Some(s.replace_m(1, seq![(alg.negated)(s.m(0))]))
        } else {
            None
        },
        Instruction::SquareM31 => if nm >= 1 {
            Some(s.replace_m(1, seq![(alg.squared)(s.m(0))]))
        } else {
            None
        },
        Instruction::InvM31 => if nm >= 1 {
            Some(s.replace_m(1, seq![(alg.inverted)(s.m(0))]))
        } else {
            None
        },
        Instruction::LoadTraceQM31 { interaction, col_idx, offset } => Some(
            s.replace_q(0, seq![(alg.ext_trace)(interaction, col_idx, offset)]),
        ),
        Instruction::LoadConstQM31 { values } => Some(
            s.replace_q(0, seq![(alg.ext_constant)(values)]),
        ),
        Instruction::DupQM31 { depth } => if depth < nq {
            Some(s.replace_q(0, seq![s.q(depth as int)]))
        } else {
            None
        },
        Instruction::PopQM31 => if nq >= 1 {
            Some(s.replace_q(1, seq![]))
        } else {
            None
        },
        Instruction::SwapQM31 { depth1, depth2 } => if depth1 < nq && depth2 < nq {
            Some(
                Machine {
                    qm31: s.qm31.update(nq - 1 - depth1, s.q(depth2 as int)).update(
                        nq - 1 - depth2,
                        s.q(depth1 as int),
                    ),
                    ..s
                },
            )
        } else {
            None
        },
        Instruction::LoadRandomCoeff { index } => Some(
            s.replace_q(0, seq![(alg.ext_coeff)(index)]),
        ),
        Instruction::AddQM31 => if nq >= 2 {
            Some(s.replace_q(2, seq![(alg.ext_plus)(s.q(1), s.q(0))]))
        } else {
            None
        },
        Instruction::SubQM31 => if nq >= 2 {
            Some(s.replace_q(2, seq![(alg.ext_minus)(s.q(1), s.q(0))]))
        } else {
            None
        },
        Instruction::MulQM31 => if nq >= 2 {
            Some(s.replace_q(2, seq![(alg.ext_times)(s.q(1), s.q(0))]))
        } else {
            None
        },
        Instruction::NegQM31 => if nq >= 1 {
            Some(s.replace_q(1, seq![(alg.ext_negated)(s.q(0))]))
        } else {
            None
        },
        Instruction::SquareQM31 => if nq >= 1 {
            Some(s.replace_q(1, seq![(alg.ext_squared)(s.q(0))]))
        } else {
            None
        },
        Instruction::InvQM31 => if nq >= 1 {
            Some(s.replace_q(1, seq![(alg.ext_inverted)(s.q(0))]))
        } else {
            None
        },
        Instruction::M31ToQM31 => if nm >= 1 {
            Some(s.replace_m(1, seq![]).replace_q(0, seq![(alg.embed)(s.m(0))]))
        } else {
            None
        },
        Instruction::CombineEF => if nm >= 4 {
            Some(
                s.replace_m(4, seq![]).replace_q(
                    0,
                    seq![(alg.combine)(s.m(3), s.m(2), s.m(1), s.m(0))],
                ),
            )
        } else {
            None
        },
        Instruction::MulM31QM31 => if nm >= 1 && nq >= 1 {
            Some(s.replace_m(1, seq![]).replace_q(1, seq![(alg.mixed_times)(s.q(0), s.m(0))]))
        } else {
            None
        },
        Instruction::AddM31QM31 => if nm >= 1 && nq >= 1 {
            Some(s.replace_m(1, seq![]).replace_q(1, seq![(alg.mixed_plus)(s.q(0), s.m(0))]))
        } else {
            None
        },
        Instruction::AddConstraint => if nq >= 1 {
            Some(Machine { submitted: s.submitted.push(s.q(0)), ..s.replace_q(1, seq![]) })
        } else {
            None
        },
        Instruction::MarkIntermediate { .. } => Some(s),
        Instruction::ProgramEnd => Some(s),
        _ => None,
    }
}

/// A run of the machine through a straight-line program.
pub open spec fn run<B, E>(alg: Algebra<B, E>, instrs: Seq<Instruction>, s: Machine<B, E>) -> Option<
    Machine<B, E>,
>
    decreases instrs.len(),
{
    if instrs.len() == 0 {
        Some(s)
    } else {
        match run(alg, instrs.drop_last(), s) {
            Some(t) => step(alg, instrs.last(), t),
            None => None,
        }
    }
}

/// Running two programs in a row is running their concatenation.
pub proof fn lemma_run_concat<B, E>(
    alg: Algebra<B, E>,
    a: Seq<Instruction>,
    b: Seq<Instruction>,
    s: Machine<B, E>,
)
    ensures
        run(alg, a + b, s) == (match run(alg, a, s) {
            Some(t) => run(alg, b, t),
            None => None,
        }),
    decreases b.len(),
{
    if b.len() == 0 {
        assert(a + b =~= a);
    } else {
        lemma_run_concat(alg, a, b.drop_last(), s);
        assert((a + b).drop_last() =~= a + b.drop_last());
    }
}

/// Heights and peaks of a concatenation come from those of its parts.
pub proof fn lemma_heights_concat(a: Seq<Instruction>, b: Seq<Instruction>, h: Heights)
    ensures
        heights(a + b, h) == heights(b, heights(a, h)),
        peak(a + b, h) == peak(a, h).max(peak(b, heights(a, h))),
    decreases b.len(),
{
    if b.len() == 0 {
        assert(a + b =~= a);
        lemma_peak_bounds(a, h);
    } else {
        lemma_heights_concat(a, b.drop_last(), h);
        assert((a + b).drop_last() =~= a + b.drop_last());
    }
}

/// The peak is at least the height before and the height after.
pub proof fn lemma_peak_bounds(a: Seq<Instruction>, h: Heights)
    ensures
        peak(a, h).m31 >= h.m31,
        peak(a, h).qm31 >= h.qm31,
        peak(a, h).m31 >= heights(a, h).m31,
        peak(a, h).qm31 >= heights(a, h).qm31,
    decreases a.len(),
{
    if a.len() > 0 {
        lemma_peak_bounds(a.drop_last(), h);
    }
}

/// Heights and peaks of a single instruction.
pub proof fn lemma_heights_one(instr: Instruction, h: Heights)
    ensures
        heights(seq![instr], h) == step_heights(instr, h),
        peak(seq![instr], h) == h.max(step_heights(instr, h)),
{
    reveal_with_fuel(heights, 2);
    reveal_with_fuel(peak, 2);
    assert(seq![instr].drop_last() =~= Seq::<Instruction>::empty());
}

/// A run of a single instruction.
pub proof fn lemma_run_one<B, E>(alg: Algebra<B, E>, instr: Instruction, s: Machine<B, E>)
    ensures
        run(alg, seq![instr], s) == step(alg, instr, s),
{
    reveal_with_fuel(run, 2);
    assert(seq![instr].drop_last() =~= Seq::<Instruction>::empty());
}

/// The heights that [`heights`] counts are the sizes of the machine's stacks.
pub proof fn law_heights_are_stack_sizes<B, E>(
    alg: Algebra<B, E>,
    instrs: Seq<Instruction>,
    s: Machine<B, E>,
)
    requires
        run(alg, instrs, s) is Some,
    ensures
        run(alg, instrs, s)->0.heights() == heights(instrs, s.heights()),
    decreases instrs.len(),
{
    if instrs.len() > 0 {
        law_heights_are_stack_sizes(alg, instrs.drop_last(), s);
    }
}

/// At no point of a run does a stack hold more than [`peak`] says, and on each stack
/// that number is reached.
pub proof fn law_peak_is_reached_and_not_exceeded(instrs: Seq<Instruction>, h: Heights)
    ensures
        forall|k: int|
            0 <= k <= instrs.len() ==> (#[trigger] heights(instrs.take(k), h)).m31 <= peak(
                instrs,
                h,
            ).m31,
        forall|k: int|
            0 <= k <= instrs.len() ==> (#[trigger] heights(instrs.take(k), h)).qm31 <= peak(
                instrs,
                h,
            ).qm31,
        exists|k: int|
            0 <= k <= instrs.len() && (#[trigger] heights(instrs.take(k), h)).m31 == peak(
                instrs,
                h,
            ).m31,
        exists|k: int|
            0 <= k <= instrs.len() && (#[trigger] heights(instrs.take(k), h)).qm31 == peak(
                instrs,
                h,
            ).qm31,
    decreases instrs.len(),
{
    let n = instrs.len() as int;
    assert(instrs.take(n) =~= instrs);
    if n == 0 {
        assert(heights(instrs.take(0), h) == h);
    } else {
        let init = instrs.drop_last();
        law_peak_is_reached_and_not_exceeded(init, h);
        assert forall|k: int| 0 <= k < n implies init.take(k) == #[trigger] instrs.take(k) by {
            assert(init.take(k) =~= instrs.take(k));
        }
        let km = choose|k: int|
            0 <= k <= init.len() && (#[trigger] heights(init.take(k), h)).m31 == peak(init, h).m31;
        let kq = choose|k: int|
            0 <= k <= init.len() && (#[trigger] heights(init.take(k), h)).qm31 == peak(
                init,
                h,
            ).qm31;
        assert(heights(instrs.take(km), h) == heights(init.take(km), h));
        assert(heights(instrs.take(kq), h) == heights(init.take(kq), h));
        assert(heights(instrs.take(n), h) == heights(instrs, h));
        assert forall|k: int| 0 <= k <= n implies (#[trigger] heights(instrs.take(k), h)).m31
            <= peak(instrs, h).m31 by {
            if k < n {
                assert(heights(init.take(k), h).m31 <= peak(init, h).m31);
            }
        }
        assert forall|k: int| 0 <= k <= n implies (#[trigger] heights(instrs.take(k), h)).qm31
            <= peak(instrs, h).qm31 by {
            if k < n {
                assert(heights(init.take(k), h).qm31 <= peak(init, h).qm31);
            }
        }
    }
}

} // verus!
