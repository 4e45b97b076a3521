//! The bytecode of constraints: its encoding, its generation, and what running it gives.

use metal_backend::bytecode::{BytecodeProgram, Instruction, Opcode};
use metal_backend::bytecode_generator::{
    BytecodeGenerator, Fraction, M31Expr, M31Handle, QM31Expr, QM31Handle,
};
use metal_backend::columns::felts_from_words;
use metal_backend::constraint_eval_gpu::{evaluate_constraints_gpu, ReshapedTraceCache};
use metal_backend::fields::{BaseField, SecureField};
use metal_backend::kernel::Source;

fn felt(a: u32, b: u32, c: u32, d: u32) -> SecureField {
    SecureField::from_m31_array([BaseField(a), BaseField(b), BaseField(c), BaseField(d)])
}

fn base_inverse(x: BaseField) -> BaseField {
    let mut result = BaseField(1);
    let mut power = x;
    let mut exponent: u32 = 0x7fff_fffd;
    while exponent > 0 {
        if exponent & 1 == 1 {
            result = result.mul(power);
        }
        power = power.mul(power);
        exponent >>= 1;
    }
    result
}

/// What a program submits, and the largest heights of its two stacks.
fn run(bytes: &[u8], trace: &dyn Fn(u8, u16, i16) -> BaseField) -> (Vec<SecureField>, usize, usize) {
    let zero = BaseField(0);
    let mut m31: Vec<BaseField> = vec![];
    let mut qm31: Vec<SecureField> = vec![];
    let mut submitted = vec![];
    let (mut max_m31, mut max_qm31) = (0, 0);
    let mut at = 0;
    let be16 = |i: usize| u16::from_be_bytes([bytes[i], bytes[i + 1]]);
    let be32 = |i: usize| u32::from_be_bytes([bytes[i], bytes[i + 1], bytes[i + 2], bytes[i + 3]]);
    loop {
        let op = bytes[at];
        at += 1;
        match op {
            0x00 => {
                let value = trace(bytes[at], be16(at + 1), be16(at + 3) as i16);
                m31.push(value);
                at += 5;
            }
            0x01 => {
                m31.push(BaseField::from_u32(be32(at)));
                at += 4;
            }
            0x10 | 0x11 | 0x12 => {
                let b = m31.pop().unwrap();
                let a = m31.pop().unwrap();
                m31.push(match op {
                    0x10 => a.add(b),
                    0x11 => a.sub(b),
                    _ => a.mul(b),
                });
            }
            0x13 => {
                let a = m31.pop().unwrap();
                m31.push(zero.sub(a));
            }
            0x14 => {
                let a = m31.pop().unwrap();
                m31.push(a.mul(a));
            }
            0x15 => {
                let a = m31.pop().unwrap();
                m31.push(base_inverse(a));
            }
            0x21 => {
                let c: Vec<BaseField> =
                    (0..4).map(|i| BaseField::from_u32(be32(at + 4 * i))).collect();
                qm31.push(SecureField::from_m31_array([c[0], c[1], c[2], c[3]]));
                at += 16;
            }
            0x30 | 0x31 | 0x32 => {
                let b = qm31.pop().unwrap();
                let a = qm31.pop().unwrap();
                qm31.push(match op {
                    0x30 => a.add(b),
                    0x31 => a.sub(b),
                    _ => a.mul(b),
                });
            }
            0x33 => {
                let a = qm31.pop().unwrap();
                qm31.push(SecureField::zero().sub(a));
            }
            0x34 => {
                let a = qm31.pop().unwrap();
                qm31.push(a.mul(a));
            }
            0x40 => {
                let a = m31.pop().unwrap();
                qm31.push(SecureField::from_base(a));
            }
            0x41 => {
                let d = m31.pop().unwrap();
                let c = m31.pop().unwrap();
                let b = m31.pop().unwrap();
                let a = m31.pop().unwrap();
                qm31.push(SecureField::from_m31_array([a, b, c, d]));
            }
            0x42 | 0x43 => {
                let b = m31.pop().unwrap();
                let a = qm31.pop().unwrap();
                qm31.push(if op == 0x42 {
                    a.mul_base(b)
                } else {
                    a.add(SecureField::from_base(b))
                });
            }
            0x50 => submitted.push(qm31.pop().unwrap()),
            0xFF => {
                assert!(m31.is_empty() && qm31.is_empty());
                assert_eq!(at, bytes.len());
                return (submitted, max_m31, max_qm31);
            }
            other => panic!("unexpected opcode {other:#x}"),
        }
        max_m31 = max_m31.max(m31.len());
        max_qm31 = max_qm31.max(qm31.len());
    }
}

#[test]
fn test_bytecode_encoding() {
    let mut program = BytecodeProgram::new();

    program.encode(Instruction::LoadTraceM31 { interaction: 1, col_idx: 0, offset: 0 });
    program.encode(Instruction::SquareM31);
    program.encode(Instruction::M31ToQM31);
    program.encode(Instruction::AddConstraint);

    assert_eq!(program.n_constraints, 1);
    assert!(program.bytes.len() > 0);
    assert_eq!(program.bytes, vec![0x00, 1, 0, 0, 0, 0, 0x14, 0x40, 0x50]);
}

#[test]
fn encoding_is_big_endian() {
    let mut program = BytecodeProgram::new();
    program.encode(Instruction::LoadTraceM31 { interaction: 2, col_idx: 0x0102, offset: -2 });
    program.encode(Instruction::LoadConstM31 { value: 0x0102_0304 });
    program.encode(Instruction::DupM31 { depth: 7 });
    program.encode(Instruction::SwapQM31 { depth1: 8, depth2: 9 });
    program.encode(Instruction::LoadConstQM31 { values: [1, 0x0200, 0x03_0000, 0x0400_0000] });
    program.encode(Instruction::LoadRandomCoeff { index: 0x0A0B });
    program.encode(Instruction::MarkIntermediate { is_extension: true });
    program.encode(Instruction::JumpIfZero { offset: -1 });
    program.encode(Instruction::Jump { offset: 0x0C0D });
    program.encode(Instruction::ProgramEnd);
    let expected: Vec<u8> = vec![
        0x00, 2, 1, 2, 0xff, 0xfe, // load from the trace
        0x01, 1, 2, 3, 4, // constant
        0x02, 7, // duplicate
        0x24, 8, 9, // swap
        0x21, 0, 0, 0, 1, 0, 0, 2, 0, 0, 3, 0, 0, 4, 0, 0, 0, // constant
        0x25, 0x0a, 0x0b, // random coefficient
        0x51, 1, // intermediate
        0x60, 0xff, 0xff, // jump if zero
        0x61, 0x0c, 0x0d, // jump
        0xff,
    ];
    assert_eq!(program.bytes, expected);
    assert_eq!(program.n_constraints, 0);
}

#[test]
fn opcodes_are_distinct() {
    let all = [
        Opcode::LoadTraceM31,
        Opcode::LoadConstM31,
        Opcode::DupM31,
        Opcode::PopM31,
        Opcode::SwapM31,
        Opcode::AddM31,
        Opcode::SubM31,
        Opcode::MulM31,
        Opcode::NegM31,
        Opcode::SquareM31,
        Opcode::InvM31,
        Opcode::LoadTraceQM31,
        Opcode::LoadConstQM31,
        Opcode::DupQM31,
        Opcode::PopQM31,
        Opcode::SwapQM31,
        Opcode::LoadRandomCoeff,
        Opcode::AddQM31,
        Opcode::SubQM31,
        Opcode::MulQM31,
        Opcode::NegQM31,
        Opcode::SquareQM31,
        Opcode::InvQM31,
        Opcode::M31ToQM31,
        Opcode::CombineEF,
        Opcode::MulM31QM31,
        Opcode::AddM31QM31,
        Opcode::AddConstraint,
        Opcode::MarkIntermediate,
        Opcode::JumpIfZero,
        Opcode::Jump,
        Opcode::WriteLogupFrac,
        Opcode::FinalizeLogup,
        Opcode::ProgramEnd,
    ];
    let mut bytes: Vec<u8> = all.iter().map(|op| op.byte()).collect();
    bytes.sort();
    bytes.dedup();
    assert_eq!(bytes.len(), 34);
}

#[test]
fn stack_depths_are_maxima() {
    let mut program = BytecodeProgram::default();
    program.update_stack_depth(3, 1);
    program.update_stack_depth(2, 5);
    assert_eq!(program.max_m31_stack_depth, 3);
    assert_eq!(program.max_qm31_stack_depth, 5);
}

#[test]
fn test_bytecode_generator_basic() {
    let mut generator = BytecodeGenerator::new(3, 4, SecureField::zero());
    assert!(generator.program.bytes.is_empty());
    assert_eq!(generator.column_index_per_interaction, vec![0, 0, 0]);
    assert_eq!(generator.logup.interaction, 2);
    assert_eq!(generator.logup.log_size, 4);
    generator.compile();
    assert_eq!(generator.program.bytes, vec![0xFF]);
    assert_eq!(generator.program.n_constraints, 0);
}

fn product_constraint(log_size: u32) -> BytecodeGenerator {
    let mut generator = BytecodeGenerator::new(3, log_size, SecureField::zero());
    let a0 = generator.next_interaction_mask(1, &[0]).remove(0);
    let a1 = generator.next_interaction_mask(1, &[0]).remove(0);
    let a2 = generator.next_interaction_mask(1, &[0]).remove(0);
    generator.add_constraint(a0 * a1 - a2);
    generator.compile();
    generator
}

#[test]
fn test_gpu_constraint_test_gpu_constraint_bytecode_generation() {
    for log_n in [12, 16] {
        let bytecode = product_constraint(log_n).program.bytes;
        assert!(bytecode.len() > 10, "Bytecode should not be empty");
        assert!(bytecode.contains(&0xFF), "Bytecode should contain OP_PROGRAM_END");
        let expected: Vec<u8> = vec![
            0x00, 1, 0, 0, 0, 0, // a0
            0x00, 1, 0, 1, 0, 0, // a1
            0x12, // a0 * a1
            0x00, 1, 0, 2, 0, 0, // a2
            0x11, // a0 * a1 - a2
            0x40, 0x50, 0xFF,
        ];
        assert_eq!(bytecode, expected);
    }
    println!("Skipping GPU constraint test (not on macOS with metal_prover feature)");
}

#[test]
fn masks_read_the_next_column() {
    let mut generator = BytecodeGenerator::new(2, 5, SecureField::zero());
    let first = generator.next_interaction_mask(1, &[0, -1, 3]);
    let second = generator.next_interaction_mask(1, &[1]);
    let other = generator.next_interaction_mask(0, &[]);
    assert!(matches!(first[0].expr, M31Expr::LoadTrace { interaction: 1, col_idx: 0, offset: 0 }));
    assert!(matches!(first[1].expr, M31Expr::LoadTrace { interaction: 1, col_idx: 0, offset: -1 }));
    assert!(matches!(first[2].expr, M31Expr::LoadTrace { interaction: 1, col_idx: 0, offset: 3 }));
    assert!(matches!(second[0].expr, M31Expr::LoadTrace { interaction: 1, col_idx: 1, offset: 1 }));
    assert!(other.is_empty());
    assert_eq!(generator.column_index_per_interaction, vec![1, 2]);
}

#[test]
fn program_submits_constraint_values() {
    let mut generator = BytecodeGenerator::new(2, 5, SecureField::zero());
    let x = generator.next_interaction_mask(1, &[0]).remove(0);
    let y = generator.next_interaction_mask(1, &[0]).remove(0);
    generator.add_constraint(x.clone() * y.clone() - x.square() + M31Handle::from(BaseField(5)));
    generator.add_constraint(
        QM31Handle::from(felt(1, 2, 3, 4)) * y.clone() + felt(10, 20, 30, 40),
    );
    generator.add_constraint(BytecodeGenerator::combine_ef([
        x.clone(),
        y.clone(),
        -x.clone(),
        y.inverse(),
    ]));
    generator.add_constraint(felt(9, 8, 7, 6));
    generator.compile();
    let trace = |interaction: u8, col_idx: u16, offset: i16| {
        assert_eq!((interaction, offset), (1, 0));
        BaseField([11, 13][col_idx as usize])
    };
    let (values, max_m31, max_qm31) = run(&generator.program.bytes, &trace);
    assert_eq!(values.len(), 4);
    assert_eq!(generator.program.n_constraints, 4);
    assert_eq!(values[0], felt(11 * 13 - 121 + 5, 0, 0, 0));
    assert_eq!(values[1], felt(13 + 10, 26 + 20, 39 + 30, 52 + 40));
    let inverse = base_inverse(BaseField(13));
    assert_eq!(values[2], felt(11, 13, 0x7fff_ffff - 11, inverse.0));
    assert_eq!(values[3], felt(9, 8, 7, 6));
    assert_eq!(generator.program.max_m31_stack_depth, max_m31);
    assert_eq!(generator.program.max_qm31_stack_depth, max_qm31);
}

#[test]
fn programs_determine_their_constraints() {
    let mut a = BytecodeGenerator::new(2, 5, SecureField::zero());
    let mut b = BytecodeGenerator::new(2, 5, SecureField::zero());
    let (x, y) = (
        a.next_interaction_mask(1, &[0]).remove(0),
        a.next_interaction_mask(1, &[0]).remove(0),
    );
    a.add_constraint(x.clone() - y.clone());
    b.add_constraint(y - x);
    a.compile();
    b.compile();
    assert_ne!(a.program.bytes, b.program.bytes);
}

#[test]
fn subtracting_a_constant_adds_its_negative() {
    let handle = QM31Handle::one() - felt(1, 0, 5, 0x7fff_fffe);
    match handle.expr {
        QM31Expr::AddSecureField(_, words) => {
            assert_eq!(words, [0x7fff_fffe, 0, 0x7fff_fffa, 1]);
        }
        other => panic!("unexpected expression {other:?}"),
    }
}

#[test]
fn handles_know_no_values() {
    assert!(matches!(M31Handle::zero().expr, M31Expr::Const(0)));
    assert!(matches!(M31Handle::one().expr, M31Expr::Const(1)));
    assert!(matches!(QM31Handle::zero().expr, QM31Expr::Const([0, 0, 0, 0])));
    assert!(matches!(QM31Handle::one().expr, QM31Expr::Const([1, 0, 0, 0])));
    assert!(!M31Handle::zero().is_zero());
    assert!(!QM31Handle::zero().is_zero());
}

#[test]
fn assignments_build_the_same_expressions() {
    let mut sum = M31Handle::one();
    sum += M31Handle::zero();
    assert_eq!(format!("{sum:?}"), format!("{:?}", M31Handle::one() + M31Handle::zero()));
    let mut product = QM31Handle::one();
    product *= QM31Handle::zero();
    assert_eq!(format!("{product:?}"), format!("{:?}", QM31Handle::one() * QM31Handle::zero()));
}

#[test]
fn lookups_record_nothing() {
    let mut generator = BytecodeGenerator::new(3, 5, SecureField::zero());
    generator.write_logup_frac(Fraction {
        numerator: QM31Handle::one(),
        denominator: QM31Handle::zero(),
    });
    generator.finalize_logup_batched(&vec![0, 1]);
    generator.finalize_logup();
    generator.finalize_logup_in_pairs();
    generator.compile();
    assert_eq!(generator.program.bytes, vec![0xFF]);
}

#[test]
fn subtraction_is_undone_by_addition() {
    let constant = felt(1, 0, 5, 0x7fff_fffe);
    let mut generator = BytecodeGenerator::new(1, 5, SecureField::zero());
    generator.add_constraint(QM31Handle::zero() - felt(1, 0, 0, 0));
    generator.add_constraint(QM31Handle::from(felt(3, 4, 5, 6)) - constant);
    generator.add_constraint(QM31Handle::from(felt(3, 4, 5, 6)) - constant + constant);
    generator.compile();
    let (values, _, _) = run(&generator.program.bytes, &|_, _, _| BaseField(0));
    assert_eq!(values[0], felt(0x7fff_fffe, 0, 0, 0));
    assert_eq!(values[1], felt(2, 4, 0, 7));
    assert_eq!(values[2], felt(3, 4, 5, 6));
}

#[test]
fn planned_evaluations_combine_the_constraints() {
    let mut generator = BytecodeGenerator::new(2, 1, SecureField::zero());
    let x = generator.next_interaction_mask(1, &[0]).remove(0);
    generator.add_constraint(x.clone() * x.clone());
    generator.add_constraint(x + M31Handle::one());
    generator.compile();
    let coeffs = [felt(0, 1, 0, 0), felt(3, 0, 0, 0)];
    let denominators = [BaseField(5), BaseField(7)];
    let mut cache: ReshapedTraceCache<u32> = ReshapedTraceCache::new();
    let result = evaluate_constraints_gpu(
        &mut cache,
        &generator.program.bytes,
        &[vec![], vec![1]],
        &coeffs,
        &denominators,
        1,
        2,
        |_| 0,
    );
    let words = |slot: usize| match &result.plan.buffers[slot] {
        Source::Words(words) => words.clone(),
        other => panic!("unexpected buffer {other:?}"),
    };
    let Source::Bytes(bytes) = &result.plan.buffers[0] else {
        panic!("unexpected buffer");
    };
    let trace = [2u32, 3, 4, 5];
    let rows: Vec<SecureField> = (0..4)
        .map(|row| {
            let (values, _, _) = run(bytes, &|_, _, _| BaseField(trace[row]));
            let coeffs = felts_from_words(&words(5), 2);
            let sum = coeffs
                .iter()
                .zip(&values)
                .fold(SecureField::zero(), |sum, (c, v)| sum.add(c.mul(*v)));
            sum.mul(felts_from_words(&words(7), 4)[row])
        })
        .collect();
    // The first coefficient is the square root of minus one, and two rows share a denominator.
    assert_eq!(
        rows,
        vec![felt(45, 20, 0, 0), felt(60, 45, 0, 0), felt(105, 112, 0, 0), felt(126, 175, 0, 0)]
    );
}
