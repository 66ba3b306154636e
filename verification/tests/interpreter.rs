use evm_audit::bignum::BigNum;
use evm_audit::expression::Expression;
use evm_audit::expression::make_constant;
use evm_audit::expression::make_vec;
use evm_audit::instruction::BranchCond;
use evm_audit::instruction::Instruction;
use evm_audit::instruction::JumpFault;
use evm_audit::op_codes;
use evm_audit::op_codes::solve;

fn num(v: u8) -> BigNum {
    BigNum::from_byte(v)
}

fn wide(mag: Vec<u8>) -> BigNum {
    BigNum { negative: false, mag }
}

fn as_bigint(n: &BigNum) -> num::BigInt {
    let sign = if n.negative { num::bigint::Sign::Minus } else { num::bigint::Sign::Plus };
    num::BigInt::from_bytes_be(sign, &n.mag)
}

#[test]
fn folding_add() {
    let r = solve(op_codes::ADD, &vec![num(3), num(4)]);
    assert_eq!(r.to_usize(), Some(7));
}

#[test]
fn folding_div_by_zero_is_zero() {
    let r = solve(op_codes::DIV, &vec![num(7), num(0)]);
    assert!(r.is_zero());
    let r2 = solve(op_codes::MOD, &vec![num(7), num(0)]);
    assert!(r2.is_zero());
    let r3 = solve(op_codes::SDIV, &vec![num(7), num(0)]);
    assert!(r3.is_zero());
}

#[test]
fn folding_sub_goes_negative() {
    let r = solve(op_codes::SUB, &vec![num(3), num(4)]);
    assert!(r.negative);
    assert_eq!(r.to_usize(), None);
    // two's complement of -1 is a single 0xff byte
    assert_eq!(make_vec(&r), vec![0xff]);
}

#[test]
fn folding_matches_big_integer_arithmetic() {
    // a product too wide for machine words must agree with direct
    // big-integer arithmetic
    let a = wide(vec![0xff; 16]);
    let b = wide(vec![0xee; 16]);
    let r = solve(op_codes::MUL, &vec![
        BigNum { negative: a.negative, mag: a.mag.clone() },
        BigNum { negative: b.negative, mag: b.mag.clone() },
    ]);
    assert_eq!(as_bigint(&r), as_bigint(&a) * as_bigint(&b));
}

#[test]
fn folding_operators_exactly() {
    assert_eq!(solve(op_codes::DIV, &vec![num(7), num(2)]).to_usize(), Some(3));
    assert_eq!(solve(op_codes::MOD, &vec![num(7), num(3)]).to_usize(), Some(1));
    assert_eq!(solve(op_codes::EXP, &vec![num(2), num(10)]).to_usize(), Some(1024));
    assert_eq!(solve(op_codes::AND, &vec![num(6), num(3)]).to_usize(), Some(2));
    assert_eq!(solve(op_codes::OR, &vec![num(6), num(3)]).to_usize(), Some(7));
    assert_eq!(solve(op_codes::XOR, &vec![num(6), num(3)]).to_usize(), Some(5));
    assert_eq!(solve(op_codes::GT, &vec![num(5), num(3)]).to_usize(), Some(1));
    assert_eq!(solve(op_codes::LT, &vec![num(5), num(3)]).to_usize(), Some(0));
    assert_eq!(solve(op_codes::LT, &vec![num(3), num(5)]).to_usize(), Some(1));
    assert_eq!(solve(op_codes::EQ, &vec![num(4), num(4)]).to_usize(), Some(1));
    assert_eq!(solve(op_codes::EQ, &vec![num(4), num(5)]).to_usize(), Some(0));
    assert_eq!(solve(op_codes::ISZERO, &vec![num(0)]).to_usize(), Some(1));
    assert_eq!(solve(op_codes::ISZERO, &vec![num(9)]).to_usize(), Some(0));
}

#[test]
fn folding_not_uses_byte_width() {
    // the complement is taken over the minimal byte representation
    assert_eq!(solve(op_codes::NOT, &vec![num(0)]).to_usize(), Some(255));
    assert_eq!(solve(op_codes::NOT, &vec![num(255)]).to_usize(), Some(0));
    let v = wide(vec![0x01, 0xff]);
    assert_eq!(solve(op_codes::NOT, &vec![v]).to_usize(), Some(0xfe00));
}

#[test]
fn make_vec_matches_twos_complement() {
    // a positive value with the high bit set gets a leading zero byte
    let v = wide(vec![0xff]);
    let got = make_vec(&v);
    assert_eq!(got, as_bigint(&v).to_signed_bytes_be());
    assert_eq!(got, vec![0x00, 0xff]);
}

#[test]
fn make_constant_reads_big_endian() {
    match make_constant(&[0x01, 0x00]) {
        Expression::Constant(c) => assert_eq!(c.to_usize(), Some(256)),
        _ => panic!("expected a constant"),
    }
    match make_constant(&[]) {
        Expression::Constant(c) => assert!(c.is_zero()),
        _ => panic!("expected a constant"),
    }
}

#[test]
fn dup_and_swap_identities() {
    // stacks are held bottom first: [a, b, c] with a on top is [c, b, a]
    let mut stack = vec![
        Expression::Argument(2),
        Expression::Argument(1),
        Expression::Argument(0),
    ];
    let mut argc: usize = 10;
    let instr = Instruction::new(0, op_codes::DUP1, &[], &mut argc, &mut stack);
    assert_eq!(instr.inputs.len(), 1);
    // DUP1 on [a, b, c] yields [a, a, b, c]
    let tops: Vec<usize> = stack
        .iter()
        .rev()
        .map(|e| match e {
            Expression::Argument(i) => *i,
            _ => panic!("expected an argument"),
        })
        .collect();
    assert_eq!(tops, vec![0, 0, 1, 2]);

    let mut stack2 = vec![
        Expression::Argument(2),
        Expression::Argument(1),
        Expression::Argument(0),
    ];
    let mut argc2: usize = 10;
    let _ = Instruction::new(0, op_codes::SWAP1, &[], &mut argc2, &mut stack2);
    // SWAP1 on [a, b, c] yields [b, a, c]
    let tops2: Vec<usize> = stack2
        .iter()
        .rev()
        .map(|e| match e {
            Expression::Argument(i) => *i,
            _ => panic!("expected an argument"),
        })
        .collect();
    assert_eq!(tops2, vec![1, 0, 2]);
}

#[test]
fn underflow_synthesizes_arguments() {
    let mut stack: Vec<Expression> = Vec::new();
    let mut argc: usize = 0;
    let instr = Instruction::new(0, op_codes::ADD, &[], &mut argc, &mut stack);
    assert_eq!(argc, 2);
    assert_eq!(instr.inputs.len(), 2);
    assert!(matches!(instr.inputs[0], Expression::Argument(0)));
    assert!(matches!(instr.inputs[1], Expression::Argument(1)));
    // the result is opaque, not folded
    assert!(matches!(instr.outputs[0], Expression::ResultOf(0)));
}

#[test]
fn push_produces_folded_constant() {
    let mut stack: Vec<Expression> = Vec::new();
    let mut argc: usize = 0;
    let p1 = Instruction::new(0, op_codes::PUSH1, &[2], &mut argc, &mut stack);
    let p2 = Instruction::new(2, op_codes::PUSH1, &[3], &mut argc, &mut stack);
    assert_eq!(p1.data, vec![2]);
    assert_eq!(p2.data, vec![3]);
    let add = Instruction::new(4, op_codes::ADD, &[], &mut argc, &mut stack);
    match &add.outputs[0] {
        Expression::Constant(c) => assert_eq!(c.to_usize(), Some(5)),
        _ => panic!("expected the sum to fold"),
    }
    assert_eq!(stack.len(), 1);
}

#[test]
fn iterate_stack_faults() {
    // a jump whose target is a free argument cannot be followed
    let mut decode_stack: Vec<Expression> = Vec::new();
    let mut argc: usize = 0;
    let jump = Instruction::new(0, op_codes::JUMP, &[], &mut argc, &mut decode_stack);
    let mut path_stack: Vec<Expression> = Vec::new();
    assert_eq!(jump.iterate_stack(&mut path_stack).unwrap_err(), JumpFault::NonConstantTarget);

    // a constant target beyond the addressable range is a fault too
    let mut path_stack2: Vec<Expression> = vec![Expression::Constant(BigNum {
        negative: false,
        mag: vec![1, 0, 0, 0, 0, 0, 0, 0, 0],
    })];
    assert_eq!(jump.iterate_stack(&mut path_stack2).unwrap_err(), JumpFault::TargetOutOfRange);
}

#[test]
fn iterate_stack_successors() {
    let mut decode_stack: Vec<Expression> = Vec::new();
    let mut argc: usize = 0;
    let stop = Instruction::new(0, op_codes::STOP, &[], &mut argc, &mut decode_stack);
    let mut s = Vec::new();
    assert_eq!(stop.iterate_stack(&mut s).unwrap().len(), 0);

    let push = Instruction::new(0, op_codes::PUSH1, &[7], &mut argc, &mut decode_stack);
    let mut s2 = Vec::new();
    let succ = push.iterate_stack(&mut s2).unwrap();
    assert_eq!(succ.len(), 1);
    assert!(matches!(succ[0].0, BranchCond::Always));
    assert_eq!(succ[0].1, 1);

    // a conditional jump with a constant false guard falls through
    let jumpi = Instruction {
        offset: 4,
        op_code: op_codes::JUMPI,
        data: vec![],
        inputs: vec![],
        outputs: vec![],
    };
    let mut s3 = vec![
        Expression::Constant(BigNum::from_byte(0)),
        Expression::Constant(BigNum::from_byte(2)),
    ];
    let succ3 = jumpi.iterate_stack(&mut s3).unwrap();
    assert_eq!(succ3.len(), 1);
    assert_eq!(succ3[0].1, 5);

    // with a non-constant guard both branches come back, guarded
    let mut s4 = vec![
        Expression::Argument(0),
        Expression::Constant(BigNum::from_byte(2)),
    ];
    let succ4 = jumpi.iterate_stack(&mut s4).unwrap();
    assert_eq!(succ4.len(), 2);
    assert_eq!(succ4[0].1, 2);
    assert_eq!(succ4[1].1, 5);
    assert!(matches!(succ4[0].0, BranchCond::If(_)));
    assert!(matches!(succ4[1].0, BranchCond::IfNot(_)));
}

#[test]
fn to_usize_at_the_boundary() {
    // the largest addressable value still converts; one past it does not
    let max = BigNum { negative: false, mag: usize::MAX.to_be_bytes().to_vec() };
    assert_eq!(max.to_usize(), Some(usize::MAX));
    let mut over_mag = vec![1u8];
    over_mag.extend_from_slice(&[0u8; 8]);
    let over = BigNum { negative: false, mag: over_mag };
    assert_eq!(over.to_usize(), None);
    // leading zero bytes do not change the value
    let padded = BigNum { negative: false, mag: vec![0, 0, 7] };
    assert_eq!(padded.to_usize(), Some(7));
}
