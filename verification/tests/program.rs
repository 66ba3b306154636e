use evm_audit::bignum::BigNum;
use evm_audit::expression::Expression;
use evm_audit::expression::OpTree;
use evm_audit::op_codes;
use evm_audit::program::Program;
use evm_audit::program::check_supported;

#[test]
fn decoder_offsets_and_push_data() {
    let p = Program::new(vec![0x60, 0x01, 0x00]);
    let offsets: Vec<usize> = p.instructions.iter().map(|i| i.offset).collect();
    assert_eq!(offsets, vec![0, 2]);
    assert_eq!(p.instructions[0].op_code, 0x60);
    assert_eq!(p.instructions[0].data, vec![0x01]);
    assert_eq!(p.instructions[1].op_code, 0x00);
    assert_eq!(p.instructions[1].data.len(), 0);
}

#[test]
fn decoder_clamps_truncated_push() {
    // PUSH2 with only one trailing byte: the data is clamped, not an error
    let p = Program::new(vec![0x61, 0xaa]);
    assert_eq!(p.instructions.len(), 1);
    assert_eq!(p.instructions[0].data, vec![0xaa]);
}

#[test]
fn blocks_partition_byte_range() {
    // PUSH1 0; PUSH1 2; JUMPI; STOP; JUMPDEST; STOP
    let p = Program::new(vec![0x60, 0x00, 0x60, 0x02, 0x57, 0x00, 0x5b, 0x00]);
    let spans: Vec<(usize, usize)> = p.blocks().iter().map(|b| (b.start, b.end)).collect();
    assert_eq!(spans, vec![(0, 5), (5, 6), (6, 8)]);
}

#[test]
fn empty_byte_code_single_reachable_entry_block() {
    let p = Program::new(vec![]);
    assert_eq!(p.blocks().len(), 1);
    assert_eq!(p.blocks()[0].start, 0);
    assert_eq!(p.blocks()[0].end, 0);
    assert!(p.blocks()[0].reachable);
}

#[test]
fn rejected_jump_edge_stays_static() {
    // PUSH1 2; JUMP, where offset 2 is not a jump destination: the edge is
    // rejected and the block keeps a static jump target
    let p = Program::new(vec![0x60, 0x02, 0x56]);
    assert_eq!(p.blocks().len(), 1);
    let b = &p.blocks()[0];
    assert_eq!((b.start, b.end), (0, 3));
    assert_eq!(b.exits().len(), 0);
    assert_eq!(b.entries().len(), 0);
    assert!(!b.dynamic_jump);
    assert!(b.reachable);
}

#[test]
fn constant_false_guard_skips_jump_destination() {
    // PUSH1 0; PUSH1 2; JUMPI; STOP; JUMPDEST; STOP — the guard is the
    // constant zero, so only the fallthrough is explored and the jump
    // destination block stays unreachable
    let p = Program::new(vec![0x60, 0x00, 0x60, 0x02, 0x57, 0x00, 0x5b, 0x00]);
    assert_eq!(p.blocks().len(), 3);
    assert!(p.blocks()[0].reachable);
    assert!(p.blocks()[1].reachable);
    assert!(!p.blocks()[2].reachable);
    assert!(!p.blocks()[0].dynamic_jump);
}

#[test]
fn taken_jump_reaches_destination() {
    // PUSH1 3; JUMP; JUMPDEST; STOP
    let p = Program::new(vec![0x60, 0x03, 0x56, 0x5b, 0x00]);
    assert_eq!(p.blocks().len(), 2);
    let b0 = &p.blocks()[0];
    assert_eq!(b0.exits(), vec![3]);
    let b1 = &p.blocks()[1];
    assert_eq!(b1.entries(), vec![0]);
    assert!(b1.reachable);
}

#[test]
fn dynamic_jump_is_flagged() {
    // the jump target is a free stack value, not a constant
    let p = Program::new(vec![0x56]);
    assert_eq!(p.blocks().len(), 1);
    assert!(p.blocks()[0].dynamic_jump);
    assert_eq!(p.blocks()[0].exits().len(), 0);
}

#[test]
fn fallthrough_edges_are_linked() {
    // STOP; STOP: two blocks, no fallthrough after a terminator
    let p = Program::new(vec![0x00, 0x00]);
    assert_eq!(p.blocks().len(), 2);
    assert_eq!(p.blocks()[0].exits().len(), 0);
    // JUMPDEST; JUMPDEST: the first block falls through to the second
    let q = Program::new(vec![0x5b, 0x5b, 0x00]);
    let spans: Vec<(usize, usize)> = q.blocks().iter().map(|b| (b.start, b.end)).collect();
    assert_eq!(spans, vec![(0, 1), (1, 3)]);
    assert_eq!(q.blocks()[0].exits(), vec![1]);
    assert_eq!(q.blocks()[1].entries(), vec![0]);
}

#[test]
fn block_gas_price_sums_contained_instructions() {
    // PUSH1 0; PUSH1 2; JUMPI => 3 + 3 + 10
    let p = Program::new(vec![0x60, 0x00, 0x60, 0x02, 0x57, 0x00]);
    assert_eq!(p.blocks()[0].gas_price, 16);
    assert_eq!(p.calc_gas_price(0, 5), 16);
    assert_eq!(p.calc_gas_price(0, 6), 16);
    assert_eq!(p.blocks()[1].gas_price, 0);
}

#[test]
fn query_finds_guarded_jump() {
    // PUSH1 0; PUSH1 2; JUMPI: the conditional jump's tree is
    // JUMPI(2, 0); a pattern with a wildcard guard binds the guard
    let p = Program::new(vec![0x60, 0x00, 0x60, 0x02, 0x57, 0x00]);
    let pattern = OpTree::Operation(
        op_codes::JUMPI,
        vec![
            OpTree::Constant(BigNum::from_byte(2)),
            OpTree::Query("condition".to_string()),
        ],
    );
    let found = p.query(&pattern);
    assert_eq!(found.len(), 1);
    assert_eq!(found[0].0, 4);
    let bindings = &found[0].1;
    assert_eq!(bindings.len(), 1);
    assert_eq!(bindings[0].0, "condition");
    match &bindings[0].1 {
        OpTree::Constant(c) => assert!(c.is_zero()),
        _ => panic!("the guard must be the constant zero"),
    }
}

#[test]
fn op_trees_expand_through_results() {
    // PUSH1 1; PUSH1 2; ADD folds, so use a free value: JUMPDEST resets the
    // stack; ADD on free arguments stays opaque and MUL's tree inlines it
    let p = Program::new(vec![0x01, 0x02, 0x00]);
    // ADD at offset 0 over two free arguments, MUL at 1 over the result and
    // a third free argument
    assert_eq!(p.op_trees.len(), 3);
    match &p.op_trees[1] {
        OpTree::Operation(op, children) => {
            assert_eq!(*op, op_codes::MUL);
            assert_eq!(children.len(), 2);
            match &children[0] {
                OpTree::Operation(inner, inner_children) => {
                    assert_eq!(*inner, op_codes::ADD);
                    assert_eq!(inner_children.len(), 2);
                },
                _ => panic!("the opaque result must expand to its operation"),
            }
        },
        _ => panic!("expected an operation tree"),
    }
}

#[test]
fn instructions_of_block_are_its_range() {
    let p = Program::new(vec![0x60, 0x00, 0x60, 0x02, 0x57, 0x00, 0x5b, 0x00]);
    let first = p.instructions(&p.blocks()[0]);
    let offsets: Vec<usize> = first.iter().map(|i| i.offset).collect();
    assert_eq!(offsets, vec![0, 2, 4]);
}

#[test]
fn solve_stack_runs_a_block() {
    let p = Program::new(vec![0x60, 0x07, 0x00]);
    let entry: Vec<Expression> = Vec::new();
    let (exits, stack) = p.solve_stack(&p.blocks()[0], &entry).unwrap();
    assert_eq!(exits.len(), 0);
    assert_eq!(stack.len(), 1);
    match &stack[0] {
        Expression::Constant(c) => assert_eq!(c.to_usize(), Some(7)),
        _ => panic!("the pushed constant must be on the stack"),
    }
}

#[test]
fn unsupported_byte_code_is_refused() {
    assert!(check_supported(&vec![0x60, 0x01, 0x00]));
    // BLOCKHASH has no gas table entry
    assert!(!check_supported(&vec![0x40]));
    assert!(Program::try_new(vec![0x40]).is_none());
    assert!(Program::try_new(vec![0x00]).is_some());
}

#[test]
fn solve_stack_faults_on_dynamic_jump() {
    let p = Program::new(vec![0x56]);
    let entry: Vec<Expression> = Vec::new();
    assert!(p.solve_stack(&p.blocks()[0], &entry).is_err());
}

#[test]
fn push32_reads_all_data() {
    let mut bytes = vec![0x7f];
    let mut data = Vec::new();
    for i in 0..32 {
        data.push(i as u8);
    }
    bytes.extend_from_slice(&data);
    bytes.push(0x00);
    let p = Program::new(bytes);
    let offsets: Vec<usize> = p.instructions.iter().map(|i| i.offset).collect();
    assert_eq!(offsets, vec![0, 33]);
    assert_eq!(p.instructions[0].data, data);
}
