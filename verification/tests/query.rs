use evm_audit::bignum::BigNum;
use evm_audit::expression::OpTree;
use evm_audit::op_codes;

fn constant(v: u8) -> OpTree {
    OpTree::Constant(BigNum::from_byte(v))
}

fn sample_tree() -> OpTree {
    OpTree::Operation(op_codes::ADD, vec![constant(7), OpTree::Argument(1)])
}

#[test]
fn query_round_trip_empty_bindings() {
    let tree = sample_tree();
    let pattern = sample_tree();
    let result = tree.query(&pattern).expect("a tree must match itself");
    assert_eq!(result.len(), 0);
}

#[test]
fn query_binds_replaced_leaf() {
    let tree = sample_tree();
    let pattern = OpTree::Operation(
        op_codes::ADD,
        vec![OpTree::Query("x".to_string()), OpTree::Argument(1)],
    );
    let result = tree.query(&pattern).expect("the wildcard must match");
    assert_eq!(result.len(), 1);
    assert_eq!(result[0].0, "x");
    match &result[0].1 {
        OpTree::Constant(c) => assert_eq!(c.to_usize(), Some(7)),
        _ => panic!("the binding must be the replaced leaf"),
    }
}

#[test]
fn query_binds_other_leaf() {
    let tree = sample_tree();
    let pattern = OpTree::Operation(
        op_codes::ADD,
        vec![constant(7), OpTree::Query("y".to_string())],
    );
    let result = tree.query(&pattern).expect("the wildcard must match");
    assert_eq!(result.len(), 1);
    assert_eq!(result[0].0, "y");
    assert!(matches!(result[0].1, OpTree::Argument(1)));
}

#[test]
fn query_mismatches() {
    let tree = sample_tree();
    // a different opcode fails
    let p1 = OpTree::Operation(op_codes::MUL, vec![constant(7), OpTree::Argument(1)]);
    assert!(tree.query(&p1).is_none());
    // a different constant fails
    let p2 = OpTree::Operation(op_codes::ADD, vec![constant(8), OpTree::Argument(1)]);
    assert!(tree.query(&p2).is_none());
    // a different argument index fails
    let p3 = OpTree::Operation(op_codes::ADD, vec![constant(7), OpTree::Argument(2)]);
    assert!(tree.query(&p3).is_none());
    // a different arity fails
    let p4 = OpTree::Operation(op_codes::ADD, vec![constant(7)]);
    assert!(tree.query(&p4).is_none());
}

#[test]
fn query_wildcard_matches_subtree() {
    let tree = OpTree::Operation(
        op_codes::MUL,
        vec![sample_tree(), constant(2)],
    );
    let pattern = OpTree::Operation(
        op_codes::MUL,
        vec![OpTree::Query("lhs".to_string()), constant(2)],
    );
    let result = tree.query(&pattern).expect("must match");
    assert_eq!(result.len(), 1);
    assert_eq!(result[0].0, "lhs");
    match &result[0].1 {
        OpTree::Operation(op, children) => {
            assert_eq!(*op, op_codes::ADD);
            assert_eq!(children.len(), 2);
        },
        _ => panic!("the whole subtree must be bound"),
    }
}
