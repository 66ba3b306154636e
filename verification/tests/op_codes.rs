use evm_audit::op_codes::ADD;
use evm_audit::op_codes::BALANCE;
use evm_audit::op_codes::BLOCKHASH;
use evm_audit::op_codes::CALL;
use evm_audit::op_codes::CALLCODE;
use evm_audit::op_codes::CREATE;
use evm_audit::op_codes::CREATE2;
use evm_audit::op_codes::DELEGATECALL;
use evm_audit::op_codes::DUP1;
use evm_audit::op_codes::DUP5;
use evm_audit::op_codes::DUP10;
use evm_audit::op_codes::EQ;
use evm_audit::op_codes::EXP;
use evm_audit::op_codes::GasPriceTier;
use evm_audit::op_codes::JUMP;
use evm_audit::op_codes::JUMPDEST;
use evm_audit::op_codes::JUMPI;
use evm_audit::op_codes::LOG0;
use evm_audit::op_codes::LOG1;
use evm_audit::op_codes::LOG2;
use evm_audit::op_codes::LOG4;
use evm_audit::op_codes::MUL;
use evm_audit::op_codes::OpCodeInfo;
use evm_audit::op_codes::POP;
use evm_audit::op_codes::PUSH1;
use evm_audit::op_codes::PUSH2;
use evm_audit::op_codes::PUSH3;
use evm_audit::op_codes::PUSH32;
use evm_audit::op_codes::RETURN;
use evm_audit::op_codes::REVERT;
use evm_audit::op_codes::SDIV;
use evm_audit::op_codes::SHA3;
use evm_audit::op_codes::SLOAD;
use evm_audit::op_codes::SSTORE;
use evm_audit::op_codes::STATICCALL;
use evm_audit::op_codes::STOP;
use evm_audit::op_codes::SWAP1;
use evm_audit::op_codes::SWAP5;
use evm_audit::op_codes::SWAP10;
use evm_audit::op_codes::SWAP16;
use evm_audit::op_codes::get_dup_position;
use evm_audit::op_codes::get_gas_price;
use evm_audit::op_codes::get_infix;
use evm_audit::op_codes::get_log_topics;
use evm_audit::op_codes::get_push_bytes;
use evm_audit::op_codes::get_swap_position;
use evm_audit::op_codes::get_tier_idx;
use evm_audit::op_codes::has_gas_cost;
use evm_audit::op_codes::is_arithmetic;
use evm_audit::op_codes::is_jump;
use evm_audit::op_codes::is_push;
use evm_audit::op_codes::is_stack_manip_only;
use evm_audit::op_codes::is_stop;
use evm_audit::op_codes::op_code_info;
use evm_audit::op_codes::push_bytes;

#[test]
fn test_is_push() {
    assert!(is_push(PUSH1));
    assert!(is_push(PUSH32));
    assert!(!is_push(DUP1));
}

#[test]
fn test_get_push_bytes() {
    assert_eq!(get_push_bytes(PUSH1), 1);
    assert_eq!(get_push_bytes(PUSH3), 3);
    assert_eq!(get_push_bytes(PUSH32), 32);
}

#[test]
fn test_get_dup_position() {
    assert_eq!(get_dup_position(DUP1), 0);
    assert_eq!(get_dup_position(DUP5), 4);
    assert_eq!(get_dup_position(DUP10), 9);
}

#[test]
fn test_get_swap_position() {
    assert_eq!(get_swap_position(SWAP1), 1);
    assert_eq!(get_swap_position(SWAP5), 5);
    assert_eq!(get_swap_position(SWAP10), 10);
}

#[test]
fn test_get_log_topics() {
    assert_eq!(get_log_topics(LOG0), 0);
    assert_eq!(get_log_topics(LOG2), 2);
    assert_eq!(get_log_topics(LOG4), 4);
}

#[test]
fn test_push_bytes_zero_for_others() {
    assert_eq!(push_bytes(ADD), 0);
    assert_eq!(push_bytes(PUSH2), 2);
}

#[test]
fn test_gas_prices() {
    assert_eq!(get_gas_price(STOP), 0);
    assert_eq!(get_gas_price(ADD), 3);
    assert_eq!(get_gas_price(MUL), 5);
    assert_eq!(get_gas_price(JUMP), 8);
    assert_eq!(get_gas_price(JUMPI), 10);
    assert_eq!(get_gas_price(JUMPDEST), 1);
    assert_eq!(get_gas_price(SSTORE), 5000);
    assert_eq!(get_gas_price(SLOAD), 200);
    assert_eq!(get_gas_price(BALANCE), 400);
    assert_eq!(get_gas_price(EXP), 10);
    assert_eq!(get_gas_price(SHA3), 30);
    assert_eq!(get_gas_price(LOG1), 375);
    assert_eq!(get_gas_price(CALL), 700);
    assert_eq!(get_gas_price(PUSH1), 3);
}

#[test]
fn test_has_gas_cost() {
    assert!(has_gas_cost(ADD));
    assert!(has_gas_cost(JUMPDEST));
    assert!(!has_gas_cost(BLOCKHASH));
    assert!(!has_gas_cost(LOG0));
    assert!(!has_gas_cost(CREATE));
    assert!(!has_gas_cost(CALLCODE));
    assert!(!has_gas_cost(DELEGATECALL));
    assert!(!has_gas_cost(STATICCALL));
    assert!(!has_gas_cost(CREATE2));
}

#[test]
fn test_op_code_info_table() {
    let add = op_code_info(ADD);
    assert_eq!(add.args, 2);
    assert_eq!(add.ret, 1);
    assert_eq!(add.op_code, ADD);
    let dup3 = op_code_info(0x82);
    assert_eq!(dup3.args, 3);
    assert_eq!(dup3.ret, 4);
    let swap2 = op_code_info(0x91);
    assert_eq!(swap2.args, 3);
    assert_eq!(swap2.ret, 3);
    let unknown = op_code_info(0xfe);
    assert_eq!(unknown.args, 0);
    assert_eq!(unknown.ret, 0);
    assert!(matches!(unknown.tier, GasPriceTier::Invalid));
    let info = OpCodeInfo::new("X", 0x01, 2, 1, GasPriceTier::VeryLow);
    assert_eq!(info.name, "X");
    assert_eq!(info.args, 2);
}

#[test]
fn test_get_infix() {
    assert_eq!(get_infix(ADD), Some("+"));
    assert_eq!(get_infix(MUL), Some("*"));
    assert_eq!(get_infix(EXP), Some("**"));
    assert_eq!(get_infix(EQ), Some("=="));
    assert_eq!(get_infix(JUMP), None);
    assert!(is_arithmetic(ADD));
    assert!(is_arithmetic(SDIV));
    assert!(!is_arithmetic(JUMP));
}

#[test]
fn test_tier_idx() {
    assert_eq!(get_tier_idx(GasPriceTier::Zero), 0);
    assert_eq!(get_tier_idx(GasPriceTier::VeryLow), 2);
    assert_eq!(get_tier_idx(GasPriceTier::Invalid), 8);
}

#[test]
fn test_is_stack_manip_only() {
    assert!(is_stack_manip_only(PUSH1));
    assert!(is_stack_manip_only(DUP1));
    assert!(is_stack_manip_only(SWAP16));
    assert!(is_stack_manip_only(POP));
    assert!(!is_stack_manip_only(ADD));
    assert!(is_stop(STOP));
    assert!(is_stop(RETURN));
    assert!(!is_stop(REVERT));
    assert!(is_jump(JUMP));
    assert!(is_jump(JUMPI));
    assert!(!is_jump(JUMPDEST));
}
