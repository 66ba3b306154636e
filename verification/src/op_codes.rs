//! The opcode reference table: byte values, mnemonic names, stack arity,
//! gas tiers and static gas costs for every EVM instruction; and the folding
//! of the defined operators over constant operands.
use vstd::prelude::*;

use crate::bignum::BigNum;
use crate::bignum::bit_and_nat;
use crate::bignum::bit_or_nat;
use crate::bignum::bit_xor_nat;
use crate::bignum::not_val;
use crate::bignum::pow_int;
use crate::bignum::tdiv;
use crate::bignum::tmod;
use crate::bignum::big_add;
use crate::bignum::big_sub;
use crate::bignum::big_mul;
use crate::bignum::big_div;
use crate::bignum::big_rem;
use crate::bignum::big_pow;
use crate::bignum::big_and;
use crate::bignum::big_or;
use crate::bignum::big_xor;
use crate::bignum::big_cmp;
use crate::bignum::big_eq;
use crate::bignum::big_not;

verus! {

/// halts execution
pub const STOP: u8 = 0x00;
/// addition operation
pub const ADD: u8 = 0x01;
/// multiplication operation
pub const MUL: u8 = 0x02;
/// subtraction operation
pub const SUB: u8 = 0x03;
/// integer division operation
pub const DIV: u8 = 0x04;
/// signed integer division operation
pub const SDIV: u8 = 0x05;
/// modulo remainder operation
pub const MOD: u8 = 0x06;
/// signed modulo remainder operation
pub const SMOD: u8 = 0x07;
/// unsigned modular addition
pub const ADDMOD: u8 = 0x08;
/// unsigned modular multiplication
pub const MULMOD: u8 = 0x09;
/// exponential operation
pub const EXP: u8 = 0x0a;
/// extend length of signed integer
pub const SIGNEXTEND: u8 = 0x0b;
/// less-than comparison
pub const LT: u8 = 0x10;
/// greater-than comparison
pub const GT: u8 = 0x11;
/// signed less-than comparison
pub const SLT: u8 = 0x12;
/// signed greater-than comparison
pub const SGT: u8 = 0x13;
/// equality comparison
pub const EQ: u8 = 0x14;
/// simple not operator
pub const ISZERO: u8 = 0x15;
/// bitwise AND operation
pub const AND: u8 = 0x16;
/// bitwise OR operation
pub const OR: u8 = 0x17;
/// bitwise XOR operation
pub const XOR: u8 = 0x18;
/// bitwise NOT operation
pub const NOT: u8 = 0x19;
/// retrieve single byte from word
pub const BYTE: u8 = 0x1a;
/// compute SHA3-256 hash
pub const SHA3: u8 = 0x20;
/// get address of currently executing account
pub const ADDRESS: u8 = 0x30;
/// get balance of the given account
pub const BALANCE: u8 = 0x31;
/// get execution origination address
pub const ORIGIN: u8 = 0x32;
/// get caller address
pub const CALLER: u8 = 0x33;
/// get deposited value by the instruction/transaction responsible for this execution
pub const CALLVALUE: u8 = 0x34;
/// get input data of current environment
pub const CALLDATALOAD: u8 = 0x35;
/// get size of input data in current environment
pub const CALLDATASIZE: u8 = 0x36;
/// copy input data in current environment to memory
pub const CALLDATACOPY: u8 = 0x37;
/// get size of code running in current environment
pub const CODESIZE: u8 = 0x38;
/// copy code running in current environment to memory
pub const CODECOPY: u8 = 0x39;
/// get price of gas in current environment
pub const GASPRICE: u8 = 0x3a;
/// get external code size (from another contract)
pub const EXTCODESIZE: u8 = 0x3b;
/// copy external code (from another contract)
pub const EXTCODECOPY: u8 = 0x3c;
/// get the size of the return data buffer for the last call
pub const RETURNDATASIZE: u8 = 0x3d;
/// copy return data buffer to memory
pub const RETURNDATACOPY: u8 = 0x3e;
/// get hash of most recent complete block
pub const BLOCKHASH: u8 = 0x40;
/// get the block's coinbase address
pub const COINBASE: u8 = 0x41;
/// get the block's timestamp
pub const TIMESTAMP: u8 = 0x42;
/// get the block's number
pub const NUMBER: u8 = 0x43;
/// get the block's difficulty
pub const DIFFICULTY: u8 = 0x44;
/// get the block's gas limit
pub const GASLIMIT: u8 = 0x45;
/// remove item from stack
pub const POP: u8 = 0x50;
/// load word from memory
pub const MLOAD: u8 = 0x51;
/// save word to memory
pub const MSTORE: u8 = 0x52;
/// save byte to memory
pub const MSTORE8: u8 = 0x53;
/// load word from storage
pub const SLOAD: u8 = 0x54;
/// save word to storage
pub const SSTORE: u8 = 0x55;
/// alter the program counter
pub const JUMP: u8 = 0x56;
/// conditionally alter the program counter
pub const JUMPI: u8 = 0x57;
/// get the program counter
pub const PC: u8 = 0x58;
/// get the size of active memory
pub const MSIZE: u8 = 0x59;
/// get the amount of available gas
pub const GAS: u8 = 0x5a;
/// set a potential jump destination
pub const JUMPDEST: u8 = 0x5b;
/// place 1 byte item on stack
pub const PUSH1: u8 = 0x60;
/// place 2 byte item on stack
pub const PUSH2: u8 = 0x61;
/// place 3 byte item on stack
pub const PUSH3: u8 = 0x62;
/// place 4 byte item on stack
pub const PUSH4: u8 = 0x63;
/// place 5 byte item on stack
pub const PUSH5: u8 = 0x64;
/// place 6 byte item on stack
pub const PUSH6: u8 = 0x65;
/// place 7 byte item on stack
pub const PUSH7: u8 = 0x66;
/// place 8 byte item on stack
pub const PUSH8: u8 = 0x67;
/// place 9 byte item on stack
pub const PUSH9: u8 = 0x68;
/// place 10 byte item on stack
pub const PUSH10: u8 = 0x69;
/// place 11 byte item on stack
pub const PUSH11: u8 = 0x6a;
/// place 12 byte item on stack
pub const PUSH12: u8 = 0x6b;
/// place 13 byte item on stack
pub const PUSH13: u8 = 0x6c;
/// place 14 byte item on stack
pub const PUSH14: u8 = 0x6d;
/// place 15 byte item on stack
pub const PUSH15: u8 = 0x6e;
/// place 16 byte item on stack
pub const PUSH16: u8 = 0x6f;
/// place 17 byte item on stack
pub const PUSH17: u8 = 0x70;
/// place 18 byte item on stack
pub const PUSH18: u8 = 0x71;
/// place 19 byte item on stack
pub const PUSH19: u8 = 0x72;
/// place 20 byte item on stack
pub const PUSH20: u8 = 0x73;
/// place 21 byte item on stack
pub const PUSH21: u8 = 0x74;
/// place 22 byte item on stack
pub const PUSH22: u8 = 0x75;
/// place 23 byte item on stack
pub const PUSH23: u8 = 0x76;
/// place 24 byte item on stack
pub const PUSH24: u8 = 0x77;
/// place 25 byte item on stack
pub const PUSH25: u8 = 0x78;
/// place 26 byte item on stack
pub const PUSH26: u8 = 0x79;
/// place 27 byte item on stack
pub const PUSH27: u8 = 0x7a;
/// place 28 byte item on stack
pub const PUSH28: u8 = 0x7b;
/// place 29 byte item on stack
pub const PUSH29: u8 = 0x7c;
/// place 30 byte item on stack
pub const PUSH30: u8 = 0x7d;
/// place 31 byte item on stack
pub const PUSH31: u8 = 0x7e;
/// place 32 byte item on stack
pub const PUSH32: u8 = 0x7f;
/// copies the highest item in the stack to the top of the stack
pub const DUP1: u8 = 0x80;
/// copies the second highest item in the stack to the top of the stack
pub const DUP2: u8 = 0x81;
/// copies the third highest item in the stack to the top of the stack
pub const DUP3: u8 = 0x82;
/// copies the 4th highest item in the stack to the top of the stack
pub const DUP4: u8 = 0x83;
/// copies the 5th highest item in the stack to the top of the stack
pub const DUP5: u8 = 0x84;
/// copies the 6th highest item in the stack to the top of the stack
pub const DUP6: u8 = 0x85;
/// copies the 7th highest item in the stack to the top of the stack
pub const DUP7: u8 = 0x86;
/// copies the 8th highest item in the stack to the top of the stack
pub const DUP8: u8 = 0x87;
/// copies the 9th highest item in the stack to the top of the stack
pub const DUP9: u8 = 0x88;
/// copies the 10th highest item in the stack to the top of the stack
pub const DUP10: u8 = 0x89;
/// copies the 11th highest item in the stack to the top of the stack
pub const DUP11: u8 = 0x8a;
/// copies the 12th highest item in the stack to the top of the stack
pub const DUP12: u8 = 0x8b;
/// copies the 13th highest item in the stack to the top of the stack
pub const DUP13: u8 = 0x8c;
/// copies the 14th highest item in the stack to the top of the stack
pub const DUP14: u8 = 0x8d;
/// copies the 15th highest item in the stack to the top of the stack
pub const DUP15: u8 = 0x8e;
/// copies the 16th highest item in the stack to the top of the stack
pub const DUP16: u8 = 0x8f;
/// swaps the highest and second highest value on the stack
pub const SWAP1: u8 = 0x90;
/// swaps the highest and third highest value on the stack
pub const SWAP2: u8 = 0x91;
/// swaps the highest and 4th highest value on the stack
pub const SWAP3: u8 = 0x92;
/// swaps the highest and 5th highest value on the stack
pub const SWAP4: u8 = 0x93;
/// swaps the highest and 6th highest value on the stack
pub const SWAP5: u8 = 0x94;
/// swaps the highest and 7th highest value on the stack
pub const SWAP6: u8 = 0x95;
/// swaps the highest and 8th highest value on the stack
pub const SWAP7: u8 = 0x96;
/// swaps the highest and 9th highest value on the stack
pub const SWAP8: u8 = 0x97;
/// swaps the highest and 10th highest value on the stack
pub const SWAP9: u8 = 0x98;
/// swaps the highest and 11th highest value on the stack
pub const SWAP10: u8 = 0x99;
/// swaps the highest and 12th highest value on the stack
pub const SWAP11: u8 = 0x9a;
/// swaps the highest and 13th highest value on the stack
pub const SWAP12: u8 = 0x9b;
/// swaps the highest and 14th highest value on the stack
pub const SWAP13: u8 = 0x9c;
/// swaps the highest and 15th highest value on the stack
pub const SWAP14: u8 = 0x9d;
/// swaps the highest and 16th highest value on the stack
pub const SWAP15: u8 = 0x9e;
/// swaps the highest and 17th highest value on the stack
pub const SWAP16: u8 = 0x9f;
/// makes a log entry; no topics
pub const LOG0: u8 = 0xa0;
/// makes a log entry; 1 topic
pub const LOG1: u8 = 0xa1;
/// makes a log entry; 2 topics
pub const LOG2: u8 = 0xa2;
/// makes a log entry; 3 topics
pub const LOG3: u8 = 0xa3;
/// makes a log entry; 4 topics
pub const LOG4: u8 = 0xa4;
/// maximal number of topics for log instructions
pub const MAX_NO_OF_TOPICS: usize = 4;
/// create a new account with associated code
pub const CREATE: u8 = 0xf0;
/// message-call into an account
pub const CALL: u8 = 0xf1;
/// message-call with another account's code only
pub const CALLCODE: u8 = 0xf2;
/// halt execution returning output data
pub const RETURN: u8 = 0xf3;
/// like CALLCODE but keeps caller's value and sender
pub const DELEGATECALL: u8 = 0xf4;
/// like CALL but does not take value, nor modify the state
pub const STATICCALL: u8 = 0xfa;
/// create a new account with the address derived from sender and init code
pub const CREATE2: u8 = 0xfb;
/// stop execution and revert state changes, returning output data
pub const REVERT: u8 = 0xfd;
/// halt execution and register account for later deletion
pub const SUICIDE: u8 = 0xff;

pub open spec fn spec_is_push(op: u8) -> bool {
    PUSH1 <= op <= PUSH32
}

pub open spec fn spec_is_stop(op: u8) -> bool {
    op == STOP || op == RETURN
}

pub open spec fn spec_is_jump(op: u8) -> bool {
    op == JUMP || op == JUMPI
}

pub open spec fn spec_is_dup(op: u8) -> bool {
    DUP1 <= op <= DUP16
}

pub open spec fn spec_is_swap(op: u8) -> bool {
    SWAP1 <= op <= SWAP16
}

pub open spec fn spec_is_log(op: u8) -> bool {
    LOG0 <= op <= LOG4
}

pub open spec fn spec_is_stack_manip_only(op: u8) -> bool {
    spec_is_dup(op) || spec_is_swap(op) || spec_is_push(op) || op == POP
}

pub open spec fn spec_is_arithmetic(op: u8) -> bool {
    op == EXP || op == DIV || op == NOT || op == ISZERO || op == SUB || op == OR || op == AND
        || op == ADD || op == GT || op == LT || op == XOR || op == MUL || op == MOD || op == EQ
        || op == SDIV
}

/// Number of immediate data bytes a push opcode carries (zero for all others).
pub open spec fn spec_push_bytes(op: u8) -> nat {
    if spec_is_push(op) {
        (op - PUSH1 + 1) as nat
    } else {
        0
    }
}

/// Returns true if the given opcode is one of the push instructions.
#[verifier::when_used_as_spec(spec_is_push)]
pub fn is_push(i: u8) -> (r: bool)
    ensures
        r == spec_is_push(i),
{
    i >= PUSH1 && i <= PUSH32
}

/// Returns true if the given opcode halts execution.
#[verifier::when_used_as_spec(spec_is_stop)]
pub fn is_stop(op_code: u8) -> (r: bool)
    ensures
        r == spec_is_stop(op_code),
{
    op_code == STOP || op_code == RETURN
}

/// Returns true if the given opcode only rearranges the stack.
#[verifier::when_used_as_spec(spec_is_stack_manip_only)]
pub fn is_stack_manip_only(op_code: u8) -> (r: bool)
    ensures
        r == spec_is_stack_manip_only(op_code),
{
    (op_code >= DUP1 && op_code <= DUP16) || (op_code >= SWAP1 && op_code <= SWAP16) || (op_code
        >= PUSH1 && op_code <= PUSH32) || op_code == POP
}

/// Returns true if the given opcode transfers control.
#[verifier::when_used_as_spec(spec_is_jump)]
pub fn is_jump(op_code: u8) -> (r: bool)
    ensures
        r == spec_is_jump(op_code),
{
    op_code == JUMP || op_code == JUMPI
}

/// Number of bytes to read after a push instruction; only for push opcodes.
pub fn get_push_bytes(i: u8) -> (r: usize)
    requires
        spec_is_push(i),
    ensures
        r == spec_push_bytes(i),
{
    (i - PUSH1 + 1) as usize
}

/// Number of bytes to read after a push instruction, or zero for any other opcode.
pub fn push_bytes(i: u8) -> (r: usize)
    ensures
        r == spec_push_bytes(i),
{
    if is_push(i) {
        get_push_bytes(i)
    } else {
        0
    }
}

/// Stack position of the item a dup opcode copies.
pub fn get_dup_position(i: u8) -> (r: usize)
    requires
        spec_is_dup(i),
    ensures
        r == i - DUP1,
{
    (i - DUP1) as usize
}

/// Stack position of the item a swap opcode exchanges the top with.
pub fn get_swap_position(i: u8) -> (r: usize)
    requires
        spec_is_swap(i),
    ensures
        r == i - SWAP1 + 1,
{
    (i - SWAP1 + 1) as usize
}

/// Number of topics a log opcode takes from the stack.
pub fn get_log_topics(i: u8) -> (r: usize)
    requires
        spec_is_log(i),
    ensures
        r == i - LOG0,
{
    (i - LOG0) as usize
}

/// Gas price tier of an opcode, grouping opcodes of equal static cost.
#[derive(Clone, Copy, PartialEq, Eq, Structural)]
pub enum GasPriceTier {
    Zero,
    Base,
    VeryLow,
    Low,
    Mid,
    High,
    Ext,
    Special,
    Invalid,
}

impl Default for GasPriceTier {
    fn default() -> (r: Self)
        ensures
            r == GasPriceTier::Invalid,
    {
        GasPriceTier::Invalid
    }
}

pub open spec fn spec_tier_idx(tier: GasPriceTier) -> nat {
    match tier {
        GasPriceTier::Zero => 0,
        GasPriceTier::Base => 1,
        GasPriceTier::VeryLow => 2,
        GasPriceTier::Low => 3,
        GasPriceTier::Mid => 4,
        GasPriceTier::High => 5,
        GasPriceTier::Ext => 6,
        GasPriceTier::Special => 7,
        GasPriceTier::Invalid => 8,
    }
}

/// Index in a gas schedule for the given tier.
pub fn get_tier_idx(tier: GasPriceTier) -> (r: usize)
    ensures
        r == spec_tier_idx(tier),
{
    match tier {
        GasPriceTier::Zero => 0,
        GasPriceTier::Base => 1,
        GasPriceTier::VeryLow => 2,
        GasPriceTier::Low => 3,
        GasPriceTier::Mid => 4,
        GasPriceTier::High => 5,
        GasPriceTier::Ext => 6,
        GasPriceTier::Special => 7,
        GasPriceTier::Invalid => 8,
    }
}

/// Number of stack arguments the given opcode consumes.
pub open spec fn op_args(op: u8) -> nat {
    if spec_is_push(op) {
        0
    } else if spec_is_dup(op) {
        (op - DUP1 + 1) as nat
    } else if spec_is_swap(op) {
        (op - SWAP1 + 2) as nat
    } else if spec_is_log(op) {
        (op - LOG0 + 2) as nat
    } else if op == ADD || op == SUB || op == MUL || op == DIV || op == SDIV || op == MOD || op
        == SMOD || op == EXP || op == LT || op == GT || op == SLT || op == SGT || op == EQ || op
        == AND || op == OR || op == XOR || op == BYTE || op == SIGNEXTEND || op == SHA3 || op
        == MSTORE || op == MSTORE8 || op == SSTORE || op == JUMPI || op == RETURN || op == REVERT {
        2
    } else if op == ADDMOD || op == MULMOD || op == RETURNDATACOPY || op == CALLDATACOPY || op
        == CODECOPY || op == CREATE || op == CREATE2 {
        3
    } else if op == NOT || op == ISZERO || op == BALANCE || op == CALLDATALOAD || op
        == EXTCODESIZE || op == BLOCKHASH || op == POP || op == MLOAD || op == SLOAD || op == JUMP
        || op == SUICIDE {
        1
    } else if op == EXTCODECOPY {
        4
    } else if op == DELEGATECALL || op == STATICCALL {
        6
    } else if op == CALL || op == CALLCODE {
        7
    } else {
        0
    }
}

/// Number of stack items the given opcode produces.
pub open spec fn op_ret(op: u8) -> nat {
    if spec_is_push(op) {
        1
    } else if spec_is_dup(op) {
        (op - DUP1 + 2) as nat
    } else if spec_is_swap(op) {
        (op - SWAP1 + 2) as nat
    } else if op == ADD || op == SUB || op == MUL || op == DIV || op == SDIV || op == MOD || op
        == SMOD || op == EXP || op == LT || op == GT || op == SLT || op == SGT || op == EQ || op
        == AND || op == OR || op == XOR || op == BYTE || op == SIGNEXTEND || op == SHA3 || op
        == NOT || op == ISZERO || op == ADDMOD || op == MULMOD || op == RETURNDATASIZE || op
        == ADDRESS || op == BALANCE || op == ORIGIN || op == CALLER || op == CALLVALUE || op
        == CALLDATALOAD || op == CALLDATASIZE || op == CODESIZE || op == GASPRICE || op
        == EXTCODESIZE || op == BLOCKHASH || op == COINBASE || op == TIMESTAMP || op == NUMBER
        || op == DIFFICULTY || op == GASLIMIT || op == MLOAD || op == SLOAD || op == PC || op
        == MSIZE || op == GAS || op == CREATE || op == CALL || op == CALLCODE || op
        == DELEGATECALL || op == STATICCALL || op == CREATE2 {
        1
    } else {
        0
    }
}

/// Gas price tier of the given opcode.
pub open spec fn op_tier(op: u8) -> GasPriceTier {
    if spec_is_push(op) || spec_is_dup(op) || spec_is_swap(op) {
        GasPriceTier::VeryLow
    } else if spec_is_log(op) {
        GasPriceTier::Special
    } else if op == STOP || op == RETURN || op == REVERT {
        GasPriceTier::Zero
    } else if op == ADD || op == SUB || op == NOT || op == LT || op == GT || op == SLT || op
        == SGT || op == EQ || op == ISZERO || op == AND || op == OR || op == XOR || op == BYTE
        || op == RETURNDATACOPY || op == CALLDATALOAD || op == CALLDATACOPY || op == CODECOPY
        || op == MLOAD || op == MSTORE || op == MSTORE8 {
        GasPriceTier::VeryLow
    } else if op == MUL || op == DIV || op == SDIV || op == MOD || op == SMOD || op == SIGNEXTEND {
        GasPriceTier::Low
    } else if op == ADDMOD || op == MULMOD || op == JUMP {
        GasPriceTier::Mid
    } else if op == JUMPI {
        GasPriceTier::High
    } else if op == BLOCKHASH {
        GasPriceTier::Ext
    } else if op == RETURNDATASIZE || op == ADDRESS || op == ORIGIN || op == CALLER || op
        == CALLVALUE || op == CALLDATASIZE || op == CODESIZE || op == GASPRICE || op == COINBASE
        || op == TIMESTAMP || op == NUMBER || op == DIFFICULTY || op == GASLIMIT || op == POP
        || op == PC || op == MSIZE || op == GAS {
        GasPriceTier::Base
    } else if op == EXP || op == SHA3 || op == BALANCE || op == EXTCODESIZE || op == EXTCODECOPY
        || op == SLOAD || op == SSTORE || op == JUMPDEST || op == CREATE || op == CALL || op
        == CALLCODE || op == DELEGATECALL || op == STATICCALL || op == SUICIDE || op == CREATE2 {
        GasPriceTier::Special
    } else {
        GasPriceTier::Invalid
    }
}

/// True when the gas table assigns the opcode a static cost: every opcode
/// except the special-tier ones that have no hardcoded cost either.
pub open spec fn spec_has_gas_cost(op: u8) -> bool {
    !(op == BLOCKHASH || op == LOG0 || op == CREATE || op == CALLCODE || op == DELEGATECALL || op
        == STATICCALL || op == CREATE2)
}

/// Static gas cost of an opcode: by tier where the tier fixes it, otherwise
/// the hardcoded special cost.
pub open spec fn spec_gas_cost(op: u8) -> nat {
    match op_tier(op) {
        GasPriceTier::Zero => 0,
        GasPriceTier::Base => 2,
        GasPriceTier::VeryLow => 3,
        GasPriceTier::Low => 5,
        GasPriceTier::Mid => 8,
        GasPriceTier::High => 10,
        GasPriceTier::Invalid => 0,
        _ => if op == EXTCODECOPY || op == EXTCODESIZE || op == CALL {
            700
        } else if op == BALANCE {
            400
        } else if op == SLOAD {
            200
        } else if op == JUMPDEST {
            1
        } else if op == SSTORE {
            5000
        } else if op == EXP {
            10
        } else if op == SHA3 {
            30
        } else if LOG1 <= op <= LOG4 {
            375
        } else {
            0
        },
    }
}

/// Returns true when the gas table assigns the opcode a static cost.
#[verifier::when_used_as_spec(spec_has_gas_cost)]
pub fn has_gas_cost(op: u8) -> (r: bool)
    ensures
        r == spec_has_gas_cost(op),
{
    !(op == BLOCKHASH || op == LOG0 || op == CREATE || op == CALLCODE || op == DELEGATECALL || op
        == STATICCALL || op == CREATE2)
}

/// Static gas cost of an opcode, per tier or the hardcoded special costs.
/// Only for opcodes the gas table covers.
pub fn get_gas_price(instr: u8) -> (r: usize)
    requires
        spec_has_gas_cost(instr),
    ensures
        r == spec_gas_cost(instr),
{
    let tier = op_code_info(instr).tier;
    match tier {
        GasPriceTier::Zero => 0,
        GasPriceTier::Base => 2,
        GasPriceTier::VeryLow => 3,
        GasPriceTier::Low => 5,
        GasPriceTier::Mid => 8,
        GasPriceTier::High => 10,
        GasPriceTier::Invalid => 0,
        _ => {
            if instr == EXTCODECOPY || instr == EXTCODESIZE || instr == CALL {
                700
            } else if instr == BALANCE {
                400
            } else if instr == SLOAD {
                200
            } else if instr == JUMPDEST {
                1
            } else if instr == SSTORE {
                5000
            } else if instr == EXP {
                10
            } else if instr == SHA3 {
                30
            } else if LOG1 <= instr && instr <= LOG4 {
                375
            } else {
                0
            }
        },
    }
}

/// Reference information about one opcode.
#[derive(Copy, Clone)]
pub struct OpCodeInfo {
    /// Mnemonic name.
    pub name: &'static str,
    pub op_code: u8,
    /// Number of stack arguments.
    pub args: usize,
    /// Number of returned stack items.
    pub ret: usize,
    /// Gas price tier.
    pub tier: GasPriceTier,
}

impl OpCodeInfo {
    /// Create new opcode information.
    pub fn new(name: &'static str, op_code: u8, args: usize, ret: usize, tier: GasPriceTier) -> (r:
        Self)
        ensures
            r.name == name && r.op_code == op_code && r.args == args && r.ret == ret && r.tier
                == tier,
    {
        OpCodeInfo { name, op_code, args, ret, tier }
    }
}

/// Looks up the reference information of an opcode: its declared stack
/// argument and return counts and its gas tier. Unassigned byte values get
/// zero arities and the invalid tier.
pub fn op_code_info(op: u8) -> (r: OpCodeInfo)
    ensures
        r.op_code == op,
        r.args == op_args(op),
        r.ret == op_ret(op),
        r.tier == op_tier(op),
{
    if op >= PUSH1 && op <= PUSH32 {
        OpCodeInfo::new("PUSH", op, 0, 1, GasPriceTier::VeryLow)
    } else if op >= DUP1 && op <= DUP16 {
        OpCodeInfo::new("DUP", op, (op - DUP1 + 1) as usize, (op - DUP1 + 2) as usize,
            GasPriceTier::VeryLow)
    } else if op >= SWAP1 && op <= SWAP16 {
        OpCodeInfo::new("SWAP", op, (op - SWAP1 + 2) as usize, (op - SWAP1 + 2) as usize,
            GasPriceTier::VeryLow)
    } else if op >= LOG0 && op <= LOG4 {
        OpCodeInfo::new("LOG", op, (op - LOG0 + 2) as usize, 0, GasPriceTier::Special)
    } else if op == STOP {
        OpCodeInfo::new("STOP", op, 0, 0, GasPriceTier::Zero)
    } else if op == ADD {
        OpCodeInfo::new("ADD", op, 2, 1, GasPriceTier::VeryLow)
    } else if op == MUL {
        OpCodeInfo::new("MUL", op, 2, 1, GasPriceTier::Low)
    } else if op == SUB {
        OpCodeInfo::new("SUB", op, 2, 1, GasPriceTier::VeryLow)
    } else if op == DIV {
        OpCodeInfo::new("DIV", op, 2, 1, GasPriceTier::Low)
    } else if op == SDIV {
        OpCodeInfo::new("SDIV", op, 2, 1, GasPriceTier::Low)
    } else if op == MOD {
        OpCodeInfo::new("MOD", op, 2, 1, GasPriceTier::Low)
    } else if op == SMOD {
        OpCodeInfo::new("SMOD", op, 2, 1, GasPriceTier::Low)
    } else if op == ADDMOD {
        OpCodeInfo::new("ADDMOD", op, 3, 1, GasPriceTier::Mid)
    } else if op == MULMOD {
        OpCodeInfo::new("MULMOD", op, 3, 1, GasPriceTier::Mid)
    } else if op == EXP {
        OpCodeInfo::new("EXP", op, 2, 1, GasPriceTier::Special)
    } else if op == SIGNEXTEND {
        OpCodeInfo::new("SIGNEXTEND", op, 2, 1, GasPriceTier::Low)
    } else if op == LT {
        OpCodeInfo::new("LT", op, 2, 1, GasPriceTier::VeryLow)
    } else if op == GT {
        OpCodeInfo::new("GT", op, 2, 1, GasPriceTier::VeryLow)
    } else if op == SLT {
        OpCodeInfo::new("SLT", op, 2, 1, GasPriceTier::VeryLow)
    } else if op == SGT {
        OpCodeInfo::new("SGT", op, 2, 1, GasPriceTier::VeryLow)
    } else if op == EQ {
        OpCodeInfo::new("EQ", op, 2, 1, GasPriceTier::VeryLow)
    } else if op == ISZERO {
        OpCodeInfo::new("ISZERO", op, 1, 1, GasPriceTier::VeryLow)
    } else if op == AND {
        OpCodeInfo::new("AND", op, 2, 1, GasPriceTier::VeryLow)
    } else if op == OR {
        OpCodeInfo::new("OR", op, 2, 1, GasPriceTier::VeryLow)
    } else if op == XOR {
        OpCodeInfo::new("XOR", op, 2, 1, GasPriceTier::VeryLow)
    } else if op == NOT {
        OpCodeInfo::new("NOT", op, 1, 1, GasPriceTier::VeryLow)
    } else if op == BYTE {
        OpCodeInfo::new("BYTE", op, 2, 1, GasPriceTier::VeryLow)
    } else if op == SHA3 {
        OpCodeInfo::new("SHA3", op, 2, 1, GasPriceTier::Special)
    } else if op == ADDRESS {
        OpCodeInfo::new("ADDRESS", op, 0, 1, GasPriceTier::Base)
    } else if op == BALANCE {
        OpCodeInfo::new("BALANCE", op, 1, 1, GasPriceTier::Special)
    } else if op == ORIGIN {
        OpCodeInfo::new("ORIGIN", op, 0, 1, GasPriceTier::Base)
    } else if op == CALLER {
        OpCodeInfo::new("CALLER", op, 0, 1, GasPriceTier::Base)
    } else if op == CALLVALUE {
        OpCodeInfo::new("CALLVALUE", op, 0, 1, GasPriceTier::Base)
    } else if op == CALLDATALOAD {
        OpCodeInfo::new("CALLDATALOAD", op, 1, 1, GasPriceTier::VeryLow)
    } else if op == CALLDATASIZE {
        OpCodeInfo::new("CALLDATASIZE", op, 0, 1, GasPriceTier::Base)
    } else if op == CALLDATACOPY {
        OpCodeInfo::new("CALLDATACOPY", op, 3, 0, GasPriceTier::VeryLow)
    } else if op == CODESIZE {
        OpCodeInfo::new("CODESIZE", op, 0, 1, GasPriceTier::Base)
    } else if op == CODECOPY {
        OpCodeInfo::new("CODECOPY", op, 3, 0, GasPriceTier::VeryLow)
    } else if op == GASPRICE {
        OpCodeInfo::new("GASPRICE", op, 0, 1, GasPriceTier::Base)
    } else if op == EXTCODESIZE {
        OpCodeInfo::new("EXTCODESIZE", op, 1, 1, GasPriceTier::Special)
    } else if op == EXTCODECOPY {
        OpCodeInfo::new("EXTCODECOPY", op, 4, 0, GasPriceTier::Special)
    } else if op == RETURNDATASIZE {
        OpCodeInfo::new("RETURNDATASIZE", op, 0, 1, GasPriceTier::Base)
    } else if op == RETURNDATACOPY {
        OpCodeInfo::new("RETURNDATACOPY", op, 3, 0, GasPriceTier::VeryLow)
    } else if op == BLOCKHASH {
        OpCodeInfo::new("BLOCKHASH", op, 1, 1, GasPriceTier::Ext)
    } else if op == COINBASE {
        OpCodeInfo::new("COINBASE", op, 0, 1, GasPriceTier::Base)
    } else if op == TIMESTAMP {
        OpCodeInfo::new("TIMESTAMP", op, 0, 1, GasPriceTier::Base)
    } else if op == NUMBER {
        OpCodeInfo::new("NUMBER", op, 0, 1, GasPriceTier::Base)
    } else if op == DIFFICULTY {
        OpCodeInfo::new("DIFFICULTY", op, 0, 1, GasPriceTier::Base)
    } else if op == GASLIMIT {
        OpCodeInfo::new("GASLIMIT", op, 0, 1, GasPriceTier::Base)
    } else if op == POP {
        OpCodeInfo::new("POP", op, 1, 0, GasPriceTier::Base)
    } else if op == MLOAD {
        OpCodeInfo::new("MLOAD", op, 1, 1, GasPriceTier::VeryLow)
    } else if op == MSTORE {
        OpCodeInfo::new("MSTORE", op, 2, 0, GasPriceTier::VeryLow)
    } else if op == MSTORE8 {
        OpCodeInfo::new("MSTORE8", op, 2, 0, GasPriceTier::VeryLow)
    } else if op == SLOAD {
        OpCodeInfo::new("SLOAD", op, 1, 1, GasPriceTier::Special)
    } else if op == SSTORE {
        OpCodeInfo::new("SSTORE", op, 2, 0, GasPriceTier::Special)
    } else if op == JUMP {
        OpCodeInfo::new("JUMP", op, 1, 0, GasPriceTier::Mid)
    } else if op == JUMPI {
        OpCodeInfo::new("JUMPI", op, 2, 0, GasPriceTier::High)
    } else if op == PC {
        OpCodeInfo::new("PC", op, 0, 1, GasPriceTier::Base)
    } else if op == MSIZE {
        OpCodeInfo::new("MSIZE", op, 0, 1, GasPriceTier::Base)
    } else if op == GAS {
        OpCodeInfo::new("GAS", op, 0, 1, GasPriceTier::Base)
    } else if op == JUMPDEST {
        OpCodeInfo::new("JUMPDEST", op, 0, 0, GasPriceTier::Special)
    } else if op == CREATE {
        OpCodeInfo::new("CREATE", op, 3, 1, GasPriceTier::Special)
    } else if op == CALL {
        OpCodeInfo::new("CALL", op, 7, 1, GasPriceTier::Special)
    } else if op == CALLCODE {
        OpCodeInfo::new("CALLCODE", op, 7, 1, GasPriceTier::Special)
    } else if op == RETURN {
        OpCodeInfo::new("RETURN", op, 2, 0, GasPriceTier::Zero)
    } else if op == DELEGATECALL {
        OpCodeInfo::new("DELEGATECALL", op, 6, 1, GasPriceTier::Special)
    } else if op == STATICCALL {
        OpCodeInfo::new("STATICCALL", op, 6, 1, GasPriceTier::Special)
    } else if op == SUICIDE {
        OpCodeInfo::new("SUICIDE", op, 1, 0, GasPriceTier::Special)
    } else if op == CREATE2 {
        OpCodeInfo::new("CREATE2", op, 3, 1, GasPriceTier::Special)
    } else if op == REVERT {
        OpCodeInfo::new("REVERT", op, 2, 0, GasPriceTier::Zero)
    } else {
        OpCodeInfo::new("", op, 0, 0, GasPriceTier::Invalid)
    }
}

/// Returns true if the given opcode is one of the foldable operators.
#[verifier::when_used_as_spec(spec_is_arithmetic)]
pub fn is_arithmetic(op_code: u8) -> (r: bool)
    ensures
        r == spec_is_arithmetic(op_code),
{
    op_code == EXP || op_code == DIV || op_code == NOT || op_code == ISZERO || op_code == SUB
        || op_code == OR || op_code == AND || op_code == ADD || op_code == GT || op_code == LT
        || op_code == XOR || op_code == MUL || op_code == MOD || op_code == EQ || op_code == SDIV
}

/// The exact value an operator opcode folds to over constant operands:
/// arbitrary-precision arithmetic, truncated division and remainder with
/// division and remainder by zero yielding zero, bitwise operations over the
/// magnitudes, and comparisons yielding one or zero.
pub open spec fn fold_val(op: u8, vals: Seq<int>) -> int {
    if op == ADD {
        vals[0] + vals[1]
    } else if op == SUB {
        vals[0] - vals[1]
    } else if op == MUL {
        vals[0] * vals[1]
    } else if op == DIV || op == SDIV {
        if vals[1] == 0 {
            0
        } else {
            tdiv(vals[0], vals[1])
        }
    } else if op == MOD {
        if vals[1] == 0 {
            0
        } else {
            tmod(vals[0], vals[1])
        }
    } else if op == EXP {
        pow_int(vals[0], vals[1] as nat)
    } else if op == NOT {
        not_val(vals[0] as nat)
    } else if op == ISZERO {
        if vals[0] == 0 {
            1
        } else {
            0
        }
    } else if op == AND {
        bit_and_nat(vals[0] as nat, vals[1] as nat) as int
    } else if op == OR {
        bit_or_nat(vals[0] as nat, vals[1] as nat) as int
    } else if op == XOR {
        bit_xor_nat(vals[0] as nat, vals[1] as nat) as int
    } else if op == GT {
        if vals[0] > vals[1] {
            1
        } else {
            0
        }
    } else if op == LT {
        if vals[0] < vals[1] {
            1
        } else {
            0
        }
    } else if op == EQ {
        if vals[0] == vals[1] {
            1
        } else {
            0
        }
    } else {
        0
    }
}

/// The conditions under which folding an operator is defined: the exponent
/// must lie in the usize range and the bitwise operations take non-negative
/// operands.
pub open spec fn spec_fold_safe(op: u8, vals: Seq<int>) -> bool {
    &&& (op == EXP ==> 0 <= vals[1] <= usize::MAX)
    &&& (op == NOT ==> vals[0] >= 0)
    &&& ((op == AND || op == OR || op == XOR) ==> vals[0] >= 0 && vals[1] >= 0)
}

/// Folds one of the defined operators over constant operands, with exact
/// arbitrary-precision arithmetic.
pub fn solve(opcode: u8, input: &Vec<BigNum>) -> (r: BigNum)
    requires
        spec_is_arithmetic(opcode),
        input.deep_view().len() == op_args(opcode),
        spec_fold_safe(opcode, input.deep_view()),
    ensures
        r@ == fold_val(opcode, input.deep_view()),
{
    proof {
        assert(input.deep_view().len() == input@.len());
        assert(forall|i: int|
            0 <= i < input@.len() ==> input.deep_view()[i] == #[trigger] input@[i]@);
    }
    if opcode == ADD {
        big_add(&input[0], &input[1])
    } else if opcode == SUB {
        big_sub(&input[0], &input[1])
    } else if opcode == MUL {
        big_mul(&input[0], &input[1])
    } else if opcode == DIV || opcode == SDIV {
        if input[1].is_zero() {
            BigNum::zero()
        } else {
            big_div(&input[0], &input[1])
        }
    } else if opcode == MOD {
        if input[1].is_zero() {
            BigNum::zero()
        } else {
            big_rem(&input[0], &input[1])
        }
    } else if opcode == EXP {
        let e = input[1].to_usize().unwrap();
        big_pow(&input[0], e)
    } else if opcode == NOT {
        big_not(&input[0])
    } else if opcode == ISZERO {
        if input[0].is_zero() {
            BigNum::from_byte(1)
        } else {
            BigNum::zero()
        }
    } else if opcode == AND {
        big_and(&input[0], &input[1])
    } else if opcode == OR {
        big_or(&input[0], &input[1])
    } else if opcode == XOR {
        big_xor(&input[0], &input[1])
    } else if opcode == GT {
        if big_cmp(&input[0], &input[1]) == 1 {
            BigNum::from_byte(1)
        } else {
            BigNum::zero()
        }
    } else if opcode == LT {
        if big_cmp(&input[0], &input[1]) == -1 {
            BigNum::from_byte(1)
        } else {
            BigNum::zero()
        }
    } else {
        if big_eq(&input[0], &input[1]) {
            BigNum::from_byte(1)
        } else {
            BigNum::zero()
        }
    }
}

/// The infix text of an operator opcode.
pub open spec fn infix_chars(op: u8) -> Seq<char> {
    if op == EXP {
        seq!['*', '*']
    } else if op == DIV {
        seq!['/']
    } else if op == NOT {
        seq!['!']
    } else if op == ISZERO {
        seq!['0', ' ', '=', '=', ' ']
    } else if op == SUB {
        seq!['-']
    } else if op == OR {
        seq!['|', '|']
    } else if op == AND {
        seq!['&']
    } else if op == ADD {
        seq!['+']
    } else if op == GT {
        seq!['>']
    } else if op == LT {
        seq!['<']
    } else if op == XOR {
        seq!['^']
    } else if op == MUL {
        seq!['*']
    } else if op == MOD {
        seq!['%']
    } else if op == EQ {
        seq!['=', '=']
    } else if op == SDIV {
        seq!['/', '/']
    } else {
        Seq::empty()
    }
}

/// Infix rendering of an operator opcode, for callers that print expressions;
/// present exactly for the foldable operators, with its exact text.
pub fn get_infix(op_code: u8) -> (r: Option<&'static str>)
    ensures
        r is Some <==> spec_is_arithmetic(op_code),
        r matches Some(s) ==> s@ == infix_chars(op_code),
{
    if op_code == EXP {
        {
        proof {
            reveal_strlit("**");
            assert("**"@ =~= infix_chars(op_code));
        }
        Some("**")
    }
    } else if op_code == DIV {
        {
        proof {
            reveal_strlit("/");
            assert("/"@ =~= infix_chars(op_code));
        }
        Some("/")
    }
    } else if op_code == NOT {
        {
        proof {
            reveal_strlit("!");
            assert("!"@ =~= infix_chars(op_code));
        }
        Some("!")
    }
    } else if op_code == ISZERO {
        {
        proof {
            reveal_strlit("0 == ");
            assert("0 == "@ =~= infix_chars(op_code));
        }
        Some("0 == ")
    }
    } else if op_code == SUB {
        {
        proof {
            reveal_strlit("-");
            assert("-"@ =~= infix_chars(op_code));
        }
        Some("-")
    }
    } else if op_code == OR {
        {
        proof {
            reveal_strlit("||");
            assert("||"@ =~= infix_chars(op_code));
        }
        Some("||")
    }
    } else if op_code == AND {
        {
        proof {
            reveal_strlit("&");
            assert("&"@ =~= infix_chars(op_code));
        }
        Some("&")
    }
    } else if op_code == ADD {
        {
        proof {
            reveal_strlit("+");
            assert("+"@ =~= infix_chars(op_code));
        }
        Some("+")
    }
    } else if op_code == GT {
        {
        proof {
            reveal_strlit(">");
            assert(">"@ =~= infix_chars(op_code));
        }
        Some(">")
    }
    } else if op_code == LT {
        {
        proof {
            reveal_strlit("<");
            assert("<"@ =~= infix_chars(op_code));
        }
        Some("<")
    }
    } else if op_code == XOR {
        {
        proof {
            reveal_strlit("^");
            assert("^"@ =~= infix_chars(op_code));
        }
        Some("^")
    }
    } else if op_code == MUL {
        {
        proof {
            reveal_strlit("*");
            assert("*"@ =~= infix_chars(op_code));
        }
        Some("*")
    }
    } else if op_code == MOD {
        {
        proof {
            reveal_strlit("%");
            assert("%"@ =~= infix_chars(op_code));
        }
        Some("%")
    }
    } else if op_code == EQ {
        {
        proof {
            reveal_strlit("==");
            assert("=="@ =~= infix_chars(op_code));
        }
        Some("==")
    }
    } else if op_code == SDIV {
        {
        proof {
            reveal_strlit("//");
            assert("//"@ =~= infix_chars(op_code));
        }
        Some("//")
    }
    } else {
        None
    }
}

} // verus!
