//! A static analyzer for EVM byte code: it decodes raw opcode streams,
//! reconstructs control flow, symbolically executes the operand stack to
//! derive value-level expressions for every instruction, and lets a caller
//! search those expressions for structural patterns.
pub mod bignum;
pub mod block;
pub mod expression;
pub mod instruction;
pub mod op_codes;
pub mod program;
