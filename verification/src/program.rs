//! The program: decoding a byte sequence into instructions, partitioning them
//! into basic blocks, expanding each instruction's operation tree, linking
//! the control-flow edges, and resolving dynamic jumps by a gas-bounded
//! exploration from the entry block.
use vstd::prelude::*;

use crate::block::Block;
use crate::block::BlockV;
use crate::expression::Expression;
use crate::expression::ExprV;
use crate::expression::OpTree;
use crate::expression::OpTreeV;
use crate::expression::QueryResult;
use crate::expression::match_bindings;
use crate::expression::no_query;
use crate::expression::lemma_dv;
use crate::instruction::BranchCond;
use crate::instruction::EvmStack;
use crate::instruction::Instruction;
use crate::instruction::InstrV;
use crate::instruction::JumpFault;
use crate::instruction::clone_stack;
use crate::op_codes;
use crate::op_codes::op_args;
use crate::op_codes::spec_gas_cost;
use crate::op_codes::spec_has_gas_cost;
use crate::op_codes::spec_push_bytes;

verus! {

/// A raw sequence of opcode bytes.
pub type ByteCode = Vec<u8>;

/// The offset of the instruction following the one at `off`.
pub open spec fn next_offset(bytes: Seq<u8>, off: nat) -> nat {
    off + 1 + spec_push_bytes(bytes[off as int])
}

/// The offsets the decoder visits from `off` on: each instruction's offset,
/// in strictly increasing order.
pub open spec fn decoded_offsets(bytes: Seq<u8>, off: nat) -> Seq<nat>
    decreases
            (if off <= bytes.len() {
                bytes.len() - off
            } else {
                0int
            }),
{
    if off >= bytes.len() {
        Seq::empty()
    } else {
        seq![off] + decoded_offsets(bytes, next_offset(bytes, off))
    }
}

/// True when the gas table covers every decoded opcode: the condition under
/// which construction is defined.
pub open spec fn gas_table_covers(bytes: Seq<u8>, off: nat) -> bool
    decreases
            (if off <= bytes.len() {
                bytes.len() - off
            } else {
                0int
            }),
{
    off < bytes.len() ==> spec_has_gas_cost(bytes[off as int]) && gas_table_covers(
        bytes,
        next_offset(bytes, off),
    )
}

/// The bounds under which a program can be built: the byte sequence is small
/// enough that offsets, gas sums and free-argument counters fit the machine,
/// and the gas table covers every decoded opcode.
pub open spec fn spec_supported(bytes: Seq<u8>) -> bool {
    &&& bytes.len() * 5000 <= usize::MAX
    &&& gas_table_covers(bytes, 0)
}

/// The instruction at `it` has the shape the decoder gives it: its opcode is
/// the byte at its offset and its data the following immediate bytes, clamped
/// at the end of the sequence.
pub open spec fn decode_shape(bytes: Seq<u8>, it: InstrV) -> bool {
    &&& it.offset < bytes.len()
    &&& it.op_code == bytes[it.offset as int]
    &&& it.data == bytes.subrange(
        it.offset + 1 as int,
        if it.offset + 1 + spec_push_bytes(it.op_code) <= bytes.len() {
            (it.offset + 1 + spec_push_bytes(it.op_code)) as int
        } else {
            bytes.len() as int
        },
    )
}

/// Every opaque reference in the expression points at an earlier decoded
/// instruction.
pub open spec fn expr_refs_ok(e: ExprV, p: Seq<InstrV>, upto: int) -> bool {
    match e {
        ExprV::ResultOf(o) => exists|j: int| 0 <= j < upto && (#[trigger] p[j]).offset == o,
        _ => true,
    }
}

/// The well-formedness the decoder establishes: every instruction has the
/// decoded shape, offsets are strictly increasing, each instruction's inputs
/// match its declared argument count and only reference earlier instructions,
/// and its outputs are the interpreter's outputs of its inputs.
#[verifier::opaque]
pub open spec fn instrs_wf(p: Seq<InstrV>, bytes: Seq<u8>) -> bool {
    &&& forall|i: int| 0 <= i < p.len() ==> decode_shape(bytes, #[trigger] p[i])
    &&& forall|i: int, j: int| 0 <= i < j < p.len() ==> p[i].offset < p[j].offset
    &&& forall|i: int| 0 <= i < p.len() ==> (#[trigger] p[i]).inputs.len() == op_args(p[i].op_code)
    &&& forall|i: int, k: int|
        0 <= i < p.len() && 0 <= k < p[i].inputs.len() ==> expr_refs_ok(
            #[trigger] p[i].inputs[k],
            p,
            i,
        )
    &&& forall|i: int|
        0 <= i < p.len() ==> (#[trigger] p[i]).outputs == crate::instruction::outputs_of(
            p[i].op_code,
            p[i].offset,
            p[i].data,
            p[i].inputs,
        )
}

/// Some decoded instruction sits at offset `o`.
pub open spec fn has_offset(p: Seq<InstrV>, o: nat) -> bool {
    exists|j: int| 0 <= j < p.len() && (#[trigger] p[j]).offset == o
}

/// The index of the instruction at offset `o`.
pub open spec fn idx_of(p: Seq<InstrV>, o: nat) -> int {
    choose|j: int| 0 <= j < p.len() && (#[trigger] p[j]).offset == o
}

/// Offset `o` holds a jump destination instruction.
pub open spec fn offset_is_jumpdest(p: Seq<InstrV>, o: nat) -> bool {
    exists|j: int|
        0 <= j < p.len() && (#[trigger] p[j]).offset == o && p[j].op_code == op_codes::JUMPDEST
}

/// The summed static gas price of the instructions among the first `i` whose
/// offset lies in `[start, end)`.
pub open spec fn gas_sum_upto(p: Seq<InstrV>, start: nat, end: nat, i: int) -> nat
    decreases i,
{
    if i <= 0 || i > p.len() {
        0
    } else {
        gas_sum_upto(p, start, end, i - 1) + (if start <= p[i - 1].offset < end {
            spec_gas_cost(p[i - 1].op_code)
        } else {
            0
        })
    }
}

/// The summed static gas price of the instructions in `[start, end)`.
pub open spec fn gas_sum(p: Seq<InstrV>, start: nat, end: nat) -> nat {
    gas_sum_upto(p, start, end, p.len() as int)
}

/// Every partial gas sum is bounded by the highest single cost times the
/// number of instructions.
proof fn lemma_gas_sum_bound(p: Seq<InstrV>, start: nat, end: nat, i: int)
    requires
        0 <= i <= p.len(),
    ensures
        gas_sum_upto(p, start, end, i) <= 5000 * i,
    decreases i,
{
    if i > 0 {
        lemma_gas_sum_bound(p, start, end, i - 1);
        assert(spec_gas_cost(p[i - 1].op_code) <= 5000);
    }
}

/// The instructions among the first `i` whose offset lies in `[start, end)`,
/// in order.
pub open spec fn in_range_upto(p: Seq<InstrV>, start: nat, end: nat, i: int) -> Seq<InstrV>
    decreases i,
{
    if i <= 0 || i > p.len() {
        Seq::empty()
    } else {
        in_range_upto(p, start, end, i - 1) + (if start <= p[i - 1].offset < end {
            seq![p[i - 1]]
        } else {
            Seq::empty()
        })
    }
}

/// The instructions whose offset lies in `[start, end)`, in order.
pub open spec fn instrs_in_range(p: Seq<InstrV>, start: nat, end: nat) -> Seq<InstrV> {
    in_range_upto(p, start, end, p.len() as int)
}

/// The instructions' offsets, in store order.
pub open spec fn instr_offsets(p: Seq<InstrV>) -> Seq<nat> {
    Seq::new(p.len(), |i: int| p[i].offset)
}

/// Appending an instruction at or past the range leaves the range's gas sum
/// unchanged.
proof fn lemma_gas_upto_push(p: Seq<InstrV>, x: InstrV, s: nat, e: nat, i: int)
    requires
        0 <= i <= p.len(),
    ensures
        gas_sum_upto(p.push(x), s, e, i) == gas_sum_upto(p, s, e, i),
    decreases i,
{
    if i > 0 {
        lemma_gas_upto_push(p, x, s, e, i - 1);
        assert(p.push(x)[i - 1] == p[i - 1]);
    }
}

proof fn lemma_gas_sum_push(p: Seq<InstrV>, x: InstrV, s: nat, e: nat)
    requires
        x.offset >= e,
    ensures
        gas_sum(p.push(x), s, e) == gas_sum(p, s, e),
{
    lemma_gas_upto_push(p, x, s, e, p.len() as int);
    assert(p.push(x)[p.len() as int] == x);
}

/// The popped arguments of an instruction are stack values or fresh free
/// arguments: their references stay within the store.
proof fn lemma_pop_refs(stk: Seq<ExprV>, n: nat, argc: nat, p: Seq<InstrV>)
    requires
        forall|k: int| 0 <= k < stk.len() ==> expr_refs_ok(#[trigger] stk[k], p, p.len() as int),
    ensures
        forall|k: int|
            0 <= k < crate::instruction::pop_inputs(stk, n, argc).0.len() ==> expr_refs_ok(
                #[trigger] crate::instruction::pop_inputs(stk, n, argc).0[k],
                p,
                p.len() as int,
            ),
        forall|k: int|
            0 <= k < crate::instruction::pop_inputs(stk, n, argc).1.len() ==> expr_refs_ok(
                #[trigger] crate::instruction::pop_inputs(stk, n, argc).1[k],
                p,
                p.len() as int,
            ),
{
    let popped = crate::instruction::pop_inputs(stk, n, argc);
    assert forall|k: int| 0 <= k < popped.0.len() implies expr_refs_ok(
        #[trigger] popped.0[k],
        p,
        p.len() as int,
    ) by {
        let m = if n <= stk.len() {
            n as int
        } else {
            stk.len() as int
        };
        if k < m {
            assert(popped.0[k] == stk[stk.len() - 1 - k]);
        }
    }
    assert forall|k: int| 0 <= k < popped.1.len() implies expr_refs_ok(
        #[trigger] popped.1[k],
        p,
        p.len() as int,
    ) by {
        assert(popped.1[k] == stk[k]);
    }
}

/// The outputs of an instruction reference only its inputs' references and
/// its own offset.
proof fn lemma_outputs_refs(
    op: u8,
    off: nat,
    data: Seq<u8>,
    inputs: Seq<ExprV>,
    p: Seq<InstrV>,
)
    requires
        forall|k: int| 0 <= k < inputs.len() ==> expr_refs_ok(#[trigger] inputs[k], p, p.len() as int),
        has_offset(p, off),
        inputs.len() == op_args(op),
    ensures
        forall|k: int|
            0 <= k < crate::instruction::outputs_of(op, off, data, inputs).len() ==> expr_refs_ok(
                #[trigger] crate::instruction::outputs_of(op, off, data, inputs)[k],
                p,
                p.len() as int,
            ),
{
    let outs = crate::instruction::outputs_of(op, off, data, inputs);
    assert forall|k: int| 0 <= k < outs.len() implies expr_refs_ok(
        #[trigger] outs[k],
        p,
        p.len() as int,
    ) by {
        if op_codes::spec_is_push(op) {
        } else if op_codes::spec_is_swap(op) {
            let sp = (op - op_codes::SWAP1 + 1) as int;
            assert(outs[k] == inputs[0] || outs[k] == inputs[sp] || outs[k] == inputs[k]);
        } else if op_codes::spec_is_dup(op) {
            let dp = (op - op_codes::DUP1) as int;
            if k == 0 {
                assert(outs[k] == inputs[dp]);
            } else {
                assert(outs[k] == inputs[k - 1]);
            }
        } else {
        }
    }
}

/// A block arena holds a block starting at offset `o`.
pub open spec fn has_block(bs: Seq<BlockV>, o: nat) -> bool {
    exists|j: int| 0 <= j < bs.len() && (#[trigger] bs[j]).start == o
}

/// The index of the block starting at offset `o`.
pub open spec fn block_idx(bs: Seq<BlockV>, o: nat) -> int {
    choose|j: int| 0 <= j < bs.len() && (#[trigger] bs[j]).start == o
}

/// The blocks partition the byte range from zero up to the last boundary the
/// builder reached: the first starts at zero, each begins where the previous
/// one ends, and none runs past the end of the byte sequence.
pub open spec fn blocks_partition(bs: Seq<BlockV>, byte_len: nat) -> bool {
    &&& bs.len() > 0 ==> bs[0].start == 0
    &&& forall|i: int| 0 <= i < bs.len() - 1 ==> (#[trigger] bs[i]).end == bs[i + 1].start
    &&& forall|i: int| 0 <= i < bs.len() ==> (#[trigger] bs[i]).start <= bs[i].end
    &&& bs.len() > 0 ==> bs[bs.len() - 1].end <= byte_len
}

/// The expanded form of an expression: constants and arguments map one to
/// one; an opaque reference expands to the operation tree of the instruction
/// at that offset, applied to that instruction's own expanded inputs. The
/// bound carries the strictly decreasing offset that makes the recursion well
/// founded; a reference at or above it, which a well-formed decode never
/// produces, expands to a free argument.
pub open spec fn expand_expr(p: Seq<InstrV>, e: ExprV, bound: nat) -> OpTreeV
    decreases bound, 0int,
{
    match e {
        ExprV::Constant(v) => OpTreeV::Constant(v),
        ExprV::Argument(i) => OpTreeV::Argument(i),
        ExprV::ResultOf(o) => if o < bound && has_offset(p, o) {
            expand_instr(p, idx_of(p, o))
        } else {
            OpTreeV::Argument(0)
        },
    }
}

/// The operation tree of the instruction at index `i`: its opcode applied to
/// its expanded inputs.
pub open spec fn expand_instr(p: Seq<InstrV>, i: int) -> OpTreeV
    decreases
            (if 0 <= i < p.len() {
                p[i].offset
            } else {
                0nat
            }),
            1int,
{
    if 0 <= i < p.len() {
        OpTreeV::Operation(
            p[i].op_code,
            Seq::new(p[i].inputs.len(), |k: int| expand_expr(p, p[i].inputs[k], p[i].offset)),
        )
    } else {
        OpTreeV::Argument(0)
    }
}

/// The operation tree of an instruction that need not itself be stored yet:
/// its opcode applied to its expanded inputs.
pub open spec fn expand_of(p: Seq<InstrV>, it: InstrV) -> OpTreeV {
    OpTreeV::Operation(
        it.op_code,
        Seq::new(it.inputs.len(), |k: int| expand_expr(p, it.inputs[k], it.offset)),
    )
}

/// An opaque reference expands through instructions at strictly smaller
/// offsets only.
pub open spec fn ref_below(p: Seq<InstrV>, e: ExprV, bound: nat) -> bool {
    match e {
        ExprV::ResultOf(o) => o < bound && has_offset(p, o),
        _ => true,
    }
}

/// The recursion rank of an expression for tree expansion.
pub open spec fn expr_rank(e: ExprV) -> nat {
    match e {
        ExprV::ResultOf(o) => o + 1,
        _ => 0,
    }
}

/// Offsets are strictly increasing.
pub open spec fn offsets_sorted(p: Seq<InstrV>) -> bool {
    forall|i: int, j: int| 0 <= i < j < p.len() ==> p[i].offset < p[j].offset
}

/// In a sorted sequence the index of an offset is unique.
proof fn lemma_idx_unique(p: Seq<InstrV>, o: nat, i: int)
    requires
        offsets_sorted(p),
        0 <= i < p.len(),
        p[i].offset == o,
    ensures
        has_offset(p, o),
        idx_of(p, o) == i,
{
    assert(has_offset(p, o));
    let j = idx_of(p, o);
    assert(0 <= j < p.len() && p[j].offset == o);
    if i < j {
        assert(p[i].offset < p[j].offset);
    }
    if j < i {
        assert(p[j].offset < p[i].offset);
    }
}

/// Expanded trees hold no wildcards.
pub proof fn lemma_expand_no_query(p: Seq<InstrV>, e: ExprV, bound: nat)
    ensures
        no_query(expand_expr(p, e, bound)),
    decreases bound, 0int,
{
    match e {
        ExprV::ResultOf(o) => {
            if o < bound && has_offset(p, o) {
                lemma_expand_instr_no_query(p, idx_of(p, o));
            }
        },
        _ => {},
    }
}

proof fn lemma_expand_instr_no_query(p: Seq<InstrV>, i: int)
    ensures
        no_query(expand_instr(p, i)),
    decreases
            (if 0 <= i < p.len() {
                p[i].offset
            } else {
                0nat
            }),
            1int,
{
    if 0 <= i < p.len() {
        let cs = expand_instr(p, i)->Operation_1;
        assert forall|k: int| 0 <= k < cs.len() implies no_query(#[trigger] cs[k]) by {
            assert(cs[k] == expand_expr(p, p[i].inputs[k], p[i].offset));
            lemma_expand_no_query(p, p[i].inputs[k], p[i].offset);
        }
    }
}

/// Expanded trees of an instruction that only references earlier offsets
/// hold no wildcards.
pub proof fn lemma_expand_of_no_query(p: Seq<InstrV>, it: InstrV)
    ensures
        no_query(expand_of(p, it)),
{
    let cs = expand_of(p, it)->Operation_1;
    assert forall|k: int| 0 <= k < cs.len() implies no_query(#[trigger] cs[k]) by {
        assert(cs[k] == expand_expr(p, it.inputs[k], it.offset));
        lemma_expand_no_query(p, it.inputs[k], it.offset);
    }
}

/// Expansion below a bound does not see instructions appended at or above it:
/// the tree stored while decoding equals the tree over the finished program.
pub proof fn lemma_expand_frame(p1: Seq<InstrV>, p2: Seq<InstrV>, e: ExprV, bound: nat)
    requires
        p1.len() <= p2.len(),
        p1 == p2.take(p1.len() as int),
        offsets_sorted(p2),
        forall|j: int| p1.len() <= j < p2.len() ==> (#[trigger] p2[j]).offset >= bound,
    ensures
        expand_expr(p1, e, bound) == expand_expr(p2, e, bound),
    decreases bound, 0int,
{
    match e {
        ExprV::ResultOf(o) => {
            if o < bound {
                if has_offset(p1, o) {
                    let i = choose|j: int| 0 <= j < p1.len() && (#[trigger] p1[j]).offset == o;
                    assert(p1[i] == p2[i]);
                    assert(offsets_sorted(p1)) by {
                        assert(forall|a: int, b: int|
                            0 <= a < b < p1.len() ==> p1[a] == p2[a] && p1[b] == p2[b]);
                    }
                    lemma_idx_unique(p1, o, i);
                    lemma_idx_unique(p2, o, i);
                    lemma_expand_frame_instr(p1, p2, i);
                } else if has_offset(p2, o) {
                    let j = choose|j: int| 0 <= j < p2.len() && (#[trigger] p2[j]).offset == o;
                    assert(0 <= j < p2.len() && p2[j].offset == o);
                    if j < p1.len() {
                        assert(p1[j] == p2[j]);
                        assert(p1[j].offset == o);
                        assert(has_offset(p1, o));
                    } else {
                        assert(p2[j].offset >= bound);
                    }
                    assert(false);
                }
            }
        },
        _ => {},
    }
}

proof fn lemma_expand_frame_instr(p1: Seq<InstrV>, p2: Seq<InstrV>, i: int)
    requires
        p1.len() <= p2.len(),
        p1 == p2.take(p1.len() as int),
        offsets_sorted(p2),
        0 <= i < p1.len(),
        forall|j: int| p1.len() <= j < p2.len() ==> (#[trigger] p2[j]).offset >= p1[i].offset,
    ensures
        expand_instr(p1, i) == expand_instr(p2, i),
    decreases
            (if 0 <= i < p1.len() {
                p1[i].offset
            } else {
                0nat
            }),
            1int,
{
    assert(p1[i] == p2[i]);
    let cs1 = expand_instr(p1, i)->Operation_1;
    let cs2 = expand_instr(p2, i)->Operation_1;
    assert forall|k: int| 0 <= k < cs1.len() implies cs1[k] == cs2[k] by {
        assert(cs1[k] == expand_expr(p1, p1[i].inputs[k], p1[i].offset));
        assert(cs2[k] == expand_expr(p2, p2[i].inputs[k], p2[i].offset));
        lemma_expand_frame(p1, p2, p1[i].inputs[k], p1[i].offset);
    }
    assert(cs1 =~= cs2);
    assert(expand_instr(p1, i) == expand_instr(p2, i));
}


/// Every value on the running stack references only stored instructions.
#[verifier::opaque]
pub open spec fn stack_refs_ok(stack: Seq<ExprV>, p: Seq<InstrV>) -> bool {
    forall|k: int| 0 <= k < stack.len() ==> expr_refs_ok(#[trigger] stack[k], p, p.len() as int)
}

/// All stored instructions lie strictly below the cursor.
#[verifier::opaque]
pub open spec fn offsets_below(p: Seq<InstrV>, off: nat) -> bool {
    forall|i: int| 0 <= i < p.len() ==> (#[trigger] p[i]).offset < off
}

/// The gas table covers every stored instruction.
#[verifier::opaque]
pub open spec fn gas_known(p: Seq<InstrV>) -> bool {
    forall|i: int| 0 <= i < p.len() ==> spec_has_gas_cost((#[trigger] p[i]).op_code)
}

/// Each stored tree is the expansion of its instruction.
#[verifier::opaque]
pub open spec fn trees_match(trees: Seq<OpTreeV>, p: Seq<InstrV>) -> bool {
    &&& trees.len() == p.len()
    &&& forall|i: int| 0 <= i < p.len() ==> trees[i] == expand_of(p, #[trigger] p[i])
}

/// An analyzed program: the input bytes, the decoded instructions in offset
/// order, the basic blocks in start order, and one expanded operation tree
/// per instruction.
pub struct Program {
    pub byte_code: ByteCode,
    pub instructions: Vec<Instruction>,
    pub blocks: Vec<Block>,
    pub op_trees: Vec<OpTree>,
}

impl Program {
    /// The instructions' mathematical form.
    pub open spec fn instrs(&self) -> Seq<InstrV> {
        self.instructions.deep_view()
    }

    /// The blocks' mathematical form.
    pub open spec fn blks(&self) -> Seq<BlockV> {
        self.blocks.deep_view()
    }

    /// The blocks, ordered by start offset.
    pub fn blocks(&self) -> (r: &Vec<Block>)
        ensures
            r == &self.blocks,
    {
        &self.blocks
    }

    /// The summed static gas price of the instructions in `[start, end)`.
    pub fn calc_gas_price(&self, start: usize, end: usize) -> (r: usize)
        requires
            gas_known(self.instrs()),
            self.instrs().len() * 5000 <= usize::MAX,
        ensures
            r == gas_sum(self.instrs(), start as nat, end as nat),
    {
        proof {
            lemma_dv(&self.instructions);
        }
        let ghost p = self.instrs();
        let mut rtn: usize = 0;
        let n = self.instructions.len();
        let mut i: usize = 0;
        while i < n
            invariant
                0 <= i <= n,
                n == p.len(),
                p == self.instrs(),
                p.len() * 5000 <= usize::MAX,
                gas_known(p),
                rtn == gas_sum_upto(p, start as nat, end as nat, i as int),
            decreases n - i,
        {
            proof {
                lemma_dv(&self.instructions);
                reveal(gas_known);
                lemma_gas_sum_bound(p, start as nat, end as nat, i as int);
                assert(5000 * i as int <= 5000 * p.len()) by (nonlinear_arith)
                    requires
                        0 <= i as int <= p.len(),
                ;
            }
            let it = &self.instructions[i];
            if start <= it.offset && it.offset < end {
                proof {
                    assert(it@ == p[i as int]);
                }
                rtn = rtn + op_codes::get_gas_price(it.op_code);
            }
            i = i + 1;
        }
        rtn
    }

    /// Appends a block over `[start, end)` with the given exit stack and the
    /// summed gas price of the instructions it spans.
    pub fn insert_block(&mut self, start: usize, end: usize, stack: &EvmStack)
        requires
            gas_known(old(self).instrs()),
            old(self).instrs().len() * 5000 <= usize::MAX,
        ensures
            final(self).byte_code == old(self).byte_code,
            final(self).instructions == old(self).instructions,
            final(self).op_trees == old(self).op_trees,
            final(self).blks() == old(self).blks().push(
                BlockV {
                    start: start as nat,
                    end: end as nat,
                    exit_stack: stack.deep_view(),
                    entries: Seq::<usize>::empty(),
                    exits: Seq::<usize>::empty(),
                    dynamic_jump: false,
                    gas_price: gas_sum(old(self).instrs(), start as nat, end as nat),
                    reachable: false,
                },
            ),
    {
        let gas_price = self.calc_gas_price(start, end);
        let copy = clone_stack(stack);
        let b = Block::new(start, end, copy, gas_price);
        proof {
            lemma_dv(&self.blocks);
        }
        self.blocks.push(b);
        proof {
            lemma_dv(&self.blocks);
            assert(self.blks() =~= old(self).blks().push(b@));
        }
    }

    /// The instructions whose offset lies in the block's range, in offset
    /// order.
    pub fn instructions(&self, block: &Block) -> (r: Vec<Instruction>)
        ensures
            r.deep_view() == instrs_in_range(self.instrs(), block.start as nat, block.end as nat),
    {
        proof {
            lemma_dv(&self.instructions);
        }
        let ghost p = self.instrs();
        let mut r: Vec<Instruction> = Vec::new();
        let n = self.instructions.len();
        let mut i: usize = 0;
        while i < n
            invariant
                0 <= i <= n,
                n == p.len(),
                p == self.instrs(),
                r.deep_view() == in_range_upto(p, block.start as nat, block.end as nat, i as int),
            decreases n - i,
        {
            proof {
                lemma_dv(&self.instructions);
                lemma_dv(&r);
            }
            let ghost r_pre = r.deep_view();
            let it = &self.instructions[i];
            if block.start <= it.offset && it.offset < block.end {
                let c = it.clone();
                r.push(c);
                proof {
                    lemma_dv(&r);
                    assert forall|i2: int| 0 <= i2 < r@.len() implies r.deep_view()[i2] == (
                    if i2 < r_pre.len() {
                        r_pre[i2]
                    } else {
                        p[i as int]
                    }) by {
                        if i2 < r_pre.len() {
                            assert(r@[i2].deep_view() == r_pre[i2]);
                        }
                    }
                    assert(r.deep_view() =~= in_range_upto(
                        p,
                        block.start as nat,
                        block.end as nat,
                        i + 1,
                    ));
                }
            } else {
                proof {
                    assert(r.deep_view() =~= in_range_upto(
                        p,
                        block.start as nat,
                        block.end as nat,
                        i + 1,
                    ));
                }
            }
            i = i + 1;
        }
        r
    }

    /// Finds the index of the instruction at the given offset.
    fn find_instruction(&self, offset: usize) -> (r: Option<usize>)
        ensures
            match r {
                Some(i) => i < self.instrs().len() && self.instrs()[i as int].offset
                    == offset as nat,
                None => !has_offset(self.instrs(), offset as nat),
            },
    {
        proof {
            lemma_dv(&self.instructions);
        }
        let n = self.instructions.len();
        let mut i: usize = 0;
        while i < n
            invariant
                0 <= i <= n,
                n == self.instrs().len(),
                forall|j: int| 0 <= j < i ==> (#[trigger] self.instrs()[j]).offset != offset as nat,
            decreases n - i,
        {
            proof {
                lemma_dv(&self.instructions);
            }
            if self.instructions[i].offset == offset {
                proof {
                    assert(self.instrs()[i as int].offset == offset as nat);
                }
                return Some(i);
            }
            i = i + 1;
        }
        None
    }

    /// Returns true when the given offset holds a decoded jump destination
    /// instruction: the only offsets a jump may land on.
    pub fn is_valid_jump_dest(&self, dest: usize) -> (r: bool)
        ensures
            r == offset_is_jumpdest(self.instrs(), dest as nat),
    {
        proof {
            lemma_dv(&self.instructions);
        }
        let n = self.instructions.len();
        let mut i: usize = 0;
        while i < n
            invariant
                0 <= i <= n,
                n == self.instrs().len(),
                forall|j: int|
                    0 <= j < i ==> !((#[trigger] self.instrs()[j]).offset == dest as nat
                        && self.instrs()[j].op_code == op_codes::JUMPDEST),
            decreases n - i,
        {
            proof {
                lemma_dv(&self.instructions);
            }
            let it = &self.instructions[i];
            if it.offset == dest && it.op_code == op_codes::JUMPDEST {
                proof {
                    assert(self.instrs()[i as int].offset == dest as nat);
                }
                return true;
            }
            i = i + 1;
        }
        false
    }
}

/// Every input of the instruction references only earlier stored
/// instructions: the condition under which its tree can be expanded.
pub open spec fn inputs_expandable(p: Seq<InstrV>, it: InstrV) -> bool {
    forall|k: int| 0 <= k < it.inputs.len() ==> ref_below(p, #[trigger] it.inputs[k], it.offset)
}

impl OpTree {
    /// Expands one instruction into its fully inlined operation tree: its
    /// opcode applied to its recursively expanded inputs.
    pub fn create_from_instr(p: &Program, instr: &Instruction) -> (r: OpTree)
        requires
            instrs_wf(p.instrs(), p.byte_code@),
            inputs_expandable(p.instrs(), instr@),
        ensures
            r@ == expand_of(p.instrs(), instr@),
        decreases 2 * (instr.offset as int) + 1,
    {
        let ghost pv = p.instrs();
        let ghost it = instr@;
        let n = instr.inputs.len();
        let mut children: Vec<OpTree> = Vec::new();
        let mut k: usize = 0;
        proof {
            lemma_dv(&instr.inputs);
        }
        while k < n
            invariant
                0 <= k <= n,
                n == it.inputs.len(),
                pv == p.instrs(),
                it == instr@,
                instrs_wf(pv, p.byte_code@),
                inputs_expandable(pv, it),
                n == instr.inputs@.len(),
                forall|j: int| 0 <= j < n ==> instr.inputs@[j]@ == it.inputs[j],
                children@.len() == k,
                forall|j: int|
                    0 <= j < k ==> (#[trigger] children@[j])@ == expand_expr(
                        pv,
                        it.inputs[j],
                        it.offset,
                    ),
            decreases n - k,
        {
            proof {
                assert(ref_below(pv, it.inputs[k as int], it.offset));
                assert(2 * expr_rank(instr.inputs@[k as int]@) < 2 * (instr.offset as int) + 1);
            }
            let c = OpTree::create(p, &instr.inputs[k]);
            proof {
                // under the reference bound, top-level expansion and bounded
                // expansion agree
                assert(expand_top(pv, it.inputs[k as int]) == expand_expr(
                    pv,
                    it.inputs[k as int],
                    it.offset,
                ));
            }
            children.push(c);
            k = k + 1;
        }
        proof {
            crate::expression::lemma_view_children(children@);
            let target = expand_of(pv, it)->Operation_1;
            assert forall|j: int| 0 <= j < target.len() implies crate::expression::view_children(
                children@,
            )[j] == target[j] by {
                assert(target[j] == expand_expr(pv, it.inputs[j], it.offset));
                assert(crate::expression::view_children(children@)[j] == children@[j]@);
            }
            assert(crate::expression::view_children(children@) =~= target);
        }
        OpTree::Operation(instr.op_code, children)
    }

    /// Expands one symbolic value into its operation tree: constants and
    /// arguments map one to one, and an opaque reference expands to the tree
    /// of the instruction it names.
    pub fn create(p: &Program, expr: &Expression) -> (r: OpTree)
        requires
            instrs_wf(p.instrs(), p.byte_code@),
            expr@ is ResultOf ==> has_offset(p.instrs(), expr@->ResultOf_0),
        ensures
            r@ == expand_top(p.instrs(), expr@),
        decreases 2 * expr_rank(expr@),
    {
        match expr {
            Expression::Constant(v) => OpTree::Constant(v.clone()),
            Expression::Argument(i) => OpTree::Argument(*i),
            Expression::ResultOf(o) => {
                let idx = p.find_instruction(*o).unwrap();
                let instr = &p.instructions[idx];
                proof {
                    reveal(instrs_wf);
                    lemma_dv(&p.instructions);
                    let pv = p.instrs();
                    let i = idx as int;
                    assert(instr@ == pv[i]);
                    lemma_idx_unique(pv, *o as nat, i);
                    assert forall|kk: int| 0 <= kk < pv[i].inputs.len() implies ref_below(
                        pv,
                        #[trigger] pv[i].inputs[kk],
                        pv[i].offset,
                    ) by {
                        assert(expr_refs_ok(pv[i].inputs[kk], pv, i));
                        match pv[i].inputs[kk] {
                            ExprV::ResultOf(o2) => {
                                let j = choose|j: int|
                                    0 <= j < i && (#[trigger] pv[j]).offset == o2;
                                assert(pv[j].offset < pv[i].offset);
                                assert(has_offset(pv, o2));
                            },
                            _ => {},
                        }
                    }
                }
                let r = OpTree::create_from_instr(p, instr);
                proof {
                    let pv = p.instrs();
                    let i = idx as int;
                    assert(expand_top(pv, expr@) == expand_instr(pv, i));
                    let csa = expand_instr(pv, i)->Operation_1;
                    let csb = expand_of(pv, pv[i])->Operation_1;
                    assert forall|k: int| 0 <= k < csa.len() implies csa[k] == csb[k] by {
                        assert(csa[k] == expand_expr(pv, pv[i].inputs[k], pv[i].offset));
                        assert(csb[k] == expand_expr(pv, pv[i].inputs[k], pv[i].offset));
                    }
                    assert(csa =~= csb);
                    assert(expand_instr(pv, i) == expand_of(pv, pv[i]));
                }
                r
            },
        }
    }
}

/// The expanded form of a symbolic value over the finished instruction store:
/// an opaque reference expands to the tree of the instruction it names.
pub open spec fn expand_top(p: Seq<InstrV>, e: ExprV) -> OpTreeV {
    match e {
        ExprV::Constant(v) => OpTreeV::Constant(v),
        ExprV::Argument(i) => OpTreeV::Argument(i),
        ExprV::ResultOf(o) => if has_offset(p, o) {
            expand_instr(p, idx_of(p, o))
        } else {
            OpTreeV::Argument(0)
        },
    }
}

/// A gas range with no width has no cost.
proof fn lemma_gas_sum_empty_range(p: Seq<InstrV>, s: nat, i: int)
    requires
        0 <= i <= p.len(),
    ensures
        gas_sum_upto(p, s, s, i) == 0,
    decreases i,
{
    if i > 0 {
        lemma_gas_sum_empty_range(p, s, i - 1);
    }
}

/// A block as the builder inserts it: the given range, exit stack and gas
/// price, no edges, no flags.
pub open spec fn built_block(start: nat, end: nat, exit_stack: Seq<ExprV>, gas: nat) -> BlockV {
    BlockV {
        start: start,
        end: end,
        exit_stack: exit_stack,
        entries: Seq::<usize>::empty(),
        exits: Seq::<usize>::empty(),
        dynamic_jump: false,
        gas_price: gas,
        reachable: false,
    }
}

/// The whole state the decoding pass threads: the cursor, the running
/// abstract stack and free-argument counter, the open block's start and the
/// end of the last instruction (absent right after a terminator), and
/// everything built so far.
pub ghost struct DecodeSt {
    pub offset: nat,
    pub stack: Seq<ExprV>,
    pub argc: nat,
    pub start: nat,
    pub this_end: Option<nat>,
    pub instrs: Seq<InstrV>,
    pub blocks: Seq<BlockV>,
    pub trees: Seq<OpTreeV>,
}

/// The view of the decoder's end-of-block marker.
pub open spec fn te_view(e: Option<usize>) -> Option<nat> {
    match e {
        Some(v) => Some(v as nat),
        None => None,
    }
}

/// The instruction the decoder builds at `off`: the opcode byte, its
/// immediate data clamped at the end of the sequence, the declared arguments
/// popped off the running stack (fresh free arguments past the bottom), and
/// the interpreter's outputs of those arguments.
pub open spec fn decoded_instr(bytes: Seq<u8>, off: nat, stack: Seq<ExprV>, argc: nat) -> InstrV {
    let op = bytes[off as int];
    let pb = spec_push_bytes(op);
    let data = bytes.subrange(
        off + 1 as int,
        if off + 1 + pb <= bytes.len() {
            (off + 1 + pb) as int
        } else {
            bytes.len() as int
        },
    );
    let popped = crate::instruction::pop_inputs(stack, op_args(op), argc);
    InstrV {
        offset: off,
        op_code: op,
        data: data,
        inputs: popped.0,
        outputs: crate::instruction::outputs_of(op, off, data, popped.0),
    }
}

/// One step of the decoding pass at the state's cursor: the instruction at
/// the cursor is decoded against the running stack and stored with its
/// expanded tree; at a jump destination the open block is closed (unless
/// empty) and the stack and counter reset; after a jump or terminator the
/// open block is closed at the new cursor. A closed block carries the stack
/// at its boundary and the gas sum of its range.
pub open spec fn decode_step(bytes: Seq<u8>, st: DecodeSt) -> DecodeSt {
    let off = st.offset;
    let op = bytes[off as int];
    let it = decoded_instr(bytes, off, st.stack, st.argc);
    let next = next_offset(bytes, off);
    let instrs2 = st.instrs.push(it);
    let trees2 = st.trees.push(expand_of(st.instrs, it));
    let stack_a = crate::instruction::stack_after(op, off, it.data, st.stack, st.argc);
    let argc_a = crate::instruction::pop_inputs(st.stack, op_args(op), st.argc).2;
    let blocks_b = if op == op_codes::JUMPDEST && st.this_end is Some && st.start
        < st.this_end->0 {
        st.blocks.push(
            built_block(
                st.start,
                st.this_end->0,
                stack_a,
                gas_sum(instrs2, st.start, st.this_end->0),
            ),
        )
    } else {
        st.blocks
    };
    let start_b = if op == op_codes::JUMPDEST {
        off
    } else {
        st.start
    };
    let stack_b = if op == op_codes::JUMPDEST {
        Seq::<ExprV>::empty()
    } else {
        stack_a
    };
    let argc_b: nat = if op == op_codes::JUMPDEST {
        0
    } else {
        argc_a
    };
    let terminal = op_codes::spec_is_jump(op) || op_codes::spec_is_stop(op);
    let blocks_c = if terminal {
        blocks_b.push(built_block(start_b, next, stack_b, gas_sum(instrs2, start_b, next)))
    } else {
        blocks_b
    };
    let start_c = if terminal {
        next
    } else {
        start_b
    };
    let te_c = if terminal {
        Option::<nat>::None
    } else {
        Option::<nat>::Some(next)
    };
    DecodeSt {
        offset: next,
        stack: stack_b,
        argc: argc_b,
        start: start_c,
        this_end: te_c,
        instrs: instrs2,
        blocks: blocks_c,
        trees: trees2,
    }
}

/// The decoding pass run to the end of the byte sequence.
pub open spec fn decode_run(bytes: Seq<u8>, st: DecodeSt) -> DecodeSt
    decreases
            (if st.offset <= bytes.len() {
                bytes.len() - st.offset
            } else {
                0int
            }),
{
    if st.offset >= bytes.len() {
        st
    } else {
        decode_run(bytes, decode_step(bytes, st))
    }
}

/// The decoder's starting state: everything empty, the cursor and the open
/// block at offset zero.
pub open spec fn decode_init() -> DecodeSt {
    DecodeSt {
        offset: 0,
        stack: Seq::empty(),
        argc: 0,
        start: 0,
        this_end: Some(0),
        instrs: Seq::empty(),
        blocks: Seq::empty(),
        trees: Seq::empty(),
    }
}

/// The decoding pass over a whole byte sequence: the instructions, blocks
/// and trees the builder constructs, as one mathematical function of the
/// bytes.
pub open spec fn spec_decode(bytes: Seq<u8>) -> DecodeSt {
    decode_run(bytes, decode_init())
}

/// A block as the builder first creates it: no edges, no flags set.
pub open spec fn block_fresh(b: BlockV) -> bool {
    &&& b.entries == Seq::<usize>::empty()
    &&& b.exits == Seq::<usize>::empty()
    &&& !b.dynamic_jump
    &&& !b.reachable
}

/// Appending instructions at or past an instruction's offset leaves its
/// expanded tree unchanged.
proof fn lemma_expand_of_frame(p1: Seq<InstrV>, p2: Seq<InstrV>, it: InstrV)
    requires
        p1.len() <= p2.len(),
        p1 == p2.take(p1.len() as int),
        offsets_sorted(p2),
        forall|j: int| p1.len() <= j < p2.len() ==> (#[trigger] p2[j]).offset >= it.offset,
    ensures
        expand_of(p1, it) == expand_of(p2, it),
{
    let cs1 = expand_of(p1, it)->Operation_1;
    let cs2 = expand_of(p2, it)->Operation_1;
    assert forall|k: int| 0 <= k < cs1.len() implies cs1[k] == cs2[k] by {
        assert(cs1[k] == expand_expr(p1, it.inputs[k], it.offset));
        assert(cs2[k] == expand_expr(p2, it.inputs[k], it.offset));
        lemma_expand_frame(p1, p2, it.inputs[k], it.offset);
    }
    assert(cs1 =~= cs2);
    assert(expand_of(p1, it) == expand_of(p2, it));
}



/// The block bookkeeping the builder maintains while decoding: the blocks
/// inserted so far partition `[0, start)` into nonempty contiguous ranges of
/// fresh blocks, each priced at the gas sum of its range and starting at a
/// stored offset.
#[verifier::opaque]
pub open spec fn builder_blocks_inv(bs: Seq<BlockV>, p: Seq<InstrV>, start: nat) -> bool {
    &&& bs.len() == 0 ==> start == 0
    &&& bs.len() > 0 ==> bs[0].start == 0 && bs[bs.len() - 1].end == start
    &&& forall|bi: int| 0 <= bi < bs.len() - 1 ==> (#[trigger] bs[bi]).end == bs[bi + 1].start
    &&& forall|bi: int| 0 <= bi < bs.len() ==> (#[trigger] bs[bi]).start < bs[bi].end
    &&& forall|bi: int| 0 <= bi < bs.len() ==> block_fresh(#[trigger] bs[bi])
    &&& forall|bi: int|
        0 <= bi < bs.len() ==> (#[trigger] bs[bi]).gas_price == gas_sum(
            p,
            bs[bi].start,
            bs[bi].end,
        )
    &&& forall|bi: int| 0 <= bi < bs.len() ==> has_offset(p, (#[trigger] bs[bi]).start)
    &&& forall|bi: int| 0 <= bi < bs.len() ==> (#[trigger] bs[bi]).end <= start
}

/// Appending a fresh block over `[start, end)` extends the builder's block
/// bookkeeping up to `end`.
proof fn lemma_builder_insert(bs: Seq<BlockV>, p: Seq<InstrV>, start: nat, end: nat, b: BlockV)
    requires
        builder_blocks_inv(bs, p, start),
        start < end,
        has_offset(p, start),
        b == (BlockV {
            start: start,
            end: end,
            exit_stack: b.exit_stack,
            entries: Seq::<usize>::empty(),
            exits: Seq::<usize>::empty(),
            dynamic_jump: false,
            gas_price: gas_sum(p, start, end),
            reachable: false,
        }),
    ensures
        builder_blocks_inv(bs.push(b), p, end),
{
    reveal(builder_blocks_inv);
    let bs2 = bs.push(b);
    assert(bs2[bs2.len() - 1] == b);
    assert forall|bi: int| 0 <= bi < bs2.len() - 1 implies (#[trigger] bs2[bi]).end == bs2[bi
        + 1].start by {
        if bi < bs.len() - 1 {
            assert(bs2[bi] == bs[bi]);
            assert(bs2[bi + 1] == bs[bi + 1]);
        } else {
            assert(bs2[bi] == bs[bi]);
        }
    }
}

/// The builder's block bookkeeping only reads stored offsets and gas sums:
/// both survive appending an instruction at or past `start`.
proof fn lemma_builder_push_instr(bs: Seq<BlockV>, p: Seq<InstrV>, start: nat, it: InstrV)
    requires
        builder_blocks_inv(bs, p, start),
        it.offset >= start,
    ensures
        builder_blocks_inv(bs, p.push(it), start),
{
    reveal(builder_blocks_inv);
    assert forall|bi: int| 0 <= bi < bs.len() implies (#[trigger] bs[bi]).gas_price == gas_sum(
        p.push(it),
        bs[bi].start,
        bs[bi].end,
    ) by {
        lemma_gas_sum_push(p, it, bs[bi].start, bs[bi].end);
    }
    assert forall|bi: int| 0 <= bi < bs.len() implies has_offset(
        p.push(it),
        (#[trigger] bs[bi]).start,
    ) by {
        let j = choose|j: int| 0 <= j < p.len() && (#[trigger] p[j]).offset == bs[bi].start;
        assert(p.push(it)[j].offset == bs[bi].start);
    }
}

/// The arguments an instruction popped off a well-referenced stack reference
/// only instructions stored before it.
proof fn lemma_inputs_expandable(
    bytes: Seq<u8>,
    p_old: Seq<InstrV>,
    it: InstrV,
    stack_old: Seq<ExprV>,
    argc_old: nat,
)
    requires
        offsets_below(p_old, it.offset),
        stack_refs_ok(stack_old, p_old),
        it.inputs == crate::instruction::pop_inputs(stack_old, op_args(it.op_code), argc_old).0,
    ensures
        inputs_expandable(p_old, it),
{
    reveal(offsets_below);
    reveal(stack_refs_ok);
    lemma_pop_refs(stack_old, op_args(it.op_code), argc_old, p_old);
    assert forall|k: int| 0 <= k < it.inputs.len() implies ref_below(
        p_old,
        #[trigger] it.inputs[k],
        it.offset,
    ) by {
        assert(expr_refs_ok(it.inputs[k], p_old, p_old.len() as int));
        match it.inputs[k] {
            ExprV::ResultOf(o) => {
                let j = choose|j: int| 0 <= j < p_old.len() && (#[trigger] p_old[j]).offset == o;
                assert(p_old[j].offset < it.offset);
                assert(has_offset(p_old, o));
            },
            _ => {},
        }
    }
}

/// One decode step extends the instruction store, the stored trees, and the
/// running stack while keeping every invariant of the decoding pass.
#[verifier::rlimit(100)]
proof fn lemma_fill_step(
    bytes: Seq<u8>,
    p_old: Seq<InstrV>,
    it: InstrV,
    stack_old: Seq<ExprV>,
    argc_old: nat,
    new_stack: Seq<ExprV>,
    new_argc: nat,
    trees_old: Seq<OpTreeV>,
    tree: OpTreeV,
    bs: Seq<BlockV>,
    start: nat,
)
    requires
        instrs_wf(p_old, bytes),
        offsets_below(p_old, it.offset),
        decode_shape(bytes, it),
        spec_has_gas_cost(it.op_code),
        gas_known(p_old),
        it.inputs == crate::instruction::pop_inputs(stack_old, op_args(it.op_code), argc_old).0,
        it.outputs == crate::instruction::outputs_of(it.op_code, it.offset, it.data, it.inputs),
        stack_refs_ok(stack_old, p_old),
        new_stack == crate::instruction::stack_after(
            it.op_code,
            it.offset,
            it.data,
            stack_old,
            argc_old,
        ),
        new_argc == crate::instruction::pop_inputs(stack_old, op_args(it.op_code), argc_old).2,
        trees_match(trees_old, p_old),
        tree == expand_of(p_old, it),
        stack_old.len() <= 18 * p_old.len(),
        argc_old <= 17 * p_old.len(),
        builder_blocks_inv(bs, p_old, start),
        start <= it.offset,
    ensures
        instrs_wf(p_old.push(it), bytes),
        instr_offsets(p_old.push(it)) == instr_offsets(p_old).push(it.offset),
        trees_match(trees_old.push(tree), p_old.push(it)),
        stack_refs_ok(new_stack, p_old.push(it)),
        new_stack.len() <= 18 * p_old.push(it).len(),
        new_argc <= 17 * p_old.push(it).len(),
        has_offset(p_old.push(it), it.offset),
        offsets_below(p_old.push(it), it.offset + 1),
        gas_known(p_old.push(it)),
        builder_blocks_inv(bs, p_old.push(it), start),
        forall|o: nat| has_offset(p_old, o) ==> has_offset(p_old.push(it), o),
{
    reveal(instrs_wf);
    reveal(offsets_below);
    reveal(stack_refs_ok);
    reveal(gas_known);
    reveal(trees_match);
    let p_new = p_old.push(it);
    let popped = crate::instruction::pop_inputs(stack_old, op_args(it.op_code), argc_old);
    assert(p_old == p_new.take(p_old.len() as int)) by {
        assert(p_new.take(p_old.len() as int) =~= p_old);
    }
    assert forall|a: int, b: int| 0 <= a < b < p_new.len() implies p_new[a].offset
        < p_new[b].offset by {
        if b < p_old.len() {
            assert(p_old[a].offset < p_old[b].offset);
        } else {
            assert(p_new[a].offset == p_old[a].offset);
            assert(p_old[a].offset < it.offset);
        }
    }
    assert(offsets_sorted(p_new));
    assert(it.inputs.len() == op_args(it.op_code)) by {
        assert(popped.0.len() == op_args(it.op_code));
    }
    lemma_inputs_expandable(bytes, p_old, it, stack_old, argc_old);
    assert forall|i: int, k: int|
        0 <= i < p_new.len() && 0 <= k < p_new[i].inputs.len() implies expr_refs_ok(
        #[trigger] p_new[i].inputs[k],
        p_new,
        i,
    ) by {
        if i < p_old.len() {
            assert(expr_refs_ok(p_old[i].inputs[k], p_old, i));
            match p_old[i].inputs[k] {
                ExprV::ResultOf(o) => {
                    let j = choose|j: int| 0 <= j < i && (#[trigger] p_old[j]).offset == o;
                    assert(p_new[j].offset == o);
                },
                _ => {},
            }
        } else {
            assert(p_new[i] == it);
            assert(ref_below(p_old, it.inputs[k], it.offset));
            match it.inputs[k] {
                ExprV::ResultOf(o) => {
                    let j = choose|j: int|
                        0 <= j < p_old.len() && (#[trigger] p_old[j]).offset == o;
                    assert(p_new[j].offset == o);
                },
                _ => {},
            }
        }
    }
    assert(instrs_wf(p_new, bytes));
    assert(instr_offsets(p_new) =~= instr_offsets(p_old).push(it.offset));
    assert forall|i: int| 0 <= i < p_new.len() implies trees_old.push(tree)[i] == expand_of(
        p_new,
        #[trigger] p_new[i],
    ) by {
        if i < p_old.len() {
            assert(trees_old[i] == expand_of(p_old, p_old[i]));
            lemma_expand_of_frame(p_old, p_new, p_old[i]);
        } else {
            lemma_expand_of_frame(p_old, p_new, it);
        }
    }
    assert(has_offset(p_new, it.offset)) by {
        assert(p_new[p_old.len() as int].offset == it.offset);
    }
    assert forall|o: nat| has_offset(p_old, o) implies has_offset(p_new, o) by {
        let j = choose|j: int| 0 <= j < p_old.len() && (#[trigger] p_old[j]).offset == o;
        assert(p_new[j].offset == o);
    }
    assert forall|k: int| 0 <= k < stack_old.len() implies expr_refs_ok(
        #[trigger] stack_old[k],
        p_new,
        p_new.len() as int,
    ) by {
        assert(expr_refs_ok(stack_old[k], p_old, p_old.len() as int));
        match stack_old[k] {
            ExprV::ResultOf(o) => {
                let j = choose|j: int| 0 <= j < p_old.len() && (#[trigger] p_old[j]).offset == o;
                assert(p_new[j].offset == o);
            },
            _ => {},
        }
    }
    lemma_pop_refs(stack_old, op_args(it.op_code), argc_old, p_new);
    lemma_outputs_refs(it.op_code, it.offset, it.data, popped.0, p_new);
    let outs = crate::instruction::outputs_of(it.op_code, it.offset, it.data, popped.0);
    assert(new_stack == popped.1 + outs.reverse());
    assert forall|k: int| 0 <= k < new_stack.len() implies expr_refs_ok(
        #[trigger] new_stack[k],
        p_new,
        p_new.len() as int,
    ) by {
        if k < popped.1.len() {
            assert(new_stack[k] == popped.1[k]);
        } else {
            assert(new_stack[k] == outs.reverse()[k - popped.1.len()]);
            assert(outs.reverse()[k - popped.1.len()] == outs[outs.len() - 1 - (k
                - popped.1.len())]);
        }
    }
    crate::instruction::lemma_outputs_len(it.op_code, it.offset, it.data, popped.0);
    assert(popped.1.len() <= stack_old.len());
    lemma_builder_push_instr(bs, p_old, start, it);
}

/// Stored offsets below a cursor stay below any later cursor.
proof fn lemma_offsets_below_mono(p: Seq<InstrV>, a: nat, b: nat)
    requires
        offsets_below(p, a),
        a <= b,
    ensures
        offsets_below(p, b),
{
    reveal(offsets_below);
}

impl Program {
    /// Runs the decoder across the whole byte sequence once, interleaving
    /// symbolic evaluation: the abstract stack and the free-argument counter
    /// reset at every jump destination, a block is inserted at every
    /// boundary, and each instruction's expanded operation tree is stored
    /// beside it. The instructions, blocks and trees built equal the
    /// mathematical decoding pass of the byte sequence: the instructions sit
    /// at exactly the offsets the decoder visits with the inputs the threaded
    /// stack supplies, and the blocks partition the covered prefix of the
    /// byte range, each carrying its boundary stack and the gas sum of its
    /// range.
    #[verifier::rlimit(100)]
    pub fn fill_instructions(&mut self)
        requires
            old(self).instructions@.len() == 0,
            old(self).blocks@.len() == 0,
            old(self).op_trees@.len() == 0,
            spec_supported(old(self).byte_code@),
        ensures
            final(self).byte_code == old(self).byte_code,
            instrs_wf(final(self).instrs(), final(self).byte_code@),
            instr_offsets(final(self).instrs()) == decoded_offsets(final(self).byte_code@, 0),
            gas_known(final(self).instrs()),
            trees_match(final(self).op_trees.deep_view(), final(self).instrs()),
            blocks_partition(final(self).blks(), final(self).byte_code@.len()),
            forall|bi: int|
                0 <= bi < final(self).blks().len() ==> block_fresh(
                    #[trigger] final(self).blks()[bi],
                ),
            forall|bi: int|
                0 <= bi < final(self).blks().len() ==> (#[trigger] final(self).blks()[bi]).gas_price
                    == gas_sum(
                    final(self).instrs(),
                    final(self).blks()[bi].start,
                    final(self).blks()[bi].end,
                ),
            forall|bi: int|
                0 <= bi < final(self).blks().len() ==> (#[trigger] final(self).blks()[bi]).start
                    < final(self).blks()[bi].end && has_offset(
                    final(self).instrs(),
                    final(self).blks()[bi].start,
                ),
            final(self).instrs() == spec_decode(final(self).byte_code@).instrs,
            final(self).blks() == spec_decode(final(self).byte_code@).blocks,
            final(self).op_trees.deep_view() == spec_decode(final(self).byte_code@).trees,
    {
        let ghost bytes = self.byte_code@;
        let ghost bc0 = self.byte_code;
        let mut stack: EvmStack = Vec::new();
        let mut start: usize = 0;
        let mut this_end: Option<usize> = Some(0);
        let mut arg_count: usize = 0;
        let mut offset: usize = 0;
        let n = self.byte_code.len();
        proof {
            lemma_dv(&self.instructions);
            lemma_dv(&self.op_trees);
            assert(instr_offsets(self.instrs()) =~= Seq::<nat>::empty());
            assert(Seq::<nat>::empty() + decoded_offsets(bytes, 0) =~= decoded_offsets(bytes, 0));
            assert(stack.deep_view() =~= Seq::<ExprV>::empty());
            reveal(instrs_wf);
            reveal(offsets_below);
            reveal(stack_refs_ok);
            reveal(gas_known);
            reveal(trees_match);
            reveal(builder_blocks_inv);
            assert(instrs_wf(self.instrs(), bytes));
            assert(offsets_below(self.instrs(), 0));
            assert(stack_refs_ok(stack.deep_view(), self.instrs()));
            assert(gas_known(self.instrs()));
            assert(trees_match(self.op_trees.deep_view(), self.instrs()));
            assert(builder_blocks_inv(self.blks(), self.instrs(), 0));
            lemma_dv(&self.blocks);
            assert(self.instrs() =~= Seq::<InstrV>::empty());
            assert(self.blks() =~= Seq::<BlockV>::empty());
            assert(self.op_trees.deep_view() =~= Seq::<OpTreeV>::empty());
            assert((DecodeSt {
                offset: offset as nat,
                stack: stack.deep_view(),
                argc: arg_count as nat,
                start: start as nat,
                this_end: te_view(this_end),
                instrs: self.instrs(),
                blocks: self.blks(),
                trees: self.op_trees.deep_view(),
            }) == decode_init());
        }
        while offset < n
            invariant
                n == bytes.len(),
                bytes == self.byte_code@,
                self.byte_code == bc0,
                spec_supported(bytes),
                instrs_wf(self.instrs(), bytes),
                decoded_offsets(bytes, 0) == instr_offsets(self.instrs()) + decoded_offsets(
                    bytes,
                    offset as nat,
                ),
                gas_table_covers(bytes, offset as nat),
                gas_known(self.instrs()),
                offsets_below(self.instrs(), offset as nat),
                self.instrs().len() <= offset,
                stack_refs_ok(stack.deep_view(), self.instrs()),
                stack.deep_view().len() <= 18 * self.instrs().len(),
                arg_count as int <= 17 * self.instrs().len(),
                self.op_trees.deep_view().len() == self.instrs().len(),
                trees_match(self.op_trees.deep_view(), self.instrs()),
                builder_blocks_inv(self.blks(), self.instrs(), start as nat),
                start <= offset,
                start <= n,
                start as nat == offset as nat || has_offset(self.instrs(), start as nat),
                this_end is None ==> start == offset,
                match this_end {
                    Some(e) => e == offset,
                    None => true,
                },
                decode_run(
                    bytes,
                    DecodeSt {
                        offset: offset as nat,
                        stack: stack.deep_view(),
                        argc: arg_count as nat,
                        start: start as nat,
                        this_end: te_view(this_end),
                        instrs: self.instrs(),
                        blocks: self.blks(),
                        trees: self.op_trees.deep_view(),
                    },
                ) == spec_decode(bytes),
            decreases
                    (if offset <= n {
                        n - offset
                    } else {
                        0int
                    }),
        {
            let ghost p_old = self.instrs();
            let ghost stack_old = stack.deep_view();
            let ghost argc_old = arg_count as nat;
            let ghost off_old = offset as nat;
            proof {
                assert(n >= 1);
                assert(18 * n + 18 <= 5000 * n) by (nonlinear_arith)
                    requires
                        n >= 1,
                ;
                assert(18 * p_old.len() <= 18 * offset);
                assert(18 * offset <= 18 * n);
                assert(17 * p_old.len() <= 18 * n);
                assert(n + 33 <= 5000 * n) by (nonlinear_arith)
                    requires
                        n >= 1,
                ;
            }
            let instr = Instruction::from_stack(
                &mut offset,
                self.byte_code.as_slice(),
                &mut stack,
                &mut arg_count,
            );
            let i_off = instr.offset;
            let i_op = instr.op_code;
            let ghost it = instr@;
            let ghost p_new = p_old.push(it);
            proof {
                assert(it.offset == off_old);
                assert(it.op_code == bytes[off_old as int]);
                assert(offset as nat == next_offset(bytes, off_old));
                assert(decode_shape(bytes, it));
                assert(spec_has_gas_cost(it.op_code));
                lemma_inputs_expandable(bytes, p_old, it, stack_old, argc_old);
            }
            let tree = OpTree::create_from_instr(&*self, &instr);
            proof {
                lemma_dv(&self.instructions);
                lemma_dv(&self.op_trees);
            }
            let ghost trees_old = self.op_trees.deep_view();
            self.instructions.push(instr);
            self.op_trees.push(tree);
            proof {
                lemma_dv(&self.instructions);
                lemma_dv(&self.op_trees);
                assert(self.instrs() =~= p_new);
                assert(self.op_trees.deep_view() =~= trees_old.push(tree@));
                lemma_fill_step(
                    bytes,
                    p_old,
                    it,
                    stack_old,
                    argc_old,
                    stack.deep_view(),
                    arg_count as nat,
                    trees_old,
                    tree@,
                    self.blks(),
                    start as nat,
                );
                lemma_offsets_below_mono(p_new, (off_old + 1) as nat, offset as nat);
                assert(decoded_offsets(bytes, off_old) == seq![off_old] + decoded_offsets(
                    bytes,
                    offset as nat,
                ));
                assert(instr_offsets(p_old) + decoded_offsets(bytes, off_old) =~= instr_offsets(
                    p_new,
                ) + decoded_offsets(bytes, offset as nat));
                assert(gas_table_covers(bytes, offset as nat));
            }
            if i_op == op_codes::JUMPDEST {
                match this_end {
                    Some(end_val) => {
                        if start < end_val {
                            let ghost bs_old = self.blks();
                            proof {
                                if start as nat != off_old {
                                    assert(has_offset(self.instrs(), start as nat));
                                }
                            }
                            self.insert_block(start, end_val, &stack);
                            proof {
                                let b = self.blks()[self.blks().len() - 1];
                                lemma_builder_insert(
                                    bs_old,
                                    self.instrs(),
                                    start as nat,
                                    end_val as nat,
                                    b,
                                );
                            }
                        }
                    },
                    None => {},
                }
                start = i_off;
                stack.clear();
                arg_count = 0;
                proof {
                    assert(stack.deep_view() =~= Seq::<ExprV>::empty());
                    reveal(stack_refs_ok);
                    assert(stack_refs_ok(stack.deep_view(), self.instrs()));
                    assert(has_offset(self.instrs(), i_off as nat));
                }
            }
            this_end = Some(offset);
            if op_codes::is_jump(i_op) || op_codes::is_stop(i_op) {
                let ghost bs_old = self.blks();
                proof {
                    assert(start <= i_off);
                    assert(i_off < offset);
                    if start as nat != off_old {
                        assert(has_offset(self.instrs(), start as nat));
                    }
                }
                self.insert_block(start, offset, &stack);
                proof {
                    let b = self.blks()[self.blks().len() - 1];
                    lemma_builder_insert(bs_old, self.instrs(), start as nat, offset as nat, b);
                }
                start = offset;
                this_end = None;
            }
        }
        proof {
            assert(decoded_offsets(bytes, offset as nat) =~= Seq::<nat>::empty());
            assert(instr_offsets(self.instrs()) + Seq::<nat>::empty() =~= instr_offsets(
                self.instrs(),
            ));
            assert(instr_offsets(self.instrs()) == decoded_offsets(bytes, 0));
            reveal(builder_blocks_inv);
            reveal(trees_match);
            assert(blocks_partition(self.blks(), bytes.len()));
            reveal(trees_match);
        }
    }
}


/// The result of running the interpreter over a row of instructions from a
/// given stack: the final stack and the successor list of the last
/// instruction run (none for an empty row); `None` when some jump's target
/// did not resolve to an addressable constant.
pub open spec fn run_block(instrs: Seq<InstrV>, stack: Seq<ExprV>) -> Option<
    (Seq<(crate::instruction::CondV, nat)>, Seq<ExprV>),
>
    decreases instrs.len(),
{
    if instrs.len() == 0 {
        Some((Seq::empty(), stack))
    } else {
        let it = instrs[0];
        let popped = crate::instruction::pop_inputs(stack, op_args(it.op_code), 0);
        match crate::instruction::successors_of(it.op_code, it.offset, popped.0) {
            None => None,
            Some(ex) => {
                let st2 = crate::instruction::stack_after(it.op_code, it.offset, it.data, stack, 0);
                if instrs.len() == 1 {
                    Some((ex, st2))
                } else {
                    run_block(instrs.skip(1), st2)
                }
            },
        }
    }
}

/// A range never holds more instructions than the store.
proof fn lemma_in_range_len(p: Seq<InstrV>, s: nat, e: nat, i: int)
    requires
        0 <= i <= p.len(),
    ensures
        in_range_upto(p, s, e, i).len() <= i,
    decreases i,
{
    if i > 0 {
        lemma_in_range_len(p, s, e, i - 1);
    }
}

/// Every instruction of a range is an instruction of the store.
proof fn lemma_in_range_elems(p: Seq<InstrV>, s: nat, e: nat, i: int)
    requires
        0 <= i <= p.len(),
    ensures
        forall|k: int|
            0 <= k < in_range_upto(p, s, e, i).len() ==> exists|j: int|
                0 <= j < p.len() && #[trigger] in_range_upto(p, s, e, i)[k] == p[j],
    decreases i,
{
    if i > 0 {
        lemma_in_range_elems(p, s, e, i - 1);
        let cur = in_range_upto(p, s, e, i);
        let prev = in_range_upto(p, s, e, i - 1);
        assert forall|k: int| 0 <= k < cur.len() implies exists|j: int|
            0 <= j < p.len() && #[trigger] cur[k] == p[j] by {
            if k < prev.len() {
                assert(cur[k] == prev[k]);
            } else {
                assert(cur[k] == p[i - 1]);
            }
        }
    }
}

impl Program {
    /// Runs the interpreter over every instruction in the block's range,
    /// starting from the given entry stack: the resulting stack and the
    /// successor list of the block's last instruction; the fault when a jump
    /// in the block had no addressable constant target.
    #[verifier::rlimit(60)]
    pub fn solve_stack(&self, block: &Block, entry_stack: &EvmStack) -> (r: Result<
        (Vec<(BranchCond, usize)>, EvmStack),
        JumpFault,
    >)
        requires
            instrs_wf(self.instrs(), self.byte_code@),
            self.byte_code@.len() < usize::MAX,
            entry_stack.deep_view().len() + 18 * self.instrs().len() + 18 <= usize::MAX,
        ensures
            ({
                let row = instrs_in_range(self.instrs(), block.start as nat, block.end as nat);
                match r {
                    Ok((ex, st)) => run_block(row, entry_stack.deep_view()) == Some(
                        (crate::instruction::succ_view(ex@), st.deep_view()),
                    ),
                    Err(_) => run_block(row, entry_stack.deep_view()) is None,
                }
            }),
    {
        let instrs = self.instructions(block);
        let ghost row = instrs_in_range(self.instrs(), block.start as nat, block.end as nat);
        proof {
            lemma_in_range_len(
                self.instrs(),
                block.start as nat,
                block.end as nat,
                self.instrs().len() as int,
            );
            lemma_in_range_elems(
                self.instrs(),
                block.start as nat,
                block.end as nat,
                self.instrs().len() as int,
            );
            lemma_dv(&instrs);
        }
        let mut rtn = clone_stack(entry_stack);
        let mut exits: Vec<(BranchCond, usize)> = Vec::new();
        let n = instrs.len();
        let mut i: usize = 0;
        proof {
            assert(crate::instruction::succ_view(exits@) =~= Seq::<
                (crate::instruction::CondV, nat),
            >::empty());
            assert(row.skip(0) =~= row);
        }
        while i < n
            invariant
                0 <= i <= n,
                n == row.len(),
                row == instrs_in_range(self.instrs(), block.start as nat, block.end as nat),
                instrs.deep_view() == row,
                n == instrs@.len(),
                n <= self.instrs().len(),
                forall|k: int|
                    0 <= k < row.len() ==> exists|j: int|
                        0 <= j < self.instrs().len() && #[trigger] row[k] == self.instrs()[j],
                instrs_wf(self.instrs(), self.byte_code@),
                self.byte_code@.len() < usize::MAX,
                entry_stack.deep_view().len() + 18 * self.instrs().len() + 18 <= usize::MAX,
                rtn.deep_view().len() <= entry_stack.deep_view().len() + 18 * i,
                run_block(row, entry_stack.deep_view()) == (if i == n {
                    Some((crate::instruction::succ_view(exits@), rtn.deep_view()))
                } else {
                    run_block(row.skip(i as int), rtn.deep_view())
                }),
            decreases n - i,
        {
            let ghost rtn_old = rtn.deep_view();
            proof {
                lemma_dv(&instrs);
                assert(instrs@[i as int]@ == row[i as int]);
                let j = choose|j: int|
                    0 <= j < self.instrs().len() && row[i as int] == #[trigger] self.instrs()[j];
                reveal(instrs_wf);
                assert(decode_shape(self.byte_code@, self.instrs()[j]));
                assert(row[i as int].offset < self.byte_code@.len());
                assert(18 * i <= 18 * self.instrs().len()) by (nonlinear_arith)
                    requires
                        0 <= i <= self.instrs().len(),
                ;
            }
            let step = instrs[i].iterate_stack(&mut rtn);
            proof {
                let it = row[i as int];
                crate::instruction::lemma_stack_after_len(
                    it.op_code,
                    it.offset,
                    it.data,
                    rtn_old,
                    0,
                );
                let prev = row.skip(i as int);
                assert(prev[0] == it);
                assert(prev.skip(1) =~= row.skip(i + 1));
            }
            match step {
                Ok(e) => {
                    exits = e;
                },
                Err(f) => {
                    return Err(f);
                },
            }
            i = i + 1;
        }
        Ok((exits, rtn))
    }
}

/// Block starts are pairwise distinct.
pub open spec fn starts_unique(bs: Seq<BlockV>) -> bool {
    forall|i: int, j: int|
        0 <= i < j < bs.len() ==> (#[trigger] bs[i]).start != (#[trigger] bs[j]).start
}

/// The last instruction of the block's range.
pub open spec fn last_in(p: Seq<InstrV>, b: BlockV) -> InstrV {
    let row = instrs_in_range(p, b.start, b.end);
    row[row.len() - 1]
}

/// The block's range holds at least one instruction.
pub open spec fn block_has_instrs(p: Seq<InstrV>, b: BlockV) -> bool {
    instrs_in_range(p, b.start, b.end).len() > 0
}

/// The constant target of the block's terminating jump: present when the
/// last instruction is a jump whose first input is a constant in the
/// addressable range.
pub open spec fn jump_target(p: Seq<InstrV>, b: BlockV) -> Option<int> {
    if block_has_instrs(p, b) && op_codes::spec_is_jump(last_in(p, b).op_code) {
        match last_in(p, b).inputs[0] {
            ExprV::Constant(c) => if 0 <= c <= usize::MAX {
                Some(c)
            } else {
                None
            },
            _ => None,
        }
    } else {
        None
    }
}

/// The block ends in a jump whose target is not a compile-time constant.
pub open spec fn dyn_expected(p: Seq<InstrV>, b: BlockV) -> bool {
    &&& block_has_instrs(p, b)
    &&& op_codes::spec_is_jump(last_in(p, b).op_code)
    &&& !(last_in(p, b).inputs[0] is Constant)
}

/// The block's constant jump target lands on a jump destination that starts
/// a block: the edge the linker accepts.
pub open spec fn jump_edge_ok(p: Seq<InstrV>, bs: Seq<BlockV>, b: BlockV) -> bool {
    &&& jump_target(p, b) is Some
    &&& offset_is_jumpdest(p, jump_target(p, b)->0 as nat)
    &&& has_block(bs, jump_target(p, b)->0 as nat)
}

/// The block falls through to a block at its end offset: its last
/// instruction is no terminator and no unconditional jump, and an
/// instruction and a block sit at the end offset.
pub open spec fn fall_ok(p: Seq<InstrV>, bs: Seq<BlockV>, b: BlockV) -> bool {
    &&& block_has_instrs(p, b)
    &&& !op_codes::spec_is_stop(last_in(p, b).op_code)
    &&& last_in(p, b).op_code != op_codes::JUMP
    &&& has_offset(p, b.end)
    &&& has_block(bs, b.end)
}

/// The successor starts the linker records for a block, jump target first.
pub open spec fn exits_expected(p: Seq<InstrV>, bs: Seq<BlockV>, b: BlockV) -> Seq<usize> {
    (if jump_edge_ok(p, bs, b) {
        seq![(jump_target(p, b)->0) as usize]
    } else {
        Seq::<usize>::empty()
    }) + (if fall_ok(p, bs, b) {
        seq![b.end as usize]
    } else {
        Seq::<usize>::empty()
    })
}

/// The source block at `i` hands control to the block at `j` by its jump.
pub open spec fn cond_jump_edge(p: Seq<InstrV>, bs: Seq<BlockV>, i: int, j: int) -> bool {
    jump_edge_ok(p, bs, bs[i]) && bs[j].start == jump_target(p, bs[i])->0 as nat
}

/// The source block at `i` falls through to the block at `j`.
pub open spec fn cond_fall_edge(p: Seq<InstrV>, bs: Seq<BlockV>, i: int, j: int) -> bool {
    fall_ok(p, bs, bs[i]) && bs[j].start == bs[i].end
}

/// The predecessor starts recorded at block `j` after the linker has
/// processed the first `upto` source blocks, in source order.
pub open spec fn entries_expected(p: Seq<InstrV>, bs: Seq<BlockV>, j: int, upto: int) -> Seq<usize>
    decreases upto,
{
    if upto <= 0 || upto > bs.len() {
        Seq::empty()
    } else {
        entries_expected(p, bs, j, upto - 1) + (if cond_jump_edge(p, bs, upto - 1, j) {
            seq![bs[upto - 1].start as usize]
        } else {
            Seq::<usize>::empty()
        }) + (if cond_fall_edge(p, bs, upto - 1, j) {
            seq![bs[upto - 1].start as usize]
        } else {
            Seq::<usize>::empty()
        })
    }
}

impl Program {
    /// Finds the index of the block starting at the given offset.
    fn find_block(&self, start_off: usize) -> (r: Option<usize>)
        ensures
            match r {
                Some(i) => i < self.blks().len() && self.blks()[i as int].start == start_off as nat,
                None => !has_block(self.blks(), start_off as nat),
            },
    {
        proof {
            lemma_dv(&self.blocks);
        }
        let n = self.blocks.len();
        let mut i: usize = 0;
        while i < n
            invariant
                0 <= i <= n,
                n == self.blks().len(),
                forall|j: int| 0 <= j < i ==> (#[trigger] self.blks()[j]).start != start_off as nat,
            decreases n - i,
        {
            proof {
                lemma_dv(&self.blocks);
            }
            if self.blocks[i].start == start_off {
                proof {
                    assert(self.blks()[i as int].start == start_off as nat);
                }
                return Some(i);
            }
            i = i + 1;
        }
        None
    }

    /// Appends a successor start to the block at the given index.
    fn push_exit(&mut self, i: usize, v: usize)
        requires
            i < old(self).blocks@.len(),
        ensures
            final(self).byte_code == old(self).byte_code,
            final(self).instructions == old(self).instructions,
            final(self).op_trees == old(self).op_trees,
            final(self).blks().len() == old(self).blks().len(),
            forall|k: int|
                0 <= k < old(self).blks().len() && k != i ==> final(self).blks()[k] == (
                #[trigger] old(self).blks()[k]),
            final(self).blks()[i as int] == (BlockV {
                exits: old(self).blks()[i as int].exits.push(v),
                ..old(self).blks()[i as int]
            }),
    {
        proof {
            lemma_dv(&self.blocks);
        }
        let mut b = self.blocks.remove(i);
        b.exits.push(v);
        self.blocks.insert(i, b);
        proof {
            lemma_dv(&self.blocks);
            assert forall|k: int| 0 <= k < self.blocks@.len() implies self.blks()[k] == (if k
                == i {
                BlockV { exits: old(self).blks()[i as int].exits.push(v), ..old(self).blks()[
                    i as int] }
            } else {
                old(self).blks()[k]
            }) by {
                if k < i {
                    assert(self.blocks@[k] == old(self).blocks@[k]);
                    assert(old(self).blocks@[k].deep_view() == old(self).blks()[k]);
                } else if k > i {
                    assert(self.blocks@[k] == old(self).blocks@[k]);
                    assert(old(self).blocks@[k].deep_view() == old(self).blks()[k]);
                }
            }
        }
    }

    /// Appends a predecessor start to the block at the given index.
    fn push_entry(&mut self, i: usize, v: usize)
        requires
            i < old(self).blocks@.len(),
        ensures
            final(self).byte_code == old(self).byte_code,
            final(self).instructions == old(self).instructions,
            final(self).op_trees == old(self).op_trees,
            final(self).blks().len() == old(self).blks().len(),
            forall|k: int|
                0 <= k < old(self).blks().len() && k != i ==> final(self).blks()[k] == (
                #[trigger] old(self).blks()[k]),
            final(self).blks()[i as int] == (BlockV {
                entries: old(self).blks()[i as int].entries.push(v),
                ..old(self).blks()[i as int]
            }),
    {
        proof {
            lemma_dv(&self.blocks);
        }
        let mut b = self.blocks.remove(i);
        b.entries.push(v);
        self.blocks.insert(i, b);
        proof {
            lemma_dv(&self.blocks);
            assert forall|k: int| 0 <= k < self.blocks@.len() implies self.blks()[k] == (if k
                == i {
                BlockV { entries: old(self).blks()[i as int].entries.push(v), ..old(self).blks()[
                    i as int] }
            } else {
                old(self).blks()[k]
            }) by {
                if k < i {
                    assert(self.blocks@[k] == old(self).blocks@[k]);
                    assert(old(self).blocks@[k].deep_view() == old(self).blks()[k]);
                } else if k > i {
                    assert(self.blocks@[k] == old(self).blocks@[k]);
                    assert(old(self).blocks@[k].deep_view() == old(self).blks()[k]);
                }
            }
        }
    }

    /// Marks the block at the given index as ending in a dynamic jump.
    fn set_dynamic(&mut self, i: usize)
        requires
            i < old(self).blocks@.len(),
        ensures
            final(self).byte_code == old(self).byte_code,
            final(self).instructions == old(self).instructions,
            final(self).op_trees == old(self).op_trees,
            final(self).blks().len() == old(self).blks().len(),
            forall|k: int|
                0 <= k < old(self).blks().len() && k != i ==> final(self).blks()[k] == (
                #[trigger] old(self).blks()[k]),
            final(self).blks()[i as int] == (BlockV {
                dynamic_jump: true,
                ..old(self).blks()[i as int]
            }),
    {
        proof {
            lemma_dv(&self.blocks);
        }
        let mut b = self.blocks.remove(i);
        b.dynamic_jump = true;
        self.blocks.insert(i, b);
        proof {
            lemma_dv(&self.blocks);
            assert forall|k: int| 0 <= k < self.blocks@.len() implies self.blks()[k] == (if k
                == i {
                BlockV { dynamic_jump: true, ..old(self).blks()[i as int] }
            } else {
                old(self).blks()[k]
            }) by {
                if k < i {
                    assert(self.blocks@[k] == old(self).blocks@[k]);
                    assert(old(self).blocks@[k].deep_view() == old(self).blks()[k]);
                } else if k > i {
                    assert(self.blocks@[k] == old(self).blocks@[k]);
                    assert(old(self).blocks@[k].deep_view() == old(self).blks()[k]);
                }
            }
        }
    }

    /// Marks the block at the given index as reachable.
    fn set_reachable(&mut self, i: usize)
        requires
            i < old(self).blocks@.len(),
        ensures
            final(self).byte_code == old(self).byte_code,
            final(self).instructions == old(self).instructions,
            final(self).op_trees == old(self).op_trees,
            final(self).blks().len() == old(self).blks().len(),
            forall|k: int|
                0 <= k < old(self).blks().len() && k != i ==> final(self).blks()[k] == (
                #[trigger] old(self).blks()[k]),
            final(self).blks()[i as int] == (BlockV {
                reachable: true,
                ..old(self).blks()[i as int]
            }),
    {
        proof {
            lemma_dv(&self.blocks);
        }
        let mut b = self.blocks.remove(i);
        b.reachable = true;
        self.blocks.insert(i, b);
        proof {
            lemma_dv(&self.blocks);
            assert forall|k: int| 0 <= k < self.blocks@.len() implies self.blks()[k] == (if k
                == i {
                BlockV { reachable: true, ..old(self).blks()[i as int] }
            } else {
                old(self).blks()[k]
            }) by {
                if k < i {
                    assert(self.blocks@[k] == old(self).blocks@[k]);
                    assert(old(self).blocks@[k].deep_view() == old(self).blks()[k]);
                } else if k > i {
                    assert(self.blocks@[k] == old(self).blocks@[k]);
                    assert(old(self).blocks@[k].deep_view() == old(self).blks()[k]);
                }
            }
        }
    }

    /// Adds a directed edge between the blocks at the given start offsets: a
    /// jump edge only if the target is a valid jump destination, and only
    /// between existing blocks. Returns whether the edge was added.
    fn add_edge(&mut self, as_jump: bool, from_ptr: usize, to_ptr: usize) -> (r: bool)
        requires
            starts_unique(old(self).blks()),
        ensures
            final(self).byte_code == old(self).byte_code,
            final(self).instructions == old(self).instructions,
            final(self).op_trees == old(self).op_trees,
            final(self).blks().len() == old(self).blks().len(),
            r == ((!as_jump || offset_is_jumpdest(old(self).instrs(), to_ptr as nat)) && has_block(
                old(self).blks(),
                from_ptr as nat,
            ) && has_block(old(self).blks(), to_ptr as nat)),
            forall|k: int|
                0 <= k < old(self).blks().len() ==> final(self).blks()[k] == (BlockV {
                    exits: if r && (#[trigger] old(self).blks()[k]).start == from_ptr as nat {
                        old(self).blks()[k].exits.push(to_ptr)
                    } else {
                        old(self).blks()[k].exits
                    },
                    entries: if r && old(self).blks()[k].start == to_ptr as nat {
                        old(self).blks()[k].entries.push(from_ptr)
                    } else {
                        old(self).blks()[k].entries
                    },
                    ..old(self).blks()[k]
                }),
    {
        let ghost bs0 = self.blks();
        if as_jump && !self.is_valid_jump_dest(to_ptr) {
            return false;
        }
        let fi = self.find_block(from_ptr);
        let ti = self.find_block(to_ptr);
        match (fi, ti) {
            (Some(f), Some(t)) => {
                let ghost f0 = f as int;
                let ghost t0 = t as int;
                self.push_exit(f, to_ptr);
                let ghost bs1 = self.blks();
                self.push_entry(t, from_ptr);
                proof {
                    assert(has_block(bs0, from_ptr as nat)) by {
                        assert(bs0[f0].start == from_ptr as nat);
                    }
                    assert(has_block(bs0, to_ptr as nat)) by {
                        assert(bs0[t0].start == to_ptr as nat);
                    }
                    assert forall|k: int| 0 <= k < bs0.len() implies #[trigger] self.blks()[k] == (
                    BlockV {
                        exits: if bs0[k].start == from_ptr as nat {
                            bs0[k].exits.push(to_ptr)
                        } else {
                            bs0[k].exits
                        },
                        entries: if bs0[k].start == to_ptr as nat {
                            bs0[k].entries.push(from_ptr)
                        } else {
                            bs0[k].entries
                        },
                        ..bs0[k]
                    }) by {
                        if bs0[k].start == from_ptr as nat && k != f0 {
                            if k < f0 {
                                assert(bs0[k].start != bs0[f0].start);
                            } else {
                                assert(bs0[f0].start != bs0[k].start);
                            }
                        }
                        if bs0[k].start == to_ptr as nat && k != t0 {
                            if k < t0 {
                                assert(bs0[k].start != bs0[t0].start);
                            } else {
                                assert(bs0[t0].start != bs0[k].start);
                            }
                        }
                        assert(bs1[k] == (if k == f0 {
                            BlockV { exits: bs0[f0].exits.push(to_ptr), ..bs0[f0] }
                        } else {
                            bs0[k]
                        }));
                    }
                }
                true
            },
            _ => {
                false
            },
        }
    }
}

impl Program {
    /// Links the control-flow edges: for each block whose last instruction
    /// is a jump with a constant target, an edge to the block at that target
    /// if it is a valid jump destination (otherwise the edge is rejected and
    /// not added); a block whose jump target is not constant is marked as a
    /// dynamic jump; and a block whose last instruction neither halts nor
    /// jumps unconditionally gets a fallthrough edge to the block at its end
    /// offset, if one exists.
    #[verifier::rlimit(100)]
    fn fill_block_references(&mut self)
        requires
            instrs_wf(old(self).instrs(), old(self).byte_code@),
            starts_unique(old(self).blks()),
            forall|bi: int|
                0 <= bi < old(self).blks().len() ==> block_fresh(#[trigger] old(self).blks()[bi]),
        ensures
            final(self).byte_code == old(self).byte_code,
            final(self).instructions == old(self).instructions,
            final(self).op_trees == old(self).op_trees,
            final(self).blks().len() == old(self).blks().len(),
            forall|bi: int|
                0 <= bi < old(self).blks().len() ==> final(self).blks()[bi] == (BlockV {
                    exits: exits_expected(
                        old(self).instrs(),
                        old(self).blks(),
                        (#[trigger] old(self).blks()[bi]),
                    ),
                    entries: entries_expected(
                        old(self).instrs(),
                        old(self).blks(),
                        bi,
                        old(self).blks().len() as int,
                    ),
                    dynamic_jump: dyn_expected(old(self).instrs(), old(self).blks()[bi]),
                    ..old(self).blks()[bi]
                }),
    {
        let ghost p = self.instrs();
        let ghost bs0 = self.blks();
        let n = self.blocks.len();
        proof {
            lemma_dv(&self.blocks);
            assert forall|k: int| 0 <= k < n implies #[trigger] self.blks()[k] == (BlockV {
                exits: Seq::<usize>::empty(),
                entries: entries_expected(p, bs0, k, 0),
                dynamic_jump: false,
                ..bs0[k]
            }) by {
                assert(block_fresh(bs0[k]));
            }
        }
        let mut bi: usize = 0;
        while bi < n
            invariant
                0 <= bi <= n,
                n == bs0.len(),
                p == self.instrs(),
                bs0.len() == self.blks().len(),
                instrs_wf(self.instrs(), self.byte_code@),
                starts_unique(bs0),
                forall|k: int| 0 <= k < n ==> block_fresh(#[trigger] bs0[k]),
                self.byte_code == old(self).byte_code,
                self.instructions == old(self).instructions,
                self.op_trees == old(self).op_trees,
                bs0 == old(self).blks(),
                forall|k: int|
                    0 <= k < n ==> #[trigger] self.blks()[k] == (BlockV {
                        exits: if k < bi {
                            exits_expected(p, bs0, bs0[k])
                        } else {
                            Seq::<usize>::empty()
                        },
                        entries: entries_expected(p, bs0, k, bi as int),
                        dynamic_jump: if k < bi {
                            dyn_expected(p, bs0[k])
                        } else {
                            false
                        },
                        ..bs0[k]
                    }),
            decreases n - bi,
        {
            let ghost s0 = self.blks();
            let ghost b0 = bs0[bi as int];
            let ghost jp = jump_edge_ok(p, bs0, b0);
            let ghost fp = fall_ok(p, bs0, b0);
            let ghost dy = dyn_expected(p, b0);
            let ghost tgtn: nat = if jump_target(p, b0) is Some {
                (jump_target(p, b0)->0) as nat
            } else {
                0
            };
            proof {
                assert forall|k: int| 0 <= k < n implies (#[trigger] self.blks()[k]).start
                    == bs0[k].start && self.blks()[k].end == bs0[k].end by {}
                assert(starts_unique(self.blks()));
                assert forall|o: nat| #![auto] has_block(self.blks(), o) == has_block(bs0, o) by {
                    if has_block(self.blks(), o) {
                        let j = choose|j: int|
                            0 <= j < self.blks().len() && (#[trigger] self.blks()[j]).start == o;
                        assert(bs0[j].start == o);
                    }
                    if has_block(bs0, o) {
                        let j = choose|j: int| 0 <= j < bs0.len() && (#[trigger] bs0[j]).start == o;
                        assert(self.blks()[j].start == o);
                    }
                }
            }
            let b_start = self.blocks[bi].start;
            let b_end = self.blocks[bi].end;
            let instrs = self.instructions(&self.blocks[bi]);
            let ghost row = instrs_in_range(p, b0.start, b0.end);
            proof {
                lemma_dv(&self.blocks);
                assert(self.blocks@[bi as int].deep_view() == self.blks()[bi as int]);
                assert(b_start as nat == b0.start && b_end as nat == b0.end);
                assert(instrs.deep_view() == row);
                lemma_dv(&instrs);
                lemma_in_range_elems(p, b0.start, b0.end, p.len() as int);
            }
            let mut did_dyn = false;
            if instrs.len() > 0 {
                let last_idx = instrs.len() - 1;
                proof {
                    assert(instrs@[last_idx as int]@ == row[row.len() - 1]);
                    assert(row[row.len() - 1] == last_in(p, b0));
                    let j = choose|j: int|
                        0 <= j < p.len() && #[trigger] row[row.len() - 1] == p[j];
                    reveal(instrs_wf);
                    assert(p[j].inputs.len() == op_args(p[j].op_code));
                    crate::expression::lemma_dv(&instrs@[last_idx as int].inputs);
                }
                let is_jump_op = instrs[last_idx].op_code == op_codes::JUMP
                    || instrs[last_idx].op_code == op_codes::JUMPI;
                if is_jump_op {
                    match &instrs[last_idx].inputs[0] {
                        Expression::Constant(c) => {
                            proof {
                                assert(last_in(p, b0).inputs[0] is Constant);
                                assert(!dy);
                            }
                            match c.to_usize() {
                                Some(v) => {
                                    proof {
                                        assert(jump_target(p, b0) == Some(v as int));
                                        assert(tgtn == v as nat);
                                    }
                                    let added = self.add_edge(true, b_start, v);
                                    proof {
                                        assert(added == jp);
                                    }
                                },
                                None => {
                                    proof {
                                        assert(jump_target(p, b0) is None);
                                        assert(!jp);
                                    }
                                },
                            }
                        },
                        _ => {
                            proof {
                                assert(!(last_in(p, b0).inputs[0] is Constant));
                                assert(jump_target(p, b0) is None);
                                assert(!jp);
                                assert(dy);
                            }
                            did_dyn = true;
                        },
                    }
                } else {
                    proof {
                        assert(!dy);
                        assert(jump_target(p, b0) is None);
                        assert(!jp);
                    }
                }
            } else {
                proof {
                    assert(!block_has_instrs(p, b0));
                    assert(!dy);
                    assert(jump_target(p, b0) is None);
                    assert(!jp);
                }
            }
            proof {
                assert forall|k: int| 0 <= k < n implies #[trigger] self.blks()[k] == (BlockV {
                    exits: if jp && k == bi {
                        s0[k].exits.push(tgtn as usize)
                    } else {
                        s0[k].exits
                    },
                    entries: if jp && bs0[k].start == tgtn {
                        s0[k].entries.push(b_start)
                    } else {
                        s0[k].entries
                    },
                    ..s0[k]
                }) by {
                    if jp && bs0[k].start == b0.start && k != bi {
                        if k < bi {
                            assert(bs0[k].start != bs0[bi as int].start);
                        } else {
                            assert(bs0[bi as int].start != bs0[k].start);
                        }
                    }
                }
            }
            let ghost s1 = self.blks();
            if did_dyn {
                self.set_dynamic(bi);
            }
            proof {
                assert forall|k: int| 0 <= k < n implies #[trigger] self.blks()[k] == (BlockV {
                    dynamic_jump: if dy && k == bi {
                        true
                    } else {
                        s1[k].dynamic_jump
                    },
                    ..s1[k]
                }) by {}
            }
            let ghost s2 = self.blks();
            if instrs.len() > 0 {
                let last_idx = instrs.len() - 1;
                if !op_codes::is_stop(instrs[last_idx].op_code) && instrs[last_idx].op_code
                    != op_codes::JUMP {
                    let fall_present = self.find_instruction(b_end);
                    match fall_present {
                        Some(_) => {
                            proof {
                                assert(has_offset(p, b0.end));
                                assert forall|o: nat| #![auto] has_block(self.blks(), o)
                                    == has_block(bs0, o) by {
                                    if has_block(self.blks(), o) {
                                        let j = choose|j: int|
                                            0 <= j < self.blks().len() && (
                                            #[trigger] self.blks()[j]).start == o;
                                        assert(bs0[j].start == o);
                                    }
                                    if has_block(bs0, o) {
                                        let j = choose|j: int|
                                            0 <= j < bs0.len() && (#[trigger] bs0[j]).start == o;
                                        assert(self.blks()[j].start == o);
                                    }
                                }
                                assert(starts_unique(self.blks()));
                                assert(has_block(bs0, b0.start)) by {
                                    assert(bs0[bi as int].start == b0.start);
                                }
                            }
                            let added2 = self.add_edge(false, b_start, b_end);
                            proof {
                                assert(added2 == fp);
                            }
                        },
                        None => {
                            proof {
                                assert(!has_offset(p, b0.end));
                                assert(!fp);
                            }
                        },
                    }
                } else {
                    proof {
                        assert(!fp);
                    }
                }
            } else {
                proof {
                    assert(!fp);
                }
            }
            proof {
                assert forall|k: int| 0 <= k < n implies #[trigger] self.blks()[k] == (BlockV {
                    exits: if fp && k == bi {
                        s2[k].exits.push(b_end)
                    } else {
                        s2[k].exits
                    },
                    entries: if fp && bs0[k].start == b0.end {
                        s2[k].entries.push(b_start)
                    } else {
                        s2[k].entries
                    },
                    ..s2[k]
                }) by {
                    if fp && bs0[k].start == b0.start && k != bi {
                        if k < bi {
                            assert(bs0[k].start != bs0[bi as int].start);
                        } else {
                            assert(bs0[bi as int].start != bs0[k].start);
                        }
                    }
                }
                // combine the three updates into the invariant at bi + 1
                assert forall|k: int| 0 <= k < n implies #[trigger] self.blks()[k] == (BlockV {
                    exits: if k < bi + 1 {
                        exits_expected(p, bs0, bs0[k])
                    } else {
                        Seq::<usize>::empty()
                    },
                    entries: entries_expected(p, bs0, k, bi + 1),
                    dynamic_jump: if k < bi + 1 {
                        dyn_expected(p, bs0[k])
                    } else {
                        false
                    },
                    ..bs0[k]
                }) by {
                    assert(entries_expected(p, bs0, k, bi + 1) == entries_expected(p, bs0, k,
                        bi as int) + (if cond_jump_edge(p, bs0, bi as int, k) {
                        seq![bs0[bi as int].start as usize]
                    } else {
                        Seq::<usize>::empty()
                    }) + (if cond_fall_edge(p, bs0, bi as int, k) {
                        seq![bs0[bi as int].start as usize]
                    } else {
                        Seq::<usize>::empty()
                    }));
                    if k == bi {
                        assert(s0[k].exits =~= Seq::<usize>::empty());
                        assert(self.blks()[k].exits =~= exits_expected(p, bs0, bs0[k]));
                    }
                    if cond_jump_edge(p, bs0, bi as int, k) {
                        assert(jp && bs0[k].start == tgtn);
                    } else {
                        assert(!(jp && bs0[k].start == tgtn));
                    }
                    if cond_fall_edge(p, bs0, bi as int, k) {
                        assert(fp && bs0[k].start == b0.end);
                    } else {
                        assert(!(fp && bs0[k].start == b0.end));
                    }
                    assert(self.blks()[k].entries =~= entries_expected(p, bs0, k, bi + 1));
                }
            }
            bi = bi + 1;
        }
    }
}

/// The work items the exploration accepts among the successors of the block
/// `b` from position `i` on: the target must be a valid jump destination or
/// the block's own end, a block must start there, the origin's gas price must
/// fit the remaining budget, and the carried stack must fit the resource
/// guard. Each accepted item carries the reduced budget, the target block's
/// index, and the resulting stack.
pub open spec fn accepted_states(
    p: Seq<InstrV>,
    bs: Seq<BlockV>,
    b: BlockV,
    gas: nat,
    exits: Seq<(crate::instruction::CondV, nat)>,
    new_stack: Seq<ExprV>,
    i: int,
) -> Seq<(nat, int, Seq<ExprV>)>
    decreases exits.len() - i,
{
    if i < 0 || i >= exits.len() {
        Seq::empty()
    } else {
        (if (offset_is_jumpdest(p, exits[i].1) || exits[i].1 == b.end) && has_block(
            bs,
            exits[i].1,
        ) && b.gas_price <= gas && new_stack.len() <= usize::MAX / 2 {
            seq![((gas - b.gas_price) as nat, block_idx(bs, exits[i].1), new_stack)]
        } else {
            Seq::<(nat, int, Seq<ExprV>)>::empty()
        }) + accepted_states(p, bs, b, gas, exits, new_stack, i + 1)
    }
}

/// The block indices the gas-bounded worklist exploration marks: while work
/// and fuel remain, the topmost work item's block is marked; unless its
/// carried stack exceeds the resource guard or its block ends in a jump the
/// interpreter cannot resolve, the block's accepted successor states join
/// the worklist.
pub open spec fn resolve_marks(
    p: Seq<InstrV>,
    bs: Seq<BlockV>,
    work: Seq<(nat, int, Seq<ExprV>)>,
    fuel: nat,
) -> Set<int>
    decreases fuel,
{
    if work.len() == 0 || fuel == 0 {
        Set::empty()
    } else {
        let top = work.last();
        let rest = work.drop_last();
        let bi = top.1;
        let new_work = if bi < 0 || bi >= bs.len() || top.2.len() > usize::MAX / 2 {
            rest
        } else {
            let b = bs[bi];
            match run_block(instrs_in_range(p, b.start, b.end), top.2) {
                None => rest,
                Some(r) => rest + accepted_states(p, bs, b, top.0, r.0, r.1, 0),
            }
        };
        set![bi] + resolve_marks(p, bs, new_work, (fuel - 1) as nat)
    }
}

/// The exploration's single starting state: the full budget, the entry
/// block, an empty abstract stack.
pub open spec fn resolver_init() -> Seq<(nat, int, Seq<ExprV>)> {
    seq![(500000 as nat, 0int, Seq::<ExprV>::empty())]
}

/// The blocks the resolver visits, and therefore marks reachable: the result
/// of the gas-bounded exploration from the entry block.
pub open spec fn resolver_visits(p: Seq<InstrV>, bs: Seq<BlockV>) -> Set<int> {
    resolve_marks(p, bs, resolver_init(), 500000)
}

/// The view of the exec worklist: each state's budget, the index of the last
/// block of its path, and its abstract stack.
pub open spec fn work_view(states: Seq<(usize, Vec<usize>, EvmStack)>) -> Seq<
    (nat, int, Seq<ExprV>),
> {
    Seq::new(
        states.len(),
        |i: int| (states[i].0 as nat, states[i].1@.last() as int, states[i].2.deep_view()),
    )
}

/// In an arena with distinct starts, the index of an offset's block is the
/// one that holds it.
proof fn lemma_block_idx_unique(bs: Seq<BlockV>, o: nat, i: int)
    requires
        starts_unique(bs),
        0 <= i < bs.len(),
        bs[i].start == o,
    ensures
        has_block(bs, o),
        block_idx(bs, o) == i,
{
    assert(has_block(bs, o));
    let j = block_idx(bs, o);
    assert(0 <= j < bs.len() && bs[j].start == o);
    if i < j {
        assert(bs[i].start != bs[j].start);
    }
    if j < i {
        assert(bs[j].start != bs[i].start);
    }
}

/// The exploration reads only block spans and gas prices: its marks survive
/// flag and edge changes.
proof fn lemma_accepted_stable(
    p: Seq<InstrV>,
    bs1: Seq<BlockV>,
    bs2: Seq<BlockV>,
    b1: BlockV,
    b2: BlockV,
    gas: nat,
    exits: Seq<(crate::instruction::CondV, nat)>,
    new_stack: Seq<ExprV>,
    i: int,
)
    requires
        bs1.len() == bs2.len(),
        starts_unique(bs1),
        forall|k: int|
            0 <= k < bs1.len() ==> (#[trigger] bs2[k]).start == bs1[k].start && bs2[k].end
                == bs1[k].end && bs2[k].gas_price == bs1[k].gas_price,
        b1.end == b2.end,
        b1.gas_price == b2.gas_price,
    ensures
        accepted_states(p, bs1, b1, gas, exits, new_stack, i) == accepted_states(
            p,
            bs2,
            b2,
            gas,
            exits,
            new_stack,
            i,
        ),
    decreases exits.len() - i,
{
    if 0 <= i < exits.len() {
        lemma_accepted_stable(p, bs1, bs2, b1, b2, gas, exits, new_stack, i + 1);
        lemma_has_block_iff(bs1, bs2);
        if has_block(bs1, exits[i].1) {
            let j = block_idx(bs1, exits[i].1);
            assert(0 <= j < bs1.len() && bs1[j].start == exits[i].1);
            assert(bs2[j].start == exits[i].1);
            assert(starts_unique(bs2));
            lemma_block_idx_unique(bs2, exits[i].1, j);
        }
    }
}

proof fn lemma_resolve_marks_stable(
    p: Seq<InstrV>,
    bs1: Seq<BlockV>,
    bs2: Seq<BlockV>,
    work: Seq<(nat, int, Seq<ExprV>)>,
    fuel: nat,
)
    requires
        bs1.len() == bs2.len(),
        starts_unique(bs1),
        forall|k: int|
            0 <= k < bs1.len() ==> (#[trigger] bs2[k]).start == bs1[k].start && bs2[k].end
                == bs1[k].end && bs2[k].gas_price == bs1[k].gas_price,
    ensures
        resolve_marks(p, bs1, work, fuel) == resolve_marks(p, bs2, work, fuel),
    decreases fuel,
{
    if work.len() > 0 && fuel > 0 {
        let top = work.last();
        let rest = work.drop_last();
        let bi = top.1;
        if bi < 0 || bi >= bs1.len() || top.2.len() > usize::MAX / 2 {
            lemma_resolve_marks_stable(p, bs1, bs2, rest, (fuel - 1) as nat);
        } else {
            assert(bs1[bi].start == bs2[bi].start && bs1[bi].end == bs2[bi].end);
            let b1 = bs1[bi];
            let b2 = bs2[bi];
            assert(instrs_in_range(p, b1.start, b1.end) == instrs_in_range(p, b2.start, b2.end));
            match run_block(instrs_in_range(p, b1.start, b1.end), top.2) {
                None => {
                    lemma_resolve_marks_stable(p, bs1, bs2, rest, (fuel - 1) as nat);
                },
                Some(r) => {
                    lemma_accepted_stable(p, bs1, bs2, b1, b2, top.0, r.0, r.1, 0);
                    lemma_resolve_marks_stable(
                        p,
                        bs1,
                        bs2,
                        rest + accepted_states(p, bs1, b1, top.0, r.0, r.1, 0),
                        (fuel - 1) as nat,
                    );
                },
            }
        }
    }
}

/// The exploration visits the entry block whenever blocks exist.
proof fn lemma_resolver_visits_entry(p: Seq<InstrV>, bs: Seq<BlockV>)
    ensures
        resolver_visits(p, bs).contains(0int),
{
    let work = resolver_init();
    assert(work.last() == (500000 as nat, 0int, Seq::<ExprV>::empty()));
    assert(resolve_marks(p, bs, work, 500000).contains(0int));
}

impl Program {
    /// Explores the block graph from the entry block along concrete paths,
    /// re-running the interpreter per block to resolve jump targets, and
    /// marks a block reachable exactly when the exploration visits it. Each
    /// path carries a gas budget reduced by the origin block's price; a path
    /// ends at a terminator, at a rejected target, at a jump the interpreter
    /// cannot resolve, or when its budget or the overall work bound is
    /// exhausted.
    #[verifier::rlimit(100)]
    fn solve_dynamics(&mut self)
        requires
            instrs_wf(old(self).instrs(), old(self).byte_code@),
            old(self).byte_code@.len() * 5000 <= usize::MAX,
            old(self).instrs().len() <= old(self).byte_code@.len(),
            old(self).blks().len() > 0,
            old(self).blks()[0].start == 0,
            starts_unique(old(self).blks()),
        ensures
            final(self).byte_code == old(self).byte_code,
            final(self).instructions == old(self).instructions,
            final(self).op_trees == old(self).op_trees,
            final(self).blks().len() == old(self).blks().len(),
            forall|k: int|
                0 <= k < old(self).blks().len() ==> final(self).blks()[k] == (BlockV {
                    reachable: final(self).blks()[k].reachable,
                    ..(#[trigger] old(self).blks()[k])
                }),
            forall|k: int|
                0 <= k < old(self).blks().len() ==> (#[trigger] final(self).blks()[k]).reachable
                    == (old(self).blks()[k].reachable || resolver_visits(
                    old(self).instrs(),
                    old(self).blks(),
                ).contains(k)),
            final(self).blks()[0].reachable,
    {
        let ghost bs0 = self.blks();
        let ghost p0 = self.instrs();
        let mut states: Vec<(usize, Vec<usize>, EvmStack)> = Vec::new();
        let mut path0: Vec<usize> = Vec::new();
        path0.push(0);
        let empty0: EvmStack = Vec::new();
        states.push((500000, path0, empty0));
        self.set_reachable(0);
        let ghost mut marked: Set<int> = Set::empty().insert(0int);
        let mut fuel: usize = 500000;
        proof {
            assert(self.blks()[0].start == 0);
            assert forall|k: int| 0 <= k < bs0.len() implies #[trigger] self.blks()[k] == (BlockV {
                reachable: self.blks()[k].reachable,
                ..bs0[k]
            }) by {}
            assert forall|k: int|
                0 <= k < bs0.len() implies (#[trigger] self.blks()[k]).reachable == (bs0[
            k].reachable || marked.contains(k)) by {}
            assert(empty0.deep_view() =~= Seq::<ExprV>::empty());
            assert(path0@ =~= seq![0usize]);
            assert(work_view(states@) =~= resolver_init());
            lemma_resolver_visits_entry(p0, bs0);
            assert(resolver_visits(p0, bs0) =~= marked + resolve_marks(
                p0,
                bs0,
                work_view(states@),
                fuel as nat,
            ));
        }
        while states.len() > 0 && fuel > 0
            invariant
                self.byte_code == old(self).byte_code,
                self.instructions == old(self).instructions,
                self.op_trees == old(self).op_trees,
                bs0 == old(self).blks(),
                p0 == old(self).instrs(),
                p0 == self.instrs(),
                bs0.len() == self.blks().len(),
                bs0.len() > 0,
                instrs_wf(self.instrs(), self.byte_code@),
                self.byte_code@.len() * 5000 <= usize::MAX,
                self.instrs().len() <= self.byte_code@.len(),
                starts_unique(bs0),
                forall|k: int|
                    0 <= k < bs0.len() ==> #[trigger] self.blks()[k] == (BlockV {
                        reachable: self.blks()[k].reachable,
                        ..bs0[k]
                    }),
                forall|k: int|
                    0 <= k < bs0.len() ==> (#[trigger] self.blks()[k]).reachable == (bs0[
                k].reachable || marked.contains(k)),
                forall|k: int| marked.contains(k) ==> 0 <= k < bs0.len(),
                marked.contains(0int),
                forall|k: int|
                    0 <= k < states@.len() ==> (#[trigger] states@[k]).1@.len() > 0 && (
                states@[k].1@.last() as int) < bs0.len(),
                resolver_visits(p0, bs0) == marked + resolve_marks(
                    p0,
                    bs0,
                    work_view(states@),
                    fuel as nat,
                ),
            decreases fuel,
        {
            let ghost fuel_pre = fuel as nat;
            let ghost wv_pre = work_view(states@);
            fuel = fuel - 1;
            let ghost states_pre = states@;
            let popped_state = states.pop().unwrap();
            let (gas_limit, path, stack) = popped_state;
            let bi = path[path.len() - 1];
            let ghost rest_wv = work_view(states@);
            proof {
                assert(states_pre[states_pre.len() - 1] == (gas_limit, path, stack));
                assert(wv_pre.last() == (gas_limit as nat, bi as int, stack.deep_view()));
                assert(rest_wv =~= wv_pre.drop_last());
                assert forall|k: int|
                    0 <= k < states@.len() implies (#[trigger] states@[k]).1@.len() > 0 && (
                states@[k].1@.last() as int) < bs0.len() by {
                    assert(states@[k] == states_pre[k]);
                }
            }
            let ghost pre_mark = self.blks();
            self.set_reachable(bi);
            proof {
                marked = marked.insert(bi as int);
                assert forall|k: int| 0 <= k < bs0.len() implies #[trigger] self.blks()[k] == (
                BlockV { reachable: self.blks()[k].reachable, ..bs0[k] }) by {
                    if k != bi {
                        assert(self.blks()[k] == pre_mark[k]);
                    }
                }
                assert forall|k: int|
                    0 <= k < bs0.len() implies (#[trigger] self.blks()[k]).reachable == (bs0[
                k].reachable || marked.contains(k)) by {
                    if k != bi {
                        assert(self.blks()[k] == pre_mark[k]);
                    }
                }
            }
            if stack.len() > usize::MAX / 2 {
                // resource guard: an abstract stack this deep ends the path
                proof {
                    assert(stack.deep_view().len() == stack@.len());
                    assert(resolve_marks(p0, bs0, wv_pre, fuel_pre) == set![bi as int]
                        + resolve_marks(p0, bs0, rest_wv, fuel as nat));
                    assert(resolver_visits(p0, bs0) =~= marked + resolve_marks(
                        p0,
                        bs0,
                        work_view(states@),
                        fuel as nat,
                    ));
                }
                continue;
            }
            let b_gas = self.blocks[bi].gas_price;
            let b_end = self.blocks[bi].end;
            proof {
                lemma_dv(&self.blocks);
                assert(self.blocks@[bi as int].deep_view() == self.blks()[bi as int]);
                assert(b_gas as nat == bs0[bi as int].gas_price);
                assert(b_end as nat == bs0[bi as int].end);
                let n = self.byte_code@.len();
                if n >= 1 {
                    assert(18 * n + 18 + n / 2 <= 5000 * n) by (nonlinear_arith)
                        requires
                            n >= 1,
                    ;
                }
                assert(stack.deep_view().len() == stack@.len());
                assert(18 * self.instrs().len() <= 18 * self.byte_code@.len());
            }
            let step = self.solve_stack(&self.blocks[bi], &stack);
            match step {
                Ok((exits, new_stack)) => {
                    let ghost b0v = bs0[bi as int];
                    let ghost exv = crate::instruction::succ_view(exits@);
                    let ghost nsv = new_stack.deep_view();
                    let ghost gasn = gas_limit as nat;
                    proof {
                        assert(run_block(
                            instrs_in_range(p0, b0v.start, b0v.end),
                            stack.deep_view(),
                        ) == Some((exv, nsv)));
                    }
                    let m = exits.len();
                    let mut e: usize = 0;
                    while e < m
                        invariant
                            0 <= e <= m,
                            m == exits@.len(),
                            bs0 == old(self).blks(),
                            p0 == old(self).instrs(),
                            p0 == self.instrs(),
                            bs0.len() == self.blks().len(),
                            bs0.len() > 0,
                            self.byte_code == old(self).byte_code,
                            self.instructions == old(self).instructions,
                            self.op_trees == old(self).op_trees,
                            instrs_wf(self.instrs(), self.byte_code@),
                            self.byte_code@.len() * 5000 <= usize::MAX,
                            self.instrs().len() <= self.byte_code@.len(),
                            starts_unique(bs0),
                            bi < self.blks().len(),
                            b0v == bs0[bi as int],
                            b_gas as nat == b0v.gas_price,
                            b_end as nat == b0v.end,
                            gasn == gas_limit as nat,
                            exv == crate::instruction::succ_view(exits@),
                            nsv == new_stack.deep_view(),
                            forall|k: int|
                                0 <= k < bs0.len() ==> #[trigger] self.blks()[k] == (BlockV {
                                    reachable: self.blks()[k].reachable,
                                    ..bs0[k]
                                }),
                            forall|k: int|
                                0 <= k < bs0.len() ==> (#[trigger] self.blks()[k]).reachable == (
                            bs0[k].reachable || marked.contains(k)),
                            forall|k: int| marked.contains(k) ==> 0 <= k < bs0.len(),
                            marked.contains(0int),
                            forall|k: int|
                                0 <= k < states@.len() ==> (#[trigger] states@[k]).1@.len() > 0
                                    && (states@[k].1@.last() as int) < bs0.len(),
                            work_view(states@) + accepted_states(
                                p0,
                                bs0,
                                b0v,
                                gasn,
                                exv,
                                nsv,
                                e as int,
                            ) == rest_wv + accepted_states(p0, bs0, b0v, gasn, exv, nsv, 0),
                        decreases m - e,
                    {
                        let next = exits[e].1;
                        proof {
                            assert(exv[e as int] == (exits@[e as int].0@, exits@[e as int].1 as nat));
                            assert(exv[e as int].1 == next as nat);
                        }
                        let accept = self.is_valid_jump_dest(next) || next == b_end;
                        let ghost wv_mid = work_view(states@);
                        if accept {
                            let ti = self.find_block(next);
                            match ti {
                                Some(t) => {
                                    proof {
                                        assert(self.blks()[t as int].start == next as nat);
                                        assert(bs0[t as int].start == next as nat);
                                        lemma_block_idx_unique(bs0, next as nat, t as int);
                                    }
                                    if b_gas <= gas_limit && new_stack.len() <= usize::MAX / 2 {
                                        let mut new_path = path.clone();
                                        new_path.push(t);
                                        proof {
                                            assert(new_path@ =~= path@.push(t));
                                            assert(new_path@.last() == t);
                                        }
                                        let carried = clone_stack(&new_stack);
                                        let ghost states_mid = states@;
                                        states.push((gas_limit - b_gas, new_path, carried));
                                        proof {
                                            assert forall|k: int|
                                                0 <= k < states@.len() implies (
                                            #[trigger] states@[k]).1@.len() > 0 && (
                                            states@[k].1@.last() as int) < bs0.len() by {
                                                if k < states_mid.len() {
                                                    assert(states@[k] == states_mid[k]);
                                                }
                                            }
                                            let item = (
                                                (gasn - b0v.gas_price) as nat,
                                                block_idx(bs0, exv[e as int].1),
                                                nsv,
                                            );
                                            assert(accepted_states(p0, bs0, b0v, gasn, exv, nsv,
                                                e as int) == seq![item] + accepted_states(
                                                p0,
                                                bs0,
                                                b0v,
                                                gasn,
                                                exv,
                                                nsv,
                                                e + 1,
                                            ));
                                            assert(work_view(states@) =~= wv_mid.push(item));
                                            assert(work_view(states@) + accepted_states(p0, bs0,
                                                b0v, gasn, exv, nsv, e + 1) =~= wv_mid + (
                                            seq![item] + accepted_states(
                                                p0,
                                                bs0,
                                                b0v,
                                                gasn,
                                                exv,
                                                nsv,
                                                e + 1,
                                            )));
                                        }
                                    } else {
                                        proof {
                                            assert(nsv.len() == new_stack@.len());
                                            assert(!(b0v.gas_price <= gasn && nsv.len()
                                                <= usize::MAX / 2));
                                            assert(accepted_states(p0, bs0, b0v, gasn, exv, nsv,
                                                e as int) =~= accepted_states(
                                                p0,
                                                bs0,
                                                b0v,
                                                gasn,
                                                exv,
                                                nsv,
                                                e + 1,
                                            ));
                                        }
                                    }
                                },
                                None => {
                                    proof {
                                        assert(!has_block(self.blks(), next as nat));
                                        if has_block(bs0, next as nat) {
                                            let j = choose|j: int|
                                                0 <= j < bs0.len() && (#[trigger] bs0[j]).start
                                                    == next as nat;
                                            assert(self.blks()[j].start == next as nat);
                                        }
                                        assert(!has_block(bs0, next as nat));
                                        assert(accepted_states(p0, bs0, b0v, gasn, exv, nsv,
                                            e as int) =~= accepted_states(
                                            p0,
                                            bs0,
                                            b0v,
                                            gasn,
                                            exv,
                                            nsv,
                                            e + 1,
                                        ));
                                    }
                                },
                            }
                        } else {
                            proof {
                                assert(!offset_is_jumpdest(p0, next as nat));
                                assert(next as nat != b0v.end);
                                assert(accepted_states(p0, bs0, b0v, gasn, exv, nsv, e as int)
                                    =~= accepted_states(p0, bs0, b0v, gasn, exv, nsv, e + 1));
                            }
                        }
                        e = e + 1;
                    }
                    proof {
                        assert(accepted_states(p0, bs0, b0v, gasn, exv, nsv, m as int)
                            =~= Seq::<(nat, int, Seq<ExprV>)>::empty());
                        assert(work_view(states@) =~= rest_wv + accepted_states(
                            p0,
                            bs0,
                            b0v,
                            gasn,
                            exv,
                            nsv,
                            0,
                        ));
                        assert(resolve_marks(p0, bs0, wv_pre, fuel_pre) == set![bi as int]
                            + resolve_marks(p0, bs0, work_view(states@), fuel as nat));
                        assert(resolver_visits(p0, bs0) =~= marked + resolve_marks(
                            p0,
                            bs0,
                            work_view(states@),
                            fuel as nat,
                        ));
                    }
                },
                Err(_) => {
                    // an indirect jump the analysis cannot follow: this path
                    // ends here and the other paths go on
                    proof {
                        assert(run_block(
                            instrs_in_range(p0, bs0[bi as int].start, bs0[bi as int].end),
                            stack.deep_view(),
                        ) is None);
                        assert(resolve_marks(p0, bs0, wv_pre, fuel_pre) == set![bi as int]
                            + resolve_marks(p0, bs0, work_view(states@), fuel as nat));
                        assert(resolver_visits(p0, bs0) =~= marked + resolve_marks(
                            p0,
                            bs0,
                            work_view(states@),
                            fuel as nat,
                        ));
                    }
                },
            }
        }
        proof {
            assert(resolve_marks(p0, bs0, work_view(states@), fuel as nat) =~= Set::<int>::empty());
            assert(resolver_visits(p0, bs0) =~= marked);
        }
    }
}

/// The decoder visits at most one offset per byte.
proof fn lemma_decoded_len(bytes: Seq<u8>, off: nat)
    ensures
        off <= bytes.len() ==> decoded_offsets(bytes, off).len() <= bytes.len() - off,
        off > bytes.len() ==> decoded_offsets(bytes, off).len() == 0,
    decreases
            (if off <= bytes.len() {
                bytes.len() - off
            } else {
                0int
            }),
{
    if off < bytes.len() {
        lemma_decoded_len(bytes, next_offset(bytes, off));
    }
}

/// Contiguous nonempty blocks have pairwise distinct, increasing starts.
proof fn lemma_partition_unique(bs: Seq<BlockV>)
    requires
        forall|i: int| 0 <= i < bs.len() - 1 ==> (#[trigger] bs[i]).end == bs[i + 1].start,
        forall|i: int| 0 <= i < bs.len() ==> (#[trigger] bs[i]).start < bs[i].end,
    ensures
        starts_unique(bs),
{
    assert forall|i: int, j: int| 0 <= i < j < bs.len() implies (#[trigger] bs[i]).start < (
    #[trigger] bs[j]).start by {
        lemma_partition_increasing(bs, i, j);
    }
}

proof fn lemma_partition_increasing(bs: Seq<BlockV>, i: int, j: int)
    requires
        forall|k: int| 0 <= k < bs.len() - 1 ==> (#[trigger] bs[k]).end == bs[k + 1].start,
        forall|k: int| 0 <= k < bs.len() ==> (#[trigger] bs[k]).start < bs[k].end,
        0 <= i < j < bs.len(),
    ensures
        bs[i].start < bs[j].start,
    decreases j - i,
{
    if i + 1 == j {
        assert(bs[i].end == bs[i + 1].start);
    } else {
        lemma_partition_increasing(bs, i, j - 1);
        assert(bs[j - 1].end == bs[j].start);
    }
}

/// The linker's edge conditions read only block spans: they survive flag
/// changes.
proof fn lemma_entries_stable(
    p: Seq<InstrV>,
    bs1: Seq<BlockV>,
    bs2: Seq<BlockV>,
    j: int,
    u: int,
)
    requires
        bs1.len() == bs2.len(),
        0 <= j < bs1.len(),
        forall|k: int|
            0 <= k < bs1.len() ==> (#[trigger] bs2[k]).start == bs1[k].start && bs2[k].end
                == bs1[k].end,
    ensures
        entries_expected(p, bs1, j, u) == entries_expected(p, bs2, j, u),
    decreases u,
{
    if 0 < u <= bs1.len() {
        lemma_entries_stable(p, bs1, bs2, j, u - 1);
        lemma_has_block_iff(bs1, bs2);
        assert(jump_target(p, bs1[u - 1]) == jump_target(p, bs2[u - 1]));
        assert(block_has_instrs(p, bs1[u - 1]) == block_has_instrs(p, bs2[u - 1]));
        assert(bs1[u - 1].start < bs1[u - 1].end ==> last_in(p, bs1[u - 1]) == last_in(
            p,
            bs2[u - 1],
        ));
        assert(last_in(p, bs1[u - 1]) == last_in(p, bs2[u - 1]));
        assert(jump_edge_ok(p, bs1, bs1[u - 1]) == jump_edge_ok(p, bs2, bs2[u - 1]));
        assert(fall_ok(p, bs1, bs1[u - 1]) == fall_ok(p, bs2, bs2[u - 1]));
        assert(cond_jump_edge(p, bs1, u - 1, j) == cond_jump_edge(p, bs2, u - 1, j));
        assert(cond_fall_edge(p, bs1, u - 1, j) == cond_fall_edge(p, bs2, u - 1, j));
        assert(bs1[u - 1].start == bs2[u - 1].start);
    }
}

proof fn lemma_has_block_iff(bs1: Seq<BlockV>, bs2: Seq<BlockV>)
    requires
        bs1.len() == bs2.len(),
        forall|k: int|
            0 <= k < bs1.len() ==> (#[trigger] bs2[k]).start == bs1[k].start && bs2[k].end
                == bs1[k].end,
    ensures
        forall|o: nat| #[trigger] has_block(bs1, o) == has_block(bs2, o),
{
    assert forall|o: nat| #[trigger] has_block(bs1, o) == has_block(bs2, o) by {
        if has_block(bs1, o) {
            let j = choose|j: int| 0 <= j < bs1.len() && (#[trigger] bs1[j]).start == o;
            assert(bs2[j].start == o);
        }
        if has_block(bs2, o) {
            let j = choose|j: int| 0 <= j < bs2.len() && (#[trigger] bs2[j]).start == o;
            assert(bs1[j].start == o);
        }
    }
}

/// A fully analyzed program, as its constructor hands it out: decoded
/// instructions at exactly the decoder's offsets, a stored expansion per
/// instruction, blocks partitioning the covered byte range with their linked
/// edges and dynamic-jump flags, and reachability marks on exactly the
/// blocks the gas-bounded exploration visits from the entry block.
pub open spec fn analyzed(prog: Program, bytes: Seq<u8>) -> bool {
    &&& prog.byte_code@ == bytes
    &&& spec_supported(bytes)
    &&& instrs_wf(prog.instrs(), bytes)
    &&& instr_offsets(prog.instrs()) == decoded_offsets(bytes, 0)
    &&& gas_known(prog.instrs())
    &&& prog.instrs().len() <= bytes.len()
    &&& prog.op_trees.deep_view().len() == prog.instrs().len()
    &&& trees_match(prog.op_trees.deep_view(), prog.instrs())
    &&& blocks_partition(prog.blks(), bytes.len())
    &&& prog.blks().len() > 0
    &&& prog.blks()[0].start == 0
    &&& prog.blks()[0].reachable
    &&& (bytes.len() == 0 ==> prog.blks().len() == 1)
    &&& forall|bi: int|
        0 <= bi < prog.blks().len() ==> (#[trigger] prog.blks()[bi]).gas_price == gas_sum(
            prog.instrs(),
            prog.blks()[bi].start,
            prog.blks()[bi].end,
        )
    &&& forall|bi: int|
        0 <= bi < prog.blks().len() ==> (#[trigger] prog.blks()[bi]).exits == exits_expected(
            prog.instrs(),
            prog.blks(),
            prog.blks()[bi],
        )
    &&& forall|bi: int|
        0 <= bi < prog.blks().len() ==> (#[trigger] prog.blks()[bi]).entries == entries_expected(
            prog.instrs(),
            prog.blks(),
            bi,
            prog.blks().len() as int,
        )
    &&& forall|bi: int|
        0 <= bi < prog.blks().len() ==> (#[trigger] prog.blks()[bi]).dynamic_jump == dyn_expected(
            prog.instrs(),
            prog.blks()[bi],
        )
    &&& forall|bi: int|
        0 <= bi < prog.blks().len() ==> (#[trigger] prog.blks()[bi]).reachable == resolver_visits(
            prog.instrs(),
            prog.blks(),
        ).contains(bi)
    &&& prog.instrs() == spec_decode(bytes).instrs
    &&& prog.op_trees.deep_view() == spec_decode(bytes).trees
    &&& (spec_decode(bytes).blocks.len() == 0 ==> prog.blks().len() == 1 && prog.blks()[0].start
        == 0 && prog.blks()[0].end == 0 && prog.blks()[0].exit_stack == Seq::<ExprV>::empty()
        && prog.blks()[0].gas_price == 0)
    &&& (spec_decode(bytes).blocks.len() > 0 ==> prog.blks().len() == spec_decode(
        bytes,
    ).blocks.len() && (forall|bi: int|
        0 <= bi < prog.blks().len() ==> #[trigger] prog.blks()[bi] == (BlockV {
            exits: prog.blks()[bi].exits,
            entries: prog.blks()[bi].entries,
            dynamic_jump: prog.blks()[bi].dynamic_jump,
            reachable: prog.blks()[bi].reachable,
            ..spec_decode(bytes).blocks[bi]
        })))
}

/// Returns true when a program can be built from the byte sequence: the
/// sequence is small enough for the machine and the gas table covers every
/// opcode the decoder would visit.
pub fn check_supported(byte_code: &Vec<u8>) -> (r: bool)
    ensures
        r == spec_supported(byte_code@),
{
    let ghost bytes = byte_code@;
    let n = byte_code.len();
    if n > usize::MAX / 5000 {
        proof {
            assert(5000 * (usize::MAX / 5000) + (usize::MAX % 5000) == usize::MAX);
            assert(n * 5000 >= (usize::MAX / 5000 + 1) * 5000) by (nonlinear_arith)
                requires
                    n >= usize::MAX / 5000 + 1,
            ;
        }
        return false;
    }
    proof {
        assert(5000 * (usize::MAX / 5000) + (usize::MAX % 5000) == usize::MAX);
        assert(n * 5000 <= (usize::MAX / 5000) * 5000) by (nonlinear_arith)
            requires
                n <= usize::MAX / 5000,
        ;
    }
    let mut off: usize = 0;
    while off < n
        invariant
            bytes == byte_code@,
            n == bytes.len(),
            n <= usize::MAX / 5000,
            n <= usize::MAX - 33,
            gas_table_covers(bytes, 0) == gas_table_covers(bytes, off as nat),
        decreases
                (if off <= n {
                    n - off
                } else {
                    0int
                }),
    {
        let op = byte_code[off];
        if !op_codes::has_gas_cost(op) {
            proof {
                assert(!gas_table_covers(bytes, off as nat));
            }
            return false;
        }
        let pb = op_codes::push_bytes(op);
        proof {
            assert(next_offset(bytes, off as nat) == off + 1 + pb);
            assert(gas_table_covers(bytes, off as nat) == gas_table_covers(
                bytes,
                (off + 1 + pb) as nat,
            ));
        }
        off = off + 1 + pb;
    }
    proof {
        assert(gas_table_covers(bytes, off as nat));
    }
    true
}

impl Program {
    /// Analyzes a byte sequence: decodes it into instructions with their
    /// symbolic inputs and outputs, partitions them into basic blocks, stores
    /// each instruction's expanded operation tree, links the static control
    /// edges, and resolves dynamic jumps from the entry block.
    #[verifier::rlimit(100)]
    pub fn new(byte_code: ByteCode) -> (r: Program)
        requires
            spec_supported(byte_code@),
        ensures
            r.byte_code == byte_code,
            analyzed(r, byte_code@),
    {
        let ghost bytes = byte_code@;
        let mut rtn = Program {
            byte_code,
            instructions: Vec::new(),
            blocks: Vec::new(),
            op_trees: Vec::new(),
        };
        rtn.fill_instructions();
        let ghost d = spec_decode(bytes);
        proof {
            lemma_decoded_len(bytes, 0);
            assert(rtn.instrs().len() == instr_offsets(rtn.instrs()).len());
        }
        if rtn.blocks.len() == 0 {
            let empty_stack: EvmStack = Vec::new();
            proof {
                lemma_dv(&rtn.blocks);
                assert(empty_stack.deep_view() =~= Seq::<ExprV>::empty());
            }
            rtn.insert_block(0, 0, &empty_stack);
            proof {
                lemma_gas_sum_empty_range(rtn.instrs(), 0, rtn.instrs().len() as int);
                assert(rtn.blks().len() == 1);
                assert(rtn.blks()[0].start == 0 && rtn.blks()[0].end == 0);
                assert(rtn.blks()[0].exit_stack == Seq::<ExprV>::empty());
                assert(rtn.blks()[0].gas_price == 0);
            }
        }
        let ghost bs_mid = rtn.blks();
        proof {
            assert(bs_mid.len() > 0);
            assert(bs_mid[0].start == 0);
            if bs_mid.len() == 1 {
                assert(starts_unique(bs_mid));
            } else {
                lemma_partition_unique(bs_mid);
            }
            assert forall|bi: int| 0 <= bi < bs_mid.len() implies block_fresh(
                #[trigger] bs_mid[bi],
            ) by {}
        }
        rtn.fill_block_references();
        let ghost bs_linked = rtn.blks();
        proof {
            assert forall|k: int| 0 <= k < bs_linked.len() implies (
            #[trigger] bs_linked[k]).start == bs_mid[k].start && bs_linked[k].end == bs_mid[k].end
                && bs_linked[k].gas_price == bs_mid[k].gas_price && !bs_linked[k].reachable by {
                assert(block_fresh(bs_mid[k]));
            }
            assert(bs_linked[0].start == 0);
            assert(starts_unique(bs_linked)) by {
                assert forall|i: int, j: int| 0 <= i < j < bs_linked.len() implies (
                #[trigger] bs_linked[i]).start != (#[trigger] bs_linked[j]).start by {
                    assert(bs_mid[i].start != bs_mid[j].start);
                }
            }
        }
        rtn.solve_dynamics();
        proof {
            reveal(trees_match);
            let bs_fin = rtn.blks();
            let p = rtn.instrs();
            assert forall|k: int| 0 <= k < bs_fin.len() implies (#[trigger] bs_fin[k]).start
                == bs_mid[k].start && bs_fin[k].end == bs_mid[k].end by {}
            lemma_has_block_iff(bs_linked, bs_fin);
            assert forall|bi: int| 0 <= bi < bs_fin.len() implies (#[trigger] bs_fin[bi]).exits
                == exits_expected(p, bs_fin, bs_fin[bi]) by {
                assert(bs_fin[bi].exits == bs_linked[bi].exits);
                assert(bs_linked[bi].exits == exits_expected(p, bs_mid, bs_mid[bi]));
                assert(jump_target(p, bs_mid[bi]) == jump_target(p, bs_fin[bi]));
                lemma_has_block_iff(bs_mid, bs_fin);
            }
            assert forall|bi: int| 0 <= bi < bs_fin.len() implies (#[trigger] bs_fin[bi]).entries
                == entries_expected(p, bs_fin, bi, bs_fin.len() as int) by {
                assert(bs_fin[bi].entries == bs_linked[bi].entries);
                assert(bs_linked[bi].entries == entries_expected(p, bs_mid, bi,
                    bs_mid.len() as int));
                lemma_entries_stable(p, bs_mid, bs_fin, bi, bs_fin.len() as int);
            }
            assert forall|bi: int| 0 <= bi < bs_fin.len() implies (
            #[trigger] bs_fin[bi]).dynamic_jump == dyn_expected(p, bs_fin[bi]) by {
                assert(bs_fin[bi].dynamic_jump == bs_linked[bi].dynamic_jump);
                assert(bs_linked[bi].dynamic_jump == dyn_expected(p, bs_mid[bi]));
                assert(jump_target(p, bs_mid[bi]) == jump_target(p, bs_fin[bi]));
                assert(instrs_in_range(p, bs_mid[bi].start, bs_mid[bi].end) == instrs_in_range(
                    p,
                    bs_fin[bi].start,
                    bs_fin[bi].end,
                ));
            }
            assert forall|bi: int| 0 <= bi < bs_fin.len() implies (
            #[trigger] bs_fin[bi]).gas_price == gas_sum(p, bs_fin[bi].start, bs_fin[bi].end) by {
                assert(bs_fin[bi].gas_price == bs_mid[bi].gas_price);
            }
            lemma_resolve_marks_stable(p, bs_linked, bs_fin, resolver_init(), 500000);
            assert forall|k: int| 0 <= k < bs_fin.len() implies (
            #[trigger] bs_fin[k]).exit_stack == bs_mid[k].exit_stack by {}
            if d.blocks.len() == 0 {
                assert(bs_fin.len() == 1);
                assert(bs_fin[0].start == 0 && bs_fin[0].end == 0);
                assert(bs_fin[0].exit_stack == Seq::<ExprV>::empty());
                assert(bs_fin[0].gas_price == 0);
            } else {
                assert(bs_mid == d.blocks);
                assert forall|bi: int| 0 <= bi < bs_fin.len() implies #[trigger] bs_fin[bi] == (
                BlockV {
                    exits: bs_fin[bi].exits,
                    entries: bs_fin[bi].entries,
                    dynamic_jump: bs_fin[bi].dynamic_jump,
                    reachable: bs_fin[bi].reachable,
                    ..d.blocks[bi]
                }) by {
                    assert(bs_mid[bi] == d.blocks[bi]);
                }
            }
            assert forall|bi: int| 0 <= bi < bs_fin.len() implies (
            #[trigger] bs_fin[bi]).reachable == resolver_visits(p, bs_fin).contains(bi) by {
                assert(bs_fin[bi].reachable == (bs_linked[bi].reachable || resolver_visits(
                    p,
                    bs_linked,
                ).contains(bi)));
                assert(!bs_linked[bi].reachable);
            }
            if bytes.len() == 0 {
                assert(decoded_offsets(bytes, 0) =~= Seq::<nat>::empty());
                assert(rtn.instrs().len() == 0);
            }
        }
        rtn
    }

    /// Analyzes a byte sequence when the gas table covers it and it fits the
    /// machine; `None` exactly when it does not.
    pub fn try_new(byte_code: ByteCode) -> (r: Option<Program>)
        ensures
            match r {
                Some(p) => p.byte_code@ == byte_code@ && analyzed(p, byte_code@),
                None => !spec_supported(byte_code@),
            },
    {
        if check_supported(&byte_code) {
            Some(Program::new(byte_code))
        } else {
            None
        }
    }
}

/// The view of a query's result list.
pub open spec fn results_view(v: Seq<(usize, QueryResult)>) -> Seq<
    (nat, Seq<(Seq<char>, OpTreeV)>),
> {
    Seq::new(v.len(), |i: int| (v[i].0 as nat, crate::expression::bindings_view(v[i].1@)))
}

/// The matches a pattern finds over the first `i` stored trees: for every
/// tree the pattern matches, the instruction's offset with the bindings.
pub open spec fn query_results_upto(
    p: Seq<InstrV>,
    trees: Seq<OpTreeV>,
    pat: OpTreeV,
    i: int,
) -> Seq<(nat, Seq<(Seq<char>, OpTreeV)>)>
    decreases i,
{
    if i <= 0 || i > trees.len() || trees.len() != p.len() {
        Seq::empty()
    } else {
        query_results_upto(p, trees, pat, i - 1) + (match match_bindings(trees[i - 1], pat) {
            Some(b) => seq![(p[i - 1].offset, b)],
            None => Seq::<(nat, Seq<(Seq<char>, OpTreeV)>)>::empty(),
        })
    }
}

/// The matches a pattern finds over all stored trees, in offset order.
pub open spec fn spec_query_results(p: Seq<InstrV>, trees: Seq<OpTreeV>, pat: OpTreeV) -> Seq<
    (nat, Seq<(Seq<char>, OpTreeV)>),
> {
    query_results_upto(p, trees, pat, trees.len() as int)
}

impl Program {
    /// Runs a structural query against every stored operation tree: each
    /// instruction offset whose tree the pattern matches, with the wildcard
    /// bindings of the match, in offset order.
    pub fn query(&self, query: &OpTree) -> (r: Vec<(usize, QueryResult)>)
        requires
            trees_match(self.op_trees.deep_view(), self.instrs()),
            self.instructions@.len() == self.op_trees@.len(),
        ensures
            results_view(r@) == spec_query_results(
                self.instrs(),
                self.op_trees.deep_view(),
                query@,
            ),
    {
        let ghost p = self.instrs();
        let ghost trees = self.op_trees.deep_view();
        let mut r: Vec<(usize, QueryResult)> = Vec::new();
        let n = self.op_trees.len();
        let mut i: usize = 0;
        proof {
            lemma_dv(&self.op_trees);
            lemma_dv(&self.instructions);
            reveal(trees_match);
            assert(results_view(r@) =~= Seq::<(nat, Seq<(Seq<char>, OpTreeV)>)>::empty());
        }
        while i < n
            invariant
                0 <= i <= n,
                n == trees.len(),
                p == self.instrs(),
                trees == self.op_trees.deep_view(),
                trees.len() == p.len(),
                n == self.op_trees@.len(),
                n == self.instructions@.len(),
                trees_match(trees, p),
                results_view(r@) == query_results_upto(p, trees, query@, i as int),
            decreases n - i,
        {
            let ghost r_pre = r@;
            proof {
                lemma_dv(&self.op_trees);
                lemma_dv(&self.instructions);
                reveal(trees_match);
                assert(trees[i as int] == expand_of(p, p[i as int]));
                lemma_expand_of_no_query(p, p[i as int]);
                assert(self.op_trees@[i as int]@ == trees[i as int]);
            }
            let ans = self.op_trees[i].query(query);
            match ans {
                Some(bindings) => {
                    let off = self.instructions[i].offset;
                    proof {
                        assert(self.instructions@[i as int]@.offset == p[i as int].offset);
                    }
                    r.push((off, bindings));
                    proof {
                        assert forall|k: int| 0 <= k < r@.len() implies results_view(r@)[k] == (
                        if k < r_pre.len() {
                            results_view(r_pre)[k]
                        } else {
                            query_results_upto(p, trees, query@, i + 1)[k]
                        }) by {
                            if k < r_pre.len() {
                                assert(r@[k] == r_pre[k]);
                            }
                        }
                        assert(results_view(r@) =~= query_results_upto(p, trees, query@, i + 1));
                    }
                },
                None => {
                    proof {
                        assert(results_view(r@) =~= query_results_upto(p, trees, query@, i + 1));
                    }
                },
            }
            i = i + 1;
        }
        r
    }
}

} // verus!
