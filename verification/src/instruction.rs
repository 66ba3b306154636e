//! Decoded instructions and the symbolic stack interpreter: popping declared
//! arguments (synthesizing free arguments on underflow), computing each
//! instruction's outputs, and deriving branch successors.
use vstd::prelude::*;

use crate::bignum::be_val;
use crate::expression::Expression;
use crate::expression::ExprV;
use crate::expression::make_constant;
use crate::op_codes;
use crate::op_codes::op_args;
use crate::op_codes::op_ret;
use crate::op_codes::fold_val;
use crate::op_codes::spec_fold_safe;

verus! {

/// The working stack of symbolic values.
pub type EvmStack = Vec<Expression>;

pub type InstructionInputs = EvmStack;

pub type InstructionOutputs = EvmStack;

/// One decoded instruction: its byte offset, opcode, immediate data, and the
/// symbolic values it consumed and produced.
#[derive(Debug)]
pub struct Instruction {
    pub offset: usize,
    pub op_code: u8,
    pub data: Vec<u8>,
    pub inputs: InstructionInputs,
    pub outputs: InstructionOutputs,
}

/// The mathematical form of an instruction.
pub ghost struct InstrV {
    pub offset: nat,
    pub op_code: u8,
    pub data: Seq<u8>,
    pub inputs: Seq<ExprV>,
    pub outputs: Seq<ExprV>,
}

impl View for Instruction {
    type V = InstrV;

    open spec fn view(&self) -> InstrV {
        InstrV {
            offset: self.offset as nat,
            op_code: self.op_code,
            data: self.data@,
            inputs: self.inputs.deep_view(),
            outputs: self.outputs.deep_view(),
        }
    }
}

impl DeepView for Instruction {
    type V = InstrV;

    open spec fn deep_view(&self) -> InstrV {
        self.view()
    }
}

/// A copy of a stack of symbolic values, equal in view.
pub fn clone_stack(v: &EvmStack) -> (r: EvmStack)
    ensures
        r.deep_view() == v.deep_view(),
{
    let mut r: EvmStack = Vec::new();
    let n = v.len();
    let mut i: usize = 0;
    while i < n
        invariant
            0 <= i <= n,
            n == v@.len(),
            r@.len() == i,
            forall|j: int| 0 <= j < i ==> r@[j]@ == v@[j]@,
        decreases n - i,
    {
        let e = v[i].clone();
        r.push(e);
        i = i + 1;
    }
    proof {
        crate::expression::lemma_dv(v);
        crate::expression::lemma_dv(&r);
        assert(r.deep_view() =~= v.deep_view());
    }
    r
}

impl Clone for Instruction {
    fn clone(&self) -> (r: Self)
        ensures
            r@ == self@,
    {
        let data = self.data.clone();
        let inputs = clone_stack(&self.inputs);
        let outputs = clone_stack(&self.outputs);
        proof {
            assert(data@ =~= self.data@);
        }
        Instruction { offset: self.offset, op_code: self.op_code, data, inputs, outputs }
    }
}

/// A branch condition on a control edge: unconditional, the given symbolic
/// value being nonzero, or its negation.
#[derive(Debug)]
pub enum BranchCond {
    Always,
    If(Expression),
    IfNot(Expression),
}

/// The mathematical form of a branch condition.
pub ghost enum CondV {
    Always,
    If(ExprV),
    IfNot(ExprV),
}

impl View for BranchCond {
    type V = CondV;

    open spec fn view(&self) -> CondV {
        match self {
            BranchCond::Always => CondV::Always,
            BranchCond::If(e) => CondV::If(e@),
            BranchCond::IfNot(e) => CondV::IfNot(e@),
        }
    }
}

impl DeepView for BranchCond {
    type V = CondV;

    open spec fn deep_view(&self) -> CondV {
        self.view()
    }
}

/// The fault that stops path exploration at an indirect jump: the engine
/// cannot reason about a jump whose target is not a compile-time constant,
/// or one that lies outside the addressable range.
#[derive(Clone, Copy, PartialEq, Eq, Structural, Debug)]
pub enum JumpFault {
    NonConstantTarget,
    TargetOutOfRange,
}

/// Popping `n` declared arguments off the stack with `argc` free arguments
/// already synthesized: the arguments (topmost first, missing ones fresh free
/// arguments), the remaining stack, and the new free-argument counter.
pub open spec fn pop_inputs(stack: Seq<ExprV>, n: nat, argc: nat) -> (Seq<ExprV>, Seq<ExprV>, nat) {
    let k = if n <= stack.len() {
        n
    } else {
        stack.len()
    };
    (
        Seq::new(
            n as nat,
            |i: int|
                if i < k {
                    stack[stack.len() - 1 - i]
                } else {
                    ExprV::Argument((argc + i - k) as nat)
                },
        ),
        stack.take((stack.len() - k) as int),
        (argc + n - k) as nat,
    )
}

/// True when every input is a constant.
pub open spec fn all_constant(inputs: Seq<ExprV>) -> bool {
    forall|i: int| 0 <= i < inputs.len() ==> inputs[i] is Constant
}

/// The constants' values.
pub open spec fn constant_vals(inputs: Seq<ExprV>) -> Seq<int> {
    Seq::new(inputs.len(), |i: int| inputs[i]->Constant_0)
}

/// The outputs an instruction produces from its popped inputs: a push yields
/// the constant read big-endian from its immediate data; swap exchanges the
/// top with its position; dup puts a copy of its position on top; an operator
/// over all-constant inputs folds to the exact constant where folding is
/// defined; anything else yields nothing or one opaque result.
pub open spec fn outputs_of(op: u8, offset: nat, data: Seq<u8>, inputs: Seq<ExprV>) -> Seq<ExprV> {
    if op_codes::spec_is_push(op) {
        seq![ExprV::Constant(be_val(data) as int)]
    } else if op_codes::spec_is_swap(op) {
        let p = (op - op_codes::SWAP1 + 1) as int;
        inputs.update(0, inputs[p]).update(p, inputs[0])
    } else if op_codes::spec_is_dup(op) {
        seq![inputs[(op - op_codes::DUP1) as int]] + inputs
    } else if op_codes::spec_is_arithmetic(op) && all_constant(inputs) && spec_fold_safe(
        op,
        constant_vals(inputs),
    ) {
        seq![ExprV::Constant(fold_val(op, constant_vals(inputs)))]
    } else if op_ret(op) == 0 {
        Seq::empty()
    } else {
        seq![ExprV::ResultOf(offset)]
    }
}

/// The stack after an instruction runs on it: the declared arguments popped
/// and the outputs pushed back, topmost output last.
pub open spec fn stack_after(
    op: u8,
    offset: nat,
    data: Seq<u8>,
    stack: Seq<ExprV>,
    argc: nat,
) -> Seq<ExprV> {
    let popped = pop_inputs(stack, op_args(op), argc);
    popped.1 + outputs_of(op, offset, data, popped.0).reverse()
}

/// The successors an instruction hands control to, each with its branch
/// condition: none after a terminator; for a jump the constant target, and
/// for a conditional jump with a non-constant guard both the target and the
/// fallthrough under the guard's negation; the next offset otherwise. `None`
/// when a jump's target is not a constant in the addressable range.
pub open spec fn successors_of(op: u8, offset: nat, inputs: Seq<ExprV>) -> Option<
    Seq<(CondV, nat)>,
> {
    if op_codes::spec_is_stop(op) {
        Some(Seq::empty())
    } else if op_codes::spec_is_jump(op) {
        match inputs[0] {
            ExprV::Constant(t) => if 0 <= t <= usize::MAX {
                if op == op_codes::JUMP {
                    Some(seq![(CondV::Always, t as nat)])
                } else {
                    match inputs[1] {
                        ExprV::Constant(c) => Some(
                            seq![
                                (
                                    CondV::Always,
                                    if c != 0 {
                                        t as nat
                                    } else {
                                        (offset + 1) as nat
                                    },
                                ),
                            ],
                        ),
                        _ => Some(
                            seq![
                                (CondV::If(inputs[1]), t as nat),
                                (CondV::IfNot(inputs[1]), (offset + 1) as nat),
                            ],
                        ),
                    }
                }
            } else {
                None
            },
            _ => None,
        }
    } else {
        Some(seq![(CondV::Always, (offset + 1) as nat)])
    }
}

/// The view of a successor list.
pub open spec fn succ_view(v: Seq<(BranchCond, usize)>) -> Seq<(CondV, nat)> {
    Seq::new(v.len(), |i: int| (v[i].0@, v[i].1 as nat))
}

/// Every output row is at most one longer than the declared argument count.
pub proof fn lemma_outputs_len(op: u8, offset: nat, data: Seq<u8>, inputs: Seq<ExprV>)
    requires
        inputs.len() == op_args(op),
    ensures
        outputs_of(op, offset, data, inputs).len() <= op_args(op) + 1,
        outputs_of(op, offset, data, inputs).len() <= 18,
{
}

/// An instruction never grows the stack by more than one plus its argument
/// count.
pub proof fn lemma_stack_after_len(op: u8, offset: nat, data: Seq<u8>, stack: Seq<ExprV>, argc: nat)
    ensures
        stack_after(op, offset, data, stack, argc).len() <= stack.len() + 18,
{
    let popped = pop_inputs(stack, op_args(op), argc);
    assert(popped.0.len() == op_args(op));
    lemma_outputs_len(op, offset, data, popped.0);
    assert(popped.1.len() <= stack.len());
}

impl Instruction {
    /// Pops this opcode's declared arguments off the stack, synthesizing a
    /// fresh free argument for each pop past the bottom.
    fn extract_inputs(op_code: u8, stack: &mut EvmStack, arg_count: &mut usize) -> (inputs:
        InstructionInputs)
        requires
            *old(arg_count) <= usize::MAX - 17,
        ensures
            ({
                let popped = pop_inputs(
                    old(stack).deep_view(),
                    op_args(op_code),
                    *old(arg_count) as nat,
                );
                &&& inputs.deep_view() == popped.0
                &&& final(stack).deep_view() == popped.1
                &&& *final(arg_count) == popped.2
            }),
    {
        let ghost orig = stack.deep_view();
        let ghost orig_argc = *arg_count as nat;
        let ghost popped = pop_inputs(orig, op_args(op_code), orig_argc);
        let n = op_code_args(op_code);
        let mut inputs: InstructionInputs = Vec::new();
        let mut j: usize = 0;
        while j < n
            invariant
                0 <= j <= n,
                n == op_args(op_code),
                orig_argc <= usize::MAX - 17,
                popped == pop_inputs(orig, op_args(op_code), orig_argc),
                inputs.deep_view().len() == j,
                forall|i: int| 0 <= i < j ==> inputs.deep_view()[i] == popped.0[i],
                // the part of the incoming stack still unread
                stack.deep_view() == orig.take(
                    orig.len() - (if j <= orig.len() {
                        j as int
                    } else {
                        orig.len() as int
                    }),
                ),
                *arg_count as nat == orig_argc + (if j <= orig.len() {
                    0int
                } else {
                    j - orig.len()
                }),
            decreases n - j,
        {
            let ghost pre_view = stack.deep_view();
            let ghost pre_at = stack@;
            let ghost ins_pre = inputs.deep_view();
            proof {
                crate::expression::lemma_dv(stack);
                crate::expression::lemma_dv(&inputs);
            }
            let entry = stack.pop();
            proof {
                crate::expression::lemma_dv(stack);
            }
            match entry {
                Some(e) => {
                    proof {
                        let k: int = j as int;
                        assert(pre_at.len() == pre_view.len());
                        assert(orig.len() > k);
                        assert(pre_view.last() == orig[orig.len() - 1 - k]);
                        assert(e.deep_view() == pre_at[pre_at.len() - 1].deep_view());
                        assert(e@ == popped.0[k]);
                        assert forall|i2: int| 0 <= i2 < stack@.len() implies stack.deep_view()[i2]
                            == orig[i2] by {
                            assert(stack@[i2] == pre_at[i2]);
                            assert(pre_at[i2].deep_view() == pre_view[i2]);
                        }
                        assert(stack.deep_view() =~= orig.take(orig.len() - (k + 1)));
                    }
                    inputs.push(e);
                },
                None => {
                    proof {
                        assert(pre_at.len() == 0);
                        assert(pre_view.len() == 0);
                        assert(j >= orig.len());
                        assert(popped.0[j as int] == ExprV::Argument(
                            (orig_argc + j - orig.len()) as nat,
                        ));
                        assert(stack.deep_view() =~= pre_view);
                    }
                    inputs.push(Expression::Argument(*arg_count));
                    *arg_count = *arg_count + 1;
                },
            }
            proof {
                crate::expression::lemma_dv(&inputs);
                assert forall|i2: int| 0 <= i2 < inputs@.len() implies inputs.deep_view()[i2] == (
                if i2 < j {
                    ins_pre[i2]
                } else {
                    popped.0[i2]
                }) by {
                    if i2 < j {
                        assert(inputs@[i2].deep_view() == ins_pre[i2]);
                    }
                }
            }
            j = j + 1;
        }
        proof {
            assert(inputs.deep_view() =~= popped.0);
            assert(stack.deep_view() =~= popped.1);
        }
        inputs
    }

    /// Returns true if this instruction transfers control.
    pub fn is_jump(&self) -> (r: bool)
        ensures
            r == op_codes::spec_is_jump(self.op_code),
    {
        op_codes::is_jump(self.op_code)
    }

    /// Returns true if this instruction halts execution.
    pub fn is_stop(&self) -> (r: bool)
        ensures
            r == op_codes::spec_is_stop(self.op_code),
    {
        op_codes::is_stop(self.op_code)
    }

    /// Computes the outputs this instruction produces from the given popped
    /// inputs: a pure function of the opcode, immediate data and inputs.
    pub fn solve_outputs_for_inputs(&self, inputs: &InstructionInputs) -> (r: InstructionOutputs)
        requires
            inputs.deep_view().len() == op_args(self.op_code),
        ensures
            r.deep_view() == outputs_of(
                self.op_code,
                self.offset as nat,
                self.data@,
                inputs.deep_view(),
            ),
    {
        let op = self.op_code;
        let ghost ins = inputs.deep_view();
        if op_codes::is_push(op) {
            let mut r: InstructionOutputs = Vec::new();
            r.push(make_constant(self.data.as_slice()));
            proof {
                assert(r.deep_view() =~= outputs_of(op, self.offset as nat, self.data@, ins));
            }
            r
        } else if op >= op_codes::SWAP1 && op <= op_codes::SWAP16 {
            let p = op_codes::get_swap_position(op);
            let n = inputs.len();
            let mut r: InstructionOutputs = Vec::new();
            let mut j: usize = 0;
            while j < n
                invariant
                    0 <= j <= n,
                    1 <= p < n,
                    n == ins.len(),
                    ins == inputs.deep_view(),
                    r.deep_view().len() == j,
                    forall|i: int|
                        0 <= i < j ==> r.deep_view()[i] == (if i == 0 {
                            ins[p as int]
                        } else if i == p {
                            ins[0]
                        } else {
                            ins[i]
                        }),
                decreases n - j,
            {
                let src: usize = if j == 0 {
                    p
                } else if j == p {
                    0
                } else {
                    j
                };
                let ghost r_pre = r.deep_view();
                proof {
                    crate::expression::lemma_dv(inputs);
                    crate::expression::lemma_dv(&r);
                }
                let e = inputs[src].clone();
                proof {
                    assert(e@ == ins[src as int]);
                }
                r.push(e);
                proof {
                    crate::expression::lemma_dv(&r);
                    assert forall|i2: int| 0 <= i2 < r@.len() implies r.deep_view()[i2] == (
                    if i2 < j {
                        r_pre[i2]
                    } else {
                        ins[src as int]
                    }) by {
                        if i2 < j {
                            assert(r@[i2].deep_view() == r_pre[i2]);
                        }
                    }
                }
                j = j + 1;
            }
            proof {
                assert(r.deep_view() =~= ins.update(0, ins[p as int]).update(p as int, ins[0]));
            }
            r
        } else if op >= op_codes::DUP1 && op <= op_codes::DUP16 {
            let p = op_codes::get_dup_position(op);
            let n = inputs.len();
            let mut r: InstructionOutputs = Vec::new();
            proof {
                crate::expression::lemma_dv(inputs);
            }
            let e0 = inputs[p].clone();
            r.push(e0);
            proof {
                crate::expression::lemma_dv(&r);
            }
            let mut j: usize = 0;
            while j < n
                invariant
                    0 <= j <= n,
                    0 <= p < n,
                    n == ins.len(),
                    ins == inputs.deep_view(),
                    r.deep_view().len() == j + 1,
                    r.deep_view()[0] == ins[p as int],
                    forall|i: int| 0 <= i < j ==> r.deep_view()[i + 1] == ins[i],
                decreases n - j,
            {
                let ghost r_pre = r.deep_view();
                proof {
                    crate::expression::lemma_dv(inputs);
                    crate::expression::lemma_dv(&r);
                }
                let e = inputs[j].clone();
                proof {
                    assert(e@ == ins[j as int]);
                }
                r.push(e);
                proof {
                    crate::expression::lemma_dv(&r);
                    assert forall|i2: int| 0 <= i2 < r@.len() implies r.deep_view()[i2] == (
                    if i2 < j + 1 {
                        r_pre[i2]
                    } else {
                        ins[j as int]
                    }) by {
                        if i2 < j + 1 {
                            assert(r@[i2].deep_view() == r_pre[i2]);
                        }
                    }
                }
                j = j + 1;
            }
            proof {
                assert(r.deep_view() =~= seq![ins[p as int]] + ins);
            }
            r
        } else {
            if op_codes::is_arithmetic(op) {
                let n = inputs.len();
                let mut vals: Vec<crate::bignum::BigNum> = Vec::new();
                let mut all_const = true;
                let mut j: usize = 0;
                while j < n
                    invariant
                        0 <= j <= n,
                        n == ins.len(),
                        ins == inputs.deep_view(),
                        all_const ==> vals.deep_view().len() == j,
                        all_const ==> forall|i: int| 0 <= i < j ==> ins[i] is Constant,
                        all_const ==> forall|i: int|
                            0 <= i < j ==> vals.deep_view()[i] == ins[i]->Constant_0,
                        !all_const ==> !all_constant(ins),
                    decreases n - j,
                {
                    let ghost vals_pre = vals.deep_view();
                    proof {
                        crate::expression::lemma_dv(inputs);
                        crate::expression::lemma_dv(&vals);
                    }
                    match &inputs[j] {
                        Expression::Constant(v) => if all_const {
                            let c = v.clone();
                            vals.push(c);
                            proof {
                                crate::expression::lemma_dv(&vals);
                                assert(ins[j as int] == inputs@[j as int].deep_view());
                                assert forall|i2: int| 0 <= i2 < vals@.len() implies
                                    vals.deep_view()[i2] == (if i2 < j {
                                    vals_pre[i2]
                                } else {
                                    ins[j as int]->Constant_0
                                }) by {
                                    if i2 < j {
                                        assert(vals@[i2].deep_view() == vals_pre[i2]);
                                    }
                                }
                            }
                        },
                        _ => {
                            proof {
                                assert(ins[j as int] == inputs@[j as int].deep_view());
                                assert(!(ins[j as int] is Constant));
                            }
                            all_const = false;
                        },
                    }
                    j = j + 1;
                }
                if all_const {
                    proof {
                        assert(all_constant(ins));
                        assert(vals.deep_view() =~= constant_vals(ins));
                    }
                    if fold_safe(op, &vals) {
                        let folded = op_codes::solve(op, &vals);
                        let mut r: InstructionOutputs = Vec::new();
                        r.push(Expression::Constant(folded));
                        proof {
                            assert(r.deep_view() =~= outputs_of(
                                op,
                                self.offset as nat,
                                self.data@,
                                ins,
                            ));
                        }
                        return r;
                    }
                }
                self.opaque_outputs(Ghost(ins))
            } else {
                self.opaque_outputs(Ghost(ins))
            }
        }
    }

    /// The outputs of an instruction that is not folded: nothing when the
    /// opcode returns nothing, else one opaque reference to this offset.
    fn opaque_outputs(&self, ins: Ghost<Seq<ExprV>>) -> (r: InstructionOutputs)
        requires
            ins@.len() == op_args(self.op_code),
            !op_codes::spec_is_push(self.op_code),
            !op_codes::spec_is_swap(self.op_code),
            !op_codes::spec_is_dup(self.op_code),
            !(op_codes::spec_is_arithmetic(self.op_code) && all_constant(ins@) && spec_fold_safe(
                self.op_code,
                constant_vals(ins@),
            )),
        ensures
            r.deep_view() == outputs_of(self.op_code, self.offset as nat, self.data@, ins@),
    {
        let info = op_codes::op_code_info(self.op_code);
        if info.ret == 0 {
            let r: InstructionOutputs = Vec::new();
            proof {
                assert(r.deep_view() =~= Seq::<ExprV>::empty());
            }
            r
        } else {
            let mut r: InstructionOutputs = Vec::new();
            r.push(Expression::ResultOf(self.offset));
            proof {
                assert(r.deep_view() =~= seq![ExprV::ResultOf(self.offset as nat)]);
            }
            r
        }
    }

    /// Computes and stores this instruction's outputs from its own inputs.
    fn solve_outputs(&mut self)
        requires
            old(self).inputs.deep_view().len() == op_args(old(self).op_code),
        ensures
            final(self).outputs.deep_view() == outputs_of(
                old(self).op_code,
                old(self).offset as nat,
                old(self).data@,
                old(self).inputs.deep_view(),
            ),
            final(self).offset == old(self).offset,
            final(self).op_code == old(self).op_code,
            final(self).data == old(self).data,
            final(self).inputs == old(self).inputs,
    {
        let outputs = self.solve_outputs_for_inputs(&self.inputs);
        self.outputs = outputs;
    }

    /// Decodes one instruction: pops its declared arguments off the running
    /// stack (synthesizing free arguments on underflow), computes its outputs
    /// and pushes them back, topmost first.
    pub fn new(
        offset: usize,
        op_code: u8,
        data: &[u8],
        arg_count: &mut usize,
        stack: &mut EvmStack,
    ) -> (r: Self)
        requires
            *old(arg_count) <= usize::MAX - 17,
            old(stack).deep_view().len() <= usize::MAX - 18,
        ensures
            ({
                let popped = pop_inputs(
                    old(stack).deep_view(),
                    op_args(op_code),
                    *old(arg_count) as nat,
                );
                &&& r.offset == offset
                &&& r.op_code == op_code
                &&& r.data@ == data@
                &&& r.inputs.deep_view() == popped.0
                &&& r.outputs.deep_view() == outputs_of(op_code, offset as nat, data@, popped.0)
                &&& *final(arg_count) == popped.2
                &&& final(stack).deep_view() == stack_after(
                    op_code,
                    offset as nat,
                    data@,
                    old(stack).deep_view(),
                    *old(arg_count) as nat,
                )
            }),
    {
        let inputs = Instruction::extract_inputs(op_code, stack, arg_count);
        let mut instr = Instruction {
            offset,
            op_code,
            data: vstd::slice::slice_to_vec(data),
            inputs,
            outputs: Vec::new(),
        };
        instr.solve_outputs();
        let ghost outs = instr.outputs.deep_view();
        let ghost mid = stack.deep_view();
        let mut idx = instr.outputs.len();
        while idx > 0
            invariant
                0 <= idx <= outs.len(),
                outs == instr.outputs.deep_view(),
                stack.deep_view() == mid + outs.reverse().take(outs.len() - idx),
            decreases idx,
        {
            idx = idx - 1;
            let ghost st_pre = stack.deep_view();
            proof {
                crate::expression::lemma_dv(&instr.outputs);
                crate::expression::lemma_dv(stack);
            }
            let e = instr.outputs[idx].clone();
            proof {
                assert(e@ == outs[idx as int]);
            }
            stack.push(e);
            proof {
                crate::expression::lemma_dv(stack);
                assert forall|i2: int| 0 <= i2 < stack@.len() implies stack.deep_view()[i2] == (
                if i2 < st_pre.len() {
                    st_pre[i2]
                } else {
                    outs[idx as int]
                }) by {
                    if i2 < st_pre.len() {
                        assert(stack@[i2].deep_view() == st_pre[i2]);
                    }
                }
                assert(outs.reverse()[outs.len() - 1 - idx] == outs[idx as int]);
                assert(stack.deep_view() =~= mid + outs.reverse().take(outs.len() - idx));
            }
        }
        proof {
            assert(mid + outs.reverse().take(outs.len() as int) =~= mid + outs.reverse());
            assert(stack.deep_view() == mid + outs.reverse());
        }
        instr
    }

    /// Re-applies this instruction to the given stack, with a fresh
    /// free-argument counter.
    pub fn applied_stack(&self, stack: &mut EvmStack) -> (r: Self)
        requires
            old(stack).deep_view().len() <= usize::MAX - 18,
        ensures
            ({
                let popped = pop_inputs(old(stack).deep_view(), op_args(self.op_code), 0);
                &&& r.offset == self.offset
                &&& r.op_code == self.op_code
                &&& r.data@ == self.data@
                &&& r.inputs.deep_view() == popped.0
                &&& r.outputs.deep_view() == outputs_of(
                    self.op_code,
                    self.offset as nat,
                    self.data@,
                    popped.0,
                )
                &&& final(stack).deep_view() == stack_after(
                    self.op_code,
                    self.offset as nat,
                    self.data@,
                    old(stack).deep_view(),
                    0,
                )
            }),
    {
        let mut arg_count: usize = 0;
        Instruction::new(self.offset, self.op_code, self.data.as_slice(), &mut arg_count, stack)
    }

    /// Decodes the instruction at `*in_offset`, reading its immediate data
    /// bytes (clamped at the end of the byte sequence) and advancing the
    /// offset past them.
    pub fn from_stack(
        in_offset: &mut usize,
        byte_code: &[u8],
        stack: &mut EvmStack,
        arg_count: &mut usize,
    ) -> (r: Self)
        requires
            *old(in_offset) < byte_code@.len(),
            byte_code@.len() <= usize::MAX - 33,
            *old(arg_count) <= usize::MAX - 17,
            old(stack).deep_view().len() <= usize::MAX - 18,
        ensures
            ({
                let off = *old(in_offset);
                let op = byte_code@[off as int];
                let pb = op_codes::spec_push_bytes(op);
                let stop = if off + 1 + pb <= byte_code@.len() {
                    off + 1 + pb
                } else {
                    byte_code@.len() as int
                };
                let dat = byte_code@.subrange(off + 1, stop as int);
                let popped = pop_inputs(
                    old(stack).deep_view(),
                    op_args(op),
                    *old(arg_count) as nat,
                );
                &&& *final(in_offset) == off + 1 + pb
                &&& r.offset == off
                &&& r.op_code == op
                &&& r.data@ == dat
                &&& r.inputs.deep_view() == popped.0
                &&& r.outputs.deep_view() == outputs_of(op, off as nat, dat, popped.0)
                &&& *final(arg_count) == popped.2
                &&& final(stack).deep_view() == stack_after(
                    op,
                    off as nat,
                    dat,
                    old(stack).deep_view(),
                    *old(arg_count) as nat,
                )
            }),
    {
        let offset: usize = *in_offset;
        let op_code = byte_code[offset];
        let mut data: Vec<u8> = Vec::new();
        *in_offset = *in_offset + 1;
        let pb = op_codes::push_bytes(op_code);
        let mut j: usize = 0;
        while j < pb
            invariant
                0 <= j <= pb,
                pb == op_codes::spec_push_bytes(op_code),
                offset + 1 + pb <= usize::MAX,
                byte_code@.len() <= usize::MAX - 33,
                offset + 1 <= byte_code@.len(),
                *in_offset == offset + 1 + j,
                data@ == byte_code@.subrange(
                    offset + 1,
                    if offset + 1 + j <= byte_code@.len() {
                        offset + 1 + j
                    } else {
                        byte_code@.len() as int
                    },
                ),
            decreases pb - j,
        {
            if *in_offset < byte_code.len() {
                let b = byte_code[*in_offset];
                data.push(b);
                proof {
                    assert(data@ =~= byte_code@.subrange(offset + 1, offset + 1 + j + 1));
                }
            } else {
                proof {
                    assert(data@ =~= byte_code@.subrange(offset + 1, byte_code@.len() as int));
                }
            }
            *in_offset = *in_offset + 1;
            j = j + 1;
        }
        Instruction::new(offset, op_code, data.as_slice(), arg_count, stack)
    }

    /// Applies this instruction to the given path stack and returns its
    /// successor offsets with their branch conditions; the fault when this is
    /// a jump whose target did not resolve to an addressable constant.
    pub fn iterate_stack(&self, stack: &mut EvmStack) -> (r: Result<
        Vec<(BranchCond, usize)>,
        JumpFault,
    >)
        requires
            old(stack).deep_view().len() <= usize::MAX - 18,
            self.offset < usize::MAX,
        ensures
            final(stack).deep_view() == stack_after(
                self.op_code,
                self.offset as nat,
                self.data@,
                old(stack).deep_view(),
                0,
            ),
            ({
                let popped = pop_inputs(old(stack).deep_view(), op_args(self.op_code), 0);
                let succ = successors_of(self.op_code, self.offset as nat, popped.0);
                match r {
                    Ok(v) => succ == Some(succ_view(v@)),
                    Err(_) => succ is None,
                }
            }),
    {
        let applied = self.applied_stack(stack);
        let ghost ins = applied.inputs.deep_view();
        proof {
            crate::expression::lemma_dv(&applied.inputs);
        }
        if self.is_stop() {
            let v: Vec<(BranchCond, usize)> = Vec::new();
            proof {
                assert(succ_view(v@) =~= Seq::<(CondV, nat)>::empty());
            }
            Ok(v)
        } else if self.is_jump() {
            let target: Option<usize> = match &applied.inputs[0] {
                Expression::Constant(t) => t.to_usize(),
                _ => None,
            };
            match target {
                None => {
                    match &applied.inputs[0] {
                        Expression::Constant(_) => Err(JumpFault::TargetOutOfRange),
                        _ => Err(JumpFault::NonConstantTarget),
                    }
                },
                Some(does_branch) => {
                    let doesnt_branch = self.offset + 1;
                    if self.op_code == op_codes::JUMPI {
                        let cond_const: Option<bool> = match &applied.inputs[1] {
                            Expression::Constant(c) => Some(!c.is_zero()),
                            _ => None,
                        };
                        match cond_const {
                            Some(b) => {
                                let mut v: Vec<(BranchCond, usize)> = Vec::new();
                                v.push(
                                    (
                                        BranchCond::Always,
                                        if b {
                                            does_branch
                                        } else {
                                            doesnt_branch
                                        },
                                    ),
                                );
                                proof {
                                    assert(succ_view(v@) =~= successors_of(
                                        self.op_code,
                                        self.offset as nat,
                                        ins,
                                    ).unwrap());
                                }
                                Ok(v)
                            },
                            None => {
                                let cond = applied.inputs[1].clone();
                                let cond2 = applied.inputs[1].clone();
                                let mut v: Vec<(BranchCond, usize)> = Vec::new();
                                v.push((BranchCond::If(cond), does_branch));
                                v.push((BranchCond::IfNot(cond2), doesnt_branch));
                                proof {
                                    assert(succ_view(v@) =~= successors_of(
                                        self.op_code,
                                        self.offset as nat,
                                        ins,
                                    ).unwrap());
                                }
                                Ok(v)
                            },
                        }
                    } else {
                        let mut v: Vec<(BranchCond, usize)> = Vec::new();
                        v.push((BranchCond::Always, does_branch));
                        proof {
                            assert(succ_view(v@) =~= successors_of(
                                self.op_code,
                                self.offset as nat,
                                ins,
                            ).unwrap());
                        }
                        Ok(v)
                    }
                },
            }
        } else {
            let mut v: Vec<(BranchCond, usize)> = Vec::new();
            v.push((BranchCond::Always, self.offset + 1));
            proof {
                assert(succ_view(v@) =~= seq![(CondV::Always, (self.offset + 1) as nat)]);
            }
            Ok(v)
        }
    }
}

/// The declared stack argument count of an opcode, as a machine integer.
fn op_code_args(op: u8) -> (r: usize)
    ensures
        r == op_args(op),
{
    op_codes::op_code_info(op).args
}

/// Whether folding the operator over the given constants is defined.
fn fold_safe(op: u8, vals: &Vec<crate::bignum::BigNum>) -> (r: bool)
    requires
        op_codes::spec_is_arithmetic(op),
        vals.deep_view().len() == op_args(op),
    ensures
        r == spec_fold_safe(op, vals.deep_view()),
{
    proof {
        assert(forall|i: int|
            0 <= i < vals@.len() ==> vals.deep_view()[i] == #[trigger] vals@[i]@);
    }
    if op == op_codes::EXP {
        let ok = vals[1].to_usize();
        ok.is_some()
    } else if op == op_codes::NOT {
        !vals[0].negative || vals[0].is_zero()
    } else if op == op_codes::AND || op == op_codes::OR || op == op_codes::XOR {
        (!vals[0].negative || vals[0].is_zero()) && (!vals[1].negative || vals[1].is_zero())
    } else {
        true
    }
}

} // verus!
