//! Basic blocks: contiguous instruction ranges with their exit stack, static
//! gas price, control edges (as start-offset references into the owning
//! program's block arena) and the flags the later passes fill in.
use vstd::prelude::*;

use crate::expression::ExprV;
use crate::instruction::EvmStack;

verus! {

/// One basic block: a half-open byte range, the abstract stack at its exit,
/// the start offsets of its predecessor and successor blocks, whether its
/// terminating jump target was not a compile-time constant, its static gas
/// price, and whether the resolver found it reachable.
#[derive(Debug)]
pub struct Block {
    pub start: usize,
    pub end: usize,
    pub exit_stack: EvmStack,
    pub entries: Vec<usize>,
    pub exits: Vec<usize>,
    pub dynamic_jump: bool,
    pub gas_price: usize,
    pub reachable: bool,
}

/// The mathematical form of a block.
pub ghost struct BlockV {
    pub start: nat,
    pub end: nat,
    pub exit_stack: Seq<ExprV>,
    pub entries: Seq<usize>,
    pub exits: Seq<usize>,
    pub dynamic_jump: bool,
    pub gas_price: nat,
    pub reachable: bool,
}

impl View for Block {
    type V = BlockV;

    open spec fn view(&self) -> BlockV {
        BlockV {
            start: self.start as nat,
            end: self.end as nat,
            exit_stack: self.exit_stack.deep_view(),
            entries: self.entries@,
            exits: self.exits@,
            dynamic_jump: self.dynamic_jump,
            gas_price: self.gas_price as nat,
            reachable: self.reachable,
        }
    }
}

impl DeepView for Block {
    type V = BlockV;

    open spec fn deep_view(&self) -> BlockV {
        self.view()
    }
}

impl Block {
    /// A fresh block over the given range with the given exit stack and gas
    /// price: no edges, not a dynamic jump, not yet reachable.
    pub fn new(start: usize, end: usize, exit_stack: EvmStack, gas_price: usize) -> (r: Self)
        ensures
            r@ == (BlockV {
                start: start as nat,
                end: end as nat,
                exit_stack: exit_stack.deep_view(),
                entries: Seq::<usize>::empty(),
                exits: Seq::<usize>::empty(),
                dynamic_jump: false,
                gas_price: gas_price as nat,
                reachable: false,
            }),
    {
        let r = Block {
            start,
            end,
            exit_stack,
            entries: Vec::new(),
            exits: Vec::new(),
            dynamic_jump: false,
            gas_price,
            reachable: false,
        };
        r
    }

    /// The start offsets of the blocks this block hands control to.
    pub fn exits(&self) -> (r: Vec<usize>)
        ensures
            r@ == self.exits@,
    {
        let r = self.exits.clone();
        proof {
            assert(r@ =~= self.exits@);
        }
        r
    }

    /// The start offsets of the blocks that hand control to this block.
    pub fn entries(&self) -> (r: Vec<usize>)
        ensures
            r@ == self.entries@,
    {
        let r = self.entries.clone();
        proof {
            assert(r@ =~= self.entries@);
        }
        r
    }
}

} // verus!
