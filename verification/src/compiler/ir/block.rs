//! Where captured values come from.
use vstd::prelude::*;

use crate::bytecode::UpvalueDesc;
use crate::compiler::ir::inst::{clone_inst, inst_is_terminator, same_inst, IrInst};
use crate::compiler::ir::types::{IrLabel, IrVar};
use crate::parser::Param;

verus! {

/// Where a captured value comes from, as seen by the function capturing it.
#[derive(Clone, Copy, Debug, PartialEq, Eq, Structural)]
pub enum UpvalSource {
    /// A register of the immediately enclosing function.
    ParentLocal(IrVar),
    /// An upvalue of the immediately enclosing function.
    ParentUpvalue,
    /// A variable further out, which the enclosing function captures first.
    Pending(IrVar),
}

/// A straight run of instructions with its edges in the control-flow graph.
#[derive(Debug, PartialEq)]
pub struct BasicBlock {
    pub label: IrLabel,
    pub instructions: Vec<IrInst>,
    pub predecessors: Vec<IrLabel>,
    pub successors: Vec<IrLabel>,
}

/// The index of the last terminator among `insts`, or -1.
pub open spec fn last_terminator(insts: Seq<IrInst>) -> int
    decreases insts.len(),
{
    if insts.len() == 0 {
        -1
    } else if inst_is_terminator(insts.last()) {
        insts.len() - 1
    } else {
        last_terminator(insts.drop_last())
    }
}

pub proof fn lemma_last_terminator(insts: Seq<IrInst>)
    ensures
        -1 <= last_terminator(insts) < insts.len(),
        last_terminator(insts) >= 0 ==> inst_is_terminator(insts[last_terminator(insts)]),
        forall|j: int| last_terminator(insts) < j < insts.len() ==> !inst_is_terminator(#[trigger] insts[j]),
    decreases insts.len(),
{
    if insts.len() > 0 && !inst_is_terminator(insts.last()) {
        lemma_last_terminator(insts.drop_last());
        assert forall|j: int| last_terminator(insts) < j < insts.len() implies !inst_is_terminator(
            #[trigger] insts[j],
        ) by {
            if j < insts.len() - 1 {
                assert(insts[j] == insts.drop_last()[j]);
            }
        }
    }
}

/// The index of the last terminator among `insts`, if there is one.
pub fn last_terminator_index(insts: &Vec<IrInst>) -> (r: Option<usize>)
    ensures
        match r {
            Some(i) => i == last_terminator(insts@),
            None => last_terminator(insts@) == -1,
        },
{
    let mut i: usize = insts.len();
    proof {
        assert(insts@.take(i as int) =~= insts@);
    }
    while i > 0
        invariant
            i <= insts@.len(),
            last_terminator(insts@) == last_terminator(insts@.take(i as int)),
        decreases i,
    {
        assert(insts@.take(i as int).last() == insts@[i - 1]);
        assert(insts@.take(i as int).drop_last() =~= insts@.take(i - 1));
        if insts[i - 1].is_terminator() {
            return Some(i - 1);
        }
        i = i - 1;
    }
    None
}

impl BasicBlock {
    /// An empty block.
    pub fn new(label: IrLabel) -> (r: Self)
        ensures
            r.label == label,
            r.instructions@.len() == 0,
            r.predecessors@.len() == 0,
            r.successors@.len() == 0,
    {
        BasicBlock {
            label,
            instructions: Vec::new(),
            predecessors: Vec::new(),
            successors: Vec::new(),
        }
    }

    /// The last terminator of the block, if it has one.
    pub fn terminator(&self) -> (r: Option<&IrInst>)
        ensures
            match r {
                Some(t) => last_terminator(self.instructions@) >= 0 && *t
                    == self.instructions@[last_terminator(self.instructions@)],
                None => last_terminator(self.instructions@) == -1,
            },
    {
        proof {
            lemma_last_terminator(self.instructions@);
        }
        match self.terminator_index() {
            Some(i) => Some(&self.instructions[i]),
            None => None,
        }
    }

    /// The index of the last terminator of the block, if it has one.
    fn terminator_index(&self) -> (r: Option<usize>)
        ensures
            match r {
                Some(i) => i == last_terminator(self.instructions@),
                None => last_terminator(self.instructions@) == -1,
            },
    {
        last_terminator_index(&self.instructions)
    }

    /// The last terminator of the block, to be changed in place; what is
    /// written through it becomes that instruction of the block.
    pub fn terminator_mut(&mut self) -> (r: Option<&mut IrInst>)
        ensures
            r is None ==> last_terminator(old(self).instructions@) == -1 && *final(self) == *old(self),
            r matches Some(t) ==> {
                let k = last_terminator(old(self).instructions@);
                &&& k >= 0
                &&& *t == old(self).instructions@[k]
                &&& final(self).instructions@ == old(self).instructions@.update(k, *final(t))
                &&& final(self).label == old(self).label
                &&& final(self).predecessors == old(self).predecessors
                &&& final(self).successors == old(self).successors
            },
    {
        proof {
            lemma_last_terminator(self.instructions@);
        }
        match self.terminator_index() {
            Some(i) => Some(&mut self.instructions[i]),
            None => None,
        }
    }

    /// Appends an instruction.
    pub fn add_instruction(&mut self, inst: IrInst)
        ensures
            final(self).instructions@ == old(self).instructions@.push(inst),
            final(self).label == old(self).label,
            final(self).predecessors == old(self).predecessors,
            final(self).successors == old(self).successors,
    {
        self.instructions.push(inst);
    }
}

/// The blocks of a function and the one it starts at.
#[derive(Debug, PartialEq)]
pub struct ControlFlowGraph {
    pub blocks: Vec<BasicBlock>,
    pub entry_label: IrLabel,
}

/// Whether `i` is the first block labelled `l` (or, for `None`, no block is).
pub open spec fn is_first_block(bs: Seq<BasicBlock>, l: IrLabel, r: Option<usize>) -> bool {
    match r {
        Some(i) => i < bs.len() && bs[i as int].label == l && forall|j: int|
            0 <= j < i ==> (#[trigger] bs[j]).label != l,
        None => forall|j: int| 0 <= j < bs.len() ==> (#[trigger] bs[j]).label != l,
    }
}

/// The instructions other than labels, in order.
pub open spec fn non_labels(s: Seq<IrInst>) -> Seq<IrInst>
    decreases s.len(),
{
    if s.len() == 0 {
        Seq::empty()
    } else if s.last() is Label {
        non_labels(s.drop_last())
    } else {
        non_labels(s.drop_last()).push(s.last())
    }
}

/// The flat instruction list of a sequence of blocks: each block's label,
/// then its instructions other than labels.
pub open spec fn flatten_blocks(bs: Seq<BasicBlock>) -> Seq<IrInst>
    decreases bs.len(),
{
    if bs.len() == 0 {
        Seq::empty()
    } else {
        flatten_blocks(bs.drop_last()) + seq![IrInst::Label(bs.last().label)] + non_labels(
            bs.last().instructions@,
        )
    }
}

/// Whether two instruction lists are the same, instruction by instruction.
pub open spec fn same_insts(a: Seq<IrInst>, b: Seq<IrInst>) -> bool {
    a.len() == b.len() && forall|k: int| 0 <= k < a.len() ==> same_inst(#[trigger] a[k], b[k])
}

impl ControlFlowGraph {
    /// A graph with no blocks yet.
    pub fn new(entry_label: IrLabel) -> (r: Self)
        ensures
            r.blocks@.len() == 0,
            r.entry_label == entry_label,
    {
        ControlFlowGraph { blocks: Vec::new(), entry_label }
    }

    /// The position of the first block labelled `label`.
    pub fn block_index(&self, label: IrLabel) -> (r: Option<usize>)
        ensures
            is_first_block(self.blocks@, label, r),
    {
        let mut i: usize = 0;
        while i < self.blocks.len()
            invariant
                i <= self.blocks@.len(),
                forall|j: int| 0 <= j < i ==> (#[trigger] self.blocks@[j]).label != label,
            decreases self.blocks@.len() - i,
        {
            if self.blocks[i].label == label {
                return Some(i);
            }
            i = i + 1;
        }
        None
    }

    /// The first block labelled `label`.
    pub fn find_block(&self, label: IrLabel) -> (r: Option<&BasicBlock>)
        ensures
            match r {
                Some(b) => exists|i: usize| is_first_block(self.blocks@, label, Some(i)) && *b == self.blocks@[i as int],
                None => is_first_block(self.blocks@, label, None),
            },
    {
        match self.block_index(label) {
            Some(i) => Some(&self.blocks[i]),
            None => None,
        }
    }

    /// The first block labelled `label`, to be changed in place; what is
    /// written through it becomes that block of the graph.
    pub fn find_block_mut(&mut self, label: IrLabel) -> (r: Option<&mut BasicBlock>)
        ensures
            r is None ==> is_first_block(old(self).blocks@, label, None) && *final(self) == *old(self),
            r matches Some(b) ==> exists|i: usize|
                {
                    &&& is_first_block(old(self).blocks@, label, Some(i))
                    &&& *b == old(self).blocks@[i as int]
                    &&& final(self).blocks@ == old(self).blocks@.update(i as int, *final(b))
                },
            final(self).entry_label == old(self).entry_label,
    {
        match self.block_index(label) {
            Some(i) => Some(&mut self.blocks[i]),
            None => None,
        }
    }

    /// The entry block.
    pub fn entry_block(&self) -> (r: Option<&BasicBlock>)
        ensures
            match r {
                Some(b) => exists|i: usize|
                    is_first_block(self.blocks@, self.entry_label, Some(i)) && *b == self.blocks@[i as int],
                None => is_first_block(self.blocks@, self.entry_label, None),
            },
    {
        self.find_block(self.entry_label)
    }

    /// The blocks laid out as one instruction list (see `flatten_blocks`).
    pub fn to_flat_instructions(&self) -> (r: Vec<IrInst>)
        ensures
            same_insts(r@, flatten_blocks(self.blocks@)),
    {
        let mut out: Vec<IrInst> = Vec::new();
        let mut b: usize = 0;
        while b < self.blocks.len()
            invariant
                b <= self.blocks@.len(),
                same_insts(out@, flatten_blocks(self.blocks@.take(b as int))),
            decreases self.blocks@.len() - b,
        {
            let ghost before = out@;
            let block = &self.blocks[b];
            assert(self.blocks@.take(b + 1).drop_last() =~= self.blocks@.take(b as int));
            assert(self.blocks@.take(b + 1).last() == self.blocks@[b as int]);
            out.push(IrInst::Label(block.label));
            let ghost head = out@;
            let mut k: usize = 0;
            while k < block.instructions.len()
                invariant
                    k <= block.instructions@.len(),
                    out@.len() == head.len() + non_labels(block.instructions@.take(k as int)).len(),
                    forall|m: int| 0 <= m < head.len() ==> #[trigger] out@[m] == head[m],
                    forall|m: int|
                        0 <= m < non_labels(block.instructions@.take(k as int)).len() ==> same_inst(
                            #[trigger] out@[head.len() + m],
                            non_labels(block.instructions@.take(k as int))[m],
                        ),
                decreases block.instructions@.len() - k,
            {
                let ghost taken = block.instructions@.take(k + 1);
                assert(taken.drop_last() =~= block.instructions@.take(k as int));
                assert(taken.last() == block.instructions@[k as int]);
                if !block.instructions[k].is_label() {
                    out.push(clone_inst(&block.instructions[k]));
                    assert(non_labels(taken) == non_labels(block.instructions@.take(k as int)).push(
                        block.instructions@[k as int],
                    ));
                } else {
                    assert(non_labels(taken) == non_labels(block.instructions@.take(k as int)));
                }
                k = k + 1;
            }
            assert(block.instructions@.take(block.instructions@.len() as int) =~= block.instructions@);
            assert(same_insts(out@, flatten_blocks(self.blocks@.take(b + 1)))) by {
                let f = flatten_blocks(self.blocks@.take(b + 1));
                let prev = flatten_blocks(self.blocks@.take(b as int));
                let fl = non_labels(block.instructions@);
                assert(f == prev + seq![IrInst::Label(block.label)] + fl);
                assert forall|m: int| 0 <= m < out@.len() implies same_inst(#[trigger] out@[m], f[m]) by {
                    if m < prev.len() {
                        assert(out@[m] == head[m]);
                        assert(head[m] == before[m]);
                    } else if m == prev.len() {
                    } else {
                        assert(out@[m] == out@[head.len() + (m - head.len())]);
                    }
                }
            }
            b = b + 1;
        }
        assert(self.blocks@.take(self.blocks@.len() as int) =~= self.blocks@);
        out
    }
}

impl IrInst {
    /// Whether this is a label marker.
    pub fn is_label(&self) -> (r: bool)
        ensures
            r == (*self is Label),
    {
        match self {
            IrInst::Label(_) => true,
            _ => false,
        }
    }
}

/// A function of the IR, with its nested functions and upvalues.
#[derive(Debug)]
pub struct IrFunction {
    pub name: Option<String>,
    pub params: Vec<Param>,
    pub num_params: u8,
    pub is_vararg: bool,
    pub instructions: Vec<IrInst>,
    pub protos: Vec<IrFunction>,
    pub upvalues: Vec<UpvalueDesc>,
    /// Parallel to `upvalues`: where each captured value comes from.
    pub upvalue_vars: Vec<UpvalSource>,
    pub cfg: Option<ControlFlowGraph>,
}

impl IrFunction {
    /// A function with no code yet.
    pub fn new(name: Option<String>, num_params: u8, is_vararg: bool) -> (r: Self)
        ensures
            r.name == name,
            r.num_params == num_params,
            r.is_vararg == is_vararg,
            r.params@.len() == 0,
            r.instructions@.len() == 0,
            r.protos@.len() == 0,
            r.upvalues@.len() == 0,
            r.upvalue_vars@.len() == 0,
            r.cfg is None,
    {
        IrFunction {
            name,
            params: Vec::new(),
            num_params,
            is_vararg,
            instructions: Vec::new(),
            protos: Vec::new(),
            upvalues: Vec::new(),
            upvalue_vars: Vec::new(),
            cfg: None,
        }
    }
}

/// A whole program: its main function.
#[derive(Debug)]
pub struct IrModule {
    pub main: IrFunction,
}

impl IrModule {
    /// The module whose main function is `main`.
    pub fn new(main: IrFunction) -> (r: Self)
        ensures
            r.main == main,
    {
        IrModule { main }
    }
}

/// Takes block `i` out of `bs`, leaving an empty block in its place.
pub(crate) fn take_block(bs: &mut Vec<BasicBlock>, i: usize) -> (r: BasicBlock)
    requires
        i < old(bs)@.len(),
    ensures
        r == old(bs)@[i as int],
        final(bs)@.len() == old(bs)@.len(),
        forall|j: int| 0 <= j < old(bs)@.len() && j != i ==> #[trigger] final(bs)@[j] == old(bs)@[j],
{
    let mut b = BasicBlock::new(IrLabel(0));
    bs.set_and_swap(i, &mut b);
    b
}

} // verus!
