//! Pieces of lowering the intermediate representation to register-machine
//! code: the register map used while lowering, comparison instructions and
//! the layout of value runs.
use std::collections::HashMap;
use vstd::prelude::*;

use crate::bytecode::{Instruction, Proto, MULTRET};
use crate::compiler::ir::inst::{spread_width, SpreadSource};
use crate::compiler::ir::regalloc::{reg_lookup, RegisterAllocation};
use crate::compiler::ir::types::{IrBinaryOp, IrVar};

verus! {

/// Registers handed out while lowering one function.
pub struct RegAlloc {
    var_to_reg: HashMap<u32, u8>,
    next_reg: u8,
    /// Set once the 255-register limit is hit, so lowering reports it instead
    /// of handing out a register that is already in use.
    exhausted: bool,
}

impl RegAlloc {
    /// The register of each variable.
    pub closed spec fn reg_of(&self, v: IrVar) -> Option<u8> {
        reg_lookup(self.var_to_reg@, v)
    }

    /// The lowest register no variable has been given yet.
    pub closed spec fn next(&self) -> u8 {
        self.next_reg
    }

    /// Whether more registers were asked for than the machine has.
    pub closed spec fn is_exhausted(&self) -> bool {
        self.exhausted
    }

    /// The parameters occupy registers `0..num_params`.
    pub fn new(num_params: u8) -> (r: Self)
        ensures
            forall|v: IrVar| #[trigger] r.reg_of(v) == if v.0 < num_params {
                Some(v.0 as u8)
            } else {
                None::<u8>
            },
            r.next() == num_params,
            !r.is_exhausted(),
    {
        broadcast use vstd::std_specs::hash::group_hash_axioms;

        let mut var_to_reg: HashMap<u32, u8> = HashMap::new();
        let mut i: u8 = 0;
        while i < num_params
            invariant
                i <= num_params,
                forall|n: u32| #[trigger] var_to_reg@.contains_key(n) <==> n < i,
                forall|n: u32| #[trigger] var_to_reg@.contains_key(n) ==> var_to_reg@[n] == n as u8,
            decreases num_params - i,
        {
            var_to_reg.insert(i as u32, i);
            i = i + 1;
        }
        RegAlloc { var_to_reg, next_reg: num_params, exhausted: false }
    }

    /// Starts from a linear-scan allocation, which reuses a register once
    /// the variable holding it is dead.
    pub fn from_allocation(alloc: &RegisterAllocation) -> (r: Self)
        ensures
            forall|v: IrVar| #[trigger] r.reg_of(v) == reg_lookup(alloc.mapping@, v),
            r.next() == alloc.max_registers,
            !r.is_exhausted(),
    {
        RegAlloc { var_to_reg: alloc.mapping.clone(), next_reg: alloc.max_registers, exhausted: false }
    }

    /// The register of `var`, giving it the next free one when it has none.
    pub fn get(&mut self, var: IrVar, proto: &mut Proto) -> (r: u8)
        ensures
            old(self).reg_of(var) matches Some(x) ==> {
                &&& r == x
                &&& final(self).reg_of(var) == Some(x)
                &&& final(self).next() == old(self).next()
                &&& final(self).is_exhausted() == old(self).is_exhausted()
                &&& final(proto).max_registers == old(proto).max_registers
            },
            old(self).reg_of(var) is None ==> {
                &&& r == old(self).next()
                &&& final(self).reg_of(var) == Some(r)
                &&& final(self).next() == if old(self).next() == 255 {
                    255u8
                } else {
                    (old(self).next() + 1) as u8
                }
                &&& final(self).is_exhausted() == (old(self).is_exhausted() || old(self).next() == 255)
                &&& final(proto).max_registers == if final(self).next() > old(proto).max_registers {
                    final(self).next()
                } else {
                    old(proto).max_registers
                }
            },
            forall|v: IrVar| v != var ==> #[trigger] final(self).reg_of(v) == old(self).reg_of(v),
            final(proto).instructions == old(proto).instructions,
            final(proto).lines == old(proto).lines,
            final(proto).protos == old(proto).protos,
    {
        broadcast use vstd::std_specs::hash::group_hash_axioms;

        match self.var_to_reg.get(&var.0) {
            Some(r) => *r,
            None => {
                let r = self.next_reg;
                if self.next_reg == 255 {
                    self.exhausted = true;
                }
                self.next_reg = self.next_reg.saturating_add(1);
                if self.next_reg > proto.max_registers {
                    proto.max_registers = self.next_reg;
                }
                self.var_to_reg.insert(var.0, r);
                proof {
                    assert forall|v: IrVar| v != var implies #[trigger] reg_lookup(self.var_to_reg@, v) == reg_lookup(
                        old(self).var_to_reg@,
                        v,
                    ) by {
                        assert(v.0 != var.0);
                    }
                }
                r
            },
        }
    }

    /// Claims `size` consecutive registers that no variable will be given and
    /// returns the first of them.
    pub fn reserve(&mut self, size: u8, proto: &mut Proto) -> (r: u8)
        ensures
            r == old(self).next(),
            final(self).next() == if old(self).next() + size > 255 {
                255u8
            } else {
                (old(self).next() + size) as u8
            },
            final(self).is_exhausted() == (old(self).is_exhausted() || old(self).next() + size
                > 255),
            forall|v: IrVar| #[trigger] final(self).reg_of(v) == old(self).reg_of(v),
            final(proto).max_registers == if final(self).next() > old(proto).max_registers {
                final(self).next()
            } else {
                old(proto).max_registers
            },
            final(proto).instructions == old(proto).instructions,
            final(proto).lines == old(proto).lines,
            final(proto).protos == old(proto).protos,
    {
        let base = self.next_reg;
        if self.next_reg.checked_add(size).is_none() {
            self.exhausted = true;
        }
        self.next_reg = self.next_reg.saturating_add(size);
        if self.next_reg > proto.max_registers {
            proto.max_registers = self.next_reg;
        }
        base
    }

    /// Gives `var` the register `reg`, keeping the registers from `reg` down
    /// out of later hand-outs.
    pub fn bind(&mut self, var: IrVar, reg: u8, proto: &mut Proto)
        ensures
            final(self).reg_of(var) == Some(reg),
            forall|v: IrVar| v != var ==> #[trigger] final(self).reg_of(v) == old(self).reg_of(v),
            final(self).next() == if reg == 255 {
                255u8
            } else if reg + 1 > old(self).next() {
                (reg + 1) as u8
            } else {
                old(self).next()
            },
            final(self).is_exhausted() == old(self).is_exhausted(),
            final(proto).max_registers == if final(self).next() > old(proto).max_registers {
                final(self).next()
            } else {
                old(proto).max_registers
            },
            final(proto).instructions == old(proto).instructions,
            final(proto).lines == old(proto).lines,
            final(proto).protos == old(proto).protos,
    {
        broadcast use vstd::std_specs::hash::group_hash_axioms;

        self.var_to_reg.insert(var.0, reg);
        proof {
            assert forall|v: IrVar| v != var implies #[trigger] reg_lookup(self.var_to_reg@, v) == reg_lookup(
                old(self).var_to_reg@,
                v,
            ) by {
                assert(v.0 != var.0);
            }
        }
        let needed = reg.saturating_add(1);
        if needed > self.next_reg {
            self.next_reg = needed;
        }
        if self.next_reg > proto.max_registers {
            proto.max_registers = self.next_reg;
        }
    }
}

/// Whether `op` compares its operands.
pub open spec fn is_comparison(op: IrBinaryOp) -> bool {
    op == IrBinaryOp::Eq || op == IrBinaryOp::Ne || op == IrBinaryOp::Lt || op == IrBinaryOp::Le
        || op == IrBinaryOp::Gt || op == IrBinaryOp::Ge
}

/// The conditional instruction for a comparison, with its jump still to be
/// patched.
pub fn compare_instruction(op: IrBinaryOp, a: u8, b: u8) -> (r: Instruction)
    requires
        is_comparison(op),
    ensures
        r == match op {
            IrBinaryOp::Eq => Instruction::Eq { a, b, jump_if_false: 0 },
            IrBinaryOp::Ne => Instruction::Ne { a, b, jump_if_false: 0 },
            IrBinaryOp::Lt => Instruction::Lt { a, b, jump_if_false: 0 },
            IrBinaryOp::Le => Instruction::Le { a, b, jump_if_false: 0 },
            IrBinaryOp::Gt => Instruction::Gt { a, b, jump_if_false: 0 },
            _ => Instruction::Ge { a, b, jump_if_false: 0 },
        },
{
    let jump_if_false: i32 = 0;
    match op {
        IrBinaryOp::Eq => Instruction::Eq { a, b, jump_if_false },
        IrBinaryOp::Ne => Instruction::Ne { a, b, jump_if_false },
        IrBinaryOp::Lt => Instruction::Lt { a, b, jump_if_false },
        IrBinaryOp::Le => Instruction::Le { a, b, jump_if_false },
        IrBinaryOp::Gt => Instruction::Gt { a, b, jump_if_false },
        _ => Instruction::Ge { a, b, jump_if_false },
    }
}

proof fn lemma_width_pos(s: SpreadSource)
    ensures
        spread_width(s) >= 1,
    decreases s,
{
    match s {
        SpreadSource::Call { trailing, .. } => match trailing {
            Some(inner) => lemma_width_pos(*inner),
            None => {},
        },
        SpreadSource::Vararg => {},
    }
}

/// Lays a producer out starting at register `at`, leaving every value it
/// yields on the stack from there: moves the callee and arguments into
/// place, lays any trailing producer out right above them, and emits the
/// call (or the `...` load).
pub fn emit_spread_source(source: &SpreadSource, at: u8, regs: &mut RegAlloc, proto: &mut Proto)
    requires
        at + spread_width(*source) <= 256,
    ensures
        final(proto).instructions@.len() > old(proto).instructions@.len(),
        final(proto).instructions@.take(old(proto).instructions@.len() as int)
            == old(proto).instructions@,
        final(proto).instructions@.last() == match *source {
            SpreadSource::Call { args, trailing, .. } => Instruction::Call {
                callee: at,
                argc: if trailing is Some {
                    MULTRET
                } else {
                    args@.len() as u8
                },
                retc: MULTRET,
            },
            SpreadSource::Vararg => Instruction::Vararg { dst: at, count: 0 },
        },
        final(proto).lines@.len() - old(proto).lines@.len() == final(proto).instructions@.len()
            - old(proto).instructions@.len(),
    decreases source,
{
    let ghost start = proto.instructions@;
    let ghost start_lines = proto.lines@.len();
    proof {
        lemma_width_pos(*source);
        if let SpreadSource::Call { trailing: Some(inner), .. } = source {
            lemma_width_pos(**inner);
        }
    }
    match source {
        SpreadSource::Call { callee, args, trailing } => {
            let rc = regs.get(*callee, proto);
            if rc != at {
                proto.emit(Instruction::Move { dst: at, src: rc }, 1);
            }
            let mut i: usize = 0;
            while i < args.len()
                invariant
                    i <= args@.len(),
                    at + 1 + args@.len() <= 256,
                    proto.instructions@.len() >= start.len(),
                    proto.instructions@.take(start.len() as int) == start,
                    proto.lines@.len() - start_lines == proto.instructions@.len() - start.len(),
                decreases args@.len() - i,
            {
                let ra = regs.get(args[i], proto);
                let target = at + 1 + i as u8;
                if ra != target {
                    let ghost before = proto.instructions@;
                    proto.emit(Instruction::Move { dst: target, src: ra }, 1);
                    assert(proto.instructions@.take(start.len() as int) =~= before.take(
                        start.len() as int,
                    ));
                }
                i = i + 1;
            }
            let argc = match trailing {
                Some(inner) => {
                    let ghost before = proto.instructions@;
                    emit_spread_source(inner, at + 1 + args.len() as u8, regs, proto);
                    assert(proto.instructions@.take(start.len() as int) =~= before.take(
                        start.len() as int,
                    ));
                    MULTRET
                },
                None => args.len() as u8,
            };
            let ghost before = proto.instructions@;
            proto.emit(Instruction::Call { callee: at, argc, retc: MULTRET }, 1);
            assert(proto.instructions@.take(start.len() as int) =~= before.take(start.len() as int));
        },
        SpreadSource::Vararg => {
            proto.emit(Instruction::Vararg { dst: at, count: 0 }, 1);
            assert(proto.instructions@.take(start.len() as int) =~= start);
        },
    }
}

} // verus!
