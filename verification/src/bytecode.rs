//! The register machine's instruction set and function prototypes, as far as
//! the compiler's cost model reads them.
use vstd::prelude::*;

verus! {

/// One instruction of the register machine. Registers are `u8`, constant and
/// name indices `u16`, jump offsets `i32`.
#[derive(Clone, Copy, Debug, PartialEq, Eq, Structural)]
pub enum Instruction {
    LoadNil { dst: u8 },
    LoadBool { dst: u8, val: bool },
    LoadInt { dst: u8, val: i64 },
    LoadK { dst: u8, k: u16 },
    Move { dst: u8, src: u8 },
    Add { dst: u8, a: u8, b: u8 },
    Sub { dst: u8, a: u8, b: u8 },
    Mul { dst: u8, a: u8, b: u8 },
    Div { dst: u8, a: u8, b: u8 },
    IDiv { dst: u8, a: u8, b: u8 },
    Mod { dst: u8, a: u8, b: u8 },
    Pow { dst: u8, a: u8, b: u8 },
    Unm { dst: u8, src: u8 },
    BitAnd { dst: u8, a: u8, b: u8 },
    BitOr { dst: u8, a: u8, b: u8 },
    BitXor { dst: u8, a: u8, b: u8 },
    Shl { dst: u8, a: u8, b: u8 },
    Shr { dst: u8, a: u8, b: u8 },
    LShl { dst: u8, a: u8, b: u8 },
    LShr { dst: u8, a: u8, b: u8 },
    BitNot { dst: u8, src: u8 },
    NewTable { dst: u8 },
    GetTable { dst: u8, table: u8, key: u8 },
    SetTable { table: u8, key: u8, src: u8 },
    GetTableK { dst: u8, table: u8, k: u16 },
    SetTableK { table: u8, k: u16, src: u8 },
    AppendArray { table: u8, src: u8 },
    SetList { table: u8, base: u8, count: u8 },
    Eq { a: u8, b: u8, jump_if_false: i32 },
    Ne { a: u8, b: u8, jump_if_false: i32 },
    Lt { a: u8, b: u8, jump_if_false: i32 },
    Le { a: u8, b: u8, jump_if_false: i32 },
    Gt { a: u8, b: u8, jump_if_false: i32 },
    Ge { a: u8, b: u8, jump_if_false: i32 },
    Test { src: u8, jump_if_false: i32 },
    Jump { offset: i32 },
    ForPrep { base: u8, jump: i32 },
    ForLoop { base: u8, jump: i32 },
    TForCall { base: u8, retc: u8 },
    TForLoop { base: u8, jump: i32 },
    Call { callee: u8, argc: u8, retc: u8 },
    Return { base: u8, count: u8 },
    Closure { dst: u8, proto_idx: u16 },
    Vararg { dst: u8, count: u8 },
    GetGlobal { dst: u8, name_k: u16 },
    SetGlobal { src: u8, name_k: u16 },
    GetImport { dst: u8, k: u16 },
    GetUpval { dst: u8, upval_idx: u8 },
    SetUpval { src: u8, upval_idx: u8 },
    Concat { dst: u8, a: u8, b: u8 },
    Not { dst: u8, src: u8 },
    Len { dst: u8, src: u8 },
    Coalesce { dst: u8, a: u8, b: u8 },
}

/// A compiled function: its code and the functions nested in it.
#[derive(Debug)]
pub struct Proto {
    pub name: Option<String>,
    pub num_params: u8,
    pub is_vararg: bool,
    pub max_registers: u8,
    pub instructions: Vec<Instruction>,
    /// The source line of each instruction.
    pub lines: Vec<u32>,
    pub protos: Vec<Proto>,
}

/// How a function reaches one of its upvalues: a register of the enclosing
/// function (`in_stack`) or one of the enclosing function's own upvalues,
/// with its index there.
#[derive(Clone, Copy, Debug, PartialEq, Eq, Structural)]
pub struct UpvalueDesc {
    pub in_stack: bool,
    pub index: u8,
}

/// The count that stands for "all values" in calls and returns.
pub const MULTRET: u8 = 255;

impl Proto {
    /// An empty prototype.
    pub fn new(name: Option<String>, num_params: u8, is_vararg: bool) -> (r: Self)
        ensures
            r.name == name,
            r.num_params == num_params,
            r.is_vararg == is_vararg,
            r.max_registers == num_params,
            r.instructions@.len() == 0,
            r.lines@.len() == 0,
            r.protos@.len() == 0,
    {
        Proto {
            name,
            num_params,
            is_vararg,
            max_registers: num_params,
            instructions: Vec::new(),
            lines: Vec::new(),
            protos: Vec::new(),
        }
    }

    /// Appends an instruction that stems from source line `line`.
    pub fn emit(&mut self, inst: Instruction, line: u32)
        ensures
            final(self).instructions@ == old(self).instructions@.push(inst),
            final(self).lines@ == old(self).lines@.push(line),
            final(self).name == old(self).name,
            final(self).num_params == old(self).num_params,
            final(self).is_vararg == old(self).is_vararg,
            final(self).max_registers == old(self).max_registers,
            final(self).protos@ == old(self).protos@,
    {
        self.instructions.push(inst);
        self.lines.push(line);
    }
}

} // verus!
