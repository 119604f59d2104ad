//! The SSA form the passes work on.
//!
//! A program is a list of functions; a function is a list of basic blocks, each a run of
//! instructions ended by one terminator. Values are numbered per function, and every value
//! has a representation (`Repr`) recorded in `Func::reprs`, indexed by the value's number.
//! Block parameters stand in for phi nodes: a jump hands its arguments to the parameters of
//! the block it targets.

use vstd::prelude::*;

verus! {

/// An SSA value, numbered within its function.
pub type Value = u32;

/// A basic block's identity within its function.
pub type BlockId = u32;

/// How a value is laid out at run time.
#[derive(Debug, Clone, Copy, PartialEq, Eq, Structural)]
pub enum Repr {
    I64,
    F64,
    Bool,
    Unit,
    Null,
    Atom,
    Str,
    List,
    Dict,
    Tuple,
    Record,
    Closure,
    /// A tagged union or tagged result: boxed, so counted.
    Union,
}

impl Repr {
    /// Pointer-backed representations carry a reference count.
    pub open spec fn counted(&self) -> bool {
        match *self {
            Repr::Str | Repr::List | Repr::Dict | Repr::Tuple | Repr::Record | Repr::Closure
            | Repr::Union => true,
            _ => false,
        }
    }

    #[verifier::when_used_as_spec(counted)]
    pub fn is_counted(&self) -> (b: bool)
        ensures
            b == self.counted(),
    {
        match self {
            Repr::Str | Repr::List | Repr::Dict | Repr::Tuple | Repr::Record | Repr::Closure
            | Repr::Union => true,
            _ => false,
        }
    }
}

/// The primitive operations on scalars.
#[derive(Debug, Clone, Copy, PartialEq, Eq, Structural)]
pub enum PrimOp {
    Add,
    Sub,
    Mul,
    Div,
    Rem,
    Neg,
    Not,
    Bnot,
    Band,
    Bor,
    Bxor,
    Shl,
    Shr,
    Eq,
    Ne,
    Lt,
    Le,
    Gt,
    Ge,
    And,
    Or,
}

/// An instruction's operation.
#[derive(Debug)]
pub enum Op {
    /// A 64-bit integer constant.
    ConstI64(i64),
    /// A 64-bit float constant, carried as its IEEE-754 bit pattern.
    ConstF64(u64),
    ConstBool(bool),
    ConstStr(String),
    ConstNull,
    ConstUnit,
    ConstAtom(String),
    Prim(PrimOp, Vec<Value>),
    /// A direct call of a function of the program, by name.
    Call { func: String, args: Vec<Value> },
    /// A call of a native symbol: opaque to the compiler.
    Native { symbol: String, args: Vec<Value> },
    /// An indirect call through a closure value.
    CallClosure { callee: Value, args: Vec<Value> },
    MakeClosure { func: String, captures: Vec<Value> },
    MakeTuple(Vec<Value>),
    MakeList(Vec<Value>),
    MakeRecord { name: String, fields: Vec<(String, Value)> },
    /// A record field read: a view into `base`.
    Field { base: Value, name: String },
    /// A tuple element read: a view into `base`.
    Elem { base: Value, pos: u32 },
    /// A list or map lookup, which traps when the element is missing.
    Index { base: Value, index: Value },
    Cast(Value),
    IsNull(Value),
    IsErr(Value),
    UnwrapOk(Value),
    UnwrapErr(Value),
    IsVariant { value: Value, tag: u32 },
    Retain(Value),
    Release(Value),
}

/// One instruction: an operation and the value it defines, if any.
#[derive(Debug)]
pub struct Inst {
    pub result: Option<Value>,
    pub op: Op,
}

/// A jump target with the arguments handed to the target block's parameters.
#[derive(Debug)]
pub struct Target {
    pub to: BlockId,
    pub args: Vec<Value>,
}

/// How a block ends.
#[derive(Debug)]
pub enum Term {
    Ret(Option<Value>),
    Throw(Value),
    Unreachable,
    Jump(Target),
    Branch { cond: Value, then: Target, els: Target },
    Switch { on: Value, arms: Vec<(u32, Target)>, default: Target },
}

#[derive(Debug)]
pub struct Block {
    pub id: BlockId,
    pub params: Vec<Value>,
    pub insts: Vec<Inst>,
    pub term: Term,
}

#[derive(Debug)]
pub struct Func {
    pub name: String,
    /// The representation of every value, indexed by the value's number.
    pub reprs: Vec<Repr>,
    pub ret: Repr,
    pub entry: BlockId,
    pub blocks: Vec<Block>,
}

#[derive(Debug)]
pub struct Program {
    pub funcs: Vec<Func>,
    /// The native symbols whose declaration carried `@pure`.
    pub pure_natives: Vec<String>,
}

/// The values an operation reads, in operand order.
pub open spec fn op_operands(op: Op) -> Seq<Value> {
    match op {
        Op::Prim(_, vs) => vs@,
        Op::MakeTuple(vs) => vs@,
        Op::MakeList(vs) => vs@,
        Op::Call { args, .. } => args@,
        Op::Native { args, .. } => args@,
        Op::CallClosure { callee, args } => seq![callee] + args@,
        Op::MakeClosure { captures, .. } => captures@,
        Op::MakeRecord { fields, .. } => fields@.map_values(|p: (String, Value)| p.1),
        Op::Field { base, .. } => seq![base],
        Op::Elem { base, .. } => seq![base],
        Op::Index { base, index } => seq![base, index],
        Op::Cast(v) => seq![v],
        Op::IsNull(v) => seq![v],
        Op::IsErr(v) => seq![v],
        Op::UnwrapOk(v) => seq![v],
        Op::UnwrapErr(v) => seq![v],
        Op::IsVariant { value, .. } => seq![value],
        Op::Retain(v) => seq![v],
        Op::Release(v) => seq![v],
        _ => Seq::empty(),
    }
}

/// The values a terminator reads: a returned or thrown value, a branch condition or switch
/// scrutinee, and the arguments of every outgoing edge, in that order.
pub open spec fn term_operands(t: Term) -> Seq<Value> {
    match t {
        Term::Ret(Some(v)) => seq![v],
        Term::Throw(v) => seq![v],
        Term::Ret(None) => Seq::empty(),
        Term::Unreachable => Seq::empty(),
        Term::Jump(t) => t.args@,
        Term::Branch { cond, then, els } => seq![cond] + then.args@ + els.args@,
        Term::Switch { on, arms, default } => seq![on] + arm_args(arms@) + default.args@,
    }
}

/// The block arguments of a run of switch arms, concatenated in order.
pub open spec fn arm_args(arms: Seq<(u32, Target)>) -> Seq<Value>
    decreases arms.len(),
{
    if arms.len() == 0 {
        Seq::empty()
    } else {
        arm_args(arms.drop_last()) + arms.last().1.args@
    }
}

/// The blocks a terminator can transfer control to, in order (with repeats).
pub open spec fn term_successors(t: Term) -> Seq<BlockId> {
    match t {
        Term::Jump(t) => seq![t.to],
        Term::Branch { then, els, .. } => seq![then.to, els.to],
        Term::Switch { arms, default, .. } => arms@.map_values(|a: (u32, Target)| a.1.to).push(
            default.to,
        ),
        _ => Seq::empty(),
    }
}

impl Func {
    /// The ids of the function's blocks, in block order.
    pub open spec fn block_ids(&self) -> Seq<BlockId> {
        self.blocks@.map_values(|b: Block| b.id)
    }

    pub open spec fn has_block(&self, id: BlockId) -> bool {
        self.block_ids().contains(id)
    }

    /// Every operand, block parameter and result names a value with a representation.
    pub open spec fn values_in_range(&self) -> bool {
        forall|i: int|
            0 <= i < self.blocks.len() ==> {
                let b = #[trigger] self.blocks@[i];
                &&& forall|k: int|
                    0 <= k < b.insts.len() ==> {
                        let inst = #[trigger] b.insts@[k];
                        &&& forall|j: int|
                            0 <= j < op_operands(inst.op).len() ==> op_operands(inst.op)[j]
                                < self.reprs.len()
                        &&& (inst.result matches Some(v) ==> v < self.reprs.len())
                    }
                &&& forall|j: int|
                    0 <= j < term_operands(b.term).len() ==> term_operands(b.term)[j]
                        < self.reprs.len()
                &&& forall|j: int| 0 <= j < b.params.len() ==> b.params@[j] < self.reprs.len()
            }
    }

    /// Block ids are distinct, the entry is one of them, and every edge leads to one.
    pub open spec fn cfg_ok(&self) -> bool {
        &&& self.block_ids().no_duplicates()
        &&& self.has_block(self.entry)
        &&& forall|i: int, j: int|
            0 <= i < self.blocks.len() && 0 <= j < term_successors(self.blocks@[i].term).len()
                ==> self.has_block(#[trigger] term_successors(self.blocks@[i].term)[j])
    }

    /// The shape every pass relies on.
    pub open spec fn wf(&self) -> bool {
        &&& self.values_in_range()
        &&& self.cfg_ok()
        &&& self.reprs.len() <= u32::MAX
    }

    /// The representation of a value.
    pub fn value_repr(&self, v: Value) -> (r: Repr)
        requires
            v < self.reprs.len(),
        ensures
            r == self.reprs@[v as int],
    {
        self.reprs[v as usize]
    }
}

impl Program {
    pub open spec fn wf(&self) -> bool {
        forall|i: int| 0 <= i < self.funcs.len() ==> (#[trigger] self.funcs@[i]).wf()
    }
}

} // verus!
