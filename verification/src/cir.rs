//! The intermediate representation that the front end reads, as plain data.
//!
//! It is data-flow oriented: a function is a list of blocks, a block a list of
//! statements, and addresses are a variable with byte offsets hung off it. What an
//! import holds beside the code is its method table and class hierarchy.
use vstd::prelude::*;

verus! {

/// What a variable reference names.
pub enum Variable {
    Param(usize),
    Local(usize),
    GlobalHeap,
}

/// A use of a variable, with the version it was given where the code is in single
/// assignment form.
pub struct VariableRef {
    pub variable: Variable,
    pub version: Option<usize>,
}

/// A variable and the offsets that lead from it.
pub struct Address {
    pub variable_ref: VariableRef,
    pub offsets: Vec<i64>,
}

/// An object that an expression creates.
pub enum CallObject {
    JavaObject(String),
    LuaClass(String),
    FunctionPtr(String),
}

pub enum Exp {
    Variable(VariableRef),
    AccessPath(Address),
    Str(String),
    Bytes(Vec<u8>),
    ObjectRef(CallObject),
}

/// How a call finds its callee.
pub enum CallStyle {
    DirectCall { targets: Vec<String> },
    JavaCall { receiver: VariableRef, cls: String, simple_name: String, descriptor: String },
    LuaCall { receiver: VariableRef, method: String },
    FuncPtrCall { callee: Address, signature: Option<String> },
    Unknown,
}

pub enum Statement {
    Assign { dest: VariableRef, sources: Vec<Exp> },
    Load { dest: VariableRef, source: Address, field: String },
    Store { address: Address, field: String, value: Exp },
    CallAssign { style: CallStyle, rets: Vec<VariableRef>, args: Vec<Exp> },
    Phi { dest: VariableRef, operands: Vec<VariableRef> },
    ParamFlow,
    Nop,
}

pub enum Terminator {
    Return { args: Vec<Exp> },
    Other,
}

pub struct BasicBlock {
    pub statements: Vec<Statement>,
    pub terminator: Option<Terminator>,
}

pub struct FunctionData {
    pub name: String,
    /// How many parameters it has.
    pub params: usize,
    /// The names of its locals.
    pub locals: Vec<String>,
    pub blocks: Vec<BasicBlock>,
}

/// The code of one import.
pub struct CirProgram {
    pub functions: Vec<FunctionData>,
}

/// The method table and class hierarchy of one import. A method is listed with its
/// class, name, descriptor (where the language has one) and implementation; a class
/// with what it directly extends, superclass first.
pub enum VirtualMethodTable {
    Java {
        methods: Vec<(String, String, String, String)>,
        hierarchy: Vec<(String, Vec<String>)>,
    },
    Lua { functions: Vec<(String, String, String)>, hierarchy: Vec<(String, Vec<String>)> },
    Native,
    Unknown,
}

} // verus!
