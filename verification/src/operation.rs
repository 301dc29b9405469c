//! The instructions of the language, and their values for contracts.
use vstd::prelude::*;

verus! {

/// One instruction of a program.
#[derive(PartialEq, Clone, Debug)]
pub enum Operation {
    Push(u64),
    String(String),
    Plus { depth: usize },
    Inc,
    Minus,
    Dec,
    Div,
    Mod,
    NotEqual,
    Equals,
    Not,
    Greater,
    Lower,
    BitOr,
    BitAnd,
    BitShiftLeft,
    BitShiftRight,
    Dump,
    If { address: usize },
    Else { address: usize },
    While,
    Do { address: usize },
    End { address: usize },
    Dup { depth: usize },
    Swap,
    Over,
    Rot,
    Mem,
    Store,
    Load,
    Store32,
    Load32,
    Store64,
    Load64,
    Drop,
    Syscall { arg_count: usize },
    DefineMacro { name: String },
    EndMacro,
    CallMacro { name: String },
}

/// The mathematical value of an [`Operation`]: strings become their characters.
pub enum OpView {
    Push(u64),
    String(Seq<char>),
    Plus { depth: usize },
    Inc,
    Minus,
    Dec,
    Div,
    Mod,
    NotEqual,
    Equals,
    Not,
    Greater,
    Lower,
    BitOr,
    BitAnd,
    BitShiftLeft,
    BitShiftRight,
    Dump,
    If { address: usize },
    Else { address: usize },
    While,
    Do { address: usize },
    End { address: usize },
    Dup { depth: usize },
    Swap,
    Over,
    Rot,
    Mem,
    Store,
    Load,
    Store32,
    Load32,
    Store64,
    Load64,
    Drop,
    Syscall { arg_count: usize },
    DefineMacro { name: Seq<char> },
    EndMacro,
    CallMacro { name: Seq<char> },
}

impl View for Operation {
    type V = OpView;

    open spec fn view(&self) -> OpView {
        match self {
            Operation::Push(n) => OpView::Push(*n),
            Operation::String(s) => OpView::String(s@),
            Operation::Plus { depth } => OpView::Plus { depth: *depth },
            Operation::Inc => OpView::Inc,
            Operation::Minus => OpView::Minus,
            Operation::Dec => OpView::Dec,
            Operation::Div => OpView::Div,
            Operation::Mod => OpView::Mod,
            Operation::NotEqual => OpView::NotEqual,
            Operation::Equals => OpView::Equals,
            Operation::Not => OpView::Not,
            Operation::Greater => OpView::Greater,
            Operation::Lower => OpView::Lower,
            Operation::BitOr => OpView::BitOr,
            Operation::BitAnd => OpView::BitAnd,
            Operation::BitShiftLeft => OpView::BitShiftLeft,
            Operation::BitShiftRight => OpView::BitShiftRight,
            Operation::Dump => OpView::Dump,
            Operation::If { address } => OpView::If { address: *address },
            Operation::Else { address } => OpView::Else { address: *address },
            Operation::While => OpView::While,
            Operation::Do { address } => OpView::Do { address: *address },
            Operation::End { address } => OpView::End { address: *address },
            Operation::Dup { depth } => OpView::Dup { depth: *depth },
            Operation::Swap => OpView::Swap,
            Operation::Over => OpView::Over,
            Operation::Rot => OpView::Rot,
            Operation::Mem => OpView::Mem,
            Operation::Store => OpView::Store,
            Operation::Load => OpView::Load,
            Operation::Store32 => OpView::Store32,
            Operation::Load32 => OpView::Load32,
            Operation::Store64 => OpView::Store64,
            Operation::Load64 => OpView::Load64,
            Operation::Drop => OpView::Drop,
            Operation::Syscall { arg_count } => OpView::Syscall { arg_count: *arg_count },
            Operation::DefineMacro { name } => OpView::DefineMacro { name: name@ },
            Operation::EndMacro => OpView::EndMacro,
            Operation::CallMacro { name } => OpView::CallMacro { name: name@ },
        }
    }
}

/// The views of a sequence of operations.
pub open spec fn ops_view(ops: Seq<Operation>) -> Seq<OpView> {
    ops.map_values(|o: Operation| o@)
}

/// A copy of an operation with the same view.
pub fn copy_op(op: &Operation) -> (r: Operation)
    ensures
        r@ == op@,
{
    match op {
        Operation::Push(n) => Operation::Push(*n),
        Operation::String(s) => Operation::String(s.clone()),
        Operation::Plus { depth } => Operation::Plus { depth: *depth },
        Operation::Inc => Operation::Inc,
        Operation::Minus => Operation::Minus,
        Operation::Dec => Operation::Dec,
        Operation::Div => Operation::Div,
        Operation::Mod => Operation::Mod,
        Operation::NotEqual => Operation::NotEqual,
        Operation::Equals => Operation::Equals,
        Operation::Not => Operation::Not,
        Operation::Greater => Operation::Greater,
        Operation::Lower => Operation::Lower,
        Operation::BitOr => Operation::BitOr,
        Operation::BitAnd => Operation::BitAnd,
        Operation::BitShiftLeft => Operation::BitShiftLeft,
        Operation::BitShiftRight => Operation::BitShiftRight,
        Operation::Dump => Operation::Dump,
        Operation::If { address } => Operation::If { address: *address },
        Operation::Else { address } => Operation::Else { address: *address },
        Operation::While => Operation::While,
        Operation::Do { address } => Operation::Do { address: *address },
        Operation::End { address } => Operation::End { address: *address },
        Operation::Dup { depth } => Operation::Dup { depth: *depth },
        Operation::Swap => Operation::Swap,
        Operation::Over => Operation::Over,
        Operation::Rot => Operation::Rot,
        Operation::Mem => Operation::Mem,
        Operation::Store => Operation::Store,
        Operation::Load => Operation::Load,
        Operation::Store32 => Operation::Store32,
        Operation::Load32 => Operation::Load32,
        Operation::Store64 => Operation::Store64,
        Operation::Load64 => Operation::Load64,
        Operation::Drop => Operation::Drop,
        Operation::Syscall { arg_count } => Operation::Syscall { arg_count: *arg_count },
        Operation::DefineMacro { name } => Operation::DefineMacro { name: name.clone() },
        Operation::EndMacro => Operation::EndMacro,
        Operation::CallMacro { name } => Operation::CallMacro { name: name.clone() },
    }
}

} // verus!
