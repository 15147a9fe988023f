//! The values that validators make of tokens and hand to handlers.
use vstd::prelude::*;

verus! {

/// A parsed argument of a command.
#[derive(Clone, Debug)]
pub enum Type {
    /// A string without white space.
    Atom(String),
    /// A truth value.
    Bool(bool),
    /// The text of a sub-command, which may hold parentheses.
    Command(String),
    /// A 32-bit floating point number, held as its IEEE 754 bit pattern.
    F32(u32),
    /// A 32-bit signed integer.
    I32(i32),
    /// Raw bytes.
    Raw(Vec<u8>),
    /// A string, which may hold white space.
    String(String),
    /// An unsigned 8-bit integer.
    U8(u8),
    /// An unsigned integer of the size of a pointer.
    Usize(usize),
}

/// A parsed argument as a mathematical value.
pub enum Value {
    /// A string without white space.
    Atom(Seq<char>),
    /// A truth value.
    Bool(bool),
    /// The text of a sub-command.
    Command(Seq<char>),
    /// The bit pattern of a 32-bit floating point number.
    F32(u32),
    /// A 32-bit signed integer.
    I32(i32),
    /// Raw bytes.
    Raw(Seq<u8>),
    /// A string.
    Text(Seq<char>),
    /// An unsigned 8-bit integer.
    U8(u8),
    /// An unsigned integer of the size of a pointer.
    Usize(usize),
}

impl View for Type {
    type V = Value;

    open spec fn view(&self) -> Value {
        match *self {
            Type::Atom(s) => Value::Atom(s@),
            Type::Bool(b) => Value::Bool(b),
            Type::Command(s) => Value::Command(s@),
            Type::F32(bits) => Value::F32(bits),
            Type::I32(n) => Value::I32(n),
            Type::Raw(bytes) => Value::Raw(bytes@),
            Type::String(s) => Value::Text(s@),
            Type::U8(n) => Value::U8(n),
            Type::Usize(n) => Value::Usize(n),
        }
    }
}

/// The values of a sequence of arguments.
pub open spec fn values(args: Seq<Type>) -> Seq<Value> {
    Seq::new(args.len(), |i: int| args[i]@)
}

} // verus!
