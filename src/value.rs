use vstd::prelude::*;

verus! {

/// An integer as the format stores it: a non-negative one as `PosInt`, a
/// negative one as `NegInt`. A `NegInt` that holds a non-negative number is
/// read by its value all the same.
#[derive(Clone, Copy, Debug)]
pub enum Int {
    PosInt(u64),
    NegInt(i64),
}

impl Int {
    /// The mathematical value.
    pub open spec fn value(self) -> int {
        match self {
            Int::PosInt(u) => u as int,
            Int::NegInt(i) => i as int,
        }
    }

    /// The integer `n`, stored as the format stores it.
    pub fn from_i64(n: i64) -> (r: Int)
        ensures
            r.value() == n as int,
            n >= 0 ==> r is PosInt,
    {
        if n >= 0 {
            Int::PosInt(n as u64)
        } else {
            Int::NegInt(n)
        }
    }

    /// The integer `n`.
    pub fn from_u64(n: u64) -> (r: Int)
        ensures
            r.value() == n as int,
            r is PosInt,
    {
        Int::PosInt(n)
    }
}

/// One node of a decoded tree. Floating-point numbers are held by their bit
/// patterns; strings by their raw bytes, which need not be valid UTF-8.
#[derive(Debug)]
pub enum Value {
    Nil,
    Boolean(bool),
    Integer(Int),
    F32(u32),
    F64(u64),
    String(Vec<u8>),
    Binary(Vec<u8>),
    Array(Vec<Value>),
    Mapping(Vec<(Value, Value)>),
    Ext(i8, Vec<u8>),
}

/// The kind of a value, one per variant of `Value`.
#[derive(Clone, Copy, Debug, PartialEq, Eq, Structural)]
pub enum Kind {
    Nil,
    Boolean,
    Integer,
    F32,
    F64,
    String,
    Binary,
    Array,
    Mapping,
    Ext,
}

/// The kind of `v`.
pub open spec fn kind_of(v: Value) -> Kind {
    match v {
        Value::Nil => Kind::Nil,
        Value::Boolean(_) => Kind::Boolean,
        Value::Integer(_) => Kind::Integer,
        Value::F32(_) => Kind::F32,
        Value::F64(_) => Kind::F64,
        Value::String(_) => Kind::String,
        Value::Binary(_) => Kind::Binary,
        Value::Array(_) => Kind::Array,
        Value::Mapping(_) => Kind::Mapping,
        Value::Ext(_, _) => Kind::Ext,
    }
}

impl Value {
    /// The kind of this value.
    pub fn kind(&self) -> (r: Kind)
        ensures
            r == kind_of(*self),
    {
        match self {
            Value::Nil => Kind::Nil,
            Value::Boolean(_) => Kind::Boolean,
            Value::Integer(_) => Kind::Integer,
            Value::F32(_) => Kind::F32,
            Value::F64(_) => Kind::F64,
            Value::String(_) => Kind::String,
            Value::Binary(_) => Kind::Binary,
            Value::Array(_) => Kind::Array,
            Value::Mapping(_) => Kind::Mapping,
            Value::Ext(_, _) => Kind::Ext,
        }
    }
}

} // verus!
