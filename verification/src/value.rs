//! R-values and the internal `Value` variant.
//!
//! The decoder reports operands and jump targets as [`Rvalue`]s; the core
//! stores jump targets as [`Value`]s. Both distinguish constants, named
//! variables and the undefined value.

use vstd::prelude::*;

use crate::error::Error;

verus! {

/// Predicate attached to a control-flow edge, governing the transfer.
/// The core carries guards through unchanged and never evaluates them.
#[derive(Clone, Copy, Debug, PartialEq, Eq, Structural)]
pub enum Guard {
    True,
    False,
}

impl Guard {
    /// The guard of an unconditional transfer.
    pub fn always() -> (g: Guard)
        ensures
            g == Guard::True,
    {
        Guard::True
    }

    /// The guard of a transfer that never happens.
    pub fn never() -> (g: Guard)
        ensures
            g == Guard::False,
    {
        Guard::False
    }
}

/// A constant with an explicit bit width.
#[derive(Clone, Copy, Debug, PartialEq, Eq, Structural)]
pub struct Constant {
    pub value: u64,
    pub bits: usize,
}

impl Constant {
    /// Builds a constant; a zero bit width is rejected.
    pub fn new(value: u64, bits: usize) -> (r: Result<Constant, Error>)
        ensures
            bits != 0 ==> r == Ok::<Constant, Error>((Constant { value, bits })),
            bits == 0 ==> r == Err::<Constant, Error>(Error::ValueConstructionFailure),
    {
        if bits == 0 {
            Err(Error::ValueConstructionFailure)
        } else {
            Ok(Constant { value, bits })
        }
    }
}

/// A named variable with a bit width and an optional SSA subscript.
#[derive(Debug)]
pub struct Variable {
    pub name: String,
    pub bits: usize,
    pub subscript: Option<usize>,
}

/// Mathematical image of a [`Variable`]: the name as a character sequence.
pub ghost struct VariableV {
    pub name: Seq<char>,
    pub bits: usize,
    pub subscript: Option<usize>,
}

impl View for Variable {
    type V = VariableV;

    open spec fn view(&self) -> VariableV {
        VariableV { name: self.name@, bits: self.bits, subscript: self.subscript }
    }
}

impl DeepView for Variable {
    type V = VariableV;

    open spec fn deep_view(&self) -> VariableV {
        self@
    }
}

impl Clone for Variable {
    fn clone(&self) -> (r: Self)
        ensures
            r@ == self@,
    {
        Variable { name: self.name.clone(), bits: self.bits, subscript: self.subscript }
    }
}

impl PartialEq for Variable {
    fn eq(&self, other: &Variable) -> (r: bool) {
        self.name == other.name && self.bits == other.bits && self.subscript == other.subscript
    }
}

impl vstd::std_specs::cmp::PartialEqSpecImpl for Variable {
    open spec fn obeys_eq_spec() -> bool {
        true
    }

    open spec fn eq_spec(&self, other: &Variable) -> bool {
        self@ == other@
    }
}

impl Variable {
    /// Builds a variable; a zero bit width is rejected.
    pub fn new(name: String, bits: usize, subscript: Option<usize>) -> (r: Result<
        Variable,
        Error,
    >)
        ensures
            bits != 0 ==> (r matches Ok(v) && v@ == (VariableV {
                name: name@,
                bits,
                subscript,
            })),
            bits == 0 ==> (r matches Err(e) && e == Error::ValueConstructionFailure),
    {
        if bits == 0 {
            Err(Error::ValueConstructionFailure)
        } else {
            Ok(Variable { name, bits, subscript })
        }
    }
}

/// An r-value as the decoder reports it: a constant, a variable or undefined.
#[derive(Debug)]
pub enum Rvalue {
    Constant { value: u64, size: usize },
    Variable { name: String, size: usize, subscript: Option<usize>, offset: usize },
    Undefined,
}

/// Mathematical image of an [`Rvalue`].
pub ghost enum RvalueV {
    Constant { value: u64, size: usize },
    Variable { name: Seq<char>, size: usize, subscript: Option<usize>, offset: usize },
    Undefined,
}

impl View for Rvalue {
    type V = RvalueV;

    open spec fn view(&self) -> RvalueV {
        match self {
            Rvalue::Constant { value, size } => RvalueV::Constant { value: *value, size: *size },
            Rvalue::Variable { name, size, subscript, offset } => RvalueV::Variable {
                name: name@,
                size: *size,
                subscript: *subscript,
                offset: *offset,
            },
            Rvalue::Undefined => RvalueV::Undefined,
        }
    }
}

impl DeepView for Rvalue {
    type V = RvalueV;

    open spec fn deep_view(&self) -> RvalueV {
        self@
    }
}

impl Clone for Rvalue {
    fn clone(&self) -> (r: Self)
        ensures
            r@ == self@,
    {
        match self {
            Rvalue::Constant { value, size } => Rvalue::Constant { value: *value, size: *size },
            Rvalue::Variable { name, size, subscript, offset } => Rvalue::Variable {
                name: name.clone(),
                size: *size,
                subscript: *subscript,
                offset: *offset,
            },
            Rvalue::Undefined => Rvalue::Undefined,
        }
    }
}

impl Rvalue {
    /// A 64-bit constant.
    pub fn new_u64(value: u64) -> (r: Rvalue)
        ensures
            r@ == (RvalueV::Constant { value, size: 64 }),
    {
        Rvalue::Constant { value, size: 64 }
    }

    /// A 32-bit constant.
    pub fn new_u32(value: u32) -> (r: Rvalue)
        ensures
            r@ == (RvalueV::Constant { value: value as u64, size: 32 }),
    {
        Rvalue::Constant { value: value as u64, size: 32 }
    }
}

/// A jump target as the core stores it.
#[derive(Debug)]
pub enum Value {
    Constant(Constant),
    Variable(Variable),
    Undefined,
}

/// Mathematical image of a [`Value`].
pub ghost enum ValueV {
    Constant(Constant),
    Variable(VariableV),
    Undefined,
}

impl View for Value {
    type V = ValueV;

    open spec fn view(&self) -> ValueV {
        match self {
            Value::Constant(c) => ValueV::Constant(*c),
            Value::Variable(v) => ValueV::Variable(v@),
            Value::Undefined => ValueV::Undefined,
        }
    }
}

impl DeepView for Value {
    type V = ValueV;

    open spec fn deep_view(&self) -> ValueV {
        self@
    }
}

impl Clone for Value {
    fn clone(&self) -> (r: Self)
        ensures
            r@ == self@,
    {
        match self {
            Value::Constant(c) => Value::Constant(*c),
            Value::Variable(v) => Value::Variable(v.clone()),
            Value::Undefined => Value::Undefined,
        }
    }
}

impl PartialEq for Value {
    fn eq(&self, other: &Value) -> (r: bool) {
        match (self, other) {
            (Value::Constant(a), Value::Constant(b)) => a == b,
            (Value::Variable(a), Value::Variable(b)) => a == b,
            (Value::Undefined, Value::Undefined) => true,
            _ => false,
        }
    }
}

impl vstd::std_specs::cmp::PartialEqSpecImpl for Value {
    open spec fn obeys_eq_spec() -> bool {
        true
    }

    open spec fn eq_spec(&self, other: &Value) -> bool {
        self@ == other@
    }
}

impl Value {
    /// A constant jump target; a zero bit width is rejected.
    pub fn val(value: u64, size: usize) -> (r: Result<Value, Error>)
        ensures
            size != 0 ==> (r matches Ok(v) && v@ == ValueV::Constant(
                (Constant { value, bits: size }),
            )),
            size == 0 ==> (r matches Err(e) && e == Error::ValueConstructionFailure),
    {
        match Constant::new(value, size) {
            Ok(c) => Ok(Value::Constant(c)),
            Err(e) => Err(e),
        }
    }

    /// A symbolic jump target; a zero bit width is rejected.
    pub fn var(name: String, bits: usize, subscript: Option<usize>) -> (r: Result<Value, Error>)
        ensures
            bits != 0 ==> (r matches Ok(v) && v@ == ValueV::Variable(
                (VariableV { name: name@, bits, subscript }),
            )),
            bits == 0 ==> (r matches Err(e) && e == Error::ValueConstructionFailure),
    {
        match Variable::new(name, bits, subscript) {
            Ok(v) => Ok(Value::Variable(v)),
            Err(e) => Err(e),
        }
    }

    /// The undefined jump target.
    pub fn undef() -> (r: Value)
        ensures
            r@ == ValueV::Undefined,
    {
        Value::Undefined
    }
}

} // verus!
