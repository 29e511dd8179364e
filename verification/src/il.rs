//! Intermediate-language statements attached to mnemonics.

use vstd::prelude::*;

use crate::value::Value;
use crate::value::ValueV;
use crate::value::Variable;
use crate::value::VariableV;

verus! {

/// Operation of an expression statement.
#[derive(Debug)]
pub enum Operation {
    Add(Value, Value),
    Subtract(Value, Value),
    And(Value, Value),
    LessOrEqualUnsigned(Value, Value),
    Move(Value),
    Call(Value),
}

/// Mathematical image of an [`Operation`].
pub ghost enum OperationV {
    Add(ValueV, ValueV),
    Subtract(ValueV, ValueV),
    And(ValueV, ValueV),
    LessOrEqualUnsigned(ValueV, ValueV),
    Move(ValueV),
    Call(ValueV),
}

impl View for Operation {
    type V = OperationV;

    open spec fn view(&self) -> OperationV {
        match self {
            Operation::Add(a, b) => OperationV::Add(a@, b@),
            Operation::Subtract(a, b) => OperationV::Subtract(a@, b@),
            Operation::And(a, b) => OperationV::And(a@, b@),
            Operation::LessOrEqualUnsigned(a, b) => OperationV::LessOrEqualUnsigned(a@, b@),
            Operation::Move(a) => OperationV::Move(a@),
            Operation::Call(a) => OperationV::Call(a@),
        }
    }
}

impl DeepView for Operation {
    type V = OperationV;

    open spec fn deep_view(&self) -> OperationV {
        self@
    }
}

impl Clone for Operation {
    fn clone(&self) -> (r: Self)
        ensures
            r@ == self@,
    {
        match self {
            Operation::Add(a, b) => Operation::Add(a.clone(), b.clone()),
            Operation::Subtract(a, b) => Operation::Subtract(a.clone(), b.clone()),
            Operation::And(a, b) => Operation::And(a.clone(), b.clone()),
            Operation::LessOrEqualUnsigned(a, b) => Operation::LessOrEqualUnsigned(
                a.clone(),
                b.clone(),
            ),
            Operation::Move(a) => Operation::Move(a.clone()),
            Operation::Call(a) => Operation::Call(a.clone()),
        }
    }
}

/// One IL statement: an expression assigning to a result variable, or an
/// indirect call to a target value.
#[derive(Debug)]
pub enum Statement {
    Expression { op: Operation, result: Variable },
    IndirectCall { target: Value },
}

/// Mathematical image of a [`Statement`].
pub ghost enum StatementV {
    Expression { op: OperationV, result: VariableV },
    IndirectCall { target: ValueV },
}

impl View for Statement {
    type V = StatementV;

    open spec fn view(&self) -> StatementV {
        match self {
            Statement::Expression { op, result } => StatementV::Expression {
                op: op@,
                result: result@,
            },
            Statement::IndirectCall { target } => StatementV::IndirectCall { target: target@ },
        }
    }
}

impl DeepView for Statement {
    type V = StatementV;

    open spec fn deep_view(&self) -> StatementV {
        self@
    }
}

impl Clone for Statement {
    fn clone(&self) -> (r: Self)
        ensures
            r@ == self@,
    {
        match self {
            Statement::Expression { op, result } => Statement::Expression {
                op: op.clone(),
                result: result.clone(),
            },
            Statement::IndirectCall { target } => Statement::IndirectCall {
                target: target.clone(),
            },
        }
    }
}

} // verus!
