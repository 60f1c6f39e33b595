//! Native scalar policies: one typed expression engine for execution and inspection.
//! No filesystem, database, editor, or assistant dependency belongs in this library.
pub mod text;
pub mod collections;
pub mod graph;
pub mod inputs;
mod lexer;
mod syntax;
mod cancel;
mod handles;
mod execution;
pub mod policy_review;
pub mod report;
pub mod bound_report;
pub mod project;
pub mod project_review;
pub mod session;

pub use collections::{IdMap, IdSet};
pub use cancel::CancellationToken;
pub use execution::{evaluate, evaluate_bound, evaluate_bound_observed, evaluate_observed, Limits,
    ObservationOptions, ObservedOutcome, Outcome, TraceStep};
pub use syntax::{compile_expression, compile_with_inputs, parse_input_literal, CompiledExpression};
pub use inputs::{InputBindings, InputReference, InputSpec, InputType, MAX_INPUTS, MAX_INPUT_TEXT_UNITS};

use vstd::prelude::*;

verus! {

/// Largest magnitude of the language's integer domain (2^53 - 1).
pub const MAX_INT: i64 = 9_007_199_254_740_991;
/// Largest accepted source, in UTF-16 code units.
pub const MAX_SOURCE_UNITS: usize = 262_144;
/// Largest number of tokens in one expression.
pub const MAX_TOKENS: usize = 20_000;
/// Largest expression tree depth and nesting.
pub const MAX_DEPTH: usize = 128;

/// UTF-16 offsets, end-exclusive, and one-based line/column, relative to exact input.
#[derive(Clone, Copy, Debug, PartialEq, Eq, Structural)]
pub struct Span {
    pub start: usize,
    pub end: usize,
    pub line: usize,
    pub column: usize,
}

/// A coded failure with a human-readable message and the span it concerns.
#[derive(Clone, Debug, PartialEq, Eq)]
pub struct Diagnostic {
    pub code: &'static str,
    pub message: String,
    pub span: Span,
}

impl Diagnostic {
    pub(crate) fn new(code: &'static str, message: String, span: Span) -> (d: Self)
        ensures d.code == code, d.message@ == message@, d.span == span,
    {
        Diagnostic { code, message, span }
    }

    /// An equal copy.
    pub fn duplicate(&self) -> (d: Self)
        ensures d.code == self.code, d.message@ == self.message@, d.span == self.span,
    {
        Diagnostic { code: self.code, message: self.message.clone(), span: self.span }
    }

    /// Whether this diagnostic carries exactly the code, message and span of `f`.
    pub open spec fn reports(self, f: Refusal) -> bool {
        self.code == f.code && self.message@ == f.message && self.span == f.span
    }
}

/// What a diagnostic says, mathematically: code, message and span.
pub struct Refusal {
    pub code: &'static str,
    pub message: Seq<char>,
    pub span: Span,
}

/// The three value types of the language.
#[derive(Clone, Copy, Debug, PartialEq, Eq, Structural)]
pub enum Type { Int, Bool, String }

impl Type {
    pub open spec fn spec_name(self) -> Seq<char> {
        match self { Type::Int => "Int"@, Type::Bool => "Bool"@, Type::String => "String"@ }
    }

    /// The type's name.
    pub fn name(self) -> (s: &'static str)
        ensures s@ == self.spec_name(),
    {
        match self { Type::Int => "Int", Type::Bool => "Bool", Type::String => "String" }
    }
}

/// A value of the language. Text is a sequence of UTF-16 code units, so that unpaired
/// surrogates written with JSON escapes survive exactly.
#[derive(Clone, Debug, PartialEq, Eq)]
pub enum Value { Int(i64), Bool(bool), Text(Vec<u16>) }

/// What a value is, mathematically.
pub enum ValueModel { Int(i64), Bool(bool), Text(Seq<u16>) }

impl View for Value {
    type V = ValueModel;
    open spec fn view(&self) -> ValueModel {
        match self {
            Value::Int(n) => ValueModel::Int(*n),
            Value::Bool(b) => ValueModel::Bool(*b),
            Value::Text(t) => ValueModel::Text(t@),
        }
    }
}

/// The type of a value model.
pub open spec fn model_type(v: ValueModel) -> Type {
    match v { ValueModel::Int(_) => Type::Int, ValueModel::Bool(_) => Type::Bool, ValueModel::Text(_) => Type::String }
}

/// UTF-16 units a value carries (zero for numbers and booleans).
pub open spec fn model_text_units(v: ValueModel) -> nat {
    match v { ValueModel::Text(t) => t.len(), _ => 0 }
}

/// Equality of two UTF-16 unit sequences.
pub fn units_equal(a: &Vec<u16>, b: &Vec<u16>) -> (r: bool)
    ensures r == (a@ == b@),
{
    if a.len() != b.len() { return false; }
    let mut i: usize = 0;
    while i < a.len()
        invariant
            a@.len() == b@.len(), i <= a@.len(),
            forall|j: int| 0 <= j < i ==> a@[j] == b@[j],
        decreases a@.len() - i,
    {
        if a[i] != b[i] { return false; }
        i += 1;
    }
    assert(a@ =~= b@);
    true
}

/// Whether an integer lies in the language domain `-MAX_INT..=MAX_INT`.
pub open spec fn in_domain(n: int) -> bool { -MAX_INT <= n <= MAX_INT }

impl Value {
    /// The value's type.
    pub fn value_type(&self) -> (t: Type)
        ensures t == model_type(self@),
    {
        match self { Value::Int(_) => Type::Int, Value::Bool(_) => Type::Bool, Value::Text(_) => Type::String }
    }

    /// An equal copy.
    pub fn duplicate(&self) -> (v: Value)
        ensures v@ == self@,
    {
        match self {
            Value::Int(n) => Value::Int(*n),
            Value::Bool(b) => Value::Bool(*b),
            Value::Text(t) => {
                let c = t.clone();
                assert(c@ =~= t@);
                Value::Text(c)
            }
        }
    }

    /// Equality of two values: same variant and same contents.
    pub fn same(&self, other: &Value) -> (r: bool)
        ensures r == (self@ == other@),
    {
        match self {
            Value::Int(a) => match other { Value::Int(b) => *a == *b, _ => false },
            Value::Bool(a) => match other { Value::Bool(b) => *a == *b, _ => false },
            Value::Text(a) => match other {
                Value::Text(b) => units_equal(a, b),
                _ => false,
            },
        }
    }

    /// UTF-16 units carried (zero for numbers and booleans).
    pub fn text_units(&self) -> (n: usize)
        ensures n == model_text_units(self@),
    {
        match self { Value::Text(t) => t.len(), _ => 0 }
    }
}

} // verus!
