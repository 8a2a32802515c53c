//! Typed predicate expression trees: comparison leaves over resolved field
//! references and schema-typed scalar literals, null tests, and the boolean
//! combinators.

use vstd::prelude::*;

verus! {

/// The six comparison operators of the predicate grammar.
#[derive(Clone, Copy, Debug, PartialEq, Eq, Structural)]
pub enum CompareOp {
    Equal,
    NotEqual,
    Greater,
    GreaterOrEqual,
    Less,
    LessOrEqual,
}

/// A scalar value paired with the declared type of the field it is compared
/// against.
///
/// Floating-point fields keep the literal's validated text: the numeric value
/// is materialized outside the library, where the execution engine builds
/// physical values.
#[derive(Clone, Debug, PartialEq)]
pub enum ScalarLiteral {
    Boolean(bool),
    Int8(i8),
    Int16(i16),
    Int32(i32),
    Int64(i64),
    Float32Text(String),
    Float64Text(String),
    /// Backing value, precision, scale.
    Decimal128(i128, u8, i8),
    /// `None` is the null-equivalent absent byte array.
    Binary(Option<Vec<u8>>),
    Date32(i32),
    TimestampMicrosecond(i64),
    Utf8(String),
}

/// Mathematical image of a [`ScalarLiteral`]: text as character sequences,
/// byte arrays as byte sequences.
pub ghost enum LiteralV {
    Boolean(bool),
    Int8(i8),
    Int16(i16),
    Int32(i32),
    Int64(i64),
    Float32Text(Seq<char>),
    Float64Text(Seq<char>),
    Decimal128(i128, u8, i8),
    Binary(Option<Seq<u8>>),
    Date32(i32),
    TimestampMicrosecond(i64),
    Utf8(Seq<char>),
}

impl View for ScalarLiteral {
    type V = LiteralV;

    open spec fn view(&self) -> LiteralV {
        match self {
            ScalarLiteral::Boolean(b) => LiteralV::Boolean(*b),
            ScalarLiteral::Int8(v) => LiteralV::Int8(*v),
            ScalarLiteral::Int16(v) => LiteralV::Int16(*v),
            ScalarLiteral::Int32(v) => LiteralV::Int32(*v),
            ScalarLiteral::Int64(v) => LiteralV::Int64(*v),
            ScalarLiteral::Float32Text(t) => LiteralV::Float32Text(t@),
            ScalarLiteral::Float64Text(t) => LiteralV::Float64Text(t@),
            ScalarLiteral::Decimal128(v, p, s) => LiteralV::Decimal128(*v, *p, *s),
            ScalarLiteral::Binary(o) => LiteralV::Binary(
                match o {
                    Some(bs) => Some(bs@),
                    None => None,
                },
            ),
            ScalarLiteral::Date32(v) => LiteralV::Date32(*v),
            ScalarLiteral::TimestampMicrosecond(v) => LiteralV::TimestampMicrosecond(*v),
            ScalarLiteral::Utf8(t) => LiteralV::Utf8(t@),
        }
    }
}

/// A predicate expression tree, immutable after construction.
#[derive(Debug, PartialEq)]
pub enum Expression {
    /// Unqualified reference to a top-level column.
    Column(String),
    /// Projection of a named member out of a struct-typed sub-expression.
    FieldAccess(Box<Expression>, String),
    /// Comparison of a resolved field reference against a typed literal.
    Compare(CompareOp, Box<Expression>, ScalarLiteral),
    IsNull(Box<Expression>),
    IsNotNull(Box<Expression>),
    Not(Box<Expression>),
    And(Box<Expression>, Box<Expression>),
    Or(Box<Expression>, Box<Expression>),
    /// Constant-true or constant-false.
    Const(bool),
}

/// Mathematical image of an [`Expression`].
pub ghost enum ExprV {
    Column(Seq<char>),
    FieldAccess(Box<ExprV>, Seq<char>),
    Compare(CompareOp, Box<ExprV>, LiteralV),
    IsNull(Box<ExprV>),
    IsNotNull(Box<ExprV>),
    Not(Box<ExprV>),
    And(Box<ExprV>, Box<ExprV>),
    Or(Box<ExprV>, Box<ExprV>),
    Const(bool),
}

impl View for Expression {
    type V = ExprV;

    open spec fn view(&self) -> ExprV
        decreases self,
    {
        match self {
            Expression::Column(n) => ExprV::Column(n@),
            Expression::FieldAccess(e, n) => ExprV::FieldAccess(Box::new((**e)@), n@),
            Expression::Compare(op, e, lit) => ExprV::Compare(*op, Box::new((**e)@), lit@),
            Expression::IsNull(e) => ExprV::IsNull(Box::new((**e)@)),
            Expression::IsNotNull(e) => ExprV::IsNotNull(Box::new((**e)@)),
            Expression::Not(e) => ExprV::Not(Box::new((**e)@)),
            Expression::And(a, b) => ExprV::And(Box::new((**a)@), Box::new((**b)@)),
            Expression::Or(a, b) => ExprV::Or(Box::new((**a)@), Box::new((**b)@)),
            Expression::Const(b) => ExprV::Const(*b),
        }
    }
}

} // verus!
