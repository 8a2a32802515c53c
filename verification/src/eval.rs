//! Row-level meaning of a compiled predicate, and the boolean-algebra laws
//! that the compiler's output obeys.
//!
//! A batch is modeled as a sequence of rows; a row assigns a cell to each
//! field path.  Predicates evaluate in three-valued logic: a comparison
//! against an absent (null) cell is unknown, and only rows on which the
//! predicate is definitely true are matched.  Orderings that the engine
//! defines outside this library (text collation, byte order, floating-point
//! order) are left unknown here; the laws below hold regardless.

use vstd::prelude::*;
use crate::expr::{CompareOp, ExprV, LiteralV};
use crate::filter::{spec_parse, spec_resolve, spec_split, FilterError};
use crate::schema::SchemaField;

verus! {

/// One decoded cell: absent, or a plain value.
pub ghost enum CellV {
    Null,
    Bool(bool),
    Int(int),
    Bytes(Seq<u8>),
    Text(Seq<char>),
}

/// One decoded row: cells addressed by field path.
pub ghost struct RowV {
    pub cells: Map<Seq<Seq<char>>, CellV>,
}

/// The field path a reference expression reads.
pub open spec fn ref_path(e: ExprV) -> Seq<Seq<char>>
    decreases e,
{
    match e {
        ExprV::Column(n) => seq![n],
        ExprV::FieldAccess(b, n) => ref_path(*b).push(n),
        _ => Seq::empty(),
    }
}

/// Cell of `row` at `path`; a column absent from the row is null.
pub open spec fn cell_at(row: RowV, path: Seq<Seq<char>>) -> CellV {
    if row.cells.contains_key(path) {
        row.cells[path]
    } else {
        CellV::Null
    }
}

/// A literal as the cell value it compares against.
pub open spec fn lit_cell(l: LiteralV) -> CellV {
    match l {
        LiteralV::Boolean(b) => CellV::Bool(b),
        LiteralV::Int8(v) => CellV::Int(v as int),
        LiteralV::Int16(v) => CellV::Int(v as int),
        LiteralV::Int32(v) => CellV::Int(v as int),
        LiteralV::Int64(v) => CellV::Int(v as int),
        LiteralV::Float32Text(t) => CellV::Text(t),
        LiteralV::Float64Text(t) => CellV::Text(t),
        LiteralV::Decimal128(v, _, _) => CellV::Int(v as int),
        LiteralV::Binary(o) => match o {
            Some(bs) => CellV::Bytes(bs),
            None => CellV::Null,
        },
        LiteralV::Date32(v) => CellV::Int(v as int),
        LiteralV::TimestampMicrosecond(v) => CellV::Int(v as int),
        LiteralV::Utf8(t) => CellV::Text(t),
    }
}

/// Three-valued comparison: unknown on nulls, on mismatched kinds and on
/// orderings the engine defines outside this library.
pub open spec fn cmp3(op: CompareOp, a: CellV, b: CellV) -> Option<bool> {
    match (a, b) {
        (CellV::Int(x), CellV::Int(y)) => match op {
            CompareOp::Equal => Some(x == y),
            CompareOp::NotEqual => Some(x != y),
            CompareOp::Greater => Some(x > y),
            CompareOp::GreaterOrEqual => Some(x >= y),
            CompareOp::Less => Some(x < y),
            CompareOp::LessOrEqual => Some(x <= y),
        },
        (CellV::Bool(x), CellV::Bool(y)) => match op {
            CompareOp::Equal => Some(x == y),
            CompareOp::NotEqual => Some(x != y),
            _ => None,
        },
        (CellV::Text(x), CellV::Text(y)) => match op {
            CompareOp::Equal => Some(x == y),
            CompareOp::NotEqual => Some(x != y),
            _ => None,
        },
        (CellV::Bytes(x), CellV::Bytes(y)) => match op {
            CompareOp::Equal => Some(x == y),
            CompareOp::NotEqual => Some(x != y),
            _ => None,
        },
        _ => None,
    }
}

pub open spec fn and3(x: Option<bool>, y: Option<bool>) -> Option<bool> {
    if x == Some(false) || y == Some(false) {
        Some(false)
    } else if x == Some(true) && y == Some(true) {
        Some(true)
    } else {
        None
    }
}

pub open spec fn or3(x: Option<bool>, y: Option<bool>) -> Option<bool> {
    if x == Some(true) || y == Some(true) {
        Some(true)
    } else if x == Some(false) && y == Some(false) {
        Some(false)
    } else {
        None
    }
}

pub open spec fn not3(x: Option<bool>) -> Option<bool> {
    match x {
        Some(b) => Some(!b),
        None => None,
    }
}

/// Truth value of a predicate on one row, three-valued.
pub open spec fn eval(e: ExprV, row: RowV) -> Option<bool>
    decreases e,
{
    match e {
        ExprV::Const(b) => Some(b),
        ExprV::IsNull(r) => Some(cell_at(row, ref_path(*r)) is Null),
        ExprV::IsNotNull(r) => Some(!(cell_at(row, ref_path(*r)) is Null)),
        ExprV::Compare(op, r, lit) => cmp3(op, cell_at(row, ref_path(*r)), lit_cell(lit)),
        ExprV::Not(i) => not3(eval(*i, row)),
        ExprV::And(a, b) => and3(eval(*a, row), eval(*b, row)),
        ExprV::Or(a, b) => or3(eval(*a, row), eval(*b, row)),
        ExprV::Column(_) => None,
        ExprV::FieldAccess(_, _) => None,
    }
}

/// A row is matched exactly when the predicate is definitely true on it.
pub open spec fn keeps(e: ExprV, row: RowV) -> bool {
    eval(e, row) == Some(true)
}

/// Number of matched rows of a batch.
pub open spec fn match_count(e: ExprV, rows: Seq<RowV>) -> int
    decreases rows.len(),
{
    if rows.len() == 0 {
        0
    } else {
        match_count(e, rows.drop_last()) + if keeps(e, rows.last()) {
            1int
        } else {
            0int
        }
    }
}

proof fn lemma_const_count(b: bool, rows: Seq<RowV>)
    ensures
        match_count(ExprV::Const(b), rows) == if b {
            rows.len() as int
        } else {
            0
        },
    decreases rows.len(),
{
    if rows.len() > 0 {
        lemma_const_count(b, rows.drop_last());
    }
}

/// Law: a leaf predicate whose field path does not resolve against the
/// schema compiles to constant-false, and constant-false matches zero rows
/// of any batch.
pub proof fn lemma_unresolved_matches_nothing(
    s: Seq<char>,
    fields: Seq<SchemaField>,
    rows: Seq<RowV>,
)
    requires
        spec_split(s) matches Ok(t) && t.0 != "or"@ && t.0 != "and"@ && t.0 != "not"@
            && spec_resolve(t.1, fields) is None,
    ensures
        spec_parse(s, fields) == Ok::<ExprV, FilterError>(ExprV::Const(false)),
        match_count(ExprV::Const(false), rows) == 0,
{
    lemma_const_count(false, rows);
}

/// Law: the null test and its negation partition every batch — on each batch
/// the matched counts of `is null` and `is not null` over the same field
/// reference sum to the row count.
pub proof fn lemma_null_tests_partition(r: ExprV, rows: Seq<RowV>)
    ensures
        match_count(ExprV::IsNull(Box::new(r)), rows) + match_count(
            ExprV::IsNotNull(Box::new(r)),
            rows,
        ) == rows.len(),
    decreases rows.len(),
{
    if rows.len() > 0 {
        lemma_null_tests_partition(r, rows.drop_last());
    }
}

/// Law: inclusion–exclusion for the boolean combinators — for any two
/// predicates and any batch, the matched counts of the two predicates sum to
/// the matched counts of their conjunction and disjunction.
pub proof fn lemma_and_or_inclusion_exclusion(p: ExprV, q: ExprV, rows: Seq<RowV>)
    ensures
        match_count(p, rows) + match_count(q, rows) == match_count(
            ExprV::And(Box::new(p), Box::new(q)),
            rows,
        ) + match_count(ExprV::Or(Box::new(p), Box::new(q)), rows),
    decreases rows.len(),
{
    if rows.len() > 0 {
        lemma_and_or_inclusion_exclusion(p, q, rows.drop_last());
    }
}

/// Law: NOT is a total complement on every batch over which the predicate
/// evaluates to a definite truth value — there the matched counts of a
/// predicate and its negation sum to the row count.
pub proof fn lemma_not_complement(p: ExprV, rows: Seq<RowV>)
    requires
        forall|i: int| 0 <= i < rows.len() ==> eval(p, rows[i]) is Some,
    ensures
        match_count(p, rows) + match_count(ExprV::Not(Box::new(p)), rows) == rows.len(),
    decreases rows.len(),
{
    if rows.len() > 0 {
        assert(eval(p, rows.last()) is Some);
        lemma_not_complement(p, rows.drop_last());
    }
}

} // verus!
