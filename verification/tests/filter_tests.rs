use lakesoul_io::expr::{CompareOp, Expression, ScalarLiteral};
use lakesoul_io::filter::{FilterError, Parser};
use lakesoul_io::schema::{FieldType, Schema, SchemaField};

fn field(name: &str, data_type: FieldType) -> SchemaField {
    SchemaField { name: name.to_string(), data_type }
}

fn nested_schema() -> Schema {
    // a: struct { b: struct { c: float64 } }, plus a few scalar columns
    Schema {
        fields: vec![
            field(
                "a",
                FieldType::Struct(vec![field(
                    "b",
                    FieldType::Struct(vec![field("c", FieldType::Float64)]),
                )]),
            ),
            field("first_name", FieldType::Utf8),
            field("salary", FieldType::Float64),
            field("id", FieldType::Int64),
        ],
    }
}

#[test]
fn test_filter_parser() {
    let s = String::from("or(lt(a.b.c, 2.0), gt(a.b.c, 3.0))");
    let (op, left, right) = Parser::parse_filter_str(s).unwrap();
    assert_eq!(op, "or");
    assert_eq!(left, "lt(a.b.c, 2.0)");
    assert_eq!(right, "gt(a.b.c, 3.0)");
}

#[test]
fn split_not_keeps_single_argument() {
    let s = String::from("not(isnull(salary))");
    let (op, left, right) = Parser::parse_filter_str(s).unwrap();
    assert_eq!(op, "not");
    assert_eq!(left, "");
    assert_eq!(right, "isnull(salary)");
}

#[test]
fn split_rejects_missing_open_paren() {
    assert_eq!(
        Parser::parse_filter_str(String::from("noparens")),
        Err(FilterError::Malformed)
    );
}

#[test]
fn split_rejects_unbalanced_body() {
    assert_eq!(
        Parser::parse_filter_str(String::from("and(eq(a, 1)))(, eq(b, 2))")),
        Err(FilterError::Malformed)
    );
    assert_eq!(
        Parser::parse_filter_str(String::from("eq(a, 1")),
        Err(FilterError::Malformed)
    );
}

#[test]
fn split_skips_commas_inside_nested_literals() {
    // commas inside a child's byte-array literal sit behind the child's
    // parentheses, so the top-level split ignores them
    let s = String::from("and(eq(b, [1, 2]), gt(id, 0))");
    let (op, left, right) = Parser::parse_filter_str(s).unwrap();
    assert_eq!(op, "and");
    assert_eq!(left, "eq(b, [1, 2])");
    assert_eq!(right, "gt(id, 0)");
}

#[test]
fn compile_nested_comparison() {
    let schema = nested_schema();
    let e = Parser::parse(String::from("lt(a.b.c, 2.0)"), &schema).unwrap();
    let expected = Expression::Compare(
        CompareOp::Less,
        Box::new(Expression::FieldAccess(
            Box::new(Expression::FieldAccess(
                Box::new(Expression::Column("a".to_string())),
                "b".to_string(),
            )),
            "c".to_string(),
        )),
        ScalarLiteral::Float64Text("2.0".to_string()),
    );
    assert_eq!(e, expected);
}

#[test]
fn compile_is_deterministic() {
    let schema = nested_schema();
    let s = "or(lt(a.b.c, 2.0), gt(a.b.c, 3.0))";
    let e1 = Parser::parse(String::from(s), &schema).unwrap();
    let e2 = Parser::parse(String::from(s), &schema).unwrap();
    assert_eq!(e1, e2);
}

#[test]
fn unresolvable_field_compiles_to_constant_false() {
    let schema = nested_schema();
    let e = Parser::parse(String::from("eq(no_such_column, 5)"), &schema).unwrap();
    assert_eq!(e, Expression::Const(false));
}

#[test]
fn null_comparisons_compile_to_null_tests() {
    let schema = nested_schema();
    assert_eq!(
        Parser::parse(String::from("eq(id, null)"), &schema).unwrap(),
        Expression::IsNull(Box::new(Expression::Column("id".to_string())))
    );
    assert_eq!(
        Parser::parse(String::from("noteq(id, null)"), &schema).unwrap(),
        Expression::IsNotNull(Box::new(Expression::Column("id".to_string())))
    );
    // any other operator against null does not filter
    assert_eq!(
        Parser::parse(String::from("gt(id, null)"), &schema).unwrap(),
        Expression::Const(true)
    );
}

#[test]
fn utf8_literal_strips_fixed_framing() {
    let schema = nested_schema();
    let e = Parser::parse(String::from("eq(first_name, strlit(\"Amanda\"))"), &schema).unwrap();
    assert_eq!(
        e,
        Expression::Compare(
            CompareOp::Equal,
            Box::new(Expression::Column("first_name".to_string())),
            ScalarLiteral::Utf8("Amanda".to_string()),
        )
    );
}

#[test]
fn utf8_literal_shorter_than_framing_is_rejected() {
    let schema = nested_schema();
    assert_eq!(
        Parser::parse(String::from("eq(first_name, short)"), &schema),
        Err(FilterError::Malformed)
    );
}

#[test]
fn float_literal_text_is_validated() {
    let schema = nested_schema();
    assert_eq!(
        Parser::parse(String::from("gteq(salary, abc)"), &schema),
        Err(FilterError::Coercion)
    );
    assert!(Parser::parse(String::from("gteq(salary, -1.5e3)"), &schema).is_ok());
    assert!(Parser::parse(String::from("gteq(salary, inf)"), &schema).is_ok());
}

#[test]
fn and_combines_both_sides() {
    let schema = nested_schema();
    let e = Parser::parse(
        String::from("and(gt(id, 3), lt(id, 10))"),
        &schema,
    )
    .unwrap();
    match e {
        Expression::And(l, r) => {
            assert_eq!(
                *l,
                Expression::Compare(
                    CompareOp::Greater,
                    Box::new(Expression::Column("id".to_string())),
                    ScalarLiteral::Int64(3),
                )
            );
            assert_eq!(
                *r,
                Expression::Compare(
                    CompareOp::Less,
                    Box::new(Expression::Column("id".to_string())),
                    ScalarLiteral::Int64(10),
                )
            );
        }
        other => panic!("expected a conjunction, got {:?}", other),
    }
}
