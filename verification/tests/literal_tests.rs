use lakesoul_io::expr::ScalarLiteral;
use lakesoul_io::filter::{FilterError, Parser};
use lakesoul_io::number::{parse_int_in_range, render_int};
use lakesoul_io::schema::{FieldType, SchemaField};

fn field(name: &str, data_type: FieldType) -> SchemaField {
    SchemaField { name: name.to_string(), data_type }
}

#[test]
fn byte_array_empty_brackets() {
    assert_eq!(Parser::parse_binary_array("[ ]"), Ok(Some(Vec::new())));
    assert_eq!(Parser::parse_binary_array("[]"), Ok(Some(Vec::new())));
}

#[test]
fn byte_array_negative_values_recover_bytes() {
    assert_eq!(
        Parser::parse_binary_array("[0, -1, 127]"),
        Ok(Some(vec![0u8, 255, 127]))
    );
    assert_eq!(
        Parser::parse_binary_array("[-128, 1]"),
        Ok(Some(vec![128u8, 1]))
    );
}

#[test]
fn byte_array_without_bracket_is_absent() {
    assert_eq!(Parser::parse_binary_array("null-ish"), Ok(None));
}

#[test]
fn byte_array_bad_token_is_an_error() {
    assert_eq!(
        Parser::parse_binary_array("[1, boom]"),
        Err(FilterError::Coercion)
    );
    // out of the signed byte range
    assert_eq!(
        Parser::parse_binary_array("[300]"),
        Err(FilterError::Coercion)
    );
}

#[test]
fn decimal_low_precision_parses_integer_text() {
    let f = field("d", FieldType::Decimal128(10, 2));
    assert_eq!(
        Parser::parse_literal(&f, "123456"),
        Ok(ScalarLiteral::Decimal128(123456, 10, 2))
    );
}

#[test]
fn decimal_high_precision_decodes_big_endian_bytes() {
    // the big-endian encoding of a known 128-bit integer, precision > 18
    let value: i128 = 0x1234_5678_90AB_CDEF_1122_3344_5566_7788;
    let bytes = value.to_be_bytes();
    let tokens: Vec<String> = bytes.iter().map(|b| (*b as i8).to_string()).collect();
    let text = format!("[{}]", tokens.join(", "));
    let f = field("d", FieldType::Decimal128(38, 0));
    assert_eq!(
        Parser::parse_literal(&f, &text),
        Ok(ScalarLiteral::Decimal128(value, 38, 0))
    );
}

#[test]
fn decimal_high_precision_negative_value() {
    let value: i128 = -77;
    let bytes = value.to_be_bytes();
    let tokens: Vec<String> = bytes.iter().map(|b| (*b as i8).to_string()).collect();
    let text = format!("[{}]", tokens.join(","));
    let f = field("d", FieldType::Decimal128(20, 4));
    assert_eq!(
        Parser::parse_literal(&f, &text),
        Ok(ScalarLiteral::Decimal128(-77, 20, 4))
    );
}

#[test]
fn integer_kinds_parse_and_reject() {
    assert_eq!(
        Parser::parse_literal(&field("x", FieldType::Int8), "-128"),
        Ok(ScalarLiteral::Int8(-128))
    );
    assert_eq!(
        Parser::parse_literal(&field("x", FieldType::Int8), "128"),
        Err(FilterError::Coercion)
    );
    assert_eq!(
        Parser::parse_literal(&field("x", FieldType::Int32), "2147483647"),
        Ok(ScalarLiteral::Int32(i32::MAX))
    );
    assert_eq!(
        Parser::parse_literal(&field("x", FieldType::Int64), "12x"),
        Err(FilterError::Coercion)
    );
    assert_eq!(
        Parser::parse_literal(&field("x", FieldType::Date32), "19000"),
        Ok(ScalarLiteral::Date32(19000))
    );
    assert_eq!(
        Parser::parse_literal(&field("x", FieldType::TimestampMicrosecond), "1700000000000000"),
        Ok(ScalarLiteral::TimestampMicrosecond(1_700_000_000_000_000))
    );
}

#[test]
fn boolean_parses_exact_spelling_only() {
    assert_eq!(
        Parser::parse_literal(&field("b", FieldType::Boolean), "true"),
        Ok(ScalarLiteral::Boolean(true))
    );
    assert_eq!(
        Parser::parse_literal(&field("b", FieldType::Boolean), "False"),
        Err(FilterError::Coercion)
    );
}

#[test]
fn unlisted_type_falls_back_to_opaque_text() {
    let f = field("s", FieldType::Struct(Vec::new()));
    assert_eq!(
        Parser::parse_literal(&f, "anything"),
        Ok(ScalarLiteral::Utf8("anything".to_string()))
    );
}

#[test]
fn integer_text_round_trips_through_rendering() {
    for v in [0i128, 7, -42, i128::MAX, i128::MIN] {
        let text = render_int(v);
        assert_eq!(parse_int_in_range(&text, i128::MIN, i128::MAX), Some(v));
        assert_eq!(text, v.to_string());
    }
}

#[test]
fn plus_sign_and_bad_digits() {
    assert_eq!(parse_int_in_range("+41", -100, 100), Some(41));
    assert_eq!(parse_int_in_range("4 1", -100, 100), None);
    assert_eq!(parse_int_in_range("", -100, 100), None);
    assert_eq!(parse_int_in_range("-", -100, 100), None);
}
