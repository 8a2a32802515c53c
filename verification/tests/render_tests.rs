use lakesoul_io::expr::ScalarLiteral;
use lakesoul_io::filter::Parser;
use lakesoul_io::render::{render_binary, render_literal};
use lakesoul_io::schema::{FieldType, SchemaField};

fn field(name: &str, data_type: FieldType) -> SchemaField {
    SchemaField { name: name.to_string(), data_type }
}

fn round_trips(f: &SchemaField, text: &str) {
    let lit = Parser::parse_literal(f, text).unwrap();
    let rendered = render_literal(f, &lit).unwrap();
    assert_eq!(Parser::parse_literal(f, &rendered), Ok(lit));
}

#[test]
fn coercion_round_trips_for_every_supported_type() {
    round_trips(&field("b", FieldType::Boolean), "true");
    round_trips(&field("b", FieldType::Boolean), "false");
    round_trips(&field("i", FieldType::Int8), "-7");
    round_trips(&field("i", FieldType::Int16), "1024");
    round_trips(&field("i", FieldType::Int32), "-2147483648");
    round_trips(&field("i", FieldType::Int64), "9223372036854775807");
    round_trips(&field("d", FieldType::Date32), "19000");
    round_trips(&field("t", FieldType::TimestampMicrosecond), "1700000000000000");
    round_trips(&field("f", FieldType::Float32), "2.0");
    round_trips(&field("f", FieldType::Float64), "-1.5e-3");
    round_trips(&field("f", FieldType::Float64), "inf");
    round_trips(&field("x", FieldType::Decimal128(12, 2)), "314159");
    round_trips(&field("y", FieldType::Binary), "[0, -1, 127]");
    round_trips(&field("y", FieldType::Binary), "[]");
    round_trips(&field("y", FieldType::Binary), "no brackets here");
    round_trips(&field("s", FieldType::Utf8), "strlit(\"Jordan\")");
    round_trips(&field("o", FieldType::Struct(Vec::new())), "opaque text");
}

#[test]
fn high_precision_decimal_round_trips_through_byte_array() {
    let f = field("d", FieldType::Decimal128(38, 10));
    let value: i128 = -123456789012345678901234567890i128;
    let bytes = value.to_be_bytes().to_vec();
    let text = render_binary(&bytes);
    let lit = Parser::parse_literal(&f, &text).unwrap();
    assert_eq!(lit, ScalarLiteral::Decimal128(value, 38, 10));
    let rendered = render_literal(&f, &lit).unwrap();
    assert_eq!(Parser::parse_literal(&f, &rendered), Ok(lit));
}

#[test]
fn rendered_binary_lists_signed_bytes() {
    assert_eq!(render_binary(&vec![0u8, 255, 127]), "[0,-1,127]");
    assert_eq!(render_binary(&Vec::new()), "[]");
}

#[test]
fn render_rejects_a_literal_of_the_wrong_kind() {
    let f = field("i", FieldType::Int8);
    assert_eq!(render_literal(&f, &ScalarLiteral::Boolean(true)), None);
}
