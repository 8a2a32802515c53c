//! Re-serialization of typed literals into the textual encodings the filter
//! compiler's coercion accepts.
//!
//! The contract of [`render_literal`] is the round-trip law: for
//! every supported field type, a literal that coercion produced renders to
//! text that coerces back to the very same literal.

use vstd::prelude::*;
use vstd::string::*;
use crate::expr::{LiteralV, ScalarLiteral};
use crate::filter::{
    bytes_of_tokens, spec_bytes, spec_coerce, split_on, strip_spaces, token_byte, FilterError,
};
use crate::float::is_float_text;
use crate::number::{
    dec_digits, is_digit, lemma_dec_digits_are_digits, lemma_render_int_roundtrip, render_int,
    spec_render_int,
};
use crate::schema::{FieldType, SchemaField};
use crate::text::push_char;

verus! {

/// Characters that may stand inside a rendered byte-token list.
pub open spec fn token_char(c: char) -> bool {
    is_digit(c) || c == '-' || c == ','
}

proof fn lemma_digit_chars_plain(c: char)
    requires
        is_digit(c),
    ensures
        c != '[' && c != ']' && c != ' ' && c != ',' && c != '-',
{
}

proof fn lemma_render_int_chars(v: int)
    ensures
        forall|i: int|
            0 <= i < spec_render_int(v).len() ==> token_char(#[trigger] spec_render_int(v)[i]),
        forall|i: int| 0 <= i < spec_render_int(v).len() ==> #[trigger] spec_render_int(v)[i]
            != ',',
{
    if v < 0 {
        lemma_dec_digits_are_digits(-v);
        assert forall|i: int| 0 <= i < spec_render_int(v).len() implies token_char(
            #[trigger] spec_render_int(v)[i],
        ) && spec_render_int(v)[i] != ',' by {
            if i > 0 {
                assert(spec_render_int(v)[i] == dec_digits(-v)[i - 1]);
                assert(is_digit(dec_digits(-v)[i - 1]));
            }
        }
    } else {
        lemma_dec_digits_are_digits(v);
        assert forall|i: int| 0 <= i < spec_render_int(v).len() implies token_char(
            #[trigger] spec_render_int(v)[i],
        ) && spec_render_int(v)[i] != ',' by {
            assert(is_digit(spec_render_int(v)[i]));
        }
    }
}

proof fn lemma_no_spaces_strip_id(s: Seq<char>)
    requires
        forall|i: int| 0 <= i < s.len() ==> s[i] != ' ',
    ensures
        strip_spaces(s) == s,
    decreases s.len(),
{
    if s.len() > 0 {
        lemma_no_spaces_strip_id(s.drop_last());
        assert(strip_spaces(s) =~= s.drop_last().push(s.last()));
        assert(s.drop_last().push(s.last()) =~= s);
    }
}

/// Renders the signed-decimal token list of the bytes from `i` on, joined by
/// commas.
fn render_tokens(bs: &Vec<u8>, i: usize) -> (r: String)
    requires
        i < bs@.len(),
    ensures
        r@.len() > 0,
        forall|j: int| 0 <= j < r@.len() ==> #[trigger] token_char(r@[j]),
        bytes_of_tokens(split_on(r@, ',')) == Some(bs@.skip(i as int)),
    decreases bs@.len() - i,
{
    let n = bs.len();
    let b = bs[i];
    let sv: i128 = if b >= 128 {
        b as i128 - 256
    } else {
        b as i128
    };
    let tok = render_int(sv);
    proof {
        lemma_render_int_roundtrip(sv as int);
        lemma_render_int_chars(sv as int);
        crate::text::lemma_first_index_of_absent(tok@, ',');
        assert(token_byte(tok@) == Some(b));
    }
    if i + 1 == n {
        proof {
            assert(split_on(tok@, ',') == seq![tok@]);
            assert(split_on(tok@, ',').drop_first() =~= Seq::<Seq<char>>::empty());
            assert(bytes_of_tokens(Seq::<Seq<char>>::empty()) == Some(Seq::<u8>::empty()));
            assert(seq![b] + Seq::<u8>::empty() =~= bs@.skip(i as int));
            assert(bytes_of_tokens(split_on(tok@, ',')) == Some(bs@.skip(i as int)));
        }
        tok
    } else {
        let rest = render_tokens(bs, i + 1);
        let out = tok.concat(",").concat(rest.as_str());
        proof {
            reveal_strlit(",");
            assert(","@ =~= seq![',']);
            let k = spec_render_int(sv as int).len() as int;
            assert(out@[k] == ',');
            assert forall|j: int| 0 <= j < k implies out@[j] != ',' by {
                assert(out@[j] == spec_render_int(sv as int)[j]);
            }
            crate::text::lemma_first_index_of_found(out@, ',', k);
            assert(out@.take(k) =~= tok@);
            assert(out@.subrange(k + 1, out@.len() as int) =~= rest@);
            let ts = split_on(out@, ',');
            assert(ts[0] == out@.take(k));
            assert(ts.drop_first() =~= split_on(rest@, ','));
            assert(seq![b] + bs@.skip(i + 1) =~= bs@.skip(i as int));
            assert forall|j: int| 0 <= j < out@.len() implies token_char(out@[j]) by {
                if j < k {
                    assert(out@[j] == spec_render_int(sv as int)[j]);
                } else if j > k {
                    assert(out@[j] == rest@[j - k - 1]);
                }
            }
            assert(bytes_of_tokens(split_on(out@, ',')) == Some(bs@.skip(i as int)));
        }
        out
    }
}

/// Renders a byte array in the bracketed byte-array literal form.
pub fn render_binary(bs: &Vec<u8>) -> (r: String)
    ensures
        spec_bytes(r@) == Ok::<Option<Seq<u8>>, FilterError>(Some(bs@)),
{
    if bs.len() == 0 {
        let mut out = String::new();
        push_char(&mut out, '[');
        push_char(&mut out, ']');
        proof {
            assert(out@[0] == '[' && out@[1] == ']');
            crate::text::lemma_first_index_of_found(out@, '[', 0);
            crate::text::lemma_first_index_of_found(out@, ']', 1);
            assert(bs@ =~= Seq::<u8>::empty());
        }
        out
    } else {
        let inner = render_tokens(bs, 0);
        let mut out = String::new();
        push_char(&mut out, '[');
        let mut body = out.concat(inner.as_str());
        push_char(&mut body, ']');
        proof {
            let n = body@.len() as int;
            assert(body@[0] == '[');
            assert(body@[n - 1] == ']');
            assert forall|j: int| 1 <= j < n - 1 implies body@[j] == inner@[j - 1] by {}
            assert forall|j: int| 0 <= j < n - 1 implies body@[j] != ']' by {
                if j >= 1 {
                    assert(token_char(inner@[j - 1]));
                    if !is_digit(inner@[j - 1]) {
                        assert(inner@[j - 1] == '-' || inner@[j - 1] == ',');
                    } else {
                        lemma_digit_chars_plain(inner@[j - 1]);
                    }
                }
            }
            crate::text::lemma_first_index_of_found(body@, '[', 0);
            crate::text::lemma_first_index_of_found(body@, ']', n - 1);
            assert(n - 1 > 1);
            assert(body@.subrange(1, n - 1) =~= inner@);
            assert forall|j: int| 0 <= j < inner@.len() implies inner@[j] != ' ' by {
                assert(token_char(inner@[j]));
                if is_digit(inner@[j]) {
                    lemma_digit_chars_plain(inner@[j]);
                }
            }
            lemma_no_spaces_strip_id(inner@);
            assert(bs@.skip(0) =~= bs@);
        }
        body
    }
}

/// The shape of literal that coercion against `dt` can produce.
pub open spec fn coerced_form(dt: FieldType, lit: LiteralV) -> bool {
    match dt {
        FieldType::Boolean => lit is Boolean,
        FieldType::Int8 => lit is Int8,
        FieldType::Int16 => lit is Int16,
        FieldType::Int32 => lit is Int32,
        FieldType::Int64 => lit is Int64,
        FieldType::Float32 => lit matches LiteralV::Float32Text(t) && is_float_text(t),
        FieldType::Float64 => lit matches LiteralV::Float64Text(t) && is_float_text(t),
        FieldType::Decimal128(p, s) => lit matches LiteralV::Decimal128(_, p2, s2) && p2 == p
            && s2 == s,
        FieldType::Binary => lit is Binary,
        FieldType::Date32 => lit is Date32,
        FieldType::TimestampMicrosecond => lit is TimestampMicrosecond,
        FieldType::Utf8 => lit is Utf8,
        FieldType::Struct(_) => lit is Utf8,
    }
}

/// Law (renderability): every literal that coercion accepts is of the
/// coerced form for its field type, so it can be re-serialized.
pub proof fn lemma_coerce_yields_coerced_form(dt: FieldType, t: Seq<char>)
    ensures
        spec_coerce(dt, t) matches Ok(lit) ==> coerced_form(dt, lit),
{
}

/// Law (round-trip): re-serialization inverts coercion.  Rendering succeeds
/// exactly on literals of the coerced form for the field's type, and the
/// rendered text coerces back to the very same typed literal.
pub fn render_literal(field: &SchemaField, lit: &ScalarLiteral) -> (r: Option<String>)
    ensures
        r is Some <==> coerced_form(field.data_type, lit@),
        match r {
            Some(text) => spec_coerce(field.data_type, text@) == Ok::<LiteralV, FilterError>(
                lit@,
            ),
            None => true,
        },
{
    match (&field.data_type, lit) {
        (FieldType::Boolean, ScalarLiteral::Boolean(b)) => {
            proof {
                reveal_strlit("true");
                reveal_strlit("false");
                assert("true"@.len() == 4 && "false"@.len() == 5);
            }
            if *b {
                Some("true".to_owned())
            } else {
                Some("false".to_owned())
            }
        },
        (FieldType::Int8, ScalarLiteral::Int8(v)) => {
            proof {
                lemma_render_int_roundtrip(*v as int);
            }
            Some(render_int(*v as i128))
        },
        (FieldType::Int16, ScalarLiteral::Int16(v)) => {
            proof {
                lemma_render_int_roundtrip(*v as int);
            }
            Some(render_int(*v as i128))
        },
        (FieldType::Int32, ScalarLiteral::Int32(v)) => {
            proof {
                lemma_render_int_roundtrip(*v as int);
            }
            Some(render_int(*v as i128))
        },
        (FieldType::Int64, ScalarLiteral::Int64(v)) => {
            proof {
                lemma_render_int_roundtrip(*v as int);
            }
            Some(render_int(*v as i128))
        },
        (FieldType::Date32, ScalarLiteral::Date32(v)) => {
            proof {
                lemma_render_int_roundtrip(*v as int);
            }
            Some(render_int(*v as i128))
        },
        (FieldType::TimestampMicrosecond, ScalarLiteral::TimestampMicrosecond(v)) => {
            proof {
                lemma_render_int_roundtrip(*v as int);
            }
            Some(render_int(*v as i128))
        },
        (FieldType::Decimal128(p, s), ScalarLiteral::Decimal128(v, p2, s2)) => {
            if *p != *p2 || *s != *s2 {
                None
            } else if *p <= 18 {
                proof {
                    lemma_render_int_roundtrip(*v as int);
                }
                Some(render_int(*v))
            } else {
                let bytes = crate::number::i128_to_be(*v);
                let text = render_binary(&bytes);
                proof {
                    assert(crate::number::zero_extended_16(bytes@) =~= bytes@);
                }
                Some(text)
            }
        },
        (FieldType::Binary, ScalarLiteral::Binary(o)) => {
            match o {
                Some(bs) => Some(render_binary(bs)),
                None => {
                    let out = String::new();
                    proof {
                        crate::text::lemma_first_index_of_absent(out@, '[');
                    }
                    Some(out)
                },
            }
        },
        (FieldType::Float32, ScalarLiteral::Float32Text(t)) => {
            if crate::float::is_float_literal(t.as_str()) {
                Some(t.clone())
            } else {
                None
            }
        },
        (FieldType::Float64, ScalarLiteral::Float64Text(t)) => {
            if crate::float::is_float_literal(t.as_str()) {
                Some(t.clone())
            } else {
                None
            }
        },
        (FieldType::Utf8, ScalarLiteral::Utf8(w)) => {
            let text = String::from_str("strlit(\"").concat(w.as_str()).concat("\")");
            proof {
                reveal_strlit("strlit(\"");
                reveal_strlit("\")");
                assert("strlit(\""@.len() == 8 && "\")"@.len() == 2);
                assert(text@.subrange(8, text@.len() - 2) =~= w@);
            }
            Some(text)
        },
        (FieldType::Struct(_), ScalarLiteral::Utf8(w)) => Some(w.clone()),
        _ => None,
    }
}

} // verus!
