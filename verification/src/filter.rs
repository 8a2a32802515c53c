//! The filter compiler: parses one serialized predicate string into a typed
//! expression tree bound to a schema, recursively for boolean combinators.
//!
//! Grammar: `expr := op "(" args ")"` with `op` one of `and`, `or`, `not`,
//! `eq`, `noteq`, `gt`, `gteq`, `lt`, `lteq`.  For `and`/`or` the argument
//! body splits at the first top-level comma; `not` takes a single argument;
//! the comparison operators take a field path and a literal (or `null`).

use vstd::prelude::*;
use vstd::string::*;
use crate::expr::{CompareOp, ExprV, Expression, LiteralV, ScalarLiteral};
use crate::float::{is_float_text, is_float_literal};
use crate::number::{
    i128_from_be_padded, i128_of_be, int_text_val, is_int_text, parse_int_in_range,
    zero_extended_16,
};
use crate::schema::{field_with_name, find_field, Schema, SchemaField, FieldType};
use crate::text::{find_char, first_index_of, spec_trim, text_eq, trim_str};

verus! {

/// Why a predicate string was rejected.
///
/// `Malformed` marks a structurally bad string (no `(`, unbalanced parentheses,
/// missing literal framing); `Coercion` marks literal text that is not a
/// valid encoding for the resolved field's type.
#[derive(Clone, Copy, Debug, PartialEq, Eq, Structural)]
pub enum FilterError {
    Malformed,
    Coercion,
}

/// The sequence with every space removed.
pub open spec fn strip_spaces(s: Seq<char>) -> Seq<char>
    decreases s.len(),
{
    if s.len() == 0 {
        Seq::empty()
    } else {
        let rest = strip_spaces(s.drop_last());
        if s.last() == ' ' {
            rest
        } else {
            rest.push(s.last())
        }
    }
}

/// Split on a separator; an input without the separator is one piece.
pub open spec fn split_on(s: Seq<char>, sep: char) -> Seq<Seq<char>>
    decreases s.len(),
        via split_on_decreases

{
    let p = first_index_of(s, sep);
    if p == -1 {
        seq![s]
    } else {
        seq![s.take(p)] + split_on(s.subrange(p + 1, s.len() as int), sep)
    }
}

#[via_fn]
proof fn split_on_decreases(s: Seq<char>, sep: char) {
    let p = first_index_of(s, sep);
    if p != -1 {
        crate::text::lemma_first_index_of_props(s, sep);
    }
}

/// A byte-array token: decimal text whose value lies in `[-128, 127]`,
/// normalized to a byte two's-complement style.
pub open spec fn token_byte(t: Seq<char>) -> Option<u8> {
    if is_int_text(t) && -128 <= int_text_val(t) <= 127 {
        let v = int_text_val(t);
        if v < 0 {
            Some((v + 256) as u8)
        } else {
            Some(v as u8)
        }
    } else {
        None
    }
}

/// Bytes of a token list; `None` when any token is malformed.
pub open spec fn bytes_of_tokens(ts: Seq<Seq<char>>) -> Option<Seq<u8>>
    decreases ts.len(),
{
    if ts.len() == 0 {
        Some(Seq::empty())
    } else {
        match token_byte(ts[0]) {
            None => None,
            Some(b) => match bytes_of_tokens(ts.drop_first()) {
                None => None,
                Some(rest) => Some(seq![b] + rest),
            },
        }
    }
}

/// Meaning of a bracketed byte-array literal.
///
/// No `[` is the null-equivalent absent value; an empty bracket (after space
/// removal) is the empty byte sequence; otherwise the comma-separated tokens
/// between the first `[` and the first `]` are parsed, and a malformed token
/// or bracket structure is an error.
pub open spec fn spec_bytes(s: Seq<char>) -> Result<Option<Seq<u8>>, FilterError> {
    let l = first_index_of(s, '[');
    let r = first_index_of(s, ']');
    if l == -1 {
        Ok(None)
    } else if r < l {
        Err(FilterError::Malformed)
    } else if l + 1 == r {
        Ok(Some(Seq::empty()))
    } else {
        let inner = strip_spaces(s.subrange(l + 1, r));
        if inner.len() == 0 {
            Ok(Some(Seq::empty()))
        } else {
            match bytes_of_tokens(split_on(inner, ',')) {
                None => Err(FilterError::Coercion),
                Some(bs) => Ok(Some(bs)),
            }
        }
    }
}

/// Removes every space from a string.
fn strip_spaces_str(s: &str, from: usize, to: usize) -> (r: String)
    requires
        from <= to <= s@.len(),
    ensures
        r@ == strip_spaces(s@.subrange(from as int, to as int)),
{
    let ghost sub = s@.subrange(from as int, to as int);
    let mut out = String::new();
    let mut i = from;
    while i < to
        invariant
            from <= i <= to <= s@.len(),
            sub == s@.subrange(from as int, to as int),
            out@ == strip_spaces(sub.take(i - from)),
        decreases to - i,
    {
        let c = s.get_char(i);
        proof {
            assert(sub.take(i - from + 1).drop_last() =~= sub.take(i - from));
            assert(sub.take(i - from + 1).last() == s@[i as int]);
        }
        if c != ' ' {
            crate::text::push_char(&mut out, c);
        }
        i = i + 1;
    }
    proof {
        assert(sub.take(to - from) =~= sub);
    }
    out
}

/// Parses the comma-separated byte tokens of `s@` from `from` on.
fn parse_tokens(s: &str, from: usize) -> (r: Result<Vec<u8>, FilterError>)
    requires
        from <= s@.len(),
    ensures
        match bytes_of_tokens(split_on(s@.subrange(from as int, s@.len() as int), ',')) {
            Some(bs) => r matches Ok(v) && v@ == bs,
            None => r matches Err(e) && e == FilterError::Coercion,
        },
    decreases s@.len() - from,
{
    let n = s.unicode_len();
    let ghost sub = s@.subrange(from as int, n as int);
    let mut i = from;
    while i < n && s.get_char(i) != ','
        invariant
            from <= i <= n,
            n == s@.len(),
            sub == s@.subrange(from as int, n as int),
            forall|j: int| 0 <= j < i - from ==> sub[j] != ',',
        decreases n - i,
    {
        proof {
            assert(sub[i - from] == s@[i as int]);
        }
        i = i + 1;
    }
    if i == n {
        proof {
            crate::text::lemma_first_index_of_absent(sub, ',');
            assert(split_on(sub, ',') == seq![sub]);
            assert(split_on(sub, ',').drop_first() =~= Seq::<Seq<char>>::empty());
        }
        let tok = s.substring_char(from, n);
        match parse_int_in_range(tok, -128, 127) {
            Some(v) => {
                let b: u8 = if v < 0 {
                    (v + 256) as u8
                } else {
                    v as u8
                };
                let mut out: Vec<u8> = Vec::new();
                out.push(b);
                proof {
                    assert(out@ =~= seq![b] + Seq::<u8>::empty());
                }
                Ok(out)
            },
            None => Err(FilterError::Coercion),
        }
    } else {
        proof {
            assert(sub[i - from] == s@[i as int]);
            crate::text::lemma_first_index_of_found(sub, ',', i - from);
            assert(sub.take(i - from) =~= s@.subrange(from as int, i as int));
            assert(sub.subrange(i - from + 1, sub.len() as int) =~= s@.subrange(
                i + 1,
                n as int,
            ));
            assert(split_on(sub, ',').drop_first() =~= split_on(
                s@.subrange(i + 1, n as int),
                ',',
            ));
        }
        let tok = s.substring_char(from, i);
        let first = match parse_int_in_range(tok, -128, 127) {
            Some(v) => {
                if v < 0 {
                    (v + 256) as u8
                } else {
                    v as u8
                }
            },
            None => {
                return Err(FilterError::Coercion);
            },
        };
        match parse_tokens(s, i + 1) {
            Ok(rest) => {
                let ghost restv = rest@;
                let mut out: Vec<u8> = Vec::new();
                out.push(first);
                let mut tail = rest;
                out.append(&mut tail);
                proof {
                    let ts = split_on(sub, ',');
                    assert(ts.drop_first() =~= split_on(
                        s@.subrange(i + 1, n as int),
                        ',',
                    ));
                    assert(ts[0] == sub.take(i - from));
                    assert(token_byte(ts[0]) == Some(first));
                    assert(bytes_of_tokens(ts.drop_first()) == Some(restv));
                    assert(bytes_of_tokens(ts) == Some(seq![first] + restv));
                    assert(out@ =~= seq![first] + restv);
                }
                Ok(out)
            },
            Err(e) => Err(e),
        }
    }
}

/// Parenthesis-depth contribution of one character.
pub open spec fn depth_change(c: char) -> int {
    if c == '(' {
        1
    } else if c == ')' {
        -1
    } else {
        0
    }
}

/// Nesting depth after reading the whole sequence.
pub open spec fn depth_of(s: Seq<char>) -> int
    decreases s.len(),
{
    if s.len() == 0 {
        0
    } else {
        depth_of(s.drop_last()) + depth_change(s.last())
    }
}

/// No prefix closes more parentheses than were opened.
pub open spec fn prefixes_nonneg(s: Seq<char>) -> bool {
    forall|i: int| 0 <= i <= s.len() ==> depth_of(s.take(i)) >= 0
}

pub open spec fn balanced(s: Seq<char>) -> bool {
    prefixes_nonneg(s) && depth_of(s) == 0
}

/// A comma at positive offset `j` and nesting depth zero: the split point
/// between the two arguments of a binary operator.
pub open spec fn splits_at(s: Seq<char>, j: int) -> bool {
    0 < j < s.len() && s[j] == ',' && depth_of(s.take(j)) == 0
}

/// First qualifying comma offset at or after `i`, or 0 when there is none.
pub open spec fn first_top_comma(s: Seq<char>, i: int) -> int
    recommends
        0 <= i <= s.len(),
    decreases s.len() - i,
        when 0 <= i <= s.len()

{
    if i >= s.len() {
        0
    } else if splits_at(s, i) {
        i
    } else {
        first_top_comma(s, i + 1)
    }
}

pub open spec fn split_point(s: Seq<char>) -> int {
    first_top_comma(s, 0)
}

proof fn lemma_ftc_found(s: Seq<char>, a: int, j: int)
    requires
        0 <= a <= j,
        splits_at(s, j),
        forall|k: int| a <= k < j ==> !splits_at(s, k),
    ensures
        first_top_comma(s, a) == j,
    decreases j - a,
{
    if a < j {
        lemma_ftc_found(s, a + 1, j);
    }
}

proof fn lemma_ftc_none(s: Seq<char>, a: int)
    requires
        0 <= a <= s.len(),
        forall|k: int| a <= k < s.len() ==> !splits_at(s, k),
    ensures
        first_top_comma(s, a) == 0,
    decreases s.len() - a,
{
    if a < s.len() {
        lemma_ftc_none(s, a + 1);
    }
}

/// Decomposition of one predicate string into operator, left argument and
/// right argument.
///
/// The operator is everything before the first `(`; the body must end with
/// `)` and be balanced; the body splits at the first top-level comma (offset
/// 0 when there is none); for `not` the right argument keeps the split
/// character, for every other operator the split character is dropped.  Both
/// arguments are trimmed of blanks, the operator is not.
pub open spec fn spec_split(s: Seq<char>) -> Result<(Seq<char>, Seq<char>, Seq<char>), FilterError> {
    let p = first_index_of(s, '(');
    if p == -1 {
        Err(FilterError::Malformed)
    } else if s.last() != ')' {
        Err(FilterError::Malformed)
    } else {
        let op = s.take(p);
        let body = s.subrange(p + 1, s.len() - 1);
        if !balanced(body) {
            Err(FilterError::Malformed)
        } else {
            let sp = split_point(body);
            let l = spec_trim(body.take(sp));
            if op == "not"@ {
                Ok((op, l, spec_trim(body.subrange(sp, body.len() as int))))
            } else if sp + 1 <= body.len() {
                Ok((op, l, spec_trim(body.subrange(sp + 1, body.len() as int))))
            } else {
                Err(FilterError::Malformed)
            }
        }
    }
}

/// Coercion of raw literal text into a typed scalar, dispatched on the
/// declared type of the resolved field.
pub open spec fn spec_coerce(dt: FieldType, t: Seq<char>) -> Result<LiteralV, FilterError> {
    match dt {
        FieldType::Decimal128(p, s) => if p <= 18 {
            if is_int_text(t) && i128::MIN <= int_text_val(t) <= i128::MAX {
                Ok(LiteralV::Decimal128(int_text_val(t) as i128, p, s))
            } else {
                Err(FilterError::Coercion)
            }
        } else {
            match spec_bytes(t) {
                Err(e) => Err(e),
                Ok(None) => Err(FilterError::Coercion),
                Ok(Some(bs)) => if bs.len() <= 16 {
                    Ok(
                        LiteralV::Decimal128(
                            i128_of_be(zero_extended_16(bs)) as i128,
                            p,
                            s,
                        ),
                    )
                } else {
                    Err(FilterError::Coercion)
                },
            }
        },
        FieldType::Boolean => if t == "true"@ {
            Ok(LiteralV::Boolean(true))
        } else if t == "false"@ {
            Ok(LiteralV::Boolean(false))
        } else {
            Err(FilterError::Coercion)
        },
        FieldType::Binary => match spec_bytes(t) {
            Err(e) => Err(e),
            Ok(o) => Ok(LiteralV::Binary(o)),
        },
        FieldType::Float32 => if is_float_text(t) {
            Ok(LiteralV::Float32Text(t))
        } else {
            Err(FilterError::Coercion)
        },
        FieldType::Float64 => if is_float_text(t) {
            Ok(LiteralV::Float64Text(t))
        } else {
            Err(FilterError::Coercion)
        },
        FieldType::Int8 => if is_int_text(t) && -128 <= int_text_val(t) <= 127 {
            Ok(LiteralV::Int8(int_text_val(t) as i8))
        } else {
            Err(FilterError::Coercion)
        },
        FieldType::Int16 => if is_int_text(t) && -32768 <= int_text_val(t) <= 32767 {
            Ok(LiteralV::Int16(int_text_val(t) as i16))
        } else {
            Err(FilterError::Coercion)
        },
        FieldType::Int32 => if is_int_text(t) && i32::MIN <= int_text_val(t) <= i32::MAX {
            Ok(LiteralV::Int32(int_text_val(t) as i32))
        } else {
            Err(FilterError::Coercion)
        },
        FieldType::Int64 => if is_int_text(t) && i64::MIN <= int_text_val(t) <= i64::MAX {
            Ok(LiteralV::Int64(int_text_val(t) as i64))
        } else {
            Err(FilterError::Coercion)
        },
        FieldType::Date32 => if is_int_text(t) && i32::MIN <= int_text_val(t) <= i32::MAX {
            Ok(LiteralV::Date32(int_text_val(t) as i32))
        } else {
            Err(FilterError::Coercion)
        },
        FieldType::TimestampMicrosecond => if is_int_text(t) && i64::MIN <= int_text_val(t)
            <= i64::MAX {
            Ok(LiteralV::TimestampMicrosecond(int_text_val(t) as i64))
        } else {
            Err(FilterError::Coercion)
        },
        FieldType::Utf8 => if t.len() >= 10 {
            Ok(LiteralV::Utf8(t.subrange(8, t.len() - 2)))
        } else {
            Err(FilterError::Malformed)
        },
        FieldType::Struct(_) => Ok(LiteralV::Utf8(t)),
    }
}

/// One step per path segment: grow the pending sub-path, and on a name match
/// extend the expression and descend into struct-typed fields.
///
/// The pending sub-path lets a field name that itself contains dots match
/// across several segments; segments after the last match are ignored.
pub open spec fn walk_segments(
    segs: Seq<Seq<char>>,
    root: Seq<char>,
    fields: Seq<SchemaField>,
    acc: Option<(ExprV, SchemaField)>,
) -> Option<(ExprV, SchemaField)>
    decreases segs.len(),
{
    if segs.len() == 0 {
        acc
    } else {
        let root2 = if root.len() == 0 {
            segs[0]
        } else {
            root + seq!['.'] + segs[0]
        };
        match field_with_name(fields, root2) {
            Some(f) => {
                let e2 = match acc {
                    Some(p) => ExprV::FieldAccess(Box::new(p.0), f.name@),
                    None => ExprV::Column(f.name@),
                };
                let fields2 = match f.data_type {
                    FieldType::Struct(sub) => sub@,
                    _ => fields,
                };
                walk_segments(segs.drop_first(), Seq::empty(), fields2, Some((e2, f)))
            },
            None => walk_segments(segs.drop_first(), root2, fields, acc),
        }
    }
}

/// Resolution of a dotted field path against a schema: a direct top-level
/// match wins, otherwise the path is walked segment by segment; `None` when
/// no segment ever matches.
pub open spec fn spec_resolve(path: Seq<char>, fields: Seq<SchemaField>) -> Option<
    (ExprV, SchemaField),
> {
    match field_with_name(fields, path) {
        Some(f) => Some((ExprV::Column(path), f)),
        None => walk_segments(split_on(path, '.'), Seq::empty(), fields, None),
    }
}

spec fn acc_v(acc: Option<(Expression, &SchemaField)>) -> Option<(ExprV, SchemaField)> {
    match acc {
        Some(p) => Some((p.0@, *p.1)),
        None => None,
    }
}

/// Splits `s@` from `from` on into dot-separated segments.
fn split_segments(s: &str, from: usize) -> (r: Vec<String>)
    requires
        from <= s@.len(),
    ensures
        r.deep_view() == split_on(s@.subrange(from as int, s@.len() as int), '.'),
    decreases s@.len() - from,
{
    let n = s.unicode_len();
    let ghost sub = s@.subrange(from as int, n as int);
    let mut i = from;
    while i < n && s.get_char(i) != '.'
        invariant
            from <= i <= n,
            n == s@.len(),
            sub == s@.subrange(from as int, n as int),
            forall|j: int| 0 <= j < i - from ==> sub[j] != '.',
        decreases n - i,
    {
        proof {
            assert(sub[i - from] == s@[i as int]);
        }
        i = i + 1;
    }
    if i == n {
        proof {
            crate::text::lemma_first_index_of_absent(sub, '.');
        }
        let mut out: Vec<String> = Vec::new();
        out.push(s.substring_char(from, n).to_owned());
        proof {
            assert(out.deep_view() =~= seq![sub]);
        }
        out
    } else {
        proof {
            assert(sub[i - from] == s@[i as int]);
            crate::text::lemma_first_index_of_found(sub, '.', i - from);
            assert(sub.take(i - from) =~= s@.subrange(from as int, i as int));
            assert(sub.subrange(i - from + 1, sub.len() as int) =~= s@.subrange(
                i + 1,
                n as int,
            ));
        }
        let head = s.substring_char(from, i).to_owned();
        let rest = split_segments(s, i + 1);
        let ghost restv = rest.deep_view();
        let mut out: Vec<String> = Vec::new();
        out.push(head);
        let mut tail = rest;
        out.append(&mut tail);
        proof {
            assert(out.deep_view() =~= seq![sub.take(i - from)] + restv);
        }
        out
    }
}

/// Resolves a dotted field path against a (possibly nested) schema into an
/// expression reference and the resolved field.
pub fn qualified_expr<'a>(expr_str: &str, schema: &'a Schema) -> (r: Option<
    (Expression, &'a SchemaField),
>)
    ensures
        ({
            let m = spec_resolve(expr_str@, schema.fields@);
            match r {
                Some(p) => m == Some((p.0@, *p.1)),
                None => m is None,
            }
        }),
{
    if let Some(f) = find_field(&schema.fields, expr_str) {
        return Some((Expression::Column(expr_str.to_owned()), f));
    }
    let segs = split_segments(expr_str, 0);
    proof {
        assert(expr_str@.subrange(0, expr_str@.len() as int) =~= expr_str@);
    }
    let ghost all = split_on(expr_str@, '.');
    let mut cur: &'a Vec<SchemaField> = &schema.fields;
    let mut root = String::new();
    let mut acc: Option<(Expression, &'a SchemaField)> = None;
    let mut idx: usize = 0;
    let total = segs.len();
    proof {
        assert(all.skip(0) =~= all);
        assert(acc_v(acc) is None);
    }
    while idx < total
        invariant
            0 <= idx <= total,
            total == segs@.len(),
            segs.deep_view() == all,
            walk_segments(all.skip(idx as int), root@, cur@, acc_v(acc)) == walk_segments(
                all,
                Seq::empty(),
                schema.fields@,
                None,
            ),
        decreases total - idx,
    {
        let ghost pre_root = root@;
        let ghost pre_fields = cur@;
        let ghost pre_acc = acc_v(acc);
        let seg = &segs[idx];
        proof {
            assert(all.skip(idx as int)[0] == all[idx as int]);
            assert(all[idx as int] == seg@);
            assert(all.skip(idx as int).drop_first() =~= all.skip(idx + 1));
            reveal_strlit(".");
            assert("."@ =~= seq!['.']);
        }
        let root2: String = if root.as_str().unicode_len() == 0 {
            seg.clone()
        } else {
            root.concat(".").concat(seg.as_str())
        };
        proof {
            assert(root2@ == if pre_root.len() == 0 {
                all.skip(idx as int)[0]
            } else {
                pre_root + seq!['.'] + all.skip(idx as int)[0]
            });
        }
        match find_field(cur, root2.as_str()) {
            Some(f) => {
                let e2 = match acc {
                    Some(p) => Expression::FieldAccess(Box::new(p.0), f.name.clone()),
                    None => Expression::Column(f.name.clone()),
                };
                acc = Some((e2, f));
                match &f.data_type {
                    FieldType::Struct(sub) => {
                        cur = sub;
                    },
                    _ => {},
                }
                root = String::new();
            },
            None => {
                root = root2;
            },
        }
        idx = idx + 1;
    }
    proof {
        assert(all.skip(total as int) =~= Seq::<Seq<char>>::empty());
    }
    acc
}

proof fn lemma_ftc_bounds(s: Seq<char>, a: int)
    requires
        0 <= a <= s.len(),
    ensures
        first_top_comma(s, a) == 0 || (a <= first_top_comma(s, a) && splits_at(
            s,
            first_top_comma(s, a),
        )),
    decreases s.len() - a,
{
    if a < s.len() && !splits_at(s, a) {
        lemma_ftc_bounds(s, a + 1);
    }
}

/// A successful split yields arguments strictly shorter than the input, which
/// grounds the recursion of the compiler.
pub proof fn lemma_split_shrinks(s: Seq<char>)
    ensures
        match spec_split(s) {
            Ok(t) => 0 <= t.1.len() < s.len() && 0 <= t.2.len() < s.len(),
            Err(_) => true,
        },
{
    crate::text::lemma_first_index_of_props(s, '(');
    let p = first_index_of(s, '(');
    if p >= 0 && s.len() > 0 && s.last() == ')' {
        let body = s.subrange(p + 1, s.len() - 1);
        assert(p != s.len() - 1);
        if balanced(body) {
            lemma_ftc_bounds(body, 0);
            let sp = split_point(body);
            assert(0 <= sp <= body.len());
            crate::text::lemma_trim_len(body.take(sp));
            if s.take(p) == "not"@ {
                crate::text::lemma_trim_len(body.subrange(sp, body.len() as int));
            } else if sp + 1 <= body.len() {
                crate::text::lemma_trim_len(body.subrange(sp + 1, body.len() as int));
            }
        }
    }
}

/// The comparison operator named by an operator token, if any.
pub open spec fn op_compare(op: Seq<char>) -> Option<CompareOp> {
    if op == "eq"@ {
        Some(CompareOp::Equal)
    } else if op == "noteq"@ {
        Some(CompareOp::NotEqual)
    } else if op == "gt"@ {
        Some(CompareOp::Greater)
    } else if op == "gteq"@ {
        Some(CompareOp::GreaterOrEqual)
    } else if op == "lt"@ {
        Some(CompareOp::Less)
    } else if op == "lteq"@ {
        Some(CompareOp::LessOrEqual)
    } else {
        None
    }
}

/// Meaning of one predicate string against a schema.
///
/// `and`, `or` and `not` recurse on their argument strings; a comparison
/// leaf resolves its field path — an unresolvable path compiles to
/// constant-false — and coerces its literal; comparing against `null` turns
/// `eq`/`noteq` into null tests and every other operator into constant-true,
/// as does an unknown operator token.
pub open spec fn spec_parse(s: Seq<char>, fields: Seq<SchemaField>) -> Result<ExprV, FilterError>
    decreases s.len(),
        via spec_parse_decreases
{
    match spec_split(s) {
        Err(e) => Err(e),
        Ok(t) => {
            let op = t.0;
            let l = t.1;
            let r = t.2;
            if op == "or"@ {
                match spec_parse(l, fields) {
                    Err(e) => Err(e),
                    Ok(le) => match spec_parse(r, fields) {
                        Err(e) => Err(e),
                        Ok(re) => Ok(ExprV::Or(Box::new(le), Box::new(re))),
                    },
                }
            } else if op == "and"@ {
                match spec_parse(l, fields) {
                    Err(e) => Err(e),
                    Ok(le) => match spec_parse(r, fields) {
                        Err(e) => Err(e),
                        Ok(re) => Ok(ExprV::And(Box::new(le), Box::new(re))),
                    },
                }
            } else if op == "not"@ {
                match spec_parse(r, fields) {
                    Err(e) => Err(e),
                    Ok(ie) => Ok(ExprV::Not(Box::new(ie))),
                }
            } else {
                match spec_resolve(l, fields) {
                    None => Ok(ExprV::Const(false)),
                    Some(rf) => if r == "null"@ {
                        if op == "eq"@ {
                            Ok(ExprV::IsNull(Box::new(rf.0)))
                        } else if op == "noteq"@ {
                            Ok(ExprV::IsNotNull(Box::new(rf.0)))
                        } else {
                            Ok(ExprV::Const(true))
                        }
                    } else {
                        match spec_coerce(rf.1.data_type, r) {
                            Err(e) => Err(e),
                            Ok(lit) => match op_compare(op) {
                                Some(cop) => Ok(ExprV::Compare(cop, Box::new(rf.0), lit)),
                                None => Ok(ExprV::Const(true)),
                            },
                        }
                    },
                }
            }
        },
    }
}

#[via_fn]
proof fn spec_parse_decreases(s: Seq<char>, fields: Seq<SchemaField>) {
    lemma_split_shrinks(s);
}

/// Law: compilation is deterministic.  The compiled tree is a mathematical
/// function of the predicate text and the bound schema alone, so identical
/// inputs always yield structurally identical expression trees.
pub proof fn lemma_compile_deterministic(
    s1: Seq<char>,
    s2: Seq<char>,
    fields1: Seq<SchemaField>,
    fields2: Seq<SchemaField>,
)
    requires
        s1 == s2,
        fields1 == fields2,
    ensures
        spec_parse(s1, fields1) == spec_parse(s2, fields2),
{
}

/// The filter compiler.
pub struct Parser {}

impl Parser {
    /// Compiles one predicate string into a typed expression tree bound to
    /// `schema`.
    #[verifier::rlimit(80)]
    pub fn parse(filter_str: String, schema: &Schema) -> (r: Result<Expression, FilterError>)
        ensures
            ({
                let m = spec_parse(filter_str@, schema.fields@);
                match r {
                    Ok(e) => m == Ok::<ExprV, FilterError>(e@),
                    Err(er) => m == Err::<ExprV, FilterError>(er),
                }
            }),
        decreases filter_str@.len(),
    {
        let ghost s0 = filter_str@;
        match Self::parse_filter_str(filter_str) {
            Err(e) => Err(e),
            Ok(parts) => {
                let (op, left, right) = parts;
                proof {
                    lemma_split_shrinks(s0);
                }
                if text_eq(op.as_str(), "or") {
                    match Self::parse(left, schema) {
                        Err(e) => Err(e),
                        Ok(le) => match Self::parse(right, schema) {
                            Err(e) => Err(e),
                            Ok(re) => Ok(Expression::Or(Box::new(le), Box::new(re))),
                        },
                    }
                } else if text_eq(op.as_str(), "and") {
                    match Self::parse(left, schema) {
                        Err(e) => Err(e),
                        Ok(le) => match Self::parse(right, schema) {
                            Err(e) => Err(e),
                            Ok(re) => Ok(Expression::And(Box::new(le), Box::new(re))),
                        },
                    }
                } else if text_eq(op.as_str(), "not") {
                    match Self::parse(right, schema) {
                        Err(e) => Err(e),
                        Ok(ie) => Ok(Expression::Not(Box::new(ie))),
                    }
                } else {
                    match qualified_expr(left.as_str(), schema) {
                        None => Ok(Expression::Const(false)),
                        Some(rf) => {
                            let (refx, f) = rf;
                            if text_eq(right.as_str(), "null") {
                                if text_eq(op.as_str(), "eq") {
                                    Ok(Expression::IsNull(Box::new(refx)))
                                } else if text_eq(op.as_str(), "noteq") {
                                    Ok(Expression::IsNotNull(Box::new(refx)))
                                } else {
                                    Ok(Expression::Const(true))
                                }
                            } else {
                                match Self::parse_literal(f, right.as_str()) {
                                    Err(e) => Err(e),
                                    Ok(lit) => {
                                        if text_eq(op.as_str(), "eq") {
                                            Ok(Expression::Compare(
                                                CompareOp::Equal,
                                                Box::new(refx),
                                                lit,
                                            ))
                                        } else if text_eq(op.as_str(), "noteq") {
                                            Ok(Expression::Compare(
                                                CompareOp::NotEqual,
                                                Box::new(refx),
                                                lit,
                                            ))
                                        } else if text_eq(op.as_str(), "gt") {
                                            Ok(Expression::Compare(
                                                CompareOp::Greater,
                                                Box::new(refx),
                                                lit,
                                            ))
                                        } else if text_eq(op.as_str(), "gteq") {
                                            Ok(Expression::Compare(
                                                CompareOp::GreaterOrEqual,
                                                Box::new(refx),
                                                lit,
                                            ))
                                        } else if text_eq(op.as_str(), "lt") {
                                            Ok(Expression::Compare(
                                                CompareOp::Less,
                                                Box::new(refx),
                                                lit,
                                            ))
                                        } else if text_eq(op.as_str(), "lteq") {
                                            Ok(Expression::Compare(
                                                CompareOp::LessOrEqual,
                                                Box::new(refx),
                                                lit,
                                            ))
                                        } else {
                                            Ok(Expression::Const(true))
                                        }
                                    },
                                }
                            }
                        },
                    }
                }
            },
        }
    }

    /// Parses a bracketed byte-array literal: `Ok(None)` when no `[` is
    /// present, the listed bytes otherwise.
    pub fn parse_binary_array(value: &str) -> (r: Result<Option<Vec<u8>>, FilterError>)
        ensures
            ({
                let m = spec_bytes(value@);
                match r {
                    Ok(Some(v)) => m == Ok::<Option<Seq<u8>>, FilterError>(Some(v@)),
                    Ok(None) => m == Ok::<Option<Seq<u8>>, FilterError>(None),
                    Err(e) => m == Err::<Option<Seq<u8>>, FilterError>(e),
                }
            }),
    {
        let l = match find_char(value, '[') {
            Some(l) => l,
            None => {
                return Ok(None);
            },
        };
        proof {
            crate::text::lemma_first_index_of_props(value@, '[');
            crate::text::lemma_first_index_of_props(value@, ']');
        }
        let rb = match find_char(value, ']') {
            Some(r) => r,
            None => {
                return Err(FilterError::Malformed);
            },
        };
        if rb < l {
            return Err(FilterError::Malformed);
        }
        if l + 1 == rb {
            let empty: Vec<u8> = Vec::new();
            proof {
                assert(empty@ =~= Seq::<u8>::empty());
            }
            return Ok(Some(empty));
        }
        proof {
            assert(value@[l as int] == '[');
            assert(value@[rb as int] == ']');
            assert(l != rb);
        }
        let stripped = strip_spaces_str(value, l + 1, rb);
        if stripped.as_str().unicode_len() == 0 {
            let empty: Vec<u8> = Vec::new();
            proof {
                assert(empty@ =~= Seq::<u8>::empty());
            }
            return Ok(Some(empty));
        }
        proof {
            assert(stripped@.subrange(0, stripped@.len() as int) =~= stripped@);
        }
        match parse_tokens(stripped.as_str(), 0) {
            Ok(v) => Ok(Some(v)),
            Err(e) => Err(e),
        }
    }

    /// Splits one predicate string into operator, left argument and right
    /// argument, trimming both arguments.
    pub fn parse_filter_str(filter: String) -> (r: Result<(String, String, String), FilterError>)
        ensures
            ({
                let m = spec_split(filter@);
                match r {
                    Ok(t) => m == Ok::<(Seq<char>, Seq<char>, Seq<char>), FilterError>(
                        (t.0@, t.1@, t.2@),
                    ),
                    Err(e) => m == Err::<(Seq<char>, Seq<char>, Seq<char>), FilterError>(e),
                }
            }),
    {
        let s = filter.as_str();
        let n = s.unicode_len();
        let p = match find_char(s, '(') {
            Some(p) => p,
            None => {
                return Err(FilterError::Malformed);
            },
        };
        proof {
            crate::text::lemma_first_index_of_props(s@, '(');
        }
        if s.get_char(n - 1) != ')' {
            return Err(FilterError::Malformed);
        }
        let op = s.substring_char(0, p).to_owned();
        proof {
            assert(s@[p as int] == '(');
            assert(s@[n - 1] == ')');
            assert(p != n - 1);
        }
        let bodystr = s.substring_char(p + 1, n - 1);
        let ghost body = s@.subrange(p + 1, n - 1);
        let m = bodystr.unicode_len();
        let mut k: usize = 0;
        let mut sp: usize = 0;
        let mut i: usize = 0;
        while i < m
            invariant
                0 <= i <= m,
                s@ == filter@,
                n == s@.len(),
                first_index_of(filter@, '(') == p as int,
                0 <= p < n,
                filter@.last() == ')',
                body == filter@.subrange(p + 1, n - 1),
                bodystr@ == body,
                m == body.len(),
                k <= i,
                k as int == depth_of(body.take(i as int)),
                forall|j: int| 0 <= j <= i ==> depth_of(body.take(j)) >= 0,
                sp == 0 ==> forall|j: int| 0 <= j < i ==> !splits_at(body, j),
                sp != 0 ==> splits_at(body, sp as int) && (forall|j: int|
                    0 <= j < sp ==> !splits_at(body, j)),
                sp < m || sp == 0,
            decreases m - i,
        {
            let c = bodystr.get_char(i);
            proof {
                assert(body.take(i + 1).drop_last() =~= body.take(i as int));
                assert(body.take(i + 1).last() == body[i as int]);
            }
            if c == '(' {
                k = k + 1;
            } else if c == ')' {
                if k == 0 {
                    proof {
                        assert(depth_of(body.take(i + 1)) == -1);
                        assert(!prefixes_nonneg(body));
                    }
                    return Err(FilterError::Malformed);
                }
                k = k - 1;
            } else if c == ',' && k == 0 && sp == 0 && i > 0 {
                sp = i;
            }
            i = i + 1;
        }
        proof {
            assert(body.take(m as int) =~= body);
        }
        if k != 0 {
            proof {
                assert(!balanced(body));
            }
            return Err(FilterError::Malformed);
        }
        proof {
            assert(balanced(body));
            if sp == 0 {
                lemma_ftc_none(body, 0);
            } else {
                lemma_ftc_found(body, 0, sp as int);
            }
            assert(split_point(body) == sp as int);
            assert(bodystr@.subrange(0, sp as int) =~= body.take(sp as int));
        }
        let left = trim_str(bodystr.substring_char(0, sp));
        if text_eq(op.as_str(), "not") {
            proof {
                assert(bodystr@.subrange(sp as int, m as int) =~= body.subrange(
                    sp as int,
                    body.len() as int,
                ));
            }
            let right = trim_str(bodystr.substring_char(sp, m));
            Ok((op, left, right))
        } else {
            if sp + 1 > m {
                return Err(FilterError::Malformed);
            }
            proof {
                assert(bodystr@.subrange(sp + 1, m as int) =~= body.subrange(
                    sp + 1,
                    body.len() as int,
                ));
            }
            let right = trim_str(bodystr.substring_char(sp + 1, m));
            Ok((op, left, right))
        }
    }

    /// Coerces raw literal text against the declared type of `field`.
    pub fn parse_literal(field: &SchemaField, value: &str) -> (r: Result<
        ScalarLiteral,
        FilterError,
    >)
        ensures
            ({
                let m = spec_coerce(field.data_type, value@);
                match r {
                    Ok(lit) => m == Ok::<LiteralV, FilterError>(lit@),
                    Err(e) => m == Err::<LiteralV, FilterError>(e),
                }
            }),
    {
        match &field.data_type {
            FieldType::Decimal128(p, s) => {
                if *p <= 18 {
                    match parse_int_in_range(value, i128::MIN, i128::MAX) {
                        Some(v) => Ok(ScalarLiteral::Decimal128(v, *p, *s)),
                        None => Err(FilterError::Coercion),
                    }
                } else {
                    match Self::parse_binary_array(value) {
                        Ok(Some(bs)) => {
                            if bs.len() <= 16 {
                                let v = i128_from_be_padded(&bs);
                                Ok(ScalarLiteral::Decimal128(v, *p, *s))
                            } else {
                                Err(FilterError::Coercion)
                            }
                        },
                        Ok(None) => Err(FilterError::Coercion),
                        Err(e) => Err(e),
                    }
                }
            },
            FieldType::Boolean => {
                if text_eq(value, "true") {
                    Ok(ScalarLiteral::Boolean(true))
                } else if text_eq(value, "false") {
                    Ok(ScalarLiteral::Boolean(false))
                } else {
                    Err(FilterError::Coercion)
                }
            },
            FieldType::Binary => {
                match Self::parse_binary_array(value) {
                    Ok(o) => Ok(ScalarLiteral::Binary(o)),
                    Err(e) => Err(e),
                }
            },
            FieldType::Float32 => {
                if is_float_literal(value) {
                    Ok(ScalarLiteral::Float32Text(value.to_owned()))
                } else {
                    Err(FilterError::Coercion)
                }
            },
            FieldType::Float64 => {
                if is_float_literal(value) {
                    Ok(ScalarLiteral::Float64Text(value.to_owned()))
                } else {
                    Err(FilterError::Coercion)
                }
            },
            FieldType::Int8 => {
                match parse_int_in_range(value, -128, 127) {
                    Some(v) => Ok(ScalarLiteral::Int8(v as i8)),
                    None => Err(FilterError::Coercion),
                }
            },
            FieldType::Int16 => {
                match parse_int_in_range(value, -32768, 32767) {
                    Some(v) => Ok(ScalarLiteral::Int16(v as i16)),
                    None => Err(FilterError::Coercion),
                }
            },
            FieldType::Int32 => {
                match parse_int_in_range(value, i32::MIN as i128, i32::MAX as i128) {
                    Some(v) => Ok(ScalarLiteral::Int32(v as i32)),
                    None => Err(FilterError::Coercion),
                }
            },
            FieldType::Int64 => {
                match parse_int_in_range(value, i64::MIN as i128, i64::MAX as i128) {
                    Some(v) => Ok(ScalarLiteral::Int64(v as i64)),
                    None => Err(FilterError::Coercion),
                }
            },
            FieldType::Date32 => {
                match parse_int_in_range(value, i32::MIN as i128, i32::MAX as i128) {
                    Some(v) => Ok(ScalarLiteral::Date32(v as i32)),
                    None => Err(FilterError::Coercion),
                }
            },
            FieldType::TimestampMicrosecond => {
                match parse_int_in_range(value, i64::MIN as i128, i64::MAX as i128) {
                    Some(v) => Ok(ScalarLiteral::TimestampMicrosecond(v as i64)),
                    None => Err(FilterError::Coercion),
                }
            },
            FieldType::Utf8 => {
                let n = value.unicode_len();
                if n < 10 {
                    Err(FilterError::Malformed)
                } else {
                    Ok(ScalarLiteral::Utf8(value.substring_char(8, n - 2).to_owned()))
                }
            },
            FieldType::Struct(_) => Ok(ScalarLiteral::Utf8(value.to_owned())),
        }
    }
}

} // verus!
