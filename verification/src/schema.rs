//! Schema model: named, typed fields, where a field may itself be
//! struct-typed with a nested ordered field list of arbitrary depth.

use vstd::prelude::*;
use crate::text::text_eq;

verus! {

/// Declared type of a schema field.
///
/// The closed variant set mirrors the kinds of typed literal the filter
/// compiler can coerce: fixed-precision decimals carry their precision and
/// scale, timestamps are microsecond-resolution, and struct-typed fields
/// carry their nested field list.
#[derive(Debug, PartialEq)]
pub enum FieldType {
    Boolean,
    Int8,
    Int16,
    Int32,
    Int64,
    Float32,
    Float64,
    /// Precision and scale of a 128-bit backed decimal.
    Decimal128(u8, i8),
    Binary,
    /// Days since the epoch, 32-bit.
    Date32,
    /// Microseconds since the epoch, in the engine's fixed time zone.
    TimestampMicrosecond,
    Utf8,
    /// A nested ordered field list.
    Struct(Vec<SchemaField>),
}

/// One named, typed field of a schema.
#[derive(Debug, PartialEq)]
pub struct SchemaField {
    pub name: String,
    pub data_type: FieldType,
}

/// An ordered list of named, typed fields, immutable once bound to a scan.
#[derive(Debug, PartialEq)]
pub struct Schema {
    pub fields: Vec<SchemaField>,
}

/// First field of `fields` whose name reads `name`, if any.
pub open spec fn field_with_name(fields: Seq<SchemaField>, name: Seq<char>) -> Option<SchemaField>
    decreases fields.len(),
{
    if fields.len() == 0 {
        None
    } else if fields[0].name@ == name {
        Some(fields[0])
    } else {
        field_with_name(fields.drop_first(), name)
    }
}

proof fn lemma_field_with_name_at(fields: Seq<SchemaField>, name: Seq<char>, k: int)
    requires
        0 <= k < fields.len(),
        fields[k].name@ == name,
        forall|i: int| 0 <= i < k ==> fields[i].name@ != name,
    ensures
        field_with_name(fields, name) == Some(fields[k]),
    decreases k,
{
    if k > 0 {
        lemma_field_with_name_at(fields.drop_first(), name, k - 1);
    }
}

proof fn lemma_field_with_name_absent(fields: Seq<SchemaField>, name: Seq<char>)
    requires
        forall|i: int| 0 <= i < fields.len() ==> fields[i].name@ != name,
    ensures
        field_with_name(fields, name) is None,
    decreases fields.len(),
{
    if fields.len() > 0 {
        lemma_field_with_name_absent(fields.drop_first(), name);
    }
}

/// Finds the first field of `fields` named `name`.
pub fn find_field<'a>(fields: &'a Vec<SchemaField>, name: &str) -> (r: Option<&'a SchemaField>)
    ensures
        match r {
            Some(f) => field_with_name(fields@, name@) == Some(*f),
            None => field_with_name(fields@, name@) is None,
        },
{
    let n = fields.len();
    let mut i: usize = 0;
    while i < n
        invariant
            0 <= i <= n,
            n == fields@.len(),
            forall|j: int| 0 <= j < i ==> fields@[j].name@ != name@,
        decreases n - i,
    {
        if text_eq(fields[i].name.as_str(), name) {
            proof {
                lemma_field_with_name_at(fields@, name@, i as int);
            }
            return Some(&fields[i]);
        }
        i = i + 1;
    }
    proof {
        lemma_field_with_name_absent(fields@, name@);
    }
    None
}

} // verus!
