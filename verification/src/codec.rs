//! The serialization codec behind every table file.
//!
//! A table's whole content is one serialized string-keyed mapping. The engine
//! treats the codec as an opaque encode/decode pair with round-trip fidelity:
//! what `table_encoding` produces for a mapping, `table_decoding` reads back
//! as exactly that mapping. Both sides go through an external JSON codec.

use vstd::prelude::*;

use crate::value::{DbValueView, DbValue};

verus! {

/// The mapping denoted by parallel key and value columns; a later binding of
/// a key overrides an earlier one.
pub open spec fn entries_model(keys: Seq<String>, vals: Seq<DbValue>) -> Map<Seq<char>, DbValueView>
    decreases keys,
{
    if keys.len() == 0 || vals.len() == 0 {
        Map::empty()
    } else {
        entries_model(keys.drop_last(), vals.drop_last()).insert(
            keys.last()@,
            vals.last().model(),
        )
    }
}

/// No two keys of the column read the same.
pub open spec fn keys_distinct(keys: Seq<String>) -> bool {
    forall|i: int, j: int| 0 <= i < j < keys.len() ==> keys[i]@ != keys[j]@
}

/// The codec reads nesting back only up to its recursion bound; a value
/// within this depth is sure to survive the round trip.
pub open spec fn fits_codec(v: DbValue) -> bool {
    v.depth() <= 126
}

/// Every value of the column nests within the codec's bound.
pub open spec fn column_fits_codec(vals: Seq<DbValue>) -> bool {
    forall|i: int| 0 <= i < vals.len() ==> fits_codec(#[trigger] vals[i])
}

/// The text the codec produces for a table mapping.
pub uninterp spec fn table_encoding(m: Map<Seq<char>, DbValueView>) -> Seq<char>;

/// What the codec reads back from a text: the mapping the text denotes, or
/// nothing where the codec rejects the text.
pub uninterp spec fn table_decoding(text: Seq<char>) -> Option<Map<Seq<char>, DbValueView>>;

/// The declaration of the codec's own value type, which the conversion
/// helpers below carry values through.
#[verifier::external_type_specification]
#[verifier::external_body]
pub struct ExJsonValue(serde_json::Value);

/// Relies on serde_json::Value's constructors alone: rebuilds a stored value
/// as the codec's value type, variant for variant, field for field.
#[verifier::external_body]
fn value_to_json(v: &DbValue) -> serde_json::Value {
    match v {
        DbValue::Null => serde_json::Value::Null,
        DbValue::Bool(b) => serde_json::Value::Bool(*b),
        DbValue::Int(i) => serde_json::Value::Number(serde_json::Number::from(*i)),
        DbValue::Str(s) => serde_json::Value::String(s.clone()),
        DbValue::Arr(vs) => serde_json::Value::Array(vs.iter().map(value_to_json).collect()),
        DbValue::Obj(ps) => serde_json::Value::Object(
            ps.iter().map(|p| (p.0.clone(), value_to_json(&p.1))).collect(),
        ),
    }
}

/// Relies on serde_json::Value's accessors alone: reads the codec's value
/// type back as a stored value, variant for variant; a number outside the
/// signed 64-bit range has no stored form, so it yields nothing.
#[verifier::external_body]
fn json_to_value(v: serde_json::Value) -> Option<DbValue> {
    match v {
        serde_json::Value::Null => Some(DbValue::Null),
        serde_json::Value::Bool(b) => Some(DbValue::Bool(b)),
        serde_json::Value::Number(n) => n.as_i64().map(DbValue::Int),
        serde_json::Value::String(s) => Some(DbValue::Str(s)),
        serde_json::Value::Array(xs) => {
            xs.into_iter().map(json_to_value).collect::<Option<Vec<DbValue>>>().map(DbValue::Arr)
        },
        serde_json::Value::Object(m) => {
            m.into_iter().map(
                |p: (String, serde_json::Value)| json_to_value(p.1).map(|w| (p.0, w)),
            ).collect::<Option<Vec<(String, DbValue)>>>().map(DbValue::Obj)
        },
    }
}

/// Relies on serde_json::to_string over serde_json::Map, whose keys are held
/// in sorted order: for a given mapping it yields one fixed text, whatever
/// column order the caller holds the entries in, and serde_json::from_str
/// reads that text back as the same mapping. Serializing a string-keyed map
/// of plain values cannot fail. The round trip holds because the values stay
/// within the parser's recursion bound (128 levels, one spent on the map).
#[verifier::external_body]
pub(crate) fn encode_entries(keys: &Vec<String>, vals: &Vec<DbValue>) -> (r: String)
    requires
        keys@.len() == vals@.len(),
        column_fits_codec(vals@),
    ensures
        r@ == table_encoding(entries_model(keys@, vals@)),
        table_decoding(r@) == Some(entries_model(keys@, vals@)),
{
    let m: serde_json::Map<String, serde_json::Value> =
        keys.iter().cloned().zip(vals.iter().map(value_to_json)).collect();
    serde_json::to_string(&m).unwrap()
}

/// Relies on serde_json::from_str to serde_json::Map: parsing is a pure
/// function of the text; the map it returns binds each key once; what it
/// parses nests within its recursion bound; a text it rejects, and one
/// holding a number outside the signed 64-bit range, decode to nothing.
#[verifier::external_body]
pub(crate) fn decode_entries(text: &str) -> (r: Option<(Vec<String>, Vec<DbValue>)>)
    ensures
        r is Some <==> table_decoding(text@) is Some,
        r matches Some(kv) ==> {
            &&& kv.0@.len() == kv.1@.len()
            &&& keys_distinct(kv.0@)
            &&& column_fits_codec(kv.1@)
            &&& table_decoding(text@) == Some(entries_model(kv.0@, kv.1@))
        },
{
    let m: serde_json::Map<String, serde_json::Value> = match serde_json::from_str(text) {
        Ok(m) => m,
        Err(_) => return None,
    };
    let pairs: Option<Vec<(String, DbValue)>> = m.into_iter().map(
        |p: (String, serde_json::Value)| json_to_value(p.1).map(|w| (p.0, w)),
    ).collect();
    match pairs {
        Some(ps) => {
            let kv: (Vec<String>, Vec<DbValue>) = ps.into_iter().unzip();
            Some(kv)
        },
        None => None,
    }
}

} // verus!
