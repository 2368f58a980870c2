//! The trusted boundary around the TOML parser: the text of a document is
//! turned into the raw value model by the `toml` crate, and nothing else in
//! the library touches that crate.

use vstd::prelude::*;

use crate::raw::{tbl_view, RawV, RawValue};

verus! {

#[verifier::external_type_specification]
#[verifier::external_body]
pub struct ExTomlValue(toml::Value);

#[verifier::external_type_specification]
#[verifier::external_body]
#[verifier::reject_recursive_types(K)]
#[verifier::reject_recursive_types(V)]
pub struct ExTomlMap<K, V>(toml::map::Map<K, V>);

/// The table a TOML document denotes, or nothing when the text is not
/// valid TOML.  The result depends on the text alone.
pub uninterp spec fn toml_doc_of(s: Seq<char>) -> Option<RawV>;

/// Relies on toml's `FromStr for Table`: parsing depends on the text alone;
/// every document parses to a table; invalid text is an error.
#[verifier::external_body]
pub fn parse_toml_doc(s: &str) -> (r: Result<Vec<(String, RawValue)>, String>)
    ensures
        match r {
            Ok(es) => toml_doc_of(s@) == Some(RawV::Tbl(tbl_view(es))),
            Err(m) => toml_doc_of(s@) is None,
        },
{
    match s.parse::<toml::Table>() {
        Ok(t) => Ok(conv_entries(t)),
        Err(e) => Err(e.to_string()),
    }
}

/// Relies on toml's `Value`: converts each variant to its raw counterpart,
/// one arm each; floats and datetimes, which the resolver never reads,
/// become `Other`.
#[verifier::external_body]
fn conv_value(v: toml::Value) -> RawValue {
    match v {
        toml::Value::String(s) => RawValue::Str(s),
        toml::Value::Integer(i) => RawValue::Int(i),
        toml::Value::Boolean(b) => RawValue::Bool(b),
        toml::Value::Array(xs) => RawValue::Arr(xs.into_iter().map(conv_value).collect()),
        toml::Value::Table(t) => RawValue::Tbl(conv_entries(t)),
        _ => RawValue::Other,
    }
}

/// Relies on toml's `Map` iteration: hands the entries out in the map's
/// order (sorted by key, keys unique), each value converted.
#[verifier::external_body]
fn conv_entries(t: toml::map::Map<String, toml::Value>) -> (r: Vec<(String, RawValue)>) {
    t.into_iter().map(|(k, v)| (k, conv_value(v))).collect()
}

} // verus!
