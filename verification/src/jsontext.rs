//! The calls into `serde_json`: JSON text for strings and integers, and the
//! parser.

use crate::json::{int_text, json_quoted};
use vstd::prelude::*;

verus! {

/// `serde_json::to_string` on a `str`: the JSON string literal, with `"`,
/// `\` and the characters below U+0020 escaped (the last as `\u00xx` with
/// lower-case hex unless they have a short form) and nothing else changed.
#[verifier::external_body]
pub(crate) fn json_quote(s: &str) -> (r: String)
    ensures
        r@ == json_quoted(s@),
{
    match serde_json::to_string(s) {
        Ok(t) => t,
        Err(_) => String::new(),
    }
}

/// `serde_json::to_string` on the number `n`: its decimal digits, with `-`
/// in front when negative.
#[verifier::external_body]
pub(crate) fn json_int(n: i64) -> (r: String)
    ensures
        r@ == int_text(n as int),
{
    match serde_json::to_string(&serde_json::Number::from(n)) {
        Ok(t) => t,
        Err(_) => String::new(),
    }
}

#[verifier::external_type_specification]
#[verifier::external_body]
pub struct ExValue(serde_json::Value);

#[verifier::external_type_specification]
#[verifier::external_body]
pub struct ExNumber(serde_json::Number);

/// A JSON value as `serde_json` reads it, node for node: an object's
/// entries as its map hands them out, a number as what `as_i64` gives and as
/// the JSON text of its `f64` value.
pub enum RawJson {
    Null,
    Bool(bool),
    Number(Option<i64>, Option<String>),
    Str(String),
    Array(Vec<RawJson>),
    Object(Vec<(String, RawJson)>),
}

/// The spec-side form of a `RawJson`.
pub enum RawView {
    Null,
    Bool(bool),
    Number(Option<i64>, Option<Seq<char>>),
    Str(Seq<char>),
    Array(Seq<RawView>),
    Object(Seq<(Seq<char>, RawView)>),
}

pub open spec fn opt_text(o: Option<String>) -> Option<Seq<char>> {
    match o {
        Some(s) => Some(s@),
        None => None,
    }
}

pub open spec fn raw_view(t: RawJson) -> RawView
    decreases t,
{
    match t {
        RawJson::Null => RawView::Null,
        RawJson::Bool(b) => RawView::Bool(b),
        RawJson::Number(i, f) => RawView::Number(i, opt_text(f)),
        RawJson::Str(s) => RawView::Str(s@),
        RawJson::Array(v) => RawView::Array(
            Seq::new(v@.len(), |i: int| if 0 <= i < v@.len() { raw_view(v@[i]) } else { RawView::Null }),
        ),
        RawJson::Object(v) => RawView::Object(
            Seq::new(
                v@.len(),
                |i: int|
                    if 0 <= i < v@.len() {
                        (v@[i].0@, raw_view(v@[i].1))
                    } else {
                        (Seq::empty(), RawView::Null)
                    },
            ),
        ),
    }
}

impl View for RawJson {
    type V = RawView;

    open spec fn view(&self) -> RawView {
        raw_view(*self)
    }
}

/// What `serde_json::from_str` reads from the text, taken node for node as
/// a `RawJson` is; `None` when it fails.
pub uninterp spec fn serde_read(s: Seq<char>) -> Option<RawView>;

/// Whether `serde_json::from_str` reads the text as one JSON value.
pub open spec fn serde_accepts(s: Seq<char>) -> bool {
    serde_read(s) is Some
}

/// `serde_json::from_str` into a `serde_json::Value`, taken node for node:
/// the result is named by the text.
#[verifier::external_body]
pub(crate) fn parse_raw(s: &str) -> (r: Option<RawJson>)
    ensures
        match r {
            Some(t) => serde_read(s@) == Some(t@),
            None => serde_read(s@) is None,
        },
{
    match serde_json::from_str::<serde_json::Value>(s) {
        Ok(v) => Some(raw_of(v)),
        Err(_) => None,
    }
}

/// A `serde_json::Value` node for node as a `RawJson`; what it claims is
/// part of what `parse_raw` claims.
#[verifier::external_body]
fn raw_of(v: serde_json::Value) -> RawJson {
    match v {
        serde_json::Value::Null => RawJson::Null,
        serde_json::Value::Bool(b) => RawJson::Bool(b),
        serde_json::Value::Number(n) => RawJson::Number(n.as_i64(), number_float_text(&n)),
        serde_json::Value::String(s) => RawJson::Str(s),
        serde_json::Value::Array(a) => RawJson::Array(a.into_iter().map(raw_of).collect()),
        serde_json::Value::Object(m) => RawJson::Object(m.into_iter().map(|(k, x)| (k, raw_of(x))).collect()),
    }
}

/// The JSON text of a number read as an `f64`: `as_f64`, then `from_f64`,
/// then `serde_json::to_string`; what it claims is part of what
/// `parse_raw` claims.
#[verifier::external_body]
fn number_float_text(n: &serde_json::Number) -> Option<String> {
    match n.as_f64() {
        Some(f) => match serde_json::Number::from_f64(f) {
            Some(m) => match serde_json::to_string(&m) {
                Ok(t) => Some(t),
                Err(_) => None,
            },
            None => None,
        },
        None => None,
    }
}

} // verus!
