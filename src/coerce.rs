//! Scalars as text, and text back into the most specific scalar.
use vstd::prelude::*;
use crate::number::{Number, number_text};
use crate::value::{Json, Value};

verus! {

/// Null, booleans and numbers: the values that a substitution edits through
/// their text.
pub open spec fn is_scalar(t: Json) -> bool {
    t is Null || t is Bool || t is Number
}

pub open spec fn null_text() -> Seq<char> {
    seq!['n', 'u', 'l', 'l']
}

pub open spec fn true_text() -> Seq<char> {
    seq!['t', 'r', 'u', 'e']
}

pub open spec fn false_text() -> Seq<char> {
    seq!['f', 'a', 'l', 's', 'e']
}

/// The canonical text of a scalar.
pub open spec fn scalar_text(t: Json) -> Seq<char> {
    match t {
        Json::Null => null_text(),
        Json::Bool(b) => if b { true_text() } else { false_text() },
        Json::Number(n) => n,
        _ => Seq::empty(),
    }
}

/// What a scalar becomes when its text is rewritten to `text`: itself where
/// the text is unchanged, else a number where `text` reads as one, else a
/// boolean where the scalar was null or a boolean and `text` is a boolean
/// literal, else a string.
pub open spec fn coerced(scalar: Json, text: Seq<char>) -> Json {
    coerced_reading(scalar, text, number_text(text))
}

/// As `coerced`, where `reading` is the canonical text of the number that
/// `text` reads as, if any.
pub open spec fn coerced_reading(scalar: Json, text: Seq<char>, reading: Option<Seq<char>>) -> Json {
    if text == scalar_text(scalar) {
        scalar
    } else if reading is Some {
        Json::Number(reading->0)
    } else if (scalar is Null || scalar is Bool) && (text == true_text() || text == false_text()) {
        Json::Bool(text == true_text())
    } else {
        Json::Str(text)
    }
}

/// The canonical text of a scalar.
pub fn text_of(v: &Value) -> (r: String)
    requires
        is_scalar(v@),
    ensures
        r@ == scalar_text(v@),
{
    proof {
        reveal_strlit("null");
        reveal_strlit("true");
        reveal_strlit("false");
    }
    let r = match v {
        Value::Null => String::from_str("null"),
        Value::Bool(b) => if *b {
            String::from_str("true")
        } else {
            String::from_str("false")
        },
        Value::Number(n) => n.to_text(),
        _ => String::new(),
    };
    assert(r@ =~= scalar_text(v@));
    r
}

/// Turns the rewritten text of a scalar back into a value, as `coerced` says.
pub fn coerce(scalar: Value, text: String) -> (r: Value)
    requires
        is_scalar(scalar@),
    ensures
        r@ == coerced(scalar@, text@),
{
    let reading = Number::parse(text.as_str());
    coerce_reading(scalar, text, reading)
}

/// Turns the rewritten text of a scalar back into a value, given the number
/// that the text reads as, if any.
pub fn coerce_reading(scalar: Value, text: String, reading: Option<Number>) -> (r: Value)
    requires
        is_scalar(scalar@),
    ensures
        r@ == coerced_reading(
            scalar@,
            text@,
            match reading {
                Some(n) => Some(n@),
                None => None,
            },
        ),
{
    let current = text_of(&scalar);
    if text == current {
        return scalar;
    }
    if let Some(n) = reading {
        return Value::Number(n);
    }
    let may_be_bool = match scalar {
        Value::Null => true,
        Value::Bool(_) => true,
        _ => false,
    };
    if may_be_bool {
        proof {
            reveal_strlit("true");
            reveal_strlit("false");
        }
        let t = String::from_str("true");
        let f = String::from_str("false");
        assert(t@ =~= true_text());
        assert(f@ =~= false_text());
        if text == t {
            return Value::Bool(true);
        }
        if text == f {
            return Value::Bool(false);
        }
    }
    Value::String(text)
}

/// A scalar given back its own text is left as it was.
pub proof fn lemma_coerce_own_text(t: Json)
    requires
        is_scalar(t),
    ensures
        coerced(t, scalar_text(t)) == t,
{
}

}
