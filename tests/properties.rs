use jed::coerce::{coerce, text_of};
use jed::command::{parse_command, Command, CommandError};
use jed::dispatch::{run, EditError};
use jed::engine::{project, rename_keys, rewrite, rewrite_all, Selector};
use jed::grammar::{parse_syntax, Body, Term};
use jed::number::{parse_int, Number};
use jed::pattern::Pattern;
use jed::value::{Object, Value};

fn num(text: &str) -> Value {
    Value::Number(Number::parse(text).unwrap())
}

fn string(text: &str) -> Value {
    Value::String(String::from(text))
}

fn object(entries: Vec<(&str, Value)>) -> Value {
    let mut o = Object::new();
    for (k, v) in entries {
        o.insert(String::from(k), v);
    }
    Value::Object(o)
}

fn pattern(source: &str) -> Pattern {
    Pattern::new(source).unwrap()
}

fn key(source: &str) -> Selector {
    Selector::KeyMatch(pattern(source))
}

/// Renders a value as compact JSON-like text, keys in their order.
fn show(v: &Value) -> String {
    match v {
        Value::Null => String::from("null"),
        Value::Bool(b) => b.to_string(),
        Value::Number(n) => n.to_text(),
        Value::String(s) => format!("{:?}", s),
        Value::Array(a) => {
            let parts: Vec<String> = a.iter().map(show).collect();
            format!("[{}]", parts.join(","))
        }
        Value::Object(o) => {
            let parts: Vec<String> = o.entries().iter().map(|(k, x)| format!("{:?}:{}", k, show(x))).collect();
            format!("{{{}}}", parts.join(","))
        }
    }
}

fn sample() -> Value {
    object(vec![
        ("name", string("camilo")),
        ("age", num("31")),
        ("ratio", num("1.5")),
        ("admin", Value::Bool(true)),
        ("nothing", Value::Null),
        ("tags", Value::Array(vec![string("x"), num("-4")])),
    ])
}

#[test]
fn substitution_without_match_changes_nothing() {
    let before = show(&sample());
    let after = rewrite_all(sample(), &pattern("zzz"), "hola");
    assert_eq!(show(&after), before);
}

#[test]
fn scalars_keep_their_type_under_their_own_text() {
    for v in [Value::Null, Value::Bool(true), Value::Bool(false), num("7"), num("-0.25")] {
        let t = text_of(&v);
        let before = show(&v);
        assert_eq!(show(&coerce(v, t)), before);
    }
}

#[test]
fn null_becomes_string_when_no_typed_reading_fits() {
    let v = object(vec![("sha", Value::Null)]);
    let r = rewrite_all(v, &pattern(".+"), "hola");
    assert_eq!(show(&r), r#"{"sha":"hola"}"#);
}

#[test]
fn number_becomes_string_when_no_typed_reading_fits() {
    let v = object(vec![("sha", num("0"))]);
    let r = rewrite_all(v, &pattern(".+"), "hola");
    assert_eq!(show(&r), r#"{"sha":"hola"}"#);
}

#[test]
fn every_match_in_a_string_is_replaced() {
    let v = object(vec![("commit", object(vec![("author", object(vec![("name", string("bigmoonbit"))]))]))]);
    let r = rewrite_all(v, &pattern("o"), "A");
    assert_eq!(show(&r), r#"{"commit":{"author":{"name":"bigmAAnbit"}}}"#);
}

fn commits() -> Value {
    object(vec![(
        "commit",
        Value::Array(vec![
            object(vec![("name", string("camilo"))]),
            object(vec![("name", string("andres"))]),
        ]),
    )])
}

#[test]
fn range_bounds_are_inclusive_and_selective() {
    let chain = vec![key("commit"), Selector::IndexRange(0, 0)];
    let r = rewrite(commits(), &chain, &pattern("a"), "x");
    assert_eq!(show(&r), r#"{"commit":[{"name":"cxmilo"},{"name":"andres"}]}"#);
}

#[test]
fn a_key_hop_through_an_array_yields_null() {
    let chain = vec![key("commit"), key("name")];
    let r = rewrite(commits(), &chain, &pattern("a"), "x");
    assert_eq!(show(&r), r#"{"commit":null}"#);
}

#[test]
fn projection_along_an_empty_chain_is_null() {
    let r = project(commits(), &Vec::new());
    assert!(r.is_null());
    let r = project(sample(), &Vec::new());
    assert!(r.is_null());
}

#[test]
fn range_then_substitution_parses() {
    let (chain, command) = parse_command("1,3s/a/XXXX/g").unwrap();
    assert_eq!(chain.len(), 1);
    assert!(matches!(chain[0], Selector::IndexRange(1, 3)));
    match command {
        Command::Substitute { pattern, replacement, flags } => {
            assert_eq!(pattern.as_str(), "a");
            assert_eq!(replacement, "XXXX");
            assert_eq!(flags, "g");
        }
        _ => panic!("not a substitution"),
    }
}

#[test]
fn flags_change_nothing() {
    let doc = || object(vec![("items", Value::Array(vec![string("a"), string("aa"), string("b"), string("ca")]))]);
    let with = run("/items/.1,3s/a/XXXX/g", doc()).unwrap();
    let without = run("/items/.1,3s/a/XXXX/", doc()).unwrap();
    assert_eq!(show(&with), show(&without));
    assert_eq!(show(&with), r#"{"items":["a","XXXXXXXX","b","cXXXX"]}"#);
}

#[test]
fn reversed_range_selects_nothing() {
    let doc = Value::Array(vec![num("1"), num("2"), num("3")]);
    let r = project(doc, &vec![Selector::IndexRange(2, 1)]);
    assert_eq!(show(&r), "[]");
}

#[test]
fn projection_of_a_range_keeps_only_its_elements() {
    let doc = Value::Array(vec![num("1"), num("2"), num("3"), num("4")]);
    let r = project(doc, &vec![Selector::IndexRange(1, 9)]);
    assert_eq!(show(&r), "[2,3,4]");
}

#[test]
fn projection_with_no_matching_key_is_null() {
    let r = project(commits(), &vec![key("missing")]);
    assert!(r.is_null());
}

#[test]
fn projection_prunes_null_branches() {
    let doc = object(vec![
        ("a", object(vec![("x", num("1"))])),
        ("ab", object(vec![("y", num("2"))])),
    ]);
    let r = project(doc, &vec![key("a"), key("x")]);
    assert_eq!(show(&r), r#"{"a":{"x":1}}"#);
}

#[test]
fn substitution_keeps_unmatched_keys() {
    let doc = object(vec![("a", string("aa")), ("b", string("aa"))]);
    let r = rewrite(doc, &vec![key("a")], &pattern("a"), "z");
    assert_eq!(show(&r), r#"{"a":"zz","b":"aa"}"#);
}

#[test]
fn number_text_becoming_true_stays_a_string() {
    let r = coerce(num("5"), String::from("true"));
    assert_eq!(show(&r), r#""true""#);
}

#[test]
fn null_text_becoming_true_is_a_boolean() {
    let r = coerce(Value::Null, String::from("true"));
    assert_eq!(show(&r), "true");
    let r = coerce(Value::Bool(false), String::from("true"));
    assert_eq!(show(&r), "true");
}

#[test]
fn coercion_prefers_integers_then_floats() {
    assert_eq!(show(&coerce(Value::Null, String::from("+007"))), "7");
    assert_eq!(show(&coerce(Value::Bool(true), String::from("-12"))), "-12");
    assert_eq!(show(&coerce(Value::Null, String::from("2.50"))), "2.5");
    assert_eq!(
        show(&coerce(Value::Null, String::from("170141183460469231731687303715884105727"))),
        "170141183460469231731687303715884105727"
    );
}

#[test]
fn integer_reading_follows_its_range() {
    assert_eq!(parse_int("-170141183460469231731687303715884105728"), Some(i128::MIN));
    assert_eq!(parse_int("170141183460469231731687303715884105728"), None);
    assert_eq!(parse_int("+"), None);
    assert_eq!(parse_int("12a"), None);
    assert_eq!(parse_int("-0"), Some(0));
}

#[test]
fn integer_text_is_canonical() {
    assert_eq!(Number::from_i128(i128::MIN).to_text(), "-170141183460469231731687303715884105728");
    assert_eq!(Number::from_i128(0).to_text(), "0");
    assert_eq!(Number::from_i128(-45).to_text(), "-45");
}

#[test]
fn renaming_replaces_the_first_match_only() {
    let doc = object(vec![("banana", num("1"))]);
    let r = rename_keys(doc, &pattern("a"), "o");
    assert_eq!(show(&r), r#"{"bonana":1}"#);
}

#[test]
fn renaming_onto_an_earlier_key_overwrites_it_in_place() {
    let doc = object(vec![("name", string("first")), ("other", num("0")), ("nombre", string("second"))]);
    let r = rename_keys(doc, &pattern("nombre"), "name");
    assert_eq!(show(&r), r#"{"name":"second","other":0}"#);
}

#[test]
fn replacement_may_name_capture_groups() {
    let doc = string("john smith");
    let r = rewrite_all(doc, &pattern(r"(\w+) (\w+)"), "$2 $1");
    assert_eq!(show(&r), r#""smith john""#);
}

#[test]
fn syntax_errors_are_reported() {
    for text in ["", "9p", "1,p", "/a/.s/x/y/", "s/a/b", "pp", "/a/!", "1,3", " 1,3p"] {
        assert!(matches!(parse_command(text), Err(CommandError::Syntax)), "{}", text);
    }
}

#[test]
fn invalid_patterns_are_reported() {
    assert!(matches!(parse_command("/(/p"), Err(CommandError::InvalidPattern)));
    assert!(matches!(parse_command("s/(/x/"), Err(CommandError::InvalidPattern)));
}

#[test]
fn oversized_ranges_are_reported() {
    assert!(matches!(parse_command("1,99999999999999999999999p"), Err(CommandError::RangeTooLarge)));
}

#[test]
fn unknown_commands_are_unsupported() {
    let (_, command) = parse_command("/a/ d").unwrap();
    assert!(matches!(command, Command::Unrecognized(ref t) if t == "d"));
    assert!(matches!(run("/a/ d", Value::Null), Err(EditError::Unsupported)));
}

#[test]
fn command_parts_are_split_as_written() {
    let s = parse_syntax("/a.b/.10,20 s/x/y/gi").unwrap();
    assert_eq!(s.address, "/a.b/.10,20");
    assert_eq!(s.terms.len(), 2);
    assert!(matches!(&s.terms[0], Term::Key(k) if k == "a.b"));
    assert!(matches!(&s.terms[1], Term::Range(b, e) if b == "10" && e == "20"));
    assert!(matches!(&s.body, Body::Substitute { flags, .. } if flags == "gi"));
}

#[test]
fn print_along_a_chain_runs() {
    let r = run("/commit/.0,0p", commits()).unwrap();
    assert_eq!(show(&r), r#"{"commit":[{"name":"camilo"}]}"#);
    let r = run("p", commits()).unwrap();
    assert!(r.is_null());
}

#[test]
fn objects_replace_values_under_a_present_key() {
    let mut o = Object::new();
    o.insert(String::from("a"), num("1"));
    o.insert(String::from("b"), num("2"));
    o.insert(String::from("a"), num("3"));
    assert_eq!(o.len(), 2);
    assert_eq!(show(&Value::Object(o)), r#"{"a":3,"b":2}"#);
}

#[test]
fn coercion_takes_the_number_reading_it_is_given() {
    let r = jed::coerce::coerce_reading(Value::Bool(true), String::from("yes"), None);
    assert_eq!(show(&r), r#""yes""#);
    let r = jed::coerce::coerce_reading(Value::Null, String::from("12"), Number::parse("12"));
    assert_eq!(show(&r), "12");
    let r = jed::coerce::coerce_reading(Value::Null, String::from("null"), Number::parse("3"));
    assert_eq!(show(&r), "null");
}
