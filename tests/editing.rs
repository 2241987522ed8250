use jed::command::{parse_command, Command};
use jed::engine::{project, rename_keys, rewrite, rewrite_all, Selector};
use jed::grammar::{parse_syntax, Body, Syntax};
use jed::number::Number;
use jed::pattern::Pattern;
use jed::value::{Object, Value};

fn from_json(v: serde_json::Value) -> Value {
    match v {
        serde_json::Value::Null => Value::Null,
        serde_json::Value::Bool(b) => Value::Bool(b),
        serde_json::Value::Number(n) => Value::Number(Number::parse(&n.to_string()).unwrap()),
        serde_json::Value::String(s) => Value::String(s),
        serde_json::Value::Array(a) => Value::Array(a.into_iter().map(from_json).collect()),
        serde_json::Value::Object(m) => {
            let mut o = Object::new();
            for (k, x) in m {
                o.insert(k, from_json(x));
            }
            Value::Object(o)
        }
    }
}

fn doc(text: &str) -> Value {
    from_json(serde_json::from_str(text).unwrap())
}

fn pattern(source: &str) -> Pattern {
    Pattern::new(source).unwrap()
}

fn key(source: &str) -> Selector {
    Selector::KeyMatch(pattern(source))
}

fn get<'a>(v: Option<&'a Value>, k: &str) -> Option<&'a Value> {
    v.and_then(|v| v.get(k))
}

fn at<'a>(v: Option<&'a Value>, i: usize) -> Option<&'a Value> {
    v.and_then(|v| v.at(i))
}

fn text<'a>(v: Option<&'a Value>) -> Option<&'a str> {
    v.and_then(|v| v.as_str())
}

fn absent(v: Option<&Value>) -> bool {
    v.map_or(true, |v| v.is_null())
}

fn number(v: Option<&Value>) -> Option<String> {
    match v {
        Some(Value::Number(n)) => Some(n.to_text()),
        _ => None,
    }
}

fn syntax(input: &str) -> Syntax {
    parse_syntax(input).expect("failed to parse")
}

fn substitute_parts(s: &Syntax) -> (&str, &str, &str) {
    match &s.body {
        Body::Substitute { pattern, replacement, flags } => {
            (pattern.as_str(), replacement.as_str(), flags.as_str())
        }
        _ => panic!("not a substitution"),
    }
}

#[test]
fn test_substitute_keys_1() {
    let some_json = r#"
        {"sha": "0eb3da11ed489189963045a3d4eb21ba343736cb", "node_id": "C_kwDOAE3WVdoAKDBlYjNkYTExZWQ0ODkxODk5NjMwNDVhM2Q0ZWIyMWJhMzQzNzM2Y2I"}"#;
    let mut v = doc(some_json);
    v = rename_keys(v, &pattern("sha"), "new_sha");
    assert_eq!(text(get(Some(&v), "new_sha")), Some("0eb3da11ed489189963045a3d4eb21ba343736cb"));
}

#[test]
fn test_substitute_keys_recursivity() {
    let some_json = r#"
        {
          "commit": {
            "author": {
              "name": "bigmoonbit"
            }
        }
        }"#;
    let mut v = doc(some_json);
    v = rename_keys(v, &pattern("a"), "o");
    assert_eq!(text(get(get(get(Some(&v), "commit"), "outhor"), "nome")), Some("bigmoonbit"));
}

#[test]
fn test_substitute_keys_repeated_keys_keeps_last() {
    let some_json = r#"
        {
          "commit": {
            "author": {
              "name": "bigmoonbit",
              "nombre": "hola"
            }
        }
        }"#;
    let mut v = doc(some_json);
    v = rename_keys(v, &pattern("nombre"), "name");
    assert_eq!(text(get(get(get(Some(&v), "commit"), "author"), "name")), Some("hola"));
}

#[test]
fn test_substitute_keys_recursivity_inside_lists() {
    let some_json = r#"
        {
          "commit": [
            { "author": "camilo" },
            { "author": "andres" }
            ]
        }"#;
    let mut v = doc(some_json);
    v = rename_keys(v, &pattern("author"), "autor");
    assert_eq!(text(get(at(get(Some(&v), "commit"), 0), "autor")), Some("camilo"));
    assert_eq!(text(get(at(get(Some(&v), "commit"), 1), "autor")), Some("andres"));
}

#[test]
fn test_substitute_values() {
    let some_json = r#"
        {
          "commit": {
            "author": {
              "name": "bigmoonbit"
            }
        }
        }"#;
    let mut v = doc(some_json);
    v = rewrite_all(v, &pattern("oo"), "AAA");
    assert_eq!(text(get(get(get(Some(&v), "commit"), "author"), "name")), Some("bigmAAAnbit"));
}

#[test]
fn test_substitute_values_2() {
    let some_json = r#"
        {
          "commit": {
            "author": {
              "name": "bigmoonbit"
            }
        }
        }"#;
    let mut v = doc(some_json);
    v = rewrite_all(v, &pattern("o"), "A");
    assert_eq!(text(get(get(get(Some(&v), "commit"), "author"), "name")), Some("bigmAAnbit"));
}

#[test]
fn test_substitute_values_recursivity_inside_lists() {
    let some_json = r#"
        {
          "commit": [
            { "author": "camilo" },
            { "author": "andres" }
            ]
        }"#;
    let mut v = doc(some_json);
    v = rewrite_all(v, &pattern("andres"), "mata");
    assert_eq!(text(get(at(get(Some(&v), "commit"), 1), "author")), Some("mata"));
}

#[test]
fn test_substitute_values_recursivity_with_list_in_the_root() {
    let some_json = r#"
        [
            { "author": "camilo" },
            { "author": "andres" }
        ]
        "#;
    let mut v = doc(some_json);
    v = rewrite_all(v, &pattern("andres"), "mata");
    assert_eq!(text(get(at(Some(&v), 1), "author")), Some("mata"));
}

#[test]
fn test_substitute_values_numbers_can_be_replaced() {
    let some_json = r#"
        {
          "commit": {
            "author": {
              "name": 5
            }
        }
        }"#;
    let mut v = doc(some_json);
    v = rewrite_all(v, &pattern("5"), "6");
    assert_eq!(number(get(get(get(Some(&v), "commit"), "author"), "name")), Some(String::from("6")));
}

#[test]
fn test_substitute_values_booleans_can_be_modified() {
    let some_json = r#"
        {
          "commit": {
            "author": {
              "name": true
            }
        }
        }"#;
    let mut v = doc(some_json);
    v = rewrite_all(v, &pattern("true"), "false");
    assert!(matches!(get(get(get(Some(&v), "commit"), "author"), "name"), Some(Value::Bool(false))));
}

#[test]
fn test_substitute_values_random_bug() {
    let some_json = r#"
        {
        "sha": "03cb1e19da91f0df728914d4c8717f7490df04e4"
        }"#;
    let mut v = doc(some_json);
    v = rewrite_all(v, &pattern(".+"), "hola");
    assert_eq!(text(get(Some(&v), "sha")), Some("hola"));
}

#[test]
fn test_substitute_values_numbers_can_be_replaced_2() {
    let some_json = r#"
        {
        "sha": 0
        }"#;
    let mut v = doc(some_json);
    v = rewrite_all(v, &pattern(".+"), "hola");
    assert_eq!(text(get(Some(&v), "sha")), Some("hola"));
}

#[test]
fn test_substitute_values_nulls_can_be_replaced() {
    let some_json = r#"
        {
        "sha": null 
        }"#;
    let mut v = doc(some_json);
    v = rewrite_all(v, &pattern(".+"), "hola");
    assert_eq!(text(get(Some(&v), "sha")), Some("hola"));
}

#[test]
fn test_substitute_values_new_lines_can_be_replaced() {
    let some_json = r#"
        {
        "sha": "a\\nb"
        }"#;
    let mut v = doc(some_json);
    v = rewrite_all(v, &pattern(".+"), "hola");
    assert_eq!(text(get(Some(&v), "sha")), Some("hola"));
}

#[test]
fn test_filter_0() {
    let some_json = r#"
        {
            "name": "camilo"
        }"#;
    let mut v = doc(some_json);
    let stack = vec![key("nothing")];
    v = project(v, &stack);
    assert!(absent(get(Some(&v), "name")));
}

#[test]
fn test_filter_1() {
    let some_json = r#"
        {
            "name": "camilo"
        }"#;
    let mut v = doc(some_json);
    let stack = vec![key("name")];
    v = project(v, &stack);
    assert_eq!(text(get(Some(&v), "name")), Some("camilo"));
}

#[test]
fn test_filter_2() {
    let some_json = r#"
        {
            "name": "camilo",
            "nombre": "andres"
        }"#;
    let mut v = doc(some_json);
    let stack = vec![key("name")];
    v = project(v, &stack);
    assert!(absent(get(Some(&v), "nombre")));
}

#[test]
fn test_filter_3() {
    let some_json = r#"
        {
            "author": {
              "name": "bigmoonbit",
              "nombre": "hola"
            }
        }"#;
    let mut v = doc(some_json);
    let stack = vec![key("author"), key("name")];
    v = project(v, &stack);
    assert_eq!(text(get(get(Some(&v), "author"), "name")), Some("bigmoonbit"));
    assert!(absent(get(get(Some(&v), "author"), "nombre")));
}

#[test]
fn test_filter_4() {
    let some_json = r#"
        {
          "commit": {
            "author": {
              "name": "bigmoonbit",
              "nombre": "hola"
            }
        }
        }"#;
    let mut v = doc(some_json);
    let stack = vec![key("commit"), key("author"), key("name")];
    v = project(v, &stack);
    assert_eq!(text(get(get(get(Some(&v), "commit"), "author"), "name")), Some("bigmoonbit"));
    assert!(absent(get(get(get(Some(&v), "commit"), "author"), "nombre")));
}

#[test]
fn test_filter_5() {
    let some_json = r#"
        {
          "commit": {
            "author": {
              "name": "bigmoonbit",
              "nombre": "hola"
            }
        }
        }"#;
    let mut v = doc(some_json);
    let stack = vec![key("commit")];
    v = project(v, &stack);
    assert_eq!(text(get(get(get(Some(&v), "commit"), "author"), "name")), Some("bigmoonbit"));
    assert_eq!(text(get(get(get(Some(&v), "commit"), "author"), "nombre")), Some("hola"));
}

#[test]
fn test_grammar_1() {
    let input = String::from("s/sha/new_sha/g");
    let parsed = syntax(&input);
    assert!(parsed.terms.is_empty());
    assert_eq!(substitute_parts(&parsed), ("sha", "new_sha", "g"));
}

#[test]
fn test_grammar_2() {
    let input = String::from("/c/s/sha/new_sha/g");
    let _parsed = syntax(&input);
    let input = String::from("/c/ s/sha/new_sha/g");
    let _parsed = syntax(&input);
    let input = String::from("/c/./d/ s/sha/new_sha/g");
    let _parsed = syntax(&input);
    let input = String::from("/c/./d/./e/ s/sha/new_sha/g");
    let parsed = syntax(&input);
    assert_eq!(substitute_parts(&parsed), ("sha", "new_sha", "g"));
    assert_eq!(parsed.address, "/c/./d/./e/");
}

#[test]
fn test_grammar_3() {
    let input = String::from("/commit/s/a/XXXX/g");
    let parsed = syntax(&input);
    assert_eq!(substitute_parts(&parsed), ("a", "XXXX", "g"));
    assert_eq!(parsed.address, "/commit/");
}

#[test]
fn test_grammar_4() {
    let input = String::from("1,3s/a/XXXX/g");
    let (stack, command) = parse_command(&input).unwrap();
    match command {
        Command::Substitute { pattern, replacement, flags } => {
            assert_eq!(pattern.as_str(), "a");
            assert_eq!(replacement, "XXXX");
            assert_eq!(flags, "g");
        }
        _ => panic!("not a substitution"),
    }
    assert_eq!(stack.len(), 1);
    match stack.first().unwrap() {
        Selector::IndexRange(begin, end) => {
            assert_eq!(*begin, 1);
            assert_eq!(*end, 3);
        }
        _ => panic!("not a range"),
    }
    let input = String::from("/first_key/.1,3./second_key/s/a/b/g");
    let (stack, command) = parse_command(&input).unwrap();
    match command {
        Command::Substitute { pattern, replacement, flags } => {
            assert_eq!(pattern.as_str(), "a");
            assert_eq!(replacement, "b");
            assert_eq!(flags, "g");
        }
        _ => panic!("not a substitution"),
    }
    assert_eq!(stack.len(), 3);
    match &stack[0] {
        Selector::KeyMatch(key_regex) => {
            assert_eq!(key_regex.as_str(), pattern("first_key").as_str());
        }
        _ => panic!("not a key"),
    }
    match &stack[1] {
        Selector::IndexRange(begin, end) => {
            assert_eq!(*begin, 1);
            assert_eq!(*end, 3);
        }
        _ => panic!("not a range"),
    }
    match &stack[2] {
        Selector::KeyMatch(key_regex) => {
            assert_eq!(key_regex.as_str(), pattern("second_key").as_str());
        }
        _ => panic!("not a key"),
    }
}

#[test]
fn test_grammar_5() {
    let input = String::from("1,3p");
    let (_stack, command) = parse_command(&input).unwrap();
    assert!(matches!(command, Command::Print));
}

#[test]
fn test_filter_substitute_1() {
    let some_json = r#"
        {
          "commit": {
            "author": {
              "name": "bigmoonbit",
              "nombre": "hoola"
            }
        }
        }"#;
    let mut v = doc(some_json);
    let stack = vec![key("commit"), key("author"), key("name")];
    v = rewrite(v, &stack, &pattern("oo"), "AA");
    assert_eq!(text(get(get(get(Some(&v), "commit"), "author"), "name")), Some("bigmAAnbit"));
    assert_eq!(text(get(get(get(Some(&v), "commit"), "author"), "nombre")), Some("hoola"));
}

#[test]
fn test_filter_substitute_with_arrays() {
    let some_json = r#"
        {
          "commit": [
            {
              "name": "camilo"
            },
            {
              "name": "andres"
            }
            ]
        }"#;
    let mut v = doc(some_json);
    let stack = vec![key("commit")];
    v = rewrite(v, &stack, &pattern("a"), "x");
    assert_eq!(text(get(at(get(Some(&v), "commit"), 0), "name")), Some("cxmilo"));
    assert_eq!(text(get(at(get(Some(&v), "commit"), 1), "name")), Some("xndres"));
}

#[test]
fn test_filter_substitute_with_arrays_and_ranges() {
    let some_json = r#"
        {
          "commit": [
            {
              "name": "camilo"
            },
            {
              "name": "andres"
            }
            ]
        }"#;
    let mut v = doc(some_json);
    let stack = vec![key("commit"), Selector::IndexRange(0, 0)];
    v = rewrite(v, &stack, &pattern("a"), "x");
    assert_eq!(text(get(at(get(Some(&v), "commit"), 0), "name")), Some("cxmilo"));
    assert_eq!(text(get(at(get(Some(&v), "commit"), 1), "name")), Some("andres"));
}

#[test]
fn test_filter_substitute_with_arrays_and_ranges_2() {
    let some_json = r#"
        {
          "commit": [
            {
              "name": "camilo"
            },
            {
              "name": "andres"
            }
            ]
        }"#;
    let mut v = doc(some_json);
    let stack = vec![key("commit"), key("name")];
    v = rewrite(v, &stack, &pattern("a"), "x");
    assert!(absent(get(at(get(Some(&v), "commit"), 0), "name")));
    assert!(absent(get(at(get(Some(&v), "commit"), 1), "name")));
}

#[test]
fn test_parsing_regex() {
    let range_regex = String::from("/c/./d/./e/");
    let answer = vec![String::from("c"), String::from("d"), String::from("e")];

    let vec_range_regex = range_regex
        .replace("/", "")
        .split(".")
        .map(|s| s.to_string())
        .collect::<Vec<String>>();
    assert_eq!(vec_range_regex, answer);
}

#[test]
fn test_print_1() {
    let some_json = r#"
        {
          "commit": [
            {
              "name": "camilo"
            },
            {
              "name": "andres"
            }
            ]
        }"#;
    let mut v = doc(some_json);
    let stack = vec![key("commit"), Selector::IndexRange(0, 0)];
    v = project(v, &stack);
    assert_eq!(text(get(at(get(Some(&v), "commit"), 0), "name")), Some("camilo"));
    assert!(absent(get(at(get(Some(&v), "commit"), 1), "name")));

    let stack = vec![key("doesnt-exists")];
    v = project(v, &stack);
    assert!(absent(get(at(get(Some(&v), "commit"), 0), "name")));
    assert!(absent(get(at(get(Some(&v), "commit"), 1), "name")));
}
