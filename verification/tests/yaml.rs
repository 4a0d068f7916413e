use tpl::parse::Parser;
use tpl::parse::YamlPathElem::{DownArray, DownObject, Root, Up};
use tpl::value::Value;
use tpl::yaml::{get, merge, pathjoin, string};

fn load_docs(s: &str) -> Vec<Value> {
    let framed = format!("---\n{}\n...\n", s);
    let mut p = Parser::new(&framed);
    p.get_yaml().unwrap().unwrap()
}

fn load_one(s: &str) -> Value {
    load_docs(s).remove(0)
}

#[test]
fn pathjoin_basic() {
    let no_paths: Vec<&Vec<tpl::parse::YamlPathElem>> = vec![];
    assert_eq!(pathjoin(&no_paths), vec![]);
    assert_eq!(
        pathjoin(&[
            &vec![DownObject("a".to_string()), DownArray(1)],
            &vec![DownArray(0)],
        ]),
        vec![DownObject("a".to_string()), DownArray(1), DownArray(0)]
    );
    assert_eq!(
        pathjoin(&[
            &vec![DownObject("a".to_string()), DownArray(1)],
            &vec![Root, DownObject("b".to_string()), DownObject("c".to_string())],
            &vec![Up, DownArray(10)],
        ]),
        vec![DownObject("b".to_string()), DownArray(10)]
    );
    assert_eq!(
        pathjoin(&[
            &vec![Root, Up, Up],
            &vec![DownObject("x".to_string()), Up, Up, Up],
            &vec![DownObject("y".to_string())],
        ]),
        vec![DownObject("y".to_string())]
    );
}

#[test]
fn get_basic() {
    let doc = load_one(
        "
array:
  - one
  - two
  - three
object:
  nested:
    somewhat: deeply
int: 1
float: 2.0
bool: true
nothing: null
",
    );
    assert_eq!(
        get(&doc, &vec![DownObject("array".to_string())]),
        &Value::Array(vec![
            Value::Str("one".to_string()),
            Value::Str("two".to_string()),
            Value::Str("three".to_string()),
        ])
    );
    assert_eq!(
        get(
            &doc,
            &vec![
                DownObject("object".to_string()),
                DownObject("nested".to_string()),
                Up,
                DownObject("nested".to_string()),
                DownObject("somewhat".to_string()),
            ]
        ),
        &Value::Str("deeply".to_string())
    );
    assert_eq!(get(&doc, &vec![DownObject("int".to_string())]), &Value::Integer(1));
    assert_eq!(
        get(&doc, &vec![DownObject("float".to_string())]),
        &Value::Real("2.0".to_string())
    );
    assert_eq!(get(&doc, &vec![DownObject("bool".to_string())]), &Value::Boolean(true));
    assert_eq!(get(&doc, &vec![DownObject("nothing".to_string())]), &Value::Null);
    assert_eq!(get(&doc, &vec![DownObject("missing".to_string())]), &Value::BadValue);
}

#[test]
fn bool_basic() {
    let bad = vec![
        Value::Boolean(false),
        Value::Null,
        Value::BadValue,
        Value::Array(vec![]),
        Value::Hash(vec![]),
    ];
    let good = vec![
        Value::Str("".to_string()),
        Value::Boolean(true),
        Value::Integer(0),
        Value::Integer(-1),
        Value::Array(vec![Value::Boolean(false)]),
        Value::Hash(vec![(Value::Str("".to_string()), Value::Null)]),
    ];
    for item in bad.into_iter() {
        assert!(!tpl::yaml::bool(&item));
    }
    for item in good.into_iter() {
        assert!(tpl::yaml::bool(&item));
    }
}

#[test]
fn string_basic() {
    assert_eq!(string(&Value::Str("".to_string()), false).unwrap(), "");
    assert_eq!(string(&Value::Str("hello".to_string()), false).unwrap(), "hello");
    assert_eq!(string(&Value::Null, false).unwrap(), "");
    assert_eq!(string(&Value::Integer(-1), false).unwrap(), "-1");
    assert_eq!(string(&Value::Real("2.5".to_string()), false).unwrap(), "2.5");
    assert_eq!(string(&Value::Boolean(true), false).unwrap(), "true");
    assert_eq!(string(&Value::BadValue, true).unwrap(), "");
    assert_eq!(string(&Value::Hash(vec![]), true).unwrap(), "");
    assert_eq!(string(&Value::Array(vec![]), true).unwrap(), "");
    assert!(string(&Value::BadValue, false).is_err());
    assert!(string(&Value::Hash(vec![]), false).is_err());
    assert!(string(&Value::Array(vec![]), false).is_err());
}

#[test]
fn merge_basic() {
    let doc1 = load_one(
        "
arr_append:
  - a
  - b
arr_untouched:
  - c
obj_append:
  d: e
  f: g
obj_modify:
  h: i
  j: k
obj_untouched:
  l: m
number: 1
change_type: true
",
    );
    let doc2 = load_one(
        "
arr_append:
  - n
  - o
obj_append:
  p: q
  r: s
obj_modify:
  j: t
number: 42
change_type:
  - u
  - v
new_object:
  w: 1
  x: null
",
    );
    let doc_res = load_one(
        "
arr_append:
  - a
  - b
  - n
  - o
arr_untouched:
  - c
obj_append:
  d: e
  f: g
  p: q
  r: s
obj_modify:
  h: i
  j: t
obj_untouched:
  l: m
number: 42
change_type:
  - u
  - v
new_object:
  w: 1
  x: null
",
    );
    assert_eq!(merge(vec![doc1, doc2]), doc_res);
}
