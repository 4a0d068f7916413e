use tpl::parse::Node;
use tpl::parse::Parser;
use tpl::parse::YamlPathElem::DownObject;
use tpl::render::{matching_delim, render, ParseArgs};
use tpl::value::Value;

fn load_docs(s: &str) -> Vec<Value> {
    let framed = format!("---\n{}\n...\n", s);
    let mut p = Parser::new(&framed);
    p.get_yaml().unwrap().unwrap()
}

#[test]
fn matching_delim_basic() {
    assert_eq!(matching_delim(""), "".to_string());
    assert_eq!(matching_delim("({[<>]})"), "({[<>]})".to_string());
    assert_eq!(matching_delim("()[]{}<>"), "<>{}[]()".to_string());
    assert_eq!(matching_delim("!@#$%)^&"), "&^(%$#@!".to_string());
    assert_eq!(matching_delim("« "), " «".to_string());
}

#[test]
fn from_yaml_basic() {
    fn do_test(input: &str, open: &str, close: &str, ignore: bool) {
        let mut val = tpl::yaml::merge(load_docs(input));
        assert_eq!(
            ParseArgs::from_yaml(&mut val).unwrap(),
            ParseArgs { open: open.to_string(), close: close.to_string(), ignore }
        );
    }
    do_test("", "{{", "}}", false);
    do_test("_config:\n  open: <[", "<[", "]>", false);
    do_test("_config:\n  ignore: true", "{{", "}}", true);
    do_test("_config:\n  open: \"[\"\n  close: blah\nopen: )", "[", "blah", false);
}

#[test]
fn render_ignore() {
    let tree = vec![Node::DirectSub(vec![DownObject("x".to_string())])];
    assert!(render(&Value::Null, &tree, &vec![], true).is_ok());
    assert!(render(&Value::Null, &tree, &vec![], false).is_err());
    assert!(
        render(
            &Value::Hash(vec![(Value::Str("x".to_string()), Value::Str("y".to_string()))]),
            &tree,
            &vec![],
            false,
        )
        .is_ok()
    );
    assert!(
        render(
            &Value::Hash(vec![(
                Value::Str("x".to_string()),
                Value::Array(vec![Value::Integer(1)]),
            )]),
            &tree,
            &vec![],
            false,
        )
        .is_err()
    );
    assert!(render(&Value::Null, &vec![Node::KeySub(10)], &vec![], false).is_err());
}
