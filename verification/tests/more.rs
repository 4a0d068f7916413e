use tpl::errors::Error;
use tpl::parse::Parser;
use tpl::render::{render, ParseArgs};
use tpl::value::Value;
use tpl::yaml::{merge, string};

fn load_docs(s: &str) -> Vec<Value> {
    let framed = format!("---\n{}\n...\n", s);
    let mut p = Parser::new(&framed);
    p.get_yaml().unwrap().unwrap()
}

fn run_template(values: Vec<&str>, template: &str) -> Result<String, Error> {
    let mut docs: Vec<Value> = Vec::new();
    for s in values {
        for d in load_docs(s) {
            docs.push(d);
        }
    }
    let mut val = merge(docs);
    let args = ParseArgs::from_yaml(&mut val)?;
    let mut parser = Parser::new(template);
    parser.get_yaml()?;
    let tree = parser.get_tpl(&args.open, &args.close)?;
    render(&val, &tree, &vec![], args.ignore)
}

#[test]
fn absent_key_is_an_error_without_ignore() {
    assert_eq!(run_template(vec!["_config:\n  ignore: true"], "{{x}}").unwrap(), "");
    assert!(matches!(run_template(vec![], "{{x}}"), Err(Error::Type(_))));
}

#[test]
fn unterminated_tag_is_a_syntax_error() {
    assert!(matches!(run_template(vec![], "before {{x"), Err(Error::Syntax(_))));
}

#[test]
fn invalid_path_character_is_a_syntax_error() {
    assert!(matches!(run_template(vec![], "{{x$}}"), Err(Error::Syntax(_))));
}

#[test]
fn unterminated_short_comment_is_a_syntax_error() {
    assert!(matches!(run_template(vec![], "{{!never closed"), Err(Error::Syntax(_))));
}

#[test]
fn unterminated_long_comment_is_a_syntax_error() {
    assert!(matches!(run_template(vec![], "{{!-- never closed"), Err(Error::Syntax(_))));
}

#[test]
fn long_comment_without_terminator_falls_back_to_short_form() {
    assert_eq!(run_template(vec![], "a{{!--x}}b").unwrap(), "ab");
}

#[test]
fn key_reference_overflow_is_a_syntax_error() {
    assert!(matches!(
        run_template(vec![], "{{?99999999999999999999}}"),
        Err(Error::Syntax(_))
    ));
}

#[test]
fn path_index_overflow_is_a_syntax_error() {
    assert!(matches!(
        run_template(vec![], "{{x.99999999999999999999}}"),
        Err(Error::Syntax(_))
    ));
}

#[test]
fn whitespace_in_paths_is_insignificant() {
    assert_eq!(run_template(vec!["x:\n  - one"], "{{ x . 0 }}").unwrap(), "one");
}

#[test]
fn unclosed_section_is_closed_at_end_of_input() {
    assert_eq!(run_template(vec!["x: a"], "{{#x}}v").unwrap(), "v");
}

#[test]
fn section_end_ignores_trailing_text() {
    assert_eq!(run_template(vec!["x: a"], "{{#x}}v{{/x}}w").unwrap(), "vw");
}

#[test]
fn stray_section_end_stops_the_scan() {
    assert_eq!(run_template(vec![], "a{{/}}b").unwrap(), "a");
}

#[test]
fn key_reference_outside_context_is_a_lookup_error() {
    assert!(matches!(run_template(vec![], "{{?3}}"), Err(Error::Lookup(_))));
}

#[test]
fn non_string_mapping_key_is_a_type_error_even_with_ignore() {
    let doc = Value::Hash(vec![(
        Value::Str("x".to_string()),
        Value::Hash(vec![(Value::Integer(1), Value::Str("v".to_string()))]),
    )]);
    let mut parser = Parser::new("{{#x}}{{}}{{/}}");
    parser.get_yaml().unwrap();
    let tree = parser.get_tpl("{{", "}}").unwrap();
    assert!(matches!(render(&doc, &tree, &vec![], true), Err(Error::Type(_))));
}

#[test]
fn config_shape_errors() {
    let mut not_a_mapping = Value::Integer(3);
    assert!(matches!(ParseArgs::from_yaml(&mut not_a_mapping), Err(Error::Config(_))));
    let mut bad_config = merge(load_docs("_config: 5"));
    assert!(matches!(ParseArgs::from_yaml(&mut bad_config), Err(Error::Config(_))));
    let mut bad_open = merge(load_docs("_config:\n  open: 5"));
    assert!(matches!(ParseArgs::from_yaml(&mut bad_open), Err(Error::Config(_))));
    let mut bad_ignore = merge(load_docs("_config:\n  ignore: 5"));
    assert!(matches!(ParseArgs::from_yaml(&mut bad_ignore), Err(Error::Config(_))));
}

#[test]
fn config_defaults_are_materialized() {
    let mut val = merge(load_docs("_config:\n  open: ab"));
    let args = ParseArgs::from_yaml(&mut val).unwrap();
    assert_eq!(args.close, "ba");
    let mut parser = Parser::new("ab _config.close ba");
    parser.get_yaml().unwrap();
    let tree = parser.get_tpl(&args.open, &args.close).unwrap();
    assert_eq!(render(&val, &tree, &vec![], args.ignore).unwrap(), "ba");
}

#[test]
fn custom_delimiters_render() {
    assert_eq!(
        run_template(vec!["_config:\n  open: <[", "x: hi"], "a <[x]> b").unwrap(),
        "a hi b"
    );
}

#[test]
fn phase_misuse_is_reported() {
    let mut p = Parser::new("text");
    assert!(matches!(p.get_tpl("{{", "}}"), Err(Error::Phase(_))));
    let mut q = Parser::new("text");
    q.get_yaml().unwrap();
    assert!(matches!(q.get_yaml(), Err(Error::Phase(_))));
}

#[test]
fn bad_data_block_is_an_upstream_error() {
    let mut p = Parser::new("---\n{\n...\ntemplate");
    assert!(matches!(p.get_yaml(), Err(Error::Upstream(_))));
}

#[test]
fn inline_data_block_feeds_the_template() {
    let mut p = Parser::new("---\nx: hi\n...\n{{x}}!");
    let docs = p.get_yaml().unwrap().unwrap();
    let mut val = merge(docs);
    let args = ParseArgs::from_yaml(&mut val).unwrap();
    let tree = p.get_tpl(&args.open, &args.close).unwrap();
    assert_eq!(render(&val, &tree, &vec![], args.ignore).unwrap(), "hi!");
}

#[test]
fn missing_block_means_whole_input_is_template() {
    let mut p = Parser::new("---\nno closing fence");
    assert_eq!(p.get_yaml().unwrap(), None);
    let tree = p.get_tpl("{{", "}}").unwrap();
    assert_eq!(render(&Value::Hash(vec![]), &tree, &vec![], false).unwrap(),
        "---\nno closing fence");
}

#[test]
fn integer_text_is_exact_decimal() {
    assert_eq!(string(&Value::Integer(0), false).unwrap(), "0");
    assert_eq!(string(&Value::Integer(i64::MAX), false).unwrap(), "9223372036854775807");
    assert_eq!(string(&Value::Integer(i64::MIN), false).unwrap(), "-9223372036854775808");
}

#[test]
fn more_truthiness() {
    assert!(tpl::yaml::bool(&Value::Real("0.0".to_string())));
    assert!(tpl::yaml::bool(&Value::Str("false".to_string())));
    assert!(tpl::yaml::bool(&Value::Str("".to_string())));
    assert!(!tpl::yaml::bool(&Value::BadValue));
}

#[test]
fn scalar_section_descends_without_extending() {
    assert_eq!(run_template(vec!["x: s\ny: t"], "{{#x}}{{.y}}{{/}}").unwrap(), "t");
}

#[test]
fn array_iteration_in_order() {
    assert_eq!(
        run_template(vec!["x:\n  - a\n  - b\n  - c"], "{{#x}}{{?}}={{}} {{/}}").unwrap(),
        "0=a 1=b 2=c "
    );
}
