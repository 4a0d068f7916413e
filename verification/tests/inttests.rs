use tpl::parse::Parser;
use tpl::render::ParseArgs;
use tpl::value::Value;

fn load_docs(s: &str) -> Vec<Value> {
    let framed = format!("---\n{}\n...\n", s);
    let mut p = Parser::new(&framed);
    p.get_yaml().unwrap().unwrap()
}

fn check_render(values: Vec<&str>, template: &str, expected: &str) {
    let mut docs: Vec<Value> = Vec::new();
    for s in values {
        for d in load_docs(s) {
            docs.push(d);
        }
    }
    let mut val = tpl::yaml::merge(docs);
    let args = ParseArgs::from_yaml(&mut val).unwrap();
    let mut parser = Parser::new(template);
    parser.get_yaml().unwrap();
    let tree = parser.get_tpl(&args.open, &args.close).unwrap();
    assert_eq!(tpl::render::render(&val, &tree, &vec![], args.ignore).unwrap(), expected);
}

#[test]
fn full_success() {
    check_render(vec!["x: hi"], "{{x}}", "hi");
    check_render(vec![], "{{_config.open}}", "{{");
    check_render(vec!["x: a", "x: b"], "{{x}}", "b");
    check_render(
        vec!["_config:\n  open: \"{\""],
        "{! x }{!-- {}}\n~!@# -- (^$)(%{{&_+ --}",
        "",
    );
    check_render(vec!["x: a"], "{{x}} {{.x}} {{#x}}{{}}{{/}}", "a a a");
    check_render(vec!["x:\n  a: 1\n  b: 2\n  c: 3"], "{{#x}}{{?1}}{{?}}{{}}{{/}}", "xa1xb2xc3");
    check_render(
        vec!["empty: []"],
        "{{#empty}}{{}}{{/}}{{^empty}}nothing here{{/}}",
        "nothing here",
    );
    check_render(vec!["x:\n  - one\n  - two"], "{{x.0}}", "one");
    check_render(vec!["x:\n  - one"], "{{#x.0}}{{}} {{?}} {{?1}}{{/}}", "one 0 x");
    check_render(vec!["x: a\ny:\n  z: b"], "{{#x}}{{#.y}}{{}}{{?}}{{/}}{{/}}", "bz");
    let truefalse = r#"
x:
  - k: true
    t: a
    f: i
  - k: asd
    t: b
    f: j
  - k: 0
    t: c
    f: k
  - k: 0.0
    t: d
    f: l
  - k: false
    t: e
    f: m
  - k: null
    t: f
    f: n
  - k: []
    t: g
    f: o
  - k: {}
    t: h
    f: p
"#;
    check_render(
        vec![truefalse],
        "{{#x}}{{#k}}{{&.t}}{{/}}{{^k}}{{&.f}}{{/}}{{/}}",
        "abcdmnop",
    );
    check_render(vec!["_config:\n  ignore: true"], "{{x}}", "");
}
