use vscode_workspace_gen::render::to_pretty_string;
use vscode_workspace_gen::Value;

fn s(x: &str) -> Value {
    Value::Str(x.to_string())
}

fn n(x: i64) -> Value {
    Value::Num(x.to_string())
}

fn arr(xs: Vec<Value>) -> Value {
    Value::Arr(xs)
}

fn obj(es: Vec<(&str, Value)>) -> Value {
    Value::Obj(es.into_iter().map(|(k, v)| (k.to_string(), v)).collect())
}

#[test]
fn test_to_pretty_string_matches_reference() {
    // The same tree rendered by serde_json's pretty printer, byte for byte.
    let v = obj(vec![
        ("a", n(1)),
        ("b", arr(vec![Value::Null, Value::Bool(true), s("x\"y\\z\nw")])),
        ("c", obj(vec![])),
        ("d", arr(vec![])),
        (
            "e",
            obj(vec![("nested", arr(vec![n(-2), Value::Num("0.5".to_string())]))]),
        ),
        ("ctl", s("\u{1}\t")),
    ]);
    let reference: serde_json::Value = serde_json::from_str(
        "{\"a\":1,\"b\":[null,true,\"x\\\"y\\\\z\\nw\"],\"c\":{},\"d\":[],\
         \"e\":{\"nested\":[-2,0.5]},\"ctl\":\"\\u0001\\t\"}",
    )
    .unwrap();
    assert_eq!(
        to_pretty_string(&v, 2),
        serde_json::to_string_pretty(&reference).unwrap()
    );
}

#[test]
fn test_to_pretty_string_indent_width() {
    let v = obj(vec![("a", arr(vec![n(1), n(2)]))]);
    assert_eq!(
        to_pretty_string(&v, 4),
        "{\n    \"a\": [\n        1,\n        2\n    ]\n}"
    );
    assert_eq!(to_pretty_string(&v, 0), "{\n\"a\": [\n1,\n2\n]\n}");
}

#[test]
fn test_to_pretty_string_scalars() {
    assert_eq!(to_pretty_string(&Value::Null, 2), "null");
    assert_eq!(to_pretty_string(&Value::Bool(false), 2), "false");
    assert_eq!(to_pretty_string(&n(-17), 2), "-17");
    assert_eq!(to_pretty_string(&s("hi"), 2), "\"hi\"");
}
