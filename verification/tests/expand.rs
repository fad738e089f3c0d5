use vscode_workspace_gen::workspace::{generate_from_value, Error};
use vscode_workspace_gen::Value;

fn s(x: &str) -> Value {
    Value::Str(x.to_string())
}

fn n(x: i64) -> Value {
    Value::Num(x.to_string())
}

fn arr(xs: Vec<Value>) -> Value {
    Value::Arr(xs)
}

fn obj(es: Vec<(&str, Value)>) -> Value {
    Value::Obj(es.into_iter().map(|(k, v)| (k.to_string(), v)).collect())
}

fn no_env() -> Vec<(String, String)> {
    Vec::new()
}

fn expand(root: Value) -> Value {
    generate_from_value(&root, "linux", &no_env()).unwrap().json
}

#[test]
fn test_empty() {
    let result = expand(obj(vec![]));
    assert_eq!(result, obj(vec![]));
}

#[test]
fn test_non_object_root() {
    let result = generate_from_value(&n(3), "linux", &no_env());
    assert_eq!(result.unwrap_err(), Error::ExpectedRootObject);
}

#[test]
fn test_string_replacements() {
    let template = obj(vec![
        ("gen.globals", obj(vec![("name", s("John Doe")), ("age", n(42))])),
        ("person", obj(vec![("name", s("@{name}")), ("age", s("@{age}"))])),
    ]);
    let expected = obj(vec![(
        "person",
        obj(vec![("name", s("John Doe")), ("age", n(42))]),
    )]);
    assert_eq!(expand(template), expected);
}

#[test]
fn test_list_replacements() {
    let template = obj(vec![
        (
            "gen.globals",
            obj(vec![
                (
                    "numbers",
                    arr(vec![n(1), n(2), n(3), n(4), n(5), n(6), n(7)]),
                ),
                ("empty", arr(vec![])),
            ]),
        ),
        (
            "obj",
            obj(vec![("l1", s("@{numbers}")), ("l2", s("@{empty}"))]),
        ),
    ]);
    let expected = obj(vec![(
        "obj",
        obj(vec![
            ("l1", arr(vec![n(1), n(2), n(3), n(4), n(5), n(6), n(7)])),
            ("l2", arr(vec![])),
        ]),
    )]);
    assert_eq!(expand(template), expected);
}

#[test]
fn test_obj_replacements() {
    let template = obj(vec![
        (
            "gen.globals",
            obj(vec![
                (
                    "numbers",
                    obj(vec![("one", n(1)), ("two", n(2)), ("three", n(3))]),
                ),
                ("empty", obj(vec![])),
            ]),
        ),
        (
            "obj",
            obj(vec![("l1", s("@{numbers}")), ("l2", s("@{empty}"))]),
        ),
    ]);
    let expected = obj(vec![(
        "obj",
        obj(vec![
            ("l1", obj(vec![("one", n(1)), ("two", n(2)), ("three", n(3))])),
            ("l2", obj(vec![])),
        ]),
    )]);
    assert_eq!(expand(template), expected);
}

#[test]
fn test_gen_description() {
    let template = obj(vec![
        (
            "gen.globals",
            obj(vec![
                (
                    "foo",
                    obj(vec![
                        ("one", n(1)),
                        ("gen.description", s("This is a description")),
                    ]),
                ),
                ("empty", obj(vec![])),
            ]),
        ),
        ("obj", obj(vec![("l1", s("@{foo}"))])),
    ]);
    let expected = obj(vec![("obj", obj(vec![("l1", obj(vec![("one", n(1))]))]))]);
    assert_eq!(expand(template), expected);
}

#[test]
fn test_inline_list_expand() {
    let template = obj(vec![
        (
            "gen.globals",
            obj(vec![
                ("foo", obj(vec![("one", n(1))])),
                ("list", arr(vec![n(10), n(20), n(30)])),
            ]),
        ),
        (
            "obj",
            obj(vec![
                ("somelist1", arr(vec![n(1), n(2), n(3), s("@{list}")])),
                ("somelist2", arr(vec![n(1), n(2), n(3), s("@@{list}")])),
            ]),
        ),
    ]);
    let expected = obj(vec![(
        "obj",
        obj(vec![
            (
                "somelist1",
                arr(vec![n(1), n(2), n(3), arr(vec![n(10), n(20), n(30)])]),
            ),
            (
                "somelist2",
                arr(vec![n(1), n(2), n(3), n(10), n(20), n(30)]),
            ),
        ]),
    )]);
    assert_eq!(expand(template), expected);
}

#[test]
fn test_inline_object_expand() {
    let template = obj(vec![
        ("gen.globals", obj(vec![("foo", obj(vec![("one", n(1))]))])),
        ("obj", obj(vec![("@@{foo}", s(""))])),
    ]);
    let expected = obj(vec![("obj", obj(vec![("one", n(1))]))]);
    assert_eq!(expand(template), expected);
}

#[test]
fn test_inline_object_expand_priorities() {
    let template = obj(vec![
        ("gen.globals", obj(vec![("foo", obj(vec![("one", n(1))]))])),
        ("obj", obj(vec![("one", n(2)), ("@@{foo}", s(""))])),
    ]);
    let expected = obj(vec![("obj", obj(vec![("one", n(2))]))]);
    assert_eq!(expand(template), expected);
}

#[test]
fn test_gen_os() {
    let template = obj(vec![
        (
            "gen.globals",
            obj(vec![
                (
                    "foo",
                    obj(vec![("one", n(1)), ("gen.os", arr(vec![s("windows")]))]),
                ),
                (
                    "bar",
                    obj(vec![
                        ("linux only global", n(1)),
                        ("gen.os", arr(vec![s("linux")])),
                    ]),
                ),
                (
                    "bar2",
                    obj(vec![
                        ("windows only global", n(2)),
                        ("gen.os", arr(vec![s("windows")])),
                        ("a", n(2)),
                        ("b", n(3)),
                    ]),
                ),
            ]),
        ),
        ("obj", obj(vec![("a", s("@{foo}"))])),
        ("obj2", obj(vec![("@@{foo}", s(""))])),
        (
            "obj3",
            obj(vec![
                ("gen.os", arr(vec![s("linux")])),
                (
                    "l1",
                    arr(vec![
                        obj(vec![]),
                        obj(vec![]),
                        obj(vec![("gen.os", arr(vec![s("linux")])), ("b", n(1))]),
                        obj(vec![("gen.os", arr(vec![s("windows")]))]),
                    ]),
                ),
            ]),
        ),
        ("obj4", obj(vec![("gen.os", arr(vec![s("windows")]))])),
        ("obj5", obj(vec![("l1", arr(vec![s("@{bar}"), s("@{bar2}")]))])),
        ("obj6", obj(vec![("@@{bar2}", s("")), ("a", n(1))])),
    ]);
    let expected = obj(vec![
        ("obj", obj(vec![])),
        ("obj2", obj(vec![])),
        (
            "obj3",
            obj(vec![(
                "l1",
                arr(vec![obj(vec![]), obj(vec![]), obj(vec![("b", n(1))])]),
            )]),
        ),
        (
            "obj5",
            obj(vec![("l1", arr(vec![obj(vec![("linux only global", n(1))])]))]),
        ),
        ("obj6", obj(vec![("a", n(1))])),
    ]);
    assert_eq!(expand(template), expected);
}

#[test]
fn test_merge_incompatible_os_contributes_nothing() {
    // A global gated to windows, merged in place while the platform is
    // linux, adds nothing at all.
    let template = obj(vec![
        (
            "gen.globals",
            obj(vec![(
                "win_only",
                obj(vec![("x", n(1)), ("gen.os", s("windows"))]),
            )]),
        ),
        ("target", obj(vec![("@@{win_only}", s("")), ("kept", n(5))])),
    ]);
    let expected = obj(vec![("target", obj(vec![("kept", n(5))]))]);
    assert_eq!(expand(template), expected);
}

#[test]
fn test_missing_global_keeps_token() {
    let template = obj(vec![
        ("gen.globals", obj(vec![("known", n(1))])),
        ("a", s("@{unknown}")),
        ("b", arr(vec![s("@@{unknown}")])),
    ]);
    let expected = obj(vec![
        ("a", s("@{unknown}")),
        ("b", arr(vec![s("@@{unknown}")])),
    ]);
    assert_eq!(expand(template), expected);
}

#[test]
fn test_expand_is_identity_without_directives() {
    let template = obj(vec![
        ("a", n(1)),
        ("b", arr(vec![s("x"), obj(vec![("c", Value::Bool(true))])])),
        ("d", Value::Null),
    ]);
    assert_eq!(expand(template.clone()), template);
}

#[test]
fn test_expand_twice_is_stable() {
    let template = obj(vec![
        ("gen.globals", obj(vec![("name", s("John Doe"))])),
        ("person", obj(vec![("name", s("@{name}"))])),
        ("gen.cmakepresets", obj(vec![("v", n(3))])),
    ]);
    let once = expand(template);
    let twice = expand(once.clone());
    assert_eq!(twice, once);
}

#[test]
fn test_side_document_extraction() {
    let template = obj(vec![
        ("a", n(1)),
        ("gen.cmakepresets", obj(vec![("version", n(3))])),
    ]);
    let out = generate_from_value(&template, "linux", &no_env()).unwrap();
    assert_eq!(out.json, obj(vec![("a", n(1))]));
    assert_eq!(out.cmake_presets, Some(obj(vec![("version", n(3))])));
}

#[test]
fn test_no_side_document() {
    let out = generate_from_value(&obj(vec![("a", n(1))]), "linux", &no_env()).unwrap();
    assert_eq!(out.cmake_presets, None);
}

#[test]
fn test_env_var_replacement() {
    let env: Vec<(String, String)> = vec![
        ("MY_VAR".to_string(), "hello".to_string()),
        ("OTHER_2".to_string(), "bye".to_string()),
    ];
    let template = obj(vec![
        ("a", s("$${MY_VAR}/x")),
        ("b", s("$${MY_VAR}$${OTHER_2}")),
        ("c", s("$${UNSET_VAR}")),
        ("d", s("$${}")),
        ("e", arr(vec![s("pre $${OTHER_2} post")])),
        ("f", s("$$${MY_VAR}")),
    ]);
    let out = generate_from_value(&template, "linux", &env).unwrap().json;
    let expected = obj(vec![
        ("a", s("hello/x")),
        ("b", s("hellobye")),
        ("c", s("$${UNSET_VAR}")),
        ("d", s("$${}")),
        ("e", arr(vec![s("pre bye post")])),
        ("f", s("$hello")),
    ]);
    assert_eq!(out, expected);
}

#[test]
fn test_nested_result_is_spliced_in_same_pass() {
    // Children are substituted before their container: a nested token that
    // resolves to in-place token text is spliced by the surrounding array.
    let template = obj(vec![
        (
            "gen.globals",
            obj(vec![("a", s("@@{b}")), ("b", arr(vec![n(1), n(2)]))]),
        ),
        ("l", arr(vec![s("@{a}")])),
    ]);
    let expected = obj(vec![("l", arr(vec![n(1), n(2)]))]);
    assert_eq!(expand(template), expected);
}

#[test]
fn test_two_merges_with_same_key() {
    // When two merged globals carry the same key, the entry keeps the
    // position of the first and the value of the last.
    let template = obj(vec![
        (
            "gen.globals",
            obj(vec![
                ("g1", obj(vec![("x", n(1)), ("y", n(10))])),
                ("g2", obj(vec![("x", n(2))])),
            ]),
        ),
        ("t", obj(vec![("@@{g1}", s("")), ("@@{g2}", s(""))])),
    ]);
    let expected = obj(vec![("t", obj(vec![("x", n(2)), ("y", n(10))]))]);
    assert_eq!(expand(template), expected);
}

#[test]
fn test_fractional_numbers_pass_through() {
    // Numbers are carried as their decimal text and survive every pass
    // untouched, whatever their magnitude or precision.
    let half = || Value::Num("0.5".to_string());
    let big = || Value::Num("18446744073709551615".to_string());
    let template = obj(vec![
        ("gen.globals", obj(vec![("z", half())])),
        ("zoomLevel", half()),
        ("big", big()),
        ("viaGlobal", s("@{z}")),
    ]);
    let expected = obj(vec![
        ("zoomLevel", half()),
        ("big", big()),
        ("viaGlobal", half()),
    ]);
    assert_eq!(expand(template), expected);
}

#[test]
fn test_globals_value_not_an_object() {
    // A globals key whose value is no object triggers no substitution and
    // stays in the output.
    let template = obj(vec![
        ("gen.globals", arr(vec![n(1)])),
        ("a", s("@{x}")),
    ]);
    let expected = obj(vec![("gen.globals", arr(vec![n(1)])), ("a", s("@{x}"))]);
    assert_eq!(expand(template), expected);
}

#[test]
fn test_inplace_of_non_object_global_keeps_entry() {
    let template = obj(vec![
        ("gen.globals", obj(vec![("notobj", n(7))])),
        ("target", obj(vec![("@@{notobj}", s("x"))])),
    ]);
    let expected = obj(vec![("target", obj(vec![("@@{notobj}", s("x"))]))]);
    assert_eq!(expand(template), expected);
}
