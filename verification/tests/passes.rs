use vscode_workspace_gen::workspace::{
    discard_descriptions, remove_incompatible_os, replace_env_vars, replace_nesteds,
    substitution_diagnostics, Diagnostic,
};
use vscode_workspace_gen::Value;

fn s(x: &str) -> Value {
    Value::Str(x.to_string())
}

fn n(x: i64) -> Value {
    Value::Num(x.to_string())
}

fn obj(es: Vec<(&str, Value)>) -> Value {
    Value::Obj(es.into_iter().map(|(k, v)| (k.to_string(), v)).collect())
}

#[test]
fn test_discard_descriptions_pass() {
    let v = obj(vec![
        ("gen.description", s("top")),
        (
            "inner",
            Value::Arr(vec![obj(vec![
                ("gen.description", s("nested")),
                ("kept", n(1)),
            ])]),
        ),
    ]);
    let cleaned = discard_descriptions(&v);
    let expected = obj(vec![(
        "inner",
        Value::Arr(vec![obj(vec![("kept", n(1))])]),
    )]);
    assert_eq!(cleaned, expected);
}

#[test]
fn test_substitution_pass_alone() {
    let globals: Vec<(String, Value)> = vec![("x".to_string(), n(9))];
    let v = obj(vec![("a", s("@{x}")), ("b", s("@{y}"))]);
    let out = replace_nesteds(&v, &globals, "linux");
    assert_eq!(out, obj(vec![("a", n(9)), ("b", s("@{y}"))]));
}

#[test]
fn test_prune_pass_alone() {
    let v = obj(vec![
        ("keep", obj(vec![("gen.os", s("linux")), ("x", n(1))])),
        ("drop", obj(vec![("gen.os", s("windows"))])),
    ]);
    let out = remove_incompatible_os(&v, "linux");
    assert_eq!(out, obj(vec![("keep", obj(vec![("x", n(1))]))]));
}

#[test]
fn test_substitution_diagnostics() {
    // Values are reported first (a missing nested global, then an array's
    // splice phase), the object's merge phase reports its keys last.
    let globals: Vec<(String, Value)> = vec![
        ("known".to_string(), n(1)),
        ("notobj".to_string(), n(7)),
    ];
    let v = obj(vec![
        ("a", s("@{known}")),
        ("b", s("@{gone}")),
        ("@@{alsogone}", s("")),
        ("c", Value::Arr(vec![s("@@{third}")])),
        ("@@{notobj}", s("")),
    ]);
    let diags = substitution_diagnostics(&v, &globals, "linux");
    assert_eq!(
        diags,
        vec![
            Diagnostic::MissingKey("gone".to_string()),
            Diagnostic::MissingKey("third".to_string()),
            Diagnostic::MissingKey("alsogone".to_string()),
            Diagnostic::NotAnObject,
        ]
    );
}

#[test]
fn test_env_pass_alone() {
    let env: Vec<(String, String)> = vec![("HOME_X".to_string(), "/home/u".to_string())];
    let v = obj(vec![("p", s("$${HOME_X}/bin"))]);
    let out = replace_env_vars(&v, &env);
    assert_eq!(out, obj(vec![("p", s("/home/u/bin"))]));
}
