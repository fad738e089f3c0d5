use vscode_workspace_gen::workspace::is_allowed_in_os;
use vscode_workspace_gen::Value;

fn os_obj(os: Value) -> Value {
    Value::Obj(vec![("gen.os".to_string(), os)])
}

#[test]
fn test_is_allowed_in_os() {
    let windows_only = os_obj(Value::Str("windows".to_string()));
    let linux_only = os_obj(Value::Str("linux".to_string()));
    assert!(!is_allowed_in_os(&windows_only, "linux"));
    assert!(is_allowed_in_os(&linux_only, "linux"));
    assert!(is_allowed_in_os(&windows_only, "windows"));
    assert!(!is_allowed_in_os(&linux_only, "windows"));
}

#[test]
fn test_is_allowed_in_os_lists() {
    let both = os_obj(Value::Arr(vec![
        Value::Str("windows".to_string()),
        Value::Str("linux".to_string()),
    ]));
    assert!(is_allowed_in_os(&both, "linux"));
    assert!(is_allowed_in_os(&both, "windows"));
    assert!(!is_allowed_in_os(&both, "macos"));
    let none = os_obj(Value::Arr(vec![]));
    assert!(!is_allowed_in_os(&none, "linux"));
}

#[test]
fn test_is_allowed_in_os_without_directive() {
    assert!(is_allowed_in_os(&Value::Obj(vec![]), "linux"));
    assert!(is_allowed_in_os(&Value::Num("1".to_string()), "linux"));
    assert!(is_allowed_in_os(&Value::Null, "linux"));
}

#[test]
fn test_is_allowed_in_os_odd_directive_value() {
    // A platform directive that is neither a string nor a list allows
    // nothing.
    assert!(!is_allowed_in_os(&os_obj(Value::Num("1".to_string())), "linux"));
}
