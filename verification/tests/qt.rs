use vscode_workspace_gen::qt::{contains_str, suggest_needed_env_vars};

#[test]
fn test_contains_str() {
    assert!(contains_str("a QT_INSTALL path", "QT_INSTALL"));
    assert!(contains_str("QT_INSTALL", "QT_INSTALL"));
    assert!(!contains_str("QT_INSTAL", "QT_INSTALL"));
    assert!(!contains_str("", "x"));
    assert!(contains_str("anything", ""));
}

#[test]
fn test_suggest_needed_env_vars() {
    let no_env: Vec<(String, String)> = Vec::new();
    let suggestions = suggest_needed_env_vars("uses $${QT_INSTALL}/bin", &no_env);
    assert_eq!(suggestions.len(), 1);
    assert_eq!(suggestions[0].0, "QT_INSTALL");

    let env = vec![("QT_INSTALL".to_string(), "/opt/qt".to_string())];
    assert_eq!(
        suggest_needed_env_vars("uses $${QT_INSTALL}/bin", &env).len(),
        0
    );

    let both = suggest_needed_env_vars("QT_SDK_INSTALL and QT_INSTALL", &no_env);
    assert_eq!(both.len(), 2);
    assert_eq!(both[0].0, "QT_SDK_INSTALL");
    assert_eq!(both[1].0, "QT_INSTALL");

    assert_eq!(suggest_needed_env_vars("no qt here", &no_env).len(), 0);
}
