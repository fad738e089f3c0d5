use vscode_workspace_gen::workspace::{token_kind, token_kind_from_str, TokenKind};
use vscode_workspace_gen::Value;

#[test]
fn test_token_kind() {
    assert_eq!(
        token_kind_from_str("@{key}"),
        TokenKind::Nested("key".to_string())
    );
    assert_eq!(
        token_kind_from_str("@@{key}"),
        TokenKind::Inplace("key".to_string())
    );
    assert_eq!(token_kind_from_str("@{}"), TokenKind::NoToken);
    assert_eq!(token_kind_from_str("@@{}"), TokenKind::NoToken);
    assert_eq!(token_kind_from_str("@{"), TokenKind::NoToken);
    assert_eq!(token_kind_from_str("key}"), TokenKind::NoToken);
    assert_eq!(token_kind_from_str("key"), TokenKind::NoToken);
    assert_eq!(token_kind_from_str(""), TokenKind::NoToken);
}

#[test]
fn test_token_kind_whole_string_only() {
    assert_eq!(token_kind_from_str(" @{key}"), TokenKind::NoToken);
    assert_eq!(token_kind_from_str("@{key} "), TokenKind::NoToken);
    assert_eq!(token_kind_from_str("@@{a.b}"), TokenKind::Inplace("a.b".to_string()));
    assert_eq!(token_kind_from_str("@{{x}}"), TokenKind::Nested("{x}".to_string()));
}

#[test]
fn test_token_kind_of_values() {
    assert_eq!(
        token_kind(&Value::Str("@{k}".to_string())),
        TokenKind::Nested("k".to_string())
    );
    assert_eq!(token_kind(&Value::Num("3".to_string())), TokenKind::NoToken);
    assert_eq!(token_kind(&Value::Null), TokenKind::NoToken);
}
