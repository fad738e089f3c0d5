use vscode_workspace_gen::workspace::suggest_output_filename;

#[test]
fn test_suggest_output_filename() {
    assert_eq!(
        suggest_output_filename("x.code-workspace.template"),
        "x.code-workspace"
    );
    assert_eq!(
        suggest_output_filename("some/dir/bar.template.json"),
        "bar.json"
    );
    assert_eq!(suggest_output_filename("plain.json"), "plain.json");
}

#[test]
fn test_suggest_output_filename_removes_every_occurrence() {
    assert_eq!(suggest_output_filename("a.template.template"), "a");
}
