use vscode_workspace_gen::config::{Config, PerOsOutputFileNames};

fn base() -> Config {
    Config {
        indent: 2,
        output_filename: None,
        per_os_output_filenames: None,
    }
}

#[test]
fn test_json_indent_in_range() {
    let c = Config { indent: 4, ..base() };
    assert_eq!(c.json_indent(), 4);
    let c0 = Config { indent: 0, ..base() };
    assert_eq!(c0.json_indent(), 0);
    let c10 = Config { indent: 10, ..base() };
    assert_eq!(c10.json_indent(), 10);
}

#[test]
fn test_json_indent_out_of_range_falls_back() {
    let c = Config { indent: 11, ..base() };
    assert_eq!(c.json_indent(), 2);
    let c2 = Config { indent: 4000, ..base() };
    assert_eq!(c2.json_indent(), 2);
}

#[test]
fn test_default_config() {
    let c = Config::default();
    assert_eq!(c.json_indent(), 2);
    assert!(!c.has_target());
    assert!(c.is_valid().is_ok());
}

#[test]
fn test_is_valid_rejects_both_outputs() {
    let c = Config {
        output_filename: Some("a.json".to_string()),
        per_os_output_filenames: Some(PerOsOutputFileNames {
            windows: Some("w.json".to_string()),
            linux: None,
            macos: None,
        }),
        ..base()
    };
    assert_eq!(
        c.is_valid().unwrap_err(),
        "Only one of output_filename or per_os_output_filenames can be set"
    );
}

#[test]
fn test_has_target() {
    assert!(!base().has_target());
    let c = Config { output_filename: Some("a.json".to_string()), ..base() };
    assert!(c.has_target());
}

#[test]
fn test_targets_per_os_order() {
    let c = Config {
        per_os_output_filenames: Some(PerOsOutputFileNames {
            windows: Some("w.json".to_string()),
            linux: None,
            macos: Some("m.json".to_string()),
        }),
        ..base()
    };
    let ts = c.targets("linux").unwrap();
    assert_eq!(
        ts,
        vec![
            ("windows".to_string(), "w.json".to_string()),
            ("macos".to_string(), "m.json".to_string()),
        ]
    );
}

#[test]
fn test_targets_single_output() {
    let c = Config { output_filename: Some("out.json".to_string()), ..base() };
    let ts = c.targets("linux").unwrap();
    assert_eq!(ts, vec![("linux".to_string(), "out.json".to_string())]);
}

#[test]
fn test_targets_none() {
    assert!(base().targets("linux").is_none());
}

#[test]
fn test_config_filename() {
    assert_eq!(Config::filename(), ".vscode-workspace-gen.json");
}
