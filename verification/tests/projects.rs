use vscode_workspace_gen::project::{
    get_project, list_folder, list_root_project_folder, Folder, Project,
};

fn proj(path: &str, description: &str) -> Project {
    Project {
        path: path.to_string(),
        description: description.to_string(),
        type_str: None,
        depends: None,
    }
}

fn leaf(name: &str, p: Project) -> Folder {
    Folder {
        name: name.to_string(),
        project: Some(p),
        subfolders: Vec::new(),
    }
}

fn dir(name: &str, subfolders: Vec<Folder>) -> Folder {
    Folder {
        name: name.to_string(),
        project: None,
        subfolders,
    }
}

fn sample_root() -> Folder {
    dir(
        "projects_folder",
        vec![
            leaf("a", proj("/r/a/project.json", "desc1")),
            dir("c", vec![leaf("d", proj("/r/c/d/project.json", "desc2"))]),
            leaf("b", proj("/r/b/project.json", "desc3")),
            leaf("depends", proj("/r/depends/project.json", "Tests depends")),
        ],
    )
}

#[test]
fn test_get_project() {
    let root = sample_root();
    let p = get_project("c/d", &root).unwrap();
    assert_eq!(p.description, "desc2");
    assert_eq!(p.base_folder().unwrap(), "d");
}

#[test]
fn test_get_project_missing() {
    let root = sample_root();
    assert_eq!(
        get_project("nope", &root).unwrap_err(),
        "Project does not exist"
    );
    assert_eq!(
        get_project("c/x", &root).unwrap_err(),
        "Project does not exist"
    );
}

#[test]
fn test_get_project_folder_without_description() {
    let root = sample_root();
    assert_eq!(
        get_project("c", &root).unwrap_err(),
        "Project does not contain a project.json file"
    );
}

#[test]
fn test_list_folder() {
    let root = sample_root();
    let mut result = list_folder(&root).unwrap();
    assert_eq!(result.len(), 4);
    result.sort_by(|a, b| a.description.cmp(&b.description));
    assert_eq!(result[0].description, "Tests depends");
    assert_eq!(result[1].description, "desc1");
    assert_eq!(result[2].description, "desc2");
    assert_eq!(result[3].description, "desc3");
    for r in result.iter() {
        assert!(r.path.ends_with("project.json"));
    }
}

#[test]
fn test_list_root_project_folder_rejects_described_root() {
    let mut root = sample_root();
    root.project = Some(proj("/r/project.json", "root"));
    assert_eq!(
        list_root_project_folder(&root).unwrap_err(),
        "root should not contain a project.json file"
    );
}

#[test]
fn test_list_root_project_folder() {
    let root = sample_root();
    let result = list_root_project_folder(&root).unwrap();
    assert_eq!(result.len(), 4);
}

#[test]
fn test_project_id() {
    let p = proj("/r/c/d/project.json", "desc2");
    assert_eq!(p.project_id("/r"), "c/d");
    let q = proj("/r/a/project.json", "desc1");
    assert_eq!(q.project_id("/r/a"), "");
}

#[test]
fn test_base_folder_of_flat_path() {
    let p = proj("project.json", "flat");
    assert!(p.base_folder().is_none());
}

#[test]
fn test_project_source_folder() {
    let p = proj("/r/c/d/project.json", "desc2");
    assert_eq!(p.project_source_folder().unwrap(), "/r/c/d");
    let bad = proj("", "empty");
    assert_eq!(
        bad.project_source_folder().unwrap_err(),
        "Could not get parent folder"
    );
}

#[test]
fn test_is_single_file() {
    let mut p = proj("/r/a/project.json", "desc1");
    assert!(!p.is_single_file());
    p.type_str = Some("single_file".to_string());
    assert!(p.is_single_file());
    p.type_str = Some("other".to_string());
    assert!(!p.is_single_file());
}

#[test]
fn test_project_new() {
    let json = Project {
        path: String::new(),
        description: "d".to_string(),
        type_str: Some("t".to_string()),
        depends: Some(vec!["a".to_string()]),
    };
    let p = Project::new("/r/x/project.json".to_string(), json);
    assert_eq!(p.path, "/r/x/project.json");
    assert_eq!(p.description, "d");
    assert_eq!(p.type_str, Some("t".to_string()));
    assert_eq!(p.depends, Some(vec!["a".to_string()]));
}
