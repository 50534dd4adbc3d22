use hyprspace::workspace::{list_workspaces, name_qualifies, ScriptFile};

fn file(name: &str, path: &str, content: Option<&str>) -> ScriptFile {
    ScriptFile {
        file_name: name.to_string(),
        full_path: path.to_string(),
        content: content.map(|c| c.to_string()),
    }
}

#[test]
fn only_exactly_matching_names_are_included() {
    let files = vec![
        file("workspace-a.sh", "/d/workspace-a.sh", Some("")),
        file("workspace-x.shx", "/d/workspace-x.shx", Some("")),
        file("Workspace-b.sh", "/d/Workspace-b.sh", Some("")),
        file("workspace-b.SH", "/d/workspace-b.SH", Some("")),
        file("notes.txt", "/d/notes.txt", None),
        file("workspace.sh", "/d/workspace.sh", Some("")),
        file("aworkspace-b.sh", "/d/aworkspace-b.sh", Some("")),
        file("workspace-b.sh", "/d/workspace-b.sh", None),
    ];
    let entries = list_workspaces(files);
    let names: Vec<&str> = entries.iter().map(|e| e.base_name.as_str()).collect();
    assert_eq!(names, vec!["workspace-a.sh", "workspace-b.sh"]);
}

#[test]
fn name_filter_is_exact() {
    assert!(name_qualifies("workspace-a.sh"));
    assert!(name_qualifies("workspace-.sh"));
    assert!(!name_qualifies("workspace-a.shx"));
    assert!(!name_qualifies("Workspace-a.sh"));
    assert!(!name_qualifies("workspace-a.sH"));
    assert!(!name_qualifies("workspacea.sh"));
    assert!(!name_qualifies("w.sh"));
}

#[test]
fn short_name_strips_prefix_and_suffix() {
    let files = vec![file("workspace-backend.sh", "/d/workspace-backend.sh", None)];
    let entries = list_workspaces(files);
    assert_eq!(entries.len(), 1);
    assert_eq!(entries[0].name_short.as_str(), "backend");
    assert_eq!(entries[0].full_path.as_str(), "/d/workspace-backend.sh");
    assert_eq!(entries[0].workspace_num, None);
}

#[test]
fn listing_is_sorted_by_filename() {
    let files = vec![
        file("workspace-zeta.sh", "/d/z", None),
        file("workspace-alpha.sh", "/d/a", None),
        file("workspace-mid.sh", "/d/m", None),
    ];
    let entries = list_workspaces(files);
    let names: Vec<&str> = entries.iter().map(|e| e.base_name.as_str()).collect();
    assert_eq!(names, vec!["workspace-alpha.sh", "workspace-mid.sh", "workspace-zeta.sh"]);
}

#[test]
fn repeated_loads_in_any_order_agree() {
    let one = vec![
        file("workspace-b.sh", "/d/b", Some("hyprctl dispatch workspace 2\n")),
        file("workspace-a.sh", "/d/a", None),
        file("workspace-c.sh", "/d/c", Some("")),
    ];
    let two = vec![
        file("workspace-c.sh", "/d/c", Some("")),
        file("workspace-a.sh", "/d/a", None),
        file("workspace-b.sh", "/d/b", Some("hyprctl dispatch workspace 2\n")),
    ];
    let first = list_workspaces(one);
    let second = list_workspaces(two);
    assert_eq!(first.len(), second.len());
    for (x, y) in first.iter().zip(second.iter()) {
        assert_eq!(x.base_name, y.base_name);
        assert_eq!(x.name_short, y.name_short);
        assert_eq!(x.full_path, y.full_path);
        assert_eq!(x.workspace_num, y.workspace_num);
    }
}

#[test]
fn declared_numbers_are_extracted_per_file() {
    let files = vec![
        file("workspace-two.sh", "/d/2", Some("#!/bin/bash\nhyprctl dispatch workspace 2\n")),
        file("workspace-none.sh", "/d/n", Some("#!/bin/bash\necho hi\n")),
        file("workspace-unreadable.sh", "/d/u", None),
    ];
    let entries = list_workspaces(files);
    assert_eq!(entries[0].base_name.as_str(), "workspace-none.sh");
    assert_eq!(entries[0].workspace_num, None);
    assert_eq!(entries[1].base_name.as_str(), "workspace-two.sh");
    assert_eq!(entries[1].workspace_num, Some(2));
    assert_eq!(entries[2].base_name.as_str(), "workspace-unreadable.sh");
    assert_eq!(entries[2].workspace_num, None);
}
