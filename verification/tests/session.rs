use hyprspace::script::{
    parse_workspace_choice, prompt_yes_no, script_content, script_file_name, WindowRule,
};
use hyprspace::tui::{render_row, Action, App, Key};
use hyprspace::workspace::{list_workspaces, parse_workspace_num, ScriptFile, WorkspaceEntry};

fn entry(short: &str) -> WorkspaceEntry {
    WorkspaceEntry {
        name_short: short.to_string(),
        base_name: format!("workspace-{}.sh", short),
        full_path: format!("/d/workspace-{}.sh", short),
        workspace_num: None,
    }
}

fn three_entries() -> Vec<WorkspaceEntry> {
    vec![entry("a"), entry("b"), entry("c")]
}

#[test]
fn down_four_times_wraps_to_start() {
    let mut app = App::new(three_entries());
    assert_eq!(app.selected, 0);
    assert_eq!(app.total_items(), 4);
    for _ in 0..4 {
        app.next();
    }
    assert_eq!(app.selected, 0);
}

#[test]
fn up_from_top_wraps_to_synthetic_item() {
    let mut app = App::new(three_entries());
    app.previous();
    assert_eq!(app.selected, 3);
}

#[test]
fn navigation_steps_one_by_one() {
    let mut app = App::new(three_entries());
    app.next();
    assert_eq!(app.selected, 1);
    app.next();
    assert_eq!(app.selected, 2);
    app.previous();
    assert_eq!(app.selected, 1);
}

#[test]
fn navigation_with_no_entries_stays_on_synthetic_item() {
    let mut app = App::new(Vec::new());
    assert_eq!(app.total_items(), 1);
    app.next();
    assert_eq!(app.selected, 0);
    app.previous();
    assert_eq!(app.selected, 0);
}

#[test]
fn confirm_on_entry_launches_it() {
    let mut app = App::new(three_entries());
    app.next();
    let done = app.handle_key(Key::Confirm);
    assert!(done);
    assert_eq!(app.action, Some(Action::Launch(1)));
}

#[test]
fn confirm_on_last_item_creates_with_entries() {
    let mut app = App::new(three_entries());
    let done = app.apply_keys(&vec![Key::MoveUp, Key::Confirm]);
    assert!(done);
    assert_eq!(app.selected, 3);
    assert_eq!(app.action, Some(Action::CreateNew));
}

#[test]
fn confirm_with_no_entries_creates() {
    let mut app = App::new(Vec::new());
    let done = app.handle_key(Key::Confirm);
    assert!(done);
    assert_eq!(app.action, Some(Action::CreateNew));
}

#[test]
fn quit_yields_no_action_and_keeps_entries() {
    for downs in 0..4 {
        let mut app = App::new(three_entries());
        for _ in 0..downs {
            app.next();
        }
        let done = app.handle_key(Key::Quit);
        assert!(done);
        assert_eq!(app.action, None);
        let names: Vec<&str> = app.workspaces.iter().map(|e| e.base_name.as_str()).collect();
        assert_eq!(
            names,
            vec!["workspace-a.sh", "workspace-b.sh", "workspace-c.sh"]
        );
    }
}

#[test]
fn other_keys_are_ignored() {
    let mut app = App::new(three_entries());
    let done = app.apply_keys(&vec![Key::Other, Key::Other]);
    assert!(!done);
    assert_eq!(app.selected, 0);
    assert_eq!(app.action, None);
}

#[test]
fn end_to_end_select_first_entry() {
    let files = vec![
        ScriptFile {
            file_name: "workspace-music.sh".to_string(),
            full_path: "/cfg/workspace-music.sh".to_string(),
            content: Some("#!/bin/bash\necho tunes\n".to_string()),
        },
        ScriptFile {
            file_name: "workspace-backend.sh".to_string(),
            full_path: "/cfg/workspace-backend.sh".to_string(),
            content: Some("#!/bin/bash\n\nhyprctl dispatch workspace 2\n".to_string()),
        },
    ];
    let entries = list_workspaces(files);
    assert_eq!(entries.len(), 2);
    assert_eq!(
        render_row(0, &entries[0]).as_str(),
        "1. [ws 2] backend (workspace-backend.sh)"
    );
    assert_eq!(
        render_row(1, &entries[1]).as_str(),
        "2. [ws ?] music (workspace-music.sh)"
    );
    let mut app = App::new(entries);
    let done = app.apply_keys(&vec![Key::Confirm]);
    assert!(done);
    assert_eq!(app.action, Some(Action::Launch(0)));
    assert_eq!(
        app.workspaces[0].full_path.as_str(),
        "/cfg/workspace-backend.sh"
    );
}

#[test]
fn generated_file_name_follows_convention() {
    assert_eq!(script_file_name("backend").as_str(), "workspace-backend.sh");
    assert_eq!(script_file_name("").as_str(), "workspace-.sh");
}

#[test]
fn generated_script_without_windows_only_dispatches() {
    let content = script_content(5, &Vec::new());
    let expected = "#!/bin/bash\n\nhyprctl dispatch workspace 5\n\nrule_exec() {\n  local rules=\"$1\"\n  shift\n  hyprctl dispatch exec \"[$rules] $*\"\n}\n\n";
    assert_eq!(content.as_str(), expected);
}

#[test]
fn generated_script_declares_its_number() {
    let rules = vec![WindowRule {
        width: "10%".to_string(),
        height: "15%".to_string(),
        pos_x: "1%".to_string(),
        pos_y: "8%".to_string(),
        command: "kitty --hold zsh -c \"cava\"".to_string(),
    }];
    let content = script_content(37, &rules);
    assert_eq!(parse_workspace_num(content.as_str()), Some(37));
}

#[test]
fn generated_window_block_is_rendered() {
    let rules = vec![WindowRule {
        width: "10%".to_string(),
        height: "15%".to_string(),
        pos_x: "1%".to_string(),
        pos_y: "8%".to_string(),
        command: "firefox".to_string(),
    }];
    let content = script_content(3, &rules);
    let block = "rule_exec \"workspace 3 silent; float; size 10% 15%; move 1% 8%\" \\\n  firefox\n\n";
    assert!(content.as_str().ends_with(block));
}

#[test]
fn yes_no_answers_follow_defaults_and_case() {
    assert!(prompt_yes_no("", false));
    assert!(!prompt_yes_no("", true));
    assert!(prompt_yes_no("y", true));
    assert!(prompt_yes_no("Y", true));
    assert!(prompt_yes_no("yes", true));
    assert!(prompt_yes_no("YeS", true));
    assert!(!prompt_yes_no("n", false));
    assert!(!prompt_yes_no("no", false));
    assert!(!prompt_yes_no("yess", false));
    assert!(!prompt_yes_no("x", false));
}

#[test]
fn workspace_choice_requires_a_positive_integer() {
    assert_eq!(parse_workspace_choice("3"), Some(3));
    assert_eq!(parse_workspace_choice(" 42 "), Some(42));
    assert_eq!(parse_workspace_choice("0"), None);
    assert_eq!(parse_workspace_choice("abc"), None);
    assert_eq!(parse_workspace_choice(""), None);
    assert_eq!(parse_workspace_choice("-1"), None);
}
