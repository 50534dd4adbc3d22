use hyprspace::text::{parse_u32, u32_to_string};
use hyprspace::workspace::parse_workspace_num;

#[test]
fn directive_with_surrounding_whitespace_parses() {
    let script = "#!/bin/bash\n\n  hyprctl dispatch workspace 3  \n";
    assert_eq!(parse_workspace_num(script), Some(3));
}

#[test]
fn commented_directive_is_ignored() {
    let script = "#!/bin/bash\n# hyprctl dispatch workspace 9\n";
    assert_eq!(parse_workspace_num(script), None);
}

#[test]
fn unparseable_directive_line_is_skipped() {
    let script = "#!/bin/bash\nhyprctl dispatch workspace abc\necho done\n";
    assert_eq!(parse_workspace_num(script), None);
}

#[test]
fn scan_continues_to_a_later_parseable_line() {
    let script = "hyprctl dispatch workspace abc\nhyprctl dispatch workspace 7\n";
    assert_eq!(parse_workspace_num(script), Some(7));
}

#[test]
fn first_parseable_directive_wins() {
    let script = "hyprctl dispatch workspace 4\nhyprctl dispatch workspace 5\n";
    assert_eq!(parse_workspace_num(script), Some(4));
}

#[test]
fn blank_lines_and_comments_are_passed_over() {
    let script = "\n\n   \n# comment\n#!/bin/bash\nhyprctl dispatch workspace 12\n";
    assert_eq!(parse_workspace_num(script), Some(12));
}

#[test]
fn directive_must_open_the_line() {
    let script = "echo hyprctl dispatch workspace 3\n";
    assert_eq!(parse_workspace_num(script), None);
}

#[test]
fn last_token_is_the_number() {
    let script = "hyprctl dispatch workspace 3 # target\n";
    // The last token is "target", which does not parse.
    assert_eq!(parse_workspace_num(script), None);
}

#[test]
fn empty_text_has_no_directive() {
    assert_eq!(parse_workspace_num(""), None);
}

#[test]
fn final_line_without_newline_is_scanned() {
    let script = "#!/bin/bash\nhyprctl dispatch workspace 8";
    assert_eq!(parse_workspace_num(script), Some(8));
}

#[test]
fn carriage_returns_are_tolerated() {
    let script = "#!/bin/bash\r\nhyprctl dispatch workspace 6\r\n";
    assert_eq!(parse_workspace_num(script), Some(6));
}

#[test]
fn parse_u32_accepts_plain_and_signed_plus() {
    assert_eq!(parse_u32("42"), Some(42));
    assert_eq!(parse_u32("+7"), Some(7));
    assert_eq!(parse_u32("007"), Some(7));
    assert_eq!(parse_u32("0"), Some(0));
    assert_eq!(parse_u32("4294967295"), Some(u32::MAX));
}

#[test]
fn parse_u32_rejects_junk_and_overflow() {
    assert_eq!(parse_u32(""), None);
    assert_eq!(parse_u32("+"), None);
    assert_eq!(parse_u32("-3"), None);
    assert_eq!(parse_u32("12a"), None);
    assert_eq!(parse_u32("4294967296"), None);
    assert_eq!(parse_u32("99999999999999999999"), None);
}

#[test]
fn numbers_render_in_decimal() {
    assert_eq!(u32_to_string(0).as_str(), "0");
    assert_eq!(u32_to_string(7).as_str(), "7");
    assert_eq!(u32_to_string(10).as_str(), "10");
    assert_eq!(u32_to_string(255).as_str(), "255");
    assert_eq!(u32_to_string(u32::MAX).as_str(), "4294967295");
}
