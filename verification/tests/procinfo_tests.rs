use binkybox::procinfo::{
    eq_ignore_ascii_case, file_stem, get_exec_info, is_shell_executed, is_whitelist_fs_app,
    parse_u32, trim_spaces,
};

#[test]
fn case_insensitive_compare() {
    assert!(eq_ignore_ascii_case("CMD", "cmd"));
    assert!(eq_ignore_ascii_case("WezTerm-GUI", "wezterm-gui"));
    assert!(eq_ignore_ascii_case("", ""));
    assert!(!eq_ignore_ascii_case("cmd", "cmd "));
    assert!(!eq_ignore_ascii_case("powershell", "pwsh"));
}

#[test]
fn shell_parents_are_recognised() {
    assert!(!is_shell_executed("cmd"));
    assert!(!is_shell_executed("CMD"));
    assert!(!is_shell_executed("pwsh"));
    assert!(!is_shell_executed("cargo"));
    assert!(!is_shell_executed("conhost"));
    assert!(!is_shell_executed("PowerShell"));
    assert!(!is_shell_executed("wezterm-gui"));
    assert!(is_shell_executed("explorer"));
    assert!(is_shell_executed(""));
    assert!(is_shell_executed("cmd.exe"));
}

#[test]
fn whitelist_membership() {
    assert!(!is_whitelist_fs_app(None));
    assert!(is_whitelist_fs_app(Some("conhost")));
    assert!(is_whitelist_fs_app(Some("WEZTERM-GUI")));
    assert!(is_whitelist_fs_app(Some("windowsterminal")));
    assert!(!is_whitelist_fs_app(Some("notepad")));
    assert!(!is_whitelist_fs_app(Some("")));
}

#[test]
fn exec_info_needs_both_parent_facts() {
    assert!(get_exec_info(10, None, Some(String::from("explorer"))).is_none());
    assert!(get_exec_info(10, Some(4), None).is_none());
    let info = get_exec_info(10, Some(4), Some(String::from("explorer"))).unwrap();
    assert_eq!(info.pid, 10);
    assert_eq!(info.parent_pid, 4);
    assert_eq!(info.parent_pname, "explorer");
    assert!(info.is_shell_executed);
    let info = get_exec_info(11, Some(5), Some(String::from("PowerShell"))).unwrap();
    assert!(!info.is_shell_executed);
}

#[test]
fn trim_strips_ascii_whitespace() {
    assert_eq!(trim_spaces("  4321\r\n"), "4321");
    assert_eq!(trim_spaces("\t a b \r"), "a b");
    assert_eq!(trim_spaces("none"), "none");
    assert_eq!(trim_spaces("   "), "");
    assert_eq!(trim_spaces(""), "");
}

#[test]
fn file_stem_cuts_last_extension() {
    assert_eq!(file_stem("explorer.exe"), "explorer");
    assert_eq!(file_stem("wezterm-gui.exe"), "wezterm-gui");
    assert_eq!(file_stem("archive.tar.gz"), "archive.tar");
    assert_eq!(file_stem("noext"), "noext");
    assert_eq!(file_stem(".profile"), ".profile");
    assert_eq!(file_stem("trailing."), "trailing");
    assert_eq!(file_stem(""), "");
}

#[test]
fn parse_u32_exact() {
    assert_eq!(parse_u32("0"), Some(0));
    assert_eq!(parse_u32("123"), Some(123));
    assert_eq!(parse_u32("042"), Some(42));
    assert_eq!(parse_u32("4294967295"), Some(u32::MAX));
    assert_eq!(parse_u32("4294967296"), None);
    assert_eq!(parse_u32("99999999999999999999"), None);
    assert_eq!(parse_u32(""), None);
    assert_eq!(parse_u32("12a"), None);
    assert_eq!(parse_u32("-1"), None);
    assert_eq!(parse_u32(" 12"), None);
}
