use launcher_core::app_runner::AppRunner;

#[test]
fn parse_command_drops_field_codes() {
    let (cmd, args) = AppRunner::parse_command("/usr/bin/wechat %U").unwrap();
    assert_eq!(cmd, "/usr/bin/wechat");
    assert!(args.is_empty());
    let (cmd, args) = AppRunner::parse_command("  env  QT_QPA_PLATFORM=wayland\tkrita %F --x=%u -v ").unwrap();
    assert_eq!(cmd, "env");
    assert_eq!(args, vec!["QT_QPA_PLATFORM=wayland".to_string(), "krita".to_string(), "-v".to_string()]);
    assert_eq!(AppRunner::parse_command(""), None);
    assert_eq!(AppRunner::parse_command(" \t\n"), None);
    // The program itself is kept even if it holds '%'.
    let (cmd, _) = AppRunner::parse_command("%weird").unwrap();
    assert_eq!(cmd, "%weird");
}
