use launcher_core::app_loader::AppLoader;
use launcher_core::app_usage::AppUsage;
use launcher_core::env::Env;

const CHROME: &str = "[Desktop Entry]\n\
Version=1.0\n\
Name=Google Chrome\n\
Name[zh_CN]=谷歌浏览器\n\
Comment=Access the Internet\n\
Comment[zh_CN]=访问互联网\n\
Exec=/usr/bin/google-chrome-stable %U\n\
Icon=google-chrome\n\
Type=Application\n\
\n\
[Desktop Action new-window]\n\
Name=New Window\n\
Exec=/usr/bin/google-chrome-stable --new-window\n";

#[test]
fn check_desktop_keeps_only_the_entry_section() {
    let section = AppLoader::check_desktop(CHROME).unwrap();
    assert!(section.starts_with(" Entry]\n"));
    assert!(!section.contains("New Window"));
    assert!(section.contains("Icon=google-chrome"));
}

#[test]
fn check_desktop_rejects_hidden_and_missing_entries() {
    assert_eq!(AppLoader::check_desktop("[Desktop Entry]\nName=X\nNoDisplay=true\n"), None);
    assert_eq!(AppLoader::check_desktop("Name=X\nExec=x\n"), None);
    assert_eq!(AppLoader::check_desktop(""), None);
    assert_eq!(
        AppLoader::check_desktop("[Desktop Entry]\nNoDisplay=false\n"),
        Some(" Entry]\nNoDisplay=false\n".to_string())
    );
    // Two entry sections are concatenated.
    assert_eq!(
        AppLoader::check_desktop("[Desktop Entry]a\n[Desktop Action x]b\n[Desktop Entry]c\n"),
        Some(" Entry]a\n Entry]c\n".to_string())
    );
}

#[test]
fn parse_reads_localized_name_and_comment() {
    let app = AppLoader::parse_desktop_generate_app_entry(
        "/usr/share/applications/google-chrome.desktop",
        CHROME,
        "Name[zh_CN]=",
        "Comment[zh_CN]=",
    )
    .unwrap();
    assert_eq!(app.name, "谷歌浏览器");
    assert_eq!(app.search_key, "google chrome,谷歌浏览器");
    assert_eq!(app.exec_cmd, "/usr/bin/google-chrome-stable %U");
    assert_eq!(app.icon, Some("google-chrome".to_string()));
    assert_eq!(app.comment, "访问互联网");
    assert_eq!(app.desktop_file, "/usr/share/applications/google-chrome.desktop");
    assert_eq!(app.score, 0);
}

#[test]
fn parse_falls_back_to_default_name_and_comment() {
    let app = AppLoader::parse_desktop_generate_app_entry(
        "f.desktop",
        CHROME,
        "Name[fr]=",
        "Comment[fr]=",
    )
    .unwrap();
    assert_eq!(app.name, "Google Chrome");
    assert_eq!(app.search_key, "google chrome");
    assert_eq!(app.comment, "Access the Internet");
}

#[test]
fn parse_later_default_name_overrides_localized_one() {
    let content = "[Desktop Entry]\nName[de]=Rechner\nName=Calculator\nExec=calc\n";
    let app = AppLoader::parse_desktop_generate_app_entry("c", content, "Name[de]=", "Comment[de]=")
        .unwrap();
    assert_eq!(app.name, "Calculator");
    assert_eq!(app.search_key, "rechner,calculator");
    // Only the first localized name counts.
    let content = "[Desktop Entry]\nName[de]=A\nName[de]=B\nExec=x\n";
    let app = AppLoader::parse_desktop_generate_app_entry("c", content, "Name[de]=", "Comment[de]=")
        .unwrap();
    assert_eq!(app.name, "A");
    assert_eq!(app.search_key, "a");
}

#[test]
fn parse_needs_an_exec_line() {
    let content = "[Desktop Entry]\nName=NoExec\n";
    assert!(AppLoader::parse_desktop_generate_app_entry("n", content, "Name[x]=", "Comment[x]=").is_none());
    // A line that only starts with "Exec" still counts, with an empty command.
    let content = "[Desktop Entry]\nName=Odd\nExecutable=foo\nExec=bar\n";
    let app = AppLoader::parse_desktop_generate_app_entry("n", content, "Name[x]=", "Comment[x]=")
        .unwrap();
    assert_eq!(app.exec_cmd, "");
}

#[test]
fn parse_handles_crlf_and_missing_fields() {
    let content = "[Desktop Entry]\r\nName=Term\r\nExec=xterm\r\nComment=One\r\nComment=Two\r\n";
    let app = AppLoader::parse_desktop_generate_app_entry("t", content, "Name[x]=", "Comment[x]=")
        .unwrap();
    assert_eq!(app.name, "Term");
    assert_eq!(app.exec_cmd, "xterm");
    assert_eq!(app.icon, None);
    assert_eq!(app.comment, "Two");
    let content = "[Desktop Entry]\nExec=x\nIconName=y\n";
    let app = AppLoader::parse_desktop_generate_app_entry("t", content, "Name[x]=", "Comment[x]=")
        .unwrap();
    assert_eq!(app.icon, None);
    assert_eq!(app.name, "");
    assert_eq!(app.search_key, "");
}

#[test]
fn desktop_file_names() {
    assert!(AppLoader::is_desktop_file_name("firefox.desktop"));
    assert!(!AppLoader::is_desktop_file_name("README"));
    assert!(!AppLoader::is_desktop_file_name(".hidden"));
    assert!(AppLoader::is_desktop_file_name(".desktop"));
    assert!(AppLoader::is_desktop_file_name("a.b.desktop"));
    assert!(!AppLoader::is_desktop_file_name("x.Desktop"));
    assert!(!AppLoader::is_desktop_file_name(".."));
    assert!(!AppLoader::is_desktop_file_name("desktop"));
    assert!(!AppLoader::is_desktop_file_name("icon.png"));
    assert!(!AppLoader::is_desktop_file_name("x.desktop.bak"));
    assert!(!AppLoader::is_desktop_file_name("x."));
    assert!(AppLoader::is_desktop_file_name("..desktop"));
}

#[test]
fn default_scan_paths() {
    let env = Env { home_dir: "/home/u".to_string(), project_name: String::new(), language: String::new() };
    let paths = AppLoader::default_desktop_scan_paths(&env);
    assert_eq!(
        paths,
        vec![
            "/usr/share/applications".to_string(),
            "/var/lib/snapd/desktop/applications".to_string(),
            "/home/u/.local/share/applications".to_string(),
        ]
    );
}

#[test]
fn load_from_files_keeps_order_and_scores() {
    let files = vec![
        ("/a.desktop".to_string(), "[Desktop Entry]\nName=A\nName[zh_CN]=甲\nExec=a\n".to_string()),
        ("/b.desktop".to_string(), "[Desktop Entry]\nName=B\nNoDisplay=true\nExec=b\n".to_string()),
        ("/c.desktop".to_string(), "[Desktop Entry]\nName=C\nExec=c\n".to_string()),
    ];
    let mut usage = AppUsage::new();
    let apps = AppLoader::load_from_files(&files, "zh_CN", &usage);
    assert_eq!(apps.len(), 2);
    assert_eq!(apps[0].name, "甲");
    assert_eq!(apps[1].name, "C");
    assert_eq!(apps[0].score, 0);
    usage.insert("/c.desktop".to_string(), 7);
    let apps = AppLoader::load_from_files(&files, "zh_CN", &usage);
    assert_eq!(apps[0].score, 0);
    assert_eq!(apps[1].score, 7);
}

#[test]
fn parse_lists_default_names_then_the_localized_one() {
    let content = "[Desktop Entry]\nName=Files\nName=Nautilus\nName[zh_CN]=文件\nName[zh_CN]=文件管理\nExec=nautilus\n";
    let app = AppLoader::parse_desktop_generate_app_entry("n", content, "Name[zh_CN]=", "Comment[zh_CN]=")
        .unwrap();
    assert_eq!(app.search_key, "files,nautilus,文件");
    assert_eq!(app.name, "文件");
    let app = AppLoader::parse_desktop_generate_app_entry("n", content, "Name[ja]=", "Comment[ja]=")
        .unwrap();
    assert_eq!(app.search_key, "files,nautilus");
    assert_eq!(app.name, "Nautilus");
}
