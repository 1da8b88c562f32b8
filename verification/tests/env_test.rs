use launcher_core::env::Env;

fn env(home: &str) -> Env {
    Env { home_dir: home.to_string(), project_name: "launcher-core".to_string(), language: "en_US".to_string() }
}

#[test]
fn usage_paths() {
    let e = env("/home/zhoujing");
    assert_eq!(e.usage_dir(), "/home/zhoujing/.config/jz-launcher");
    assert_eq!(e.usage_file_path(), "/home/zhoujing/.config/jz-launcher/usage.json");
    assert!(e.usage_file_path().ends_with(".config/jz-launcher/usage.json"));
    assert_eq!(env("/home/u/").usage_dir(), "/home/u/.config/jz-launcher");
    assert_eq!(env("").usage_file_path(), ".config/jz-launcher/usage.json");
}

#[test]
fn language_from_locale_variables() {
    assert_eq!(Env::parse_language(Some("zh_CN.UTF-8".to_string()), None), "zh_CN");
    assert_eq!(Env::parse_language(None, Some("de_DE.UTF-8".to_string())), "de_DE");
    assert_eq!(Env::parse_language(Some("C".to_string()), Some("de_DE".to_string())), "C");
    assert_eq!(Env::parse_language(None, None), "en_US");
    assert_eq!(Env::parse_language(Some(String::new()), None), "");
    let e = Env::from_parts("/h".to_string(), Some("fr_FR.UTF-8".to_string()), None);
    assert_eq!(e.language, "fr_FR");
    assert_eq!(e.project_name, "launcher-core");
    assert_eq!(e.home_dir, "/h");
}
