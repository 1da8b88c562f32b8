use launcher_core::mock::{mock_app_list, mock_search_apps};

#[test]
fn mock_search_finds_name_substring() {
    let results = mock_search_apps("gpt");
    assert_eq!(results.len(), 1);
    assert_eq!(results[0].name().unwrap(), "ChatGpt");
}

#[test]
fn test_mock_search_apps() {
    let results = mock_search_apps("git");
    assert_eq!(results.len(), 1);
    assert_eq!(results[0].name().unwrap(), "ChatGpt");
}

#[test]
fn mock_search_forgives_one_inner_letter_only() {
    // One wrong inner letter is forgiven ("kirta" has two, "xpt" a wrong first one).
    let names = |k: &str| -> Vec<String> { mock_search_apps(k).iter().map(|a| a.name().unwrap()).collect() };
    assert_eq!(names("KRTTA"), vec!["Krita"]);
    assert_eq!(names("music"), vec!["QqMusic"]);
    assert_eq!(names("mosic"), vec!["QqMusic"]);
    assert!(names("kirta").is_empty());
    assert!(names("xpt").is_empty());
    assert!(names("gpx").is_empty());
    assert!(names("vim").is_empty());
    assert!(names("chatgpt!").is_empty());
}

#[test]
fn test_mock_search_case_insensitive() {
    let results = mock_search_apps("KRITA");
    assert_eq!(results.len(), 1);
    assert_eq!(results[0].name().unwrap(), "Krita");
}

#[test]
fn test_mock_search_empty() {
    let results = mock_search_apps("");
    assert_eq!(results.len(), 7);
}

#[test]
fn mock_list_rows() {
    let apps = mock_app_list();
    assert_eq!(apps.len(), 7);
    assert_eq!(apps[0].name().unwrap(), "GIMP");
    assert_eq!(apps[1].exec_cmd().unwrap(), "env QT_QPA_PLATFORM=wayland krita");
    assert_eq!(apps[5].comment().unwrap(), "QQ音乐");
    assert_eq!(apps[6].icon().unwrap(), "/home/zhoujing/Applications/icons/BambuStudio.png");
    assert!(apps[2].desktop_file().is_none());
    let results = mock_search_apps("s");
    let names: Vec<String> = results.iter().map(|a| a.name().unwrap()).collect();
    assert_eq!(names, vec!["Deepseek", "AnotherRedis", "QqMusic", "BambuStudio"]);
}
