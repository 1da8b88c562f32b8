use launcher_core::search_engine::SearchEngine;

/// `test_fuzzy_match` 测试模糊搜索
#[test]
fn test_fuzzy_match() {
    let name = "WeChat".to_lowercase();
    println!("{}", SearchEngine::fuzzy_match(&name, "we"));
    println!("{}", SearchEngine::fuzzy_match(&name, "wc"));
    println!("{}", SearchEngine::fuzzy_match(&name, "wt"));
    println!("{}", SearchEngine::fuzzy_match(&name, "ca"));
    println!("{}", SearchEngine::fuzzy_match(&name, "tw"));
    assert!(SearchEngine::fuzzy_match(&name, "we"));
    assert!(SearchEngine::fuzzy_match(&name, "wc"));
    assert!(SearchEngine::fuzzy_match(&name, "wt"));
    assert!(SearchEngine::fuzzy_match(&name, "ca"));
    assert!(!SearchEngine::fuzzy_match(&name, "tw"));
}
