use launcher_core::model::AppEntry;
use launcher_core::search_engine::SearchEngine;

/// 测试模糊匹配
#[test]
fn test_fuzzy_match_test() {
    assert!(SearchEngine::fuzzy_match("test", "te"));
    assert!(SearchEngine::fuzzy_match("wechat", "wt"));
    assert!(SearchEngine::fuzzy_match("krita", "kr"));
    assert!(!SearchEngine::fuzzy_match("wechat", "wx"));
}

#[test]
fn test_fuzzy_match_is_case_sensitive() {
    assert!(!SearchEngine::fuzzy_match("test", "TE"));
    assert!(!SearchEngine::fuzzy_match("wechat", "WeChat"));
}

/// 测试排序
#[test]
fn test_search_returns_sorted_by_score() {
    let apps = vec![
        AppEntry {
            name: "微信".to_string(),
            search_key: "wechat,微信".to_string(),
            score: 5,
            ..Default::default()
        },
        AppEntry {
            name: "blender".to_string(),
            search_key: "blender,布兰德".to_string(),
            score: 3,
            ..Default::default()
        },
        AppEntry {
            name: "Godot".to_string(),
            search_key: "godot".to_string(),
            score: 1,
            ..Default::default()
        },
    ];
    let search_engine = SearchEngine::new(apps);
    let results = search_engine.search("e");
    assert_eq!(results.len(), 2);
    assert_eq!(results[0].score, 5);
    assert_eq!(results[1].score, 3);
}

#[test]
fn test_prefix_match_precedes_fuzzy_match() {
    let apps = vec![
        AppEntry {
            name: "Clash Verge".to_string(),
            search_key: "clash verge".to_string(),
            score: 100,
            ..Default::default()
        },
        AppEntry {
            name: "Calculator".to_string(),
            search_key: "calculator".to_string(),
            score: 0,
            ..Default::default()
        },
    ];

    let search_engine = SearchEngine::new(apps);
    let results = search_engine.search("ca");

    assert_eq!(results[0].name, "Calculator");
    assert_eq!(results[1].name, "Clash Verge");
}

#[test]
fn test_same_quality_results_are_sorted_by_name() {
    let apps = vec![
        AppEntry {
            name: "Camera".to_string(),
            search_key: "camera".to_string(),
            ..Default::default()
        },
        AppEntry {
            name: "Calculator".to_string(),
            search_key: "calculator".to_string(),
            ..Default::default()
        },
    ];

    let search_engine = SearchEngine::new(apps);
    let results = search_engine.search("ca");

    assert_eq!(results[0].name, "Calculator");
    assert_eq!(results[1].name, "Camera");
}

#[test]
fn match_rank_levels() {
    assert_eq!(SearchEngine::match_rank("gimp", "gimp"), Some((0, 0, 4)));
    assert_eq!(SearchEngine::match_rank("gimp", "gi"), Some((1, 0, 2)));
    assert_eq!(SearchEngine::match_rank("krita", "it"), Some((2, 2, 2)));
    // Tightest end of "ct" in "wechat": c at 2, t at 5.
    assert_eq!(SearchEngine::match_rank("wechat", "ct"), Some((3, 2, 4)));
    // The first character is taken at its first position, the rest greedily.
    assert_eq!(SearchEngine::match_rank("abcabd", "ad"), Some((3, 0, 6)));
    assert_eq!(SearchEngine::match_rank("wechat", "wx"), None);
    assert_eq!(SearchEngine::match_rank("wechat", ""), None);
    assert_eq!(SearchEngine::match_rank("", "a"), None);
}

#[test]
fn match_rank_counts_characters_not_bytes() {
    assert_eq!(SearchEngine::match_rank("微信wechat", "we"), Some((2, 2, 2)));
    assert_eq!(SearchEngine::match_rank("布兰德", "兰"), Some((2, 1, 1)));
}

#[test]
fn search_splits_names_at_commas() {
    // "t,w" would only match across the comma; each name is ranked on its own.
    let apps = vec![AppEntry {
        name: "A".to_string(),
        search_key: "at,wb".to_string(),
        ..Default::default()
    }];
    let engine = SearchEngine::new(apps);
    assert_eq!(engine.search("t,w").len(), 0);
    assert_eq!(engine.search("tw").len(), 0);
    assert_eq!(engine.search("wb").len(), 1);
    // Names are trimmed before matching.
    let apps = vec![AppEntry {
        name: "B".to_string(),
        search_key: "foo, bar".to_string(),
        ..Default::default()
    }];
    let engine = SearchEngine::new(apps);
    assert_eq!(engine.search("bar").len(), 1);
}

#[test]
fn search_trims_and_lowercases_the_keyword() {
    let apps = vec![AppEntry {
        name: "Krita".to_string(),
        search_key: "krita".to_string(),
        ..Default::default()
    }];
    let engine = SearchEngine::new(apps);
    assert_eq!(engine.search("  KRITA  ").len(), 1);
    assert_eq!(engine.search("   ").len(), 0);
    assert_eq!(engine.search("").len(), 0);
}

#[test]
fn search_keeps_list_order_for_full_ties() {
    let apps = vec![
        AppEntry { name: "Same".to_string(), search_key: "same".to_string(), score: 1, ..Default::default() },
        AppEntry { name: "same".to_string(), search_key: "same".to_string(), score: 2, ..Default::default() },
    ];
    let engine = SearchEngine::new(apps);
    let results = engine.search("same");
    assert_eq!(results.len(), 2);
    assert_eq!(results[0].score, 1);
    assert_eq!(results[1].score, 2);
}

#[test]
fn search_orders_by_best_name() {
    let apps = vec![
        AppEntry { name: "Zeta".to_string(), search_key: "zeta,kit".to_string(), ..Default::default() },
        AppEntry { name: "Alpha".to_string(), search_key: "alpha,xkit".to_string(), ..Default::default() },
    ];
    let engine = SearchEngine::new(apps);
    let results = engine.search("kit");
    // "kit" is an exact name of Zeta and only a substring of Alpha's name.
    assert_eq!(results[0].name, "Zeta");
    assert_eq!(results[1].name, "Alpha");
    assert_eq!(engine.get_apps().len(), 2);
}

fn names(results: &[&AppEntry]) -> Vec<String> {
    results.iter().map(|a| a.name.clone()).collect()
}

fn sample_engine() -> SearchEngine {
    SearchEngine::new(vec![
        AppEntry { name: "WeChat".to_string(), search_key: "wechat,微信".to_string(), ..Default::default() },
        AppEntry { name: "Welcome".to_string(), search_key: "welcome".to_string(), ..Default::default() },
        AppEntry { name: "Web Check".to_string(), search_key: "web check".to_string(), ..Default::default() },
        AppEntry { name: "Terminal".to_string(), search_key: "terminal".to_string(), ..Default::default() },
    ])
}

#[test]
fn search_ignores_ascii_case_and_surrounding_space() {
    let engine = sample_engine();
    let plain = names(&engine.search("wec"));
    assert_eq!(plain, vec!["WeChat", "Welcome", "Web Check"]);
    assert_eq!(names(&engine.search("WEC")), plain);
    assert_eq!(names(&engine.search("  wEc\t")), plain);
    assert_eq!(names(&engine.search("\u{3000}WeC\n")), plain);
}

#[test]
fn longer_keyword_narrows_the_results() {
    let engine = sample_engine();
    let short = names(&engine.search("we"));
    assert_eq!(short, vec!["Web Check", "WeChat", "Welcome"]);
    for longer in ["wec", "wecha", "wch", "wct"] {
        for name in names(&engine.search(longer)) {
            assert!(short.contains(&name), "{} from {:?}", name, longer);
        }
    }
}

#[test]
fn fuzzy_span_is_longer_than_the_pattern() {
    // "wt" is no substring of "wechat": the match spans w..t, six characters.
    assert_eq!(SearchEngine::match_rank("wechat", "wt"), Some((3, 0, 6)));
    assert_eq!(SearchEngine::match_rank("terminal", "tml"), Some((3, 0, 8)));
    // A single character is always a substring match, never a fuzzy one.
    assert_eq!(SearchEngine::match_rank("terminal", "l"), Some((2, 7, 1)));
}
