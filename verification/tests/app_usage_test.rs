use launcher_core::app_usage::AppUsage;
use launcher_core::model::AppEntry;

fn app(file: &str, score: u32) -> AppEntry {
    AppEntry { desktop_file: file.to_string(), score, ..Default::default() }
}

#[test]
fn insert_get_and_clear() {
    let mut usage = AppUsage::new();
    assert!(usage.is_empty());
    assert_eq!(usage.get("a"), None);
    usage.insert("a".to_string(), 1);
    usage.insert("b".to_string(), 2);
    usage.insert("a".to_string(), 3);
    assert_eq!(usage.get("a"), Some(3));
    assert_eq!(usage.get("b"), Some(2));
    assert_eq!(usage.entries().len(), 2);
    assert!(!usage.is_empty());
    usage.clear();
    assert!(usage.is_empty());
}

#[test]
fn record_launch_increments_and_records_all() {
    let mut usage = AppUsage::new();
    usage.insert("stale".to_string(), 9);
    let mut apps = vec![app("a", 1), app("b", 5), app("c", u32::MAX)];
    usage.record_launch(&mut apps, 1);
    assert_eq!(apps[1].score, 6);
    assert_eq!(apps[0].score, 1);
    assert_eq!(usage.get("b"), Some(6));
    assert_eq!(usage.get("a"), Some(1));
    assert_eq!(usage.get("stale"), None);
    // Saturates at the maximum.
    usage.record_launch(&mut apps, 2);
    assert_eq!(apps[2].score, u32::MAX);
    assert_eq!(usage.get("c"), Some(u32::MAX));
}

#[test]
fn update_scores_later_duplicate_wins() {
    let mut usage = AppUsage::new();
    let apps = vec![app("x", 1), app("x", 2)];
    usage.update_scores_from_apps(&apps);
    assert_eq!(usage.get("x"), Some(2));
    assert_eq!(usage.entries().len(), 1);
}
