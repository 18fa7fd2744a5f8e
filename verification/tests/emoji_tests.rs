use clipboard_history::emoji::{EmojiManager, EmojiUsage};

#[test]
fn test_record_usage() {
    let mut manager = EmojiManager::new();

    manager.record_usage("🔥");
    manager.record_usage("😀");
    manager.record_usage("🔥");

    let recent = manager.get_recent();
    assert_eq!(recent.len(), 2);
    assert_eq!(recent[0].char, "🔥");
    assert_eq!(recent[0].use_count, 2);
    assert_eq!(recent[1].char, "😀");
    assert_eq!(recent[1].use_count, 1);
}

#[test]
fn test_lru_eviction() {
    let mut manager = EmojiManager::new();

    for i in 0..=25 {
        manager.record_usage(&format!("emoji{}", i));
    }

    let recent = manager.get_recent();
    assert_eq!(recent.len(), 20);
    // Most recent first; the oldest six were evicted.
    assert_eq!(recent[0].char, "emoji25");
    assert_eq!(recent[19].char, "emoji6");
}

#[test]
fn recording_at_a_fixed_time_stamps_the_entry() {
    let mut manager = EmojiManager::new();
    manager.record_usage_at("⭐", 1700000000000);
    let recent = manager.get_recent();
    assert_eq!(recent[0].last_used, 1700000000000);
    manager.record_usage_at("⭐", 1700000000500);
    let recent = manager.get_recent();
    assert_eq!(recent.len(), 1);
    assert_eq!(recent[0].last_used, 1700000000500);
    assert_eq!(recent[0].use_count, 2);
}

#[test]
fn from_entries_restores_a_loaded_list() {
    let entries = vec![
        EmojiUsage { char: "🎉".to_string(), use_count: 3, last_used: 5 },
        EmojiUsage { char: "🌙".to_string(), use_count: 1, last_used: 4 },
    ];
    let manager = EmojiManager::from_entries(entries);
    let recent = manager.get_recent();
    assert_eq!(recent.len(), 2);
    assert_eq!(recent[0].char, "🎉");
    assert_eq!(recent[1].char, "🌙");
}

#[test]
fn get_top_used_sorts_by_count_stably_and_truncates() {
    let entries = vec![
        EmojiUsage { char: "a".to_string(), use_count: 2, last_used: 0 },
        EmojiUsage { char: "b".to_string(), use_count: 5, last_used: 0 },
        EmojiUsage { char: "c".to_string(), use_count: 2, last_used: 0 },
        EmojiUsage { char: "d".to_string(), use_count: 7, last_used: 0 },
    ];
    let manager = EmojiManager::from_entries(entries);
    let top: Vec<String> = manager.get_top_used(3).into_iter().map(|e| e.char).collect();
    // Descending by count; "a" keeps its place before "c" (same count).
    assert_eq!(top, vec!["d".to_string(), "b".to_string(), "a".to_string()]);
    let all: Vec<String> = manager.get_top_used(10).into_iter().map(|e| e.char).collect();
    assert_eq!(
        all,
        vec!["d".to_string(), "b".to_string(), "a".to_string(), "c".to_string()]
    );
}

#[test]
fn record_usage_stamps_the_clock() {
    let mut manager = EmojiManager::new();
    manager.record_usage("✨");
    assert!(manager.get_recent()[0].last_used > 0);
}
