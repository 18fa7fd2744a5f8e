use clipboard_history::history::ClipboardManager;
use clipboard_history::item::{ClipboardContent, ClipboardItem};

fn text_of(item: &ClipboardItem) -> &str {
    match &item.content {
        ClipboardContent::Text(t) => t.as_str(),
        ClipboardContent::Image { .. } => panic!("expected text content"),
    }
}

fn texts(manager: &ClipboardManager) -> Vec<String> {
    manager
        .get_history()
        .iter()
        .map(|item| text_of(item).to_string())
        .collect()
}

#[test]
fn readding_text_promotes_it_to_the_top() {
    let mut m = ClipboardManager::new();
    assert!(m.add_text("a".to_string()).is_some());
    assert!(m.add_text("b".to_string()).is_some());
    assert!(m.add_text("a".to_string()).is_some());
    assert_eq!(texts(&m), vec!["a".to_string(), "b".to_string()]);
}

#[test]
fn readding_the_top_text_is_a_no_op() {
    let mut m = ClipboardManager::new();
    m.add_text("y".to_string());
    m.add_text("x".to_string());
    let before: Vec<String> = texts(&m);
    let before_ids: Vec<String> = m.get_history().iter().map(|i| i.id.clone()).collect();
    // Rapid repeat of the most recent text: rejected by the repeat memo.
    assert!(m.add_text("x".to_string()).is_none());
    assert_eq!(texts(&m), before);
    assert_eq!(
        m.get_history().iter().map(|i| i.id.clone()).collect::<Vec<_>>(),
        before_ids
    );
}

#[test]
fn front_duplicate_with_stale_memo_is_rejected_in_place() {
    let mut m = ClipboardManager::new();
    m.add_text("y".to_string());
    let z = m.add_text("z".to_string()).unwrap();
    m.remove_item(&z.id);
    // The memo still holds "z", so "y" passes the memo check, but it is
    // already the front non-pinned entry: no new entry, no reorder.
    let before_ids: Vec<String> = m.get_history().iter().map(|i| i.id.clone()).collect();
    assert!(m.add_text("y".to_string()).is_none());
    assert_eq!(
        m.get_history().iter().map(|i| i.id.clone()).collect::<Vec<_>>(),
        before_ids
    );
}

#[test]
fn unpinned_texts_stay_unique() {
    let mut m = ClipboardManager::new();
    for round in 0..3 {
        for i in 0..8 {
            m.add_text(format!("text-{}", i));
            // A different text in between defeats the repeat memo.
            m.add_text(format!("spacer-{}-{}", round, i));
        }
        let h = m.get_history();
        for a in 0..h.len() {
            for b in (a + 1)..h.len() {
                if !h[a].pinned && !h[b].pinned {
                    assert_ne!(text_of(&h[a]), text_of(&h[b]));
                }
            }
        }
    }
}

#[test]
fn fifty_one_texts_evict_the_oldest() {
    let mut m = ClipboardManager::new();
    for i in 1..=51 {
        assert!(m.add_text(format!("entry-{}", i)).is_some());
    }
    let h = texts(&m);
    assert_eq!(h.len(), 50);
    // Newest first; the very first text was evicted.
    for i in 0..50 {
        assert_eq!(h[i], format!("entry-{}", 51 - i));
    }
    assert!(!h.contains(&"entry-1".to_string()));
}

#[test]
fn pinned_entries_survive_fifty_inserts() {
    let mut m = ClipboardManager::new();
    for i in 1..=5 {
        m.add_text(format!("seed-{}", i));
    }
    // History is newest-first: seed-5 .. seed-1. Pin the 1st and 3rd.
    let h = m.get_history();
    let first_id = h[0].id.clone();
    let third_id = h[2].id.clone();
    let first_text = text_of(&h[0]).to_string();
    let third_text = text_of(&h[2]).to_string();
    assert!(m.toggle_pin(&first_id).unwrap().pinned);
    assert!(m.toggle_pin(&third_id).unwrap().pinned);
    for i in 1..=50 {
        assert!(m.add_text(format!("flood-{}", i)).is_some());
    }
    let h = m.get_history();
    let first = h.iter().find(|e| e.id == first_id).expect("pinned entry evicted");
    let third = h.iter().find(|e| e.id == third_id).expect("pinned entry evicted");
    assert!(first.pinned && third.pinned);
    assert_eq!(text_of(first), first_text);
    assert_eq!(text_of(third), third_text);
    // The cap binds the total size; the two pinned entries take two of
    // the fifty slots and only non-pinned entries were evicted.
    assert_eq!(h.len(), 50);
    assert_eq!(h.iter().filter(|e| !e.pinned).count(), 48);
}

#[test]
fn unpinned_count_never_exceeds_cap() {
    let mut m = ClipboardManager::new();
    for i in 0..120 {
        m.add_text(format!("n-{}", i));
        let unpinned = m.get_history().iter().filter(|e| !e.pinned).count();
        assert!(unpinned <= 50);
    }
}

#[test]
fn pinned_entries_are_never_evicted_even_at_the_cap() {
    let mut m = ClipboardManager::new();
    for i in 0..50 {
        let item = m.add_text(format!("keep-{}", i)).unwrap();
        m.toggle_pin(&item.id).unwrap();
    }
    assert_eq!(m.get_history().len(), 50);
    // With the cap filled by pinned entries, a new non-pinned entry is
    // itself the only candidate and is evicted straight away; no
    // pinned entry is ever removed.
    assert!(m.add_text("transient".to_string()).is_some());
    let h = m.get_history();
    assert_eq!(h.len(), 50);
    assert!(h.iter().all(|e| e.pinned));
    assert!(!texts(&m).contains(&"transient".to_string()));
}

#[test]
fn blank_and_loopback_text_is_dropped() {
    let mut m = ClipboardManager::new();
    assert!(m.add_text("".to_string()).is_none());
    assert!(m.add_text("   \t\n".to_string()).is_none());
    assert!(m
        .add_text(
            "file:///home/user/.cache/win11-clipboard-history/gifs/clip.gif".to_string()
        )
        .is_none());
    assert_eq!(m.get_history().len(), 0);
    // A plain file URI outside the staging directory is accepted.
    assert!(m.add_text("file:///home/user/notes.txt".to_string()).is_some());
}

#[test]
fn replay_is_suppressed_exactly_once() {
    let mut m = ClipboardManager::new();
    let entry = m.add_text("secret".to_string()).unwrap();
    m.add_text("other".to_string());
    // Replay arms the token before the clipboard write.
    m.mark_as_pasted(&entry);
    // The monitor then observes the replayed content: not re-added.
    let before = texts(&m);
    assert!(m.add_text("secret".to_string()).is_none());
    assert_eq!(texts(&m), before);
    // A genuine new copy of the same text afterwards is added again.
    assert!(m.add_text("secret".to_string()).is_some());
    assert_eq!(texts(&m)[0], "secret");
}

#[test]
fn suppression_matches_containing_text() {
    let mut m = ClipboardManager::new();
    m.mark_text_as_pasted("ell");
    // The observation contains the armed text: suppressed, token spent.
    assert!(m.add_text("hello".to_string()).is_none());
    assert!(m.add_text("hello".to_string()).is_some());
}

#[test]
fn mark_text_as_pasted_also_arms_the_repeat_memo() {
    let mut m = ClipboardManager::new();
    m.mark_text_as_pasted("emoji");
    // First observation consumes the token...
    assert!(m.add_text("emoji".to_string()).is_none());
    // ...and the second still trips the repeat memo.
    assert!(m.add_text("emoji".to_string()).is_none());
    assert_eq!(m.get_history().len(), 0);
}

#[test]
fn preview_truncates_long_text() {
    let mut m = ClipboardManager::new();
    let long: String = "x".repeat(150);
    let item = m.add_text(long.clone()).unwrap();
    assert_eq!(item.preview.chars().count(), 103);
    let expected: String = format!("{}...", "x".repeat(100));
    assert_eq!(item.preview, expected);
    assert_eq!(text_of(&item), long);

    let short = m.add_text("short".to_string()).unwrap();
    assert_eq!(short.preview, "short");
}

#[test]
fn get_item_remove_item_and_clear() {
    let mut m = ClipboardManager::new();
    let a = m.add_text("alpha".to_string()).unwrap();
    let b = m.add_text("beta".to_string()).unwrap();
    m.add_text("gamma".to_string());
    assert_eq!(m.get_item(&a.id).map(|i| text_of(i)), Some("alpha"));
    assert!(m.get_item("no-such-id").is_none());
    m.remove_item(&b.id);
    assert_eq!(texts(&m), vec!["gamma".to_string(), "alpha".to_string()]);
    m.toggle_pin(&a.id);
    m.clear();
    assert_eq!(texts(&m), vec!["alpha".to_string()]);
    assert!(m.get_history()[0].pinned);
}

#[test]
fn toggle_pin_flips_in_place() {
    let mut m = ClipboardManager::new();
    m.add_text("one".to_string());
    let two = m.add_text("two".to_string()).unwrap();
    m.add_text("three".to_string());
    let toggled = m.toggle_pin(&two.id).unwrap();
    assert!(toggled.pinned);
    assert_eq!(text_of(&toggled), "two");
    // Order is untouched by pinning.
    assert_eq!(
        texts(&m),
        vec!["three".to_string(), "two".to_string(), "one".to_string()]
    );
    let untoggled = m.toggle_pin(&two.id).unwrap();
    assert!(!untoggled.pinned);
    assert!(m.toggle_pin("missing").is_none());
}

#[test]
fn insertion_goes_before_the_first_non_pinned_entry() {
    let mut m = ClipboardManager::new();
    m.add_text("a".to_string());
    let b = m.add_text("b".to_string()).unwrap();
    // Pin the front entry: the next insertion lands after it, right
    // before the first non-pinned entry.
    m.toggle_pin(&b.id);
    m.add_text("c".to_string());
    assert_eq!(
        texts(&m),
        vec!["b".to_string(), "c".to_string(), "a".to_string()]
    );
    assert!(m.get_history()[0].pinned);
}

#[test]
fn with_every_entry_pinned_insertion_goes_to_the_front() {
    let mut m = ClipboardManager::new();
    let a = m.add_text("a".to_string()).unwrap();
    m.toggle_pin(&a.id);
    m.add_text("b".to_string());
    assert_eq!(texts(&m), vec!["b".to_string(), "a".to_string()]);
}

#[test]
fn entries_get_fresh_ids_and_real_timestamps() {
    let mut m = ClipboardManager::new();
    let a = m.add_text("first".to_string()).unwrap();
    let b = m.add_text("second".to_string()).unwrap();
    assert_ne!(a.id, b.id);
    assert_eq!(a.id.len(), 36);
    assert!(chrono::DateTime::parse_from_rfc3339(&a.timestamp).is_ok());
}
