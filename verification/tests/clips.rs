use zap_core::clips::{ClipStore, MAX_CLIPS};

#[test]
fn assigns_increasing_ids() {
    let mut store = ClipStore::new();
    assert_eq!(store.push("a".into()).id, 0);
    assert_eq!(store.push("b".into()).id, 1);
    let recent = store.recent();
    assert_eq!(recent.len(), 2);
    assert_eq!(recent[0].text, "a"); // oldest first
    assert_eq!(recent[1].text, "b");
}

#[test]
fn caps_at_max_and_evicts_oldest() {
    let mut store = ClipStore::new();
    for i in 0..(MAX_CLIPS + 5) {
        store.push(format!("clip-{i}"));
    }
    let recent = store.recent();
    assert_eq!(recent.len(), MAX_CLIPS, "ring is capped");
    assert_eq!(recent.first().unwrap().text, "clip-5", "oldest evicted");
    assert_eq!(recent.last().unwrap().text, format!("clip-{}", MAX_CLIPS + 4));
}

#[test]
fn new_store_is_empty() {
    let store = ClipStore::new();
    assert!(store.recent().is_empty());
    let store = ClipStore::default();
    assert!(store.recent().is_empty());
}

#[test]
fn pushed_clip_is_the_newest_retained() {
    let mut store = ClipStore::new();
    for i in 0..(2 * MAX_CLIPS + 3) {
        let clip = store.push(format!("t{i}"));
        assert_eq!(clip.id, i as u64);
        let recent = store.recent();
        assert!(recent.len() <= MAX_CLIPS);
        let last = recent.last().unwrap();
        assert_eq!(last.id, clip.id);
        assert_eq!(last.text, clip.text);
    }
}

#[test]
fn retained_ids_are_consecutive_oldest_first() {
    let mut store = ClipStore::new();
    for i in 0..(MAX_CLIPS + 17) {
        store.push(format!("{i}"));
    }
    let recent = store.recent();
    assert_eq!(recent.len(), MAX_CLIPS);
    for (k, clip) in recent.iter().enumerate() {
        assert_eq!(clip.id, (17 + k) as u64);
        assert_eq!(clip.text, format!("{}", 17 + k));
    }
}
