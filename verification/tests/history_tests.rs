use hyprclip::history::{ClipboardItem, Entry, History};

#[test]
fn add_text_respects_limit_and_no_duplicates() {
    let mut hist = History::new(2);
    hist.add_text("first".into());
    hist.add_text("second".into());
    hist.add_text("second".into());
    hist.add_text("third".into());

    // limit should be enforced
    assert_eq!(hist.entries.len(), 2);
    // newest at index 0
    assert_eq!(hist.entries[0].content, "third");
    // duplicate text should not be inserted again
    assert_eq!(hist.entries[1].content, "second");
}

#[test]
fn add_image_skips_duplicate_hash() {
    let tmp = "/tmp/test_image.png".to_string();
    let mut hist = History::new(5);
    hist.add_image(tmp.clone(), 42);
    hist.add_image(tmp.clone(), 42);
    assert_eq!(hist.entries.len(), 1);
    assert_eq!(hist.entries[0].hash, Some(42));
}

#[test]
fn delete_entry_and_search() {
    let mut hist = History::new(5);
    hist.add_text("hello world".into());
    hist.add_text("foo bar".into());

    assert!(hist.delete_entry(0));
    assert!(!hist.delete_entry(5));
    assert_eq!(hist.entries.len(), 1);

    let res = hist.search("hello");
    assert_eq!(res.len(), 1);
    assert_eq!(res[0].content, "hello world");
}

#[test]
fn export_json_valid() {
    let mut hist = History::new(5);
    hist.add_text("json".into());
    let json = hist.export_json();
    assert!(json.contains("json"));
}

#[test]
fn adjacent_duplicate_yields_one_entry() {
    let mut hist = History::new(10);
    hist.add_text("a".into());
    hist.add_text("a".into());
    assert_eq!(hist.entries.len(), 1);
    assert_eq!(hist.entries[0].content, "a");
}

#[test]
fn capacity_bound_holds_after_every_add() {
    let mut hist = History::new(3);
    for i in 0..10 {
        hist.add_text(format!("clip {i}"));
        assert!(hist.entries.len() <= 3);
    }
    assert_eq!(hist.entries.len(), 3);
    assert_eq!(hist.entries[0].content, "clip 9");
}

#[test]
fn binary_duplicate_rejected_non_adjacently() {
    let mut hist = History::new(10);
    hist.add_image("/v/one.png".to_string(), 0xf0f0);
    hist.add_text("a".into());
    hist.add_text("b".into());
    let added = hist.add_image("/v/two.png".to_string(), 0xf0f0);
    assert!(!added);
    let carriers = hist
        .entries
        .iter()
        .filter(|e| e.hash == Some(0xf0f0))
        .count();
    assert_eq!(carriers, 1);
}

#[test]
fn search_is_case_insensitive() {
    let mut hist = History::new(5);
    hist.add_text("HELLO World".into());
    hist.add_text("irrelevant".into());
    let res = hist.search("hello");
    assert_eq!(res.len(), 1);
    assert_eq!(res[0].content, "HELLO World");
    // and the keyword may be the one in upper case
    let res2 = hist.search("WORLD");
    assert_eq!(res2.len(), 1);
}

#[test]
fn promote_moves_entry_to_front_and_collapses_duplicates() {
    let mut hist = History::new(10);
    hist.entries.push(Entry {
        content: "x".to_string(),
        timestamp: 3,
        item: ClipboardItem::Text("x".to_string()),
        hash: Some(3),
    });
    hist.entries.push(Entry {
        content: "y".to_string(),
        timestamp: 2,
        item: ClipboardItem::Text("y".to_string()),
        hash: Some(2),
    });
    hist.entries.push(Entry {
        content: "x".to_string(),
        timestamp: 1,
        item: ClipboardItem::Text("x".to_string()),
        hash: Some(1),
    });
    assert!(hist.promote(2).is_ok());
    assert_eq!(hist.entries.len(), 2);
    assert_eq!(hist.entries[0].content, "x");
    assert_eq!(hist.entries[0].timestamp, 1);
    assert_eq!(hist.entries[1].content, "y");
}

#[test]
fn promote_out_of_range_fails_and_keeps_history() {
    let mut hist = History::new(5);
    hist.add_text("only".into());
    assert!(hist.promote(1).is_err());
    assert_eq!(hist.entries.len(), 1);
    assert_eq!(hist.entries[0].content, "only");
}

#[test]
fn clear_empties_all_entries() {
    let mut hist = History::new(5);
    hist.add_text("one".into());
    hist.add_text("two".into());
    hist.clear();
    assert_eq!(hist.entries.len(), 0);
}
