use hyprclip::history::{ClipboardItem, Entry, History};

fn entry_text(content: &str, timestamp: u64, hash: Option<u64>) -> Entry {
    Entry {
        content: content.to_string(),
        timestamp,
        item: ClipboardItem::Text(content.to_string()),
        hash,
    }
}

fn entry_image(path: &str, timestamp: u64, hash: Option<u64>) -> Entry {
    Entry {
        content: path.to_string(),
        timestamp,
        item: ClipboardItem::Image(path.to_string()),
        hash,
    }
}

#[test]
fn export_produces_exact_canonical_json() {
    let mut hist = History::new(2);
    hist.entries.push(entry_text("a", 5, Some(7)));
    let json = hist.export_json();
    assert_eq!(
        json,
        "{\"entries\":[{\"content\":\"a\",\"timestamp\":5,\"item\":{\"Text\":\"a\"},\"hash\":7}],\"limit\":2}"
    );
}

#[test]
fn export_renders_missing_fingerprint_as_null() {
    let mut hist = History::new(3);
    hist.entries.push(entry_image("/v/a.png", 9, None));
    let json = hist.export_json();
    assert_eq!(
        json,
        "{\"entries\":[{\"content\":\"/v/a.png\",\"timestamp\":9,\"item\":{\"Image\":\"/v/a.png\"},\"hash\":null}],\"limit\":3}"
    );
}

#[test]
fn export_parses_as_real_json() {
    let mut hist = History::new(4);
    hist.entries.push(entry_text("quote \" backslash \\ tab \t", 1, Some(2)));
    hist.entries.push(entry_image("/v/b.png", 2, Some(3)));
    let json = hist.export_json();
    let v: serde_json::Value = serde_json::from_str(&json).expect("canonical output is JSON");
    assert_eq!(v["limit"], serde_json::Value::from(4u64));
    assert_eq!(v["entries"][0]["content"], "quote \" backslash \\ tab \t");
    assert_eq!(v["entries"][0]["timestamp"], serde_json::Value::from(1u64));
    assert_eq!(v["entries"][1]["item"]["Image"], "/v/b.png");
}

#[test]
fn persistence_round_trip_preserves_entries() {
    let mut hist = History::new(5);
    hist.entries.push(entry_text("first \"clip\"", 11, Some(0xdead)));
    hist.entries.push(entry_image("/v/clip_2a.png", 12, Some(0x2a)));
    hist.entries.push(entry_text("legacy", 13, None));
    let json = hist.export_json();
    let back = History::from_json(&json, 5);
    assert_eq!(back.limit, 5);
    assert_eq!(back.entries.len(), 3);
    for (a, b) in hist.entries.iter().zip(back.entries.iter()) {
        assert_eq!(a.content, b.content);
        assert_eq!(a.timestamp, b.timestamp);
        assert_eq!(a.hash, b.hash);
        match (&a.item, &b.item) {
            (ClipboardItem::Text(x), ClipboardItem::Text(y)) => assert_eq!(x, y),
            (ClipboardItem::Image(x), ClipboardItem::Image(y)) => assert_eq!(x, y),
            _ => panic!("item kind changed in the round trip"),
        }
    }
}

#[test]
fn round_trip_with_control_and_unicode_content() {
    let mut hist = History::new(5);
    hist.entries.push(entry_text("line\nbreak \u{1f4cb} ümlaut \u{0007}", 1, Some(1)));
    let json = hist.export_json();
    let back = History::from_json(&json, 5);
    assert_eq!(back.entries.len(), 1);
    assert_eq!(back.entries[0].content, "line\nbreak \u{1f4cb} ümlaut \u{0007}");
}

#[test]
fn load_tolerates_missing_hash_field() {
    let json = "{\"entries\":[{\"content\":\"old\",\"timestamp\":3,\"item\":{\"Text\":\"old\"}}],\"limit\":9}";
    let back = History::from_json(json, 9);
    assert_eq!(back.entries.len(), 1);
    assert_eq!(back.entries[0].content, "old");
    assert_eq!(back.entries[0].hash, None);
}

#[test]
fn load_accepts_common_string_escapes() {
    let json = "{\"entries\":[{\"content\":\"a\\nb\\tc\\\\d\\\"e\\u0007f\",\"timestamp\":0,\"item\":{\"Text\":\"x\"},\"hash\":null}],\"limit\":2}";
    let back = History::from_json(json, 2);
    assert_eq!(back.entries.len(), 1);
    assert_eq!(back.entries[0].content, "a\nb\tc\\d\"e\u{0007}f");
}

#[test]
fn load_clamps_entries_to_capacity() {
    let mut hist = History::new(5);
    hist.entries.push(entry_text("one", 1, Some(1)));
    hist.entries.push(entry_text("two", 2, Some(2)));
    hist.entries.push(entry_text("three", 3, Some(3)));
    let json = hist.export_json();
    let back = History::from_json(&json, 2);
    assert_eq!(back.entries.len(), 2);
    assert_eq!(back.entries[0].content, "one");
    assert_eq!(back.entries[1].content, "two");
    assert_eq!(back.limit, 2);
}

#[test]
fn load_of_corrupt_document_yields_empty_history() {
    for bad in [
        "",
        "not json",
        "{\"entries\":}",
        "{\"entries\":[],\"limit\":1} trailing",
        "{\"entries\":[],\"limit\":99999999999999999999999}",
        "{\"entries\":[{\"content\":\"a\"}],\"limit\":1}",
    ] {
        let back = History::from_json(bad, 7);
        assert_eq!(back.entries.len(), 0, "input {bad:?} must be rejected whole");
        assert_eq!(back.limit, 7);
    }
}

#[test]
fn promote_then_round_trip_keeps_promoted_entry_in_front() {
    let mut hist = History::new(10);
    hist.entries.push(entry_text("dup", 3, Some(30)));
    hist.entries.push(entry_text("other", 2, Some(20)));
    hist.entries.push(entry_text("dup", 1, Some(10)));
    assert!(hist.promote(2).is_ok());
    let json = hist.export_json();
    let back = History::from_json(&json, 10);
    assert_eq!(back.entries.len(), 2);
    assert_eq!(back.entries[0].content, "dup");
    assert_eq!(back.entries[0].timestamp, 1);
    assert_eq!(back.entries[1].content, "other");
    let dups = back.entries.iter().filter(|e| e.content == "dup").count();
    assert_eq!(dups, 1);
}

#[test]
fn empty_history_round_trips() {
    let hist = History::new(4);
    let json = hist.export_json();
    assert_eq!(json, "{\"entries\":[],\"limit\":4}");
    let back = History::from_json(&json, 4);
    assert_eq!(back.entries.len(), 0);
}
