use hyprclip::history::{ClipboardItem, History};
use hyprclip::watch::{commit_image, note_clipboard_written, tick, WatchState};

fn png_1x1() -> Vec<u8> {
    let img = image::RgbaImage::new(1, 1);
    let mut out = std::io::Cursor::new(Vec::new());
    image::DynamicImage::ImageRgba8(img)
        .write_to(&mut out, image::ImageFormat::Png)
        .expect("encoding a fresh buffer cannot fail");
    out.into_inner()
}

fn png_2x2() -> Vec<u8> {
    let mut img = image::RgbaImage::new(2, 2);
    img.put_pixel(0, 0, image::Rgba([1, 2, 3, 255]));
    let mut out = std::io::Cursor::new(Vec::new());
    image::DynamicImage::ImageRgba8(img)
        .write_to(&mut out, image::ImageFormat::Png)
        .expect("encoding a fresh buffer cannot fail");
    out.into_inner()
}

#[test]
fn end_to_end_text_scenario() {
    // capacity 2; commit "first", "second", "second" (duplicate), "third"
    let mut state = WatchState::new("/tmp/vault".to_string(), 0);
    let mut hist = History::new(2);

    let r1 = tick(&mut state, &mut hist, Some("first".to_string()), None, 1000);
    assert!(r1.set_clipboard.is_some());
    let r2 = tick(&mut state, &mut hist, Some("second".to_string()), None, 2000);
    assert!(r2.set_clipboard.is_some());
    let r3 = tick(&mut state, &mut hist, Some("second".to_string()), None, 3000);
    assert!(r3.set_clipboard.is_none());
    let r4 = tick(&mut state, &mut hist, Some("third".to_string()), None, 4000);
    assert!(r4.set_clipboard.is_some());

    assert_eq!(hist.entries.len(), 2);
    assert_eq!(hist.entries[0].content, "third");
    assert_eq!(hist.entries[1].content, "second");
}

#[test]
fn debounce_collapses_rapid_repeats() {
    let mut state = WatchState::new(String::new(), 0);
    let mut hist = History::new(5);
    let r1 = tick(&mut state, &mut hist, Some("a".to_string()), None, 1000);
    assert!(r1.set_clipboard.is_some());
    // 100 ms later: below the 500 ms debounce delay
    let r2 = tick(&mut state, &mut hist, Some("b".to_string()), None, 1100);
    assert!(r2.set_clipboard.is_none());
    assert_eq!(hist.entries.len(), 1);
    // past the delay the next candidate is accepted
    let r3 = tick(&mut state, &mut hist, Some("b".to_string()), None, 1600);
    assert!(r3.set_clipboard.is_some());
    assert_eq!(hist.entries.len(), 2);
}

#[test]
fn noise_candidates_are_rejected() {
    let mut state = WatchState::new(String::new(), 0);
    let mut hist = History::new(5);
    for (text, t) in [
        ("", 1000u64),
        ("   \n\t ", 2000),
        ("0,0", 3000),
        ("  0,0  ", 4000),
        ("<meta charset=utf-8><img src=x>", 5000),
    ] {
        let r = tick(&mut state, &mut hist, Some(text.to_string()), None, t);
        assert!(r.set_clipboard.is_none(), "{text:?} must be rejected");
    }
    assert_eq!(hist.entries.len(), 0);
}

#[test]
fn suppression_window_ignores_whole_tick() {
    let mut state = WatchState::new(String::new(), 0);
    let mut hist = History::new(5);
    state.guard.set_ignore_flag(1000);
    let r = tick(&mut state, &mut hist, Some("fresh".to_string()), None, 1200);
    assert!(r.suppressed);
    assert!(r.set_clipboard.is_none());
    assert_eq!(hist.entries.len(), 0);
    // after the window expires the same candidate is taken
    let r2 = tick(&mut state, &mut hist, Some("fresh".to_string()), None, 2000);
    assert!(!r2.suppressed);
    assert!(r2.set_clipboard.is_some());
}

#[test]
fn empty_clipboard_is_restored_from_last_item() {
    let mut state = WatchState::new(String::new(), 0);
    let mut hist = History::new(5);
    let r1 = tick(&mut state, &mut hist, Some("kept".to_string()), None, 1000);
    let written = r1.set_clipboard.expect("committed");
    note_clipboard_written(&mut state, written);
    let r2 = tick(&mut state, &mut hist, None, None, 2000);
    match r2.restore {
        Some(ClipboardItem::Text(t)) => assert_eq!(t, "kept"),
        _ => panic!("expected a text restore"),
    }
    assert_eq!(hist.entries.len(), 1);
}

#[test]
fn image_commit_and_duplicate_rejection() {
    let mut state = WatchState::new("/tmp/hyprclip-vault".to_string(), 0);
    let mut hist = History::new(5);
    let png = png_1x1();

    let r1 = tick(&mut state, &mut hist, None, None, 1000);
    assert!(r1.restore.is_none());
    let r2 = tick(&mut state, &mut hist, None, Some(png.clone()), 2000);
    let pending = r2.pending_image.expect("a fresh image is accepted");
    assert!(pending.path.starts_with("/tmp/hyprclip-vault/clip_"));
    assert!(pending.path.ends_with(".png"));
    assert!(!pending.png.is_empty());
    let item = commit_image(&mut state, &mut hist, pending.path.clone(), pending.hash, 2000);
    match item {
        ClipboardItem::Image(p) => assert_eq!(p, pending.path),
        _ => panic!("expected an image item"),
    }
    assert_eq!(hist.entries.len(), 1);
    assert_eq!(hist.entries[0].hash, Some(pending.hash));

    // identical bytes later: rejected, nothing new to store
    let r3 = tick(&mut state, &mut hist, None, Some(png.clone()), 9000);
    assert!(r3.pending_image.is_none());
    assert_eq!(hist.entries.len(), 1);
}

#[test]
fn one_shot_skip_consumes_exactly_once() {
    let mut state = WatchState::new(String::new(), 0);
    let mut hist = History::new(5);
    let png = png_2x2();
    let fingerprint = hyprclip::hash::hash_data(&png);

    state.guard.set_skip_image_hash(fingerprint);
    let r1 = tick(&mut state, &mut hist, None, Some(png.clone()), 1000);
    assert!(r1.pending_image.is_none(), "armed skip swallows the first read");
    let r2 = tick(&mut state, &mut hist, None, Some(png.clone()), 2000);
    assert!(r2.pending_image.is_some(), "the skip is gone after one use");
}

#[test]
fn undecodable_image_bytes_are_discarded() {
    let mut state = WatchState::new(String::new(), 0);
    let mut hist = History::new(5);
    let junk = vec![1u8, 2, 3, 4, 5];
    let r = tick(&mut state, &mut hist, None, Some(junk), 1000);
    assert!(r.pending_image.is_none());
    assert!(r.image_decode_failed);
    assert_eq!(hist.entries.len(), 0);
}

#[test]
fn text_and_image_branches_run_in_one_tick() {
    let mut state = WatchState::new(String::new(), 0);
    let mut hist = History::new(5);
    let png = png_1x1();
    let r = tick(
        &mut state,
        &mut hist,
        Some("both".to_string()),
        Some(png),
        1000,
    );
    assert!(r.set_clipboard.is_some());
    assert!(r.pending_image.is_some());
    assert_eq!(hist.entries.len(), 1);
}

#[test]
fn text_already_anywhere_in_history_is_rejected() {
    let mut state = WatchState::new(String::new(), 0);
    let mut hist = History::new(5);
    assert!(tick(&mut state, &mut hist, Some("a".to_string()), None, 1000).set_clipboard.is_some());
    assert!(tick(&mut state, &mut hist, Some("b".to_string()), None, 2000).set_clipboard.is_some());
    // "a" is no longer the last accepted text, but its fingerprint is still
    // in the history, so it is rejected
    let r = tick(&mut state, &mut hist, Some("a".to_string()), None, 3000);
    assert!(r.set_clipboard.is_none());
    assert_eq!(hist.entries.len(), 2);
}
