use hyprclip::suppress::SuppressionState;

#[test]
fn ignore_flag_respected() {
    let mut s = SuppressionState::new();
    s.set_ignore_flag(1000);
    assert!(s.should_ignore_recently(1000, 20));
    // 25 ms later the 20 ms window has expired
    assert!(!s.should_ignore_recently(1025, 20));
}

#[test]
fn skip_image_hash_roundtrip() {
    let mut s = SuppressionState::new();
    s.set_skip_image_hash(99);
    assert_eq!(s.take_skip_image_hash(), Some(99));
    // second call should return none
    assert_eq!(s.take_skip_image_hash(), None);
}

#[test]
fn suppression_window_boundaries() {
    let mut s = SuppressionState::new();
    s.set_ignore_flag(1000);
    // immediately inside a 50 ms window
    assert!(s.should_ignore_recently(1000, 50));
    assert!(s.should_ignore_recently(1049, 50));
    // 60 ms later the 50 ms window has expired
    assert!(!s.should_ignore_recently(1060, 50));
    // the query does not consume the window
    assert!(s.should_ignore_recently(1010, 50));
}

#[test]
fn no_window_without_marking() {
    let s = SuppressionState::new();
    assert!(!s.should_ignore_recently(5000, 1000));
    let mut s2 = SuppressionState::new();
    assert_eq!(s2.take_skip_image_hash(), None);
}
