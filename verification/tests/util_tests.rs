use hyprclip::config::{Config, Theme};
use hyprclip::hash::hash_data;
use hyprclip::store::ClipStore;
use hyprclip::vault::{prepare_store, vault_file_name, VaultError};

#[test]
fn test_hash_data_consistency() {
    let input = "test input";
    let h1 = hash_data(input.as_bytes());
    let h2 = hash_data(input.as_bytes());
    assert_eq!(h1, h2, "Hash sollte für gleichen Input konsistent sein.");
}

#[test]
fn test_hash_data_difference() {
    let input1 = "foo";
    let input2 = "bar";
    let h1 = hash_data(input1.as_bytes());
    let h2 = hash_data(input2.as_bytes());
    assert_ne!(
        h1, h2,
        "Hashes für verschiedene Inputs sollten unterschiedlich sein."
    );
}

#[test]
fn test_hash_data_u64_range() {
    let input = "some data";
    let h = hash_data(input.as_bytes());
    assert!(h <= u64::MAX, "Hash sollte innerhalb von u64 liegen.");
}

#[test]
fn vault_file_name_is_zero_padded_hex() {
    let name = vault_file_name(0x2a, "20240101120000");
    assert_eq!(name, "clip_000000000000002a_20240101120000.png");
    let top = vault_file_name(u64::MAX, "x");
    assert_eq!(top, "clip_ffffffffffffffff_x.png");
}

#[test]
fn prepare_store_rejects_undecodable_bytes() {
    let junk = [0u8, 1, 2, 3];
    match prepare_store(&junk, 7, "20240101120000") {
        Err(VaultError::DecodeError) => {}
        _ => panic!("junk bytes must fail with a decode error"),
    }
}

#[test]
fn prepare_store_reencodes_valid_image() {
    let img = image::RgbaImage::new(1, 1);
    let mut cur = std::io::Cursor::new(Vec::new());
    image::DynamicImage::ImageRgba8(img)
        .write_to(&mut cur, image::ImageFormat::Png)
        .unwrap();
    let bytes = cur.into_inner();
    let prepared = match prepare_store(&bytes, 0x2a, "20240101120000") {
        Ok(p) => p,
        Err(_) => panic!("a valid png must re-encode"),
    };
    assert_eq!(prepared.file_name, "clip_000000000000002a_20240101120000.png");
    // the canonical bytes decode back to the same 1x1 image
    let back = image::load_from_memory(&prepared.png).expect("canonical png decodes");
    assert_eq!(back.width(), 1);
    assert_eq!(back.height(), 1);
}

#[test]
fn clip_store_push_dedups_and_evicts() {
    let mut store = ClipStore::new(2);
    store.push("a".to_string());
    store.push("a".to_string());
    assert_eq!(store.data.len(), 1);
    store.push("b".to_string());
    assert_eq!(store.data.len(), 2);
    store.push("c".to_string());
    assert_eq!(store.data.len(), 2);
    assert_eq!(store.data[0], "c");
    assert_eq!(store.data[1], "b");
}

#[test]
fn config_carries_its_parts() {
    let c = Config::new(
        10,
        Theme::Dark,
        "/data/history.json".to_string(),
        "/data/images".to_string(),
    );
    assert_eq!(c.history_limit, 10);
    assert!(matches!(c.theme, Theme::Dark));
    assert_eq!(c.storage_path, "/data/history.json");
    assert_eq!(c.image_storage_path, "/data/images");
    let d = Config::default();
    assert_eq!(d.history_limit, 50);
    assert!(matches!(d.theme, Theme::System));
}
