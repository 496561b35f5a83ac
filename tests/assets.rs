use terrain_impostors::assets::{impostor_filename, stage_asset, AssetCatalog, AssetError, AssetRecord, AssetStats, AssetType};

fn record(grid: &str, hash: u32, uuid: u128) -> AssetRecord {
    AssetRecord {
        grid: grid.to_string(),
        loc_x: 256,
        loc_y: 512,
        size_x: 256,
        size_y: 256,
        asset_type: AssetType::SculptTexture,
        content_hash: hash,
        uuid,
        creation_time: 1_700_000_000,
    }
}

#[test]
fn same_content_twice_reuses_uuid() {
    let mut catalog = AssetCatalog::new();
    let mut stats = AssetStats::default();
    let grid = "t".to_string();
    // First pass: nothing in the catalog, so the asset is generated.
    let first = stage_asset(&catalog, &grid, (256, 512), (256, 256), AssetType::SculptTexture, 0xdeadbeef, &mut stats);
    assert_eq!(first, None);
    assert_eq!(stats, AssetStats { assets_reused: 0, assets_generated: 1 });
    // The uploaded asset is catalogued under its UUID.
    assert_eq!(catalog.insert(record("t", 0xdeadbeef, 42)), Ok(()));
    // Second pass with the same content reuses it.
    let second = stage_asset(&catalog, &grid, (256, 512), (256, 256), AssetType::SculptTexture, 0xdeadbeef, &mut stats);
    assert_eq!(second, Some(42));
    assert_eq!(stats, AssetStats { assets_reused: 1, assets_generated: 1 });
}

#[test]
fn catalog_keys_scope_lookup() {
    let mut catalog = AssetCatalog::new();
    assert_eq!(catalog.insert(record("t", 1, 10)), Ok(()));
    assert_eq!(catalog.insert(record("t", 2, 20)), Ok(()));
    assert_eq!(catalog.insert(record("u", 1, 30)), Ok(()));
    assert_eq!(catalog.insert(record("t", 1, 99)), Err(AssetError::DuplicateKey));
    let t = "t".to_string();
    assert_eq!(catalog.lookup(&t, (256, 512), (256, 256), AssetType::SculptTexture, 1), Some(10));
    assert_eq!(catalog.lookup(&t, (256, 512), (256, 256), AssetType::SculptTexture, 2), Some(20));
    assert_eq!(catalog.lookup(&"u".to_string(), (256, 512), (256, 256), AssetType::SculptTexture, 1), Some(30));
    assert_eq!(catalog.lookup(&t, (256, 512), (256, 256), AssetType::BaseTexture, 1), None);
    assert_eq!(catalog.lookup(&t, (0, 512), (256, 256), AssetType::SculptTexture, 1), None);
}

#[test]
fn filename_fields() {
    let name = impostor_filename(&b"RS".to_vec(), 256, 512, 256, 256, 1234, -5, 0, 3, 2000, 0xdeadbeef).expect("fits");
    assert_eq!(String::from_utf8(name).unwrap(), "RS_256_512_256_256_12.34_-0.05_0_3_20.00_deadbeef");
    let name = impostor_filename(&b"RT0".to_vec(), 0, 0, 1024, 1024, 0, 0, 2, 0, -150, 0x0000_00a1).expect("fits");
    assert_eq!(String::from_utf8(name).unwrap(), "RT0_0_0_1024_1024_0.00_0.00_2_0_-1.50_000000a1");
}

#[test]
fn filename_too_long() {
    let r = impostor_filename(&b"RS".to_vec(), 4_000_000_000, 4_000_000_000, 4_000_000_000, 4_000_000_000,
        -9_000_000_000, -9_000_000_000, 255, 4_000_000_000, -9_000_000_000, 0xffff_ffff);
    assert_eq!(r, Err(AssetError::FilenameTooLong));
}

#[test]
fn insert_new_key_succeeds() {
    let mut catalog = AssetCatalog::new();
    assert_eq!(catalog.insert(record("t", 7, 70)), Ok(()));
    assert_eq!(catalog.lookup(&"t".to_string(), (256, 512), (256, 256), AssetType::SculptTexture, 7), Some(70));
}
