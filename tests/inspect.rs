use esp32_image_composer::config::{BOOTLOADER_OFFSET, FACTORY_OFFSET, PARTITION_TABLE_OFFSET};
use esp32_image_composer::inspect::{
    find_last_used_byte, get_component_at_offset, inspect, ChecksumStatus, InspectOptions,
};
use esp32_image_composer::{Config, EspChecksum, FirmwareBinary, ImageBuilder};

/// A complete image: one segment of `data_len` bytes, then the checksum byte,
/// padded with `pad` erase-state bytes.
fn image(data_len: u32, pad: usize, checksum_ok: bool) -> Vec<u8> {
    let mut d = vec![0u8; 24];
    d[0] = 0xE9;
    d[1] = 1;
    d.extend(0x4037_0000u32.to_le_bytes());
    d.extend(data_len.to_le_bytes());
    d.extend((0..data_len).map(|i| (i % 200) as u8 + 1));
    let c = EspChecksum::calculate_checksum(&d).unwrap();
    d.push(if checksum_ok { c } else { c ^ 0x01 });
    d.extend(vec![0xFF; pad]);
    d
}

#[test]
fn round_trip_recovers_magic_and_checksums() {
    let boot = image(1000, 3, true);
    let factory = image(4000, (4 - (24 + 8 + 4000 + 1) % 4) % 4, false);
    let firmwares = vec![
        FirmwareBinary::new("bootloader".into(), "b.bin".into(), boot.clone(), 1),
        FirmwareBinary::new("factory".into(), "f.bin".into(), factory.clone(), 2),
    ];
    let built = ImageBuilder::build_flash_image(&firmwares, &Config::default()).unwrap();
    let report = inspect(&built, InspectOptions { detailed: true, verify_checksums: true });

    let b = report.bootloader.unwrap();
    assert_eq!(b.offset, BOOTLOADER_OFFSET as usize);
    assert_eq!(b.magic, boot[0]);
    assert!(b.magic_valid && b.sized_by_header);
    assert_eq!(b.len, 24 + 8 + 1000 + 1);
    assert_eq!(b.checksum, ChecksumStatus::Valid);

    let f = report.factory.unwrap();
    assert_eq!(f.offset, FACTORY_OFFSET as usize);
    assert_eq!(f.magic, factory[0]);
    assert_eq!(f.len, 24 + 8 + 4000 + 1);
    // The checksum was patched on the way in.
    assert_eq!(f.checksum, ChecksumStatus::Valid);

    let t = report.partition_table.unwrap();
    assert_eq!(t.offset, PARTITION_TABLE_OFFSET as usize);
    assert!(t.magic_valid);
    assert_eq!(t.entry_count, 5);
    assert_eq!(t.names[0], b"bootloader".to_vec());
    assert_eq!(t.names[4], b"factory".to_vec());
    assert!(report.ota.is_empty());
    assert_eq!(report.used_len, FACTORY_OFFSET as usize + 24 + 8 + 4000 + 1);
}

#[test]
fn bad_checksum_is_reported_with_the_recomputed_value() {
    let mut raw = vec![0xFFu8; 0x2000];
    let region = image(64, 0, false);
    raw.extend(&region);
    let rep = get_component_at_offset(&raw, 0x2000, 0x9000, true).unwrap();
    assert_eq!(rep.len, region.len());
    let expected = EspChecksum::calculate_checksum(&region[..region.len() - 1]).unwrap();
    assert_eq!(rep.checksum, ChecksumStatus::Invalid { calculated: Some(expected) });
    assert_eq!(rep.stored_checksum, expected ^ 0x01);
    let unchecked = get_component_at_offset(&raw, 0x2000, 0x9000, false).unwrap();
    assert_eq!(unchecked.checksum, ChecksumStatus::NotChecked);
}

#[test]
fn regions_without_magic_fall_back_to_raw_spans() {
    let mut raw = vec![0x00u8; 0x3000];
    raw[0x2000] = 0x12;
    let rep = get_component_at_offset(&raw, 0x2000, 0x9000, false).unwrap();
    assert!(!rep.magic_valid);
    assert!(!rep.sized_by_header);
    assert_eq!(rep.len, 0x1000);
    assert!(get_component_at_offset(&raw, 0x3000, 0x9000, false).is_none());
}

#[test]
fn truncated_dump_degrades_gracefully() {
    let report = inspect(&[0xFF; 100], InspectOptions { detailed: true, verify_checksums: true });
    assert!(report.bootloader.is_none());
    assert!(report.partition_table.is_none());
    assert!(report.factory.is_none());
    assert_eq!(report.used_len, 0);
}

#[test]
fn last_used_byte() {
    assert_eq!(find_last_used_byte(&[]), 0);
    assert_eq!(find_last_used_byte(&[0xFF, 0xFF]), 0);
    assert_eq!(find_last_used_byte(&[1, 0xFF, 2, 0xFF, 0xFF]), 3);
}

#[test]
fn detailed_inspection_finds_ota_slots() {
    let boot = image(100, 3, true);
    let factory = image(100, 3, true);
    let ota = image(2000, (4 - (24 + 8 + 2000 + 1) % 4) % 4, true);
    let firmwares = vec![
        FirmwareBinary::new("bootloader".into(), "b.bin".into(), boot, 1),
        FirmwareBinary::new("factory".into(), "f.bin".into(), factory, 2),
        FirmwareBinary::new("ota".into(), "o.bin".into(), ota, 3),
    ];
    let built = ImageBuilder::build_flash_image(&firmwares, &Config::default()).unwrap();
    let report = inspect(&built, InspectOptions { detailed: true, verify_checksums: true });
    assert_eq!(report.ota.len(), 1);
    assert_eq!(report.ota[0].slot, 0);
    // The slot follows the 64 KiB-rounded factory region.
    assert_eq!(report.ota[0].region.offset, FACTORY_OFFSET as usize + 0x10000);
    assert_eq!(report.ota[0].region.checksum, ChecksumStatus::Valid);
    let quick = inspect(&built, InspectOptions { detailed: false, verify_checksums: false });
    assert!(quick.ota.is_empty());
}
