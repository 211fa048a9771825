use esp32_image_composer::config::{FlashSize, FACTORY_OFFSET};
use esp32_image_composer::partition::{LayoutError, PartitionKind};
use esp32_image_composer::{Config, FirmwareBinary, PartitionGenerator};

fn create_test_firmware(name: &str, size: u32, prefix: u32) -> FirmwareBinary {
    FirmwareBinary::new(
        name.to_string(),
        format!("{}.bin", name),
        vec![0; size as usize],
        prefix,
    )
}

#[test]
fn test_align_up() {
    assert_eq!(PartitionGenerator::align_up(1000, 1024), 1024);
    assert_eq!(PartitionGenerator::align_up(1024, 1024), 1024);
    assert_eq!(PartitionGenerator::align_up(1025, 1024), 2048);
    assert_eq!(
        PartitionGenerator::align_up(64 * 1024 + 1, 64 * 1024),
        128 * 1024
    );
}

#[test]
fn test_generate_basic_partition_table() {
    let firmwares = vec![
        create_test_firmware("bootloader", 32 * 1024, 1),
        create_test_firmware("factory_app", 500 * 1024, 2),
    ];

    let config = Config {
        flash_size: FlashSize::Size16MB,
        max_ota_partitions: 4,
        ..Default::default()
    };

    let table = PartitionGenerator::generate_table(&firmwares, &config).unwrap();

    // Should have bootloader, partition-table, nvs, otadata, factory
    assert_eq!(table.partitions().len(), 5);

    let partition_names: Vec<_> = table.partitions().iter().map(|p| p.name()).collect();
    assert!(partition_names.iter().any(|s| s == "bootloader"));
    assert!(partition_names.iter().any(|s| s == "partition-table"));
    assert!(partition_names.iter().any(|s| s == "nvs"));
    assert!(partition_names.iter().any(|s| s == "otadata"));
    assert!(partition_names.iter().any(|s| s == "factory"));
}

#[test]
fn test_generate_partition_table_with_ota() {
    let firmwares = vec![
        create_test_firmware("bootloader", 32 * 1024, 1),
        create_test_firmware("factory_app", 500 * 1024, 2),
        create_test_firmware("ota_app_1", 800 * 1024, 3),
        create_test_firmware("ota_app_2", 1_200 * 1024, 4),
    ];

    let config = Config {
        flash_size: FlashSize::Size16MB,
        max_ota_partitions: 4,
        ..Default::default()
    };

    let table = PartitionGenerator::generate_table(&firmwares, &config).unwrap();

    // Should have bootloader, partition-table, nvs, otadata, factory, ota_0, ota_1
    assert_eq!(table.partitions().len(), 7);

    let partition_names: Vec<_> = table.partitions().iter().map(|p| p.name()).collect();
    assert!(partition_names.iter().any(|s| s == "ota_0"));
    assert!(partition_names.iter().any(|s| s == "ota_1"));
}

#[test]
fn test_partition_overflow() {
    let firmwares = vec![
        create_test_firmware("bootloader", 32 * 1024, 1),
        create_test_firmware("factory_app", 500 * 1024, 2),
        create_test_firmware("huge_app", 20 * 1024 * 1024, 3), // 20MB app
    ];

    let config = Config {
        flash_size: FlashSize::Size16MB, // Only 16MB flash
        max_ota_partitions: 1,
        ..Default::default()
    };

    let result = PartitionGenerator::generate_table(&firmwares, &config);
    assert!(result.is_err());
    assert!(
        result
            .unwrap_err()
            .to_string()
            .contains("Not enough flash space")
    );
}

#[test]
fn test_empty_firmwares() {
    let config = Config::default();
    let result = PartitionGenerator::generate_table(&[], &config);
    // Should work - empty firmware set just creates basic partitions
    assert!(result.is_ok());
}

#[test]
fn test_only_bootloader() {
    let firmwares = vec![create_test_firmware("bootloader", 32 * 1024, 1)];

    let config = Config::default();
    let result = PartitionGenerator::generate_table(&firmwares, &config);
    // This should work but won't have a factory partition
    assert!(result.is_ok());
}

#[test]
fn no_components_gives_the_four_system_entries() {
    for size in [FlashSize::Size8MB, FlashSize::Size16MB, FlashSize::Size32MB] {
        let config = Config { flash_size: size, ..Default::default() };
        let table = PartitionGenerator::generate_table(&[], &config).unwrap();
        let got: Vec<(String, u32, u32)> = table
            .partitions()
            .iter()
            .map(|p| (p.name(), p.offset(), p.size()))
            .collect();
        assert_eq!(
            got,
            vec![
                ("bootloader".to_string(), 0x2000, 0x6000),
                ("partition-table".to_string(), 0x10000, 0x1000),
                ("nvs".to_string(), 0x9000, 0x1000),
                ("otadata".to_string(), 0xA000, 0x2000),
            ]
        );
    }
}

#[test]
fn ota_slots_are_packed_after_the_factory_region() {
    let firmwares = vec![
        create_test_firmware("bootloader", 32 * 1024, 1),
        create_test_firmware("factory_app", 500 * 1024, 2),
        create_test_firmware("a", 800 * 1024, 3),
        create_test_firmware("b", 1, 4),
        create_test_firmware("c", 0x10000, 5),
    ];
    let config = Config { max_ota_partitions: 16, ..Default::default() };
    let table = PartitionGenerator::generate_table(&firmwares, &config).unwrap();
    let p = table.partitions();
    assert_eq!(p[4].name(), "factory");
    assert_eq!(p[4].offset(), FACTORY_OFFSET);
    assert_eq!(p[4].size(), 512 * 1024);
    // The first slot starts right after the factory region (512 KiB here).
    let start = FACTORY_OFFSET + 512 * 1024;
    assert_eq!(start, 0xA0000);
    assert_eq!((p[5].name(), p[5].offset(), p[5].size()), ("ota_0".to_string(), start, 832 * 1024));
    assert_eq!(p[5].subtype, 0x10);
    assert_eq!(p[5].kind, PartitionKind::App);
    assert_eq!((p[6].name(), p[6].offset(), p[6].size()), ("ota_1".to_string(), start + 832 * 1024, 0x10000));
    assert_eq!(p[6].subtype, 0x11);
    assert_eq!((p[7].name(), p[7].offset(), p[7].size()), ("ota_2".to_string(), start + 896 * 1024, 0x10000));
    // Sorted by offset, no entry runs into the next, and all end within capacity.
    let mut sorted: Vec<(u32, u32)> = p.iter().map(|e| (e.offset(), e.size())).collect();
    sorted.sort();
    for w in sorted.windows(2) {
        assert!(w[0].0 + w[0].1 <= w[1].0);
    }
    assert!(sorted.iter().all(|(o, s)| o + s <= 16 * 1024 * 1024));
}

#[test]
fn ota_limit_caps_the_slots() {
    let firmwares = vec![
        create_test_firmware("bootloader", 32 * 1024, 1),
        create_test_firmware("factory_app", 500 * 1024, 2),
        create_test_firmware("a", 100, 3),
        create_test_firmware("b", 100, 4),
    ];
    let config = Config { max_ota_partitions: 1, ..Default::default() };
    let table = PartitionGenerator::generate_table(&firmwares, &config).unwrap();
    assert_eq!(table.partitions().len(), 6);
    assert!(table.find("ota_0").is_some());
    assert!(table.find("ota_1").is_none());
}

#[test]
fn space_error_names_the_slot() {
    let firmwares = vec![
        create_test_firmware("bootloader", 32 * 1024, 1),
        create_test_firmware("factory_app", 500 * 1024, 2),
        create_test_firmware("a", 4 * 1024 * 1024, 3),
        create_test_firmware("b", 4 * 1024 * 1024, 4),
    ];
    let config = Config { flash_size: FlashSize::Size8MB, ..Default::default() };
    let ota_1_at = 0xA0000 + 4 * 1024 * 1024;
    match PartitionGenerator::generate_table(&firmwares, &config) {
        Err(LayoutError::InsufficientSpace { name, needed, available, placed }) => {
            assert_eq!(name, "ota_1");
            assert_eq!(placed.len(), 1);
            assert_eq!(placed[0].name(), "ota_0");
            assert_eq!(placed[0].offset(), 0xA0000);
            assert_eq!(needed, 4 * 1024 * 1024);
            assert_eq!(available, 8 * 1024 * 1024 - ota_1_at);
        }
        other => panic!("unexpected {:?}", other),
    }
    let e = PartitionGenerator::generate_table(&firmwares, &config).unwrap_err();
    assert_eq!(
        e.to_string(),
        format!(
            "Not enough flash space for OTA partition 'ota_1' ({} bytes needed, {} bytes available)",
            4 * 1024 * 1024,
            8 * 1024 * 1024 - ota_1_at
        )
    );
}

#[test]
fn oversized_factory_exceeds_capacity() {
    let firmwares = vec![
        create_test_firmware("bootloader", 32 * 1024, 1),
        create_test_firmware("factory_app", 9 * 1024 * 1024, 2),
    ];
    let config = Config { flash_size: FlashSize::Size8MB, ..Default::default() };
    match PartitionGenerator::generate_table(&firmwares, &config) {
        Err(LayoutError::PartitionExceedsCapacity { name, end, capacity }) => {
            assert_eq!(name, "factory");
            assert_eq!(end, 0x20000 + 9 * 1024 * 1024);
            assert_eq!(capacity, 8 * 1024 * 1024);
        }
        other => panic!("unexpected {:?}", other),
    }
}

#[test]
fn large_factory_moves_the_first_slot() {
    let firmwares = vec![
        create_test_firmware("bootloader", 32 * 1024, 1),
        create_test_firmware("factory_app", 2 * 1024 * 1024, 2),
        create_test_firmware("a", 1024, 3),
    ];
    let config = Config::default();
    let table = PartitionGenerator::generate_table(&firmwares, &config).unwrap();
    let ota = table.find("ota_0").unwrap();
    assert_eq!(ota.offset(), FACTORY_OFFSET + 2 * 1024 * 1024);
    assert_eq!(ota.size(), 0x10000);
}

#[test]
fn factory_past_capacity_with_slot_gives_space_error() {
    let firmwares = vec![
        create_test_firmware("bootloader", 32 * 1024, 1),
        create_test_firmware("factory_app", 9 * 1024 * 1024, 2),
        create_test_firmware("a", 1024, 3),
    ];
    let config = Config { flash_size: FlashSize::Size8MB, ..Default::default() };
    match PartitionGenerator::generate_table(&firmwares, &config) {
        Err(LayoutError::InsufficientSpace { name, needed, available, placed }) => {
            assert_eq!(name, "ota_0");
            assert_eq!(needed, 0x10000);
            assert_eq!(available, 0);
            assert!(placed.is_empty());
        }
        other => panic!("unexpected {:?}", other),
    }
}
