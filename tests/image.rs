use esp32_image_composer::config::{FlashSize, BOOTLOADER_OFFSET, FACTORY_OFFSET, PARTITION_TABLE_OFFSET};
use esp32_image_composer::esp32::{ImageError, ParseError};
use esp32_image_composer::image::BuildError;
use esp32_image_composer::{Config, EspChecksum, FirmwareBinary, ImageBuilder, PartitionGenerator};

/// A component of `size` bytes counting up modulo 256, opened by the image magic.
fn create_test_firmware(name: &str, size: usize, prefix: u32) -> FirmwareBinary {
    let mut data: Vec<u8> = (0..size).map(|i| (i % 256) as u8).collect();
    data[0] = 0xE9;
    FirmwareBinary::new(name.to_string(), format!("{}.bin", name), data, prefix)
}

#[test]
fn test_write_to_flash() {
    let mut flash_image = vec![0xFF; 1024];
    let data = vec![0x42, 0x43, 0x44];

    ImageBuilder::write_to_flash(&mut flash_image, 10, &data).unwrap();

    assert_eq!(flash_image[8..13], [0xFF, 0xFF, 0x42, 0x43, 0x44]);
    assert_eq!(flash_image[0..8], [0xFF; 8]);
    assert_eq!(flash_image[13..], [0xFF; 1024 - 13]);
}

#[test]
fn test_write_to_flash_overflow() {
    let mut flash_image = vec![0xFF; 100];
    let data = vec![0x42; 10];

    let result = ImageBuilder::write_to_flash(&mut flash_image, 95, &data);
    assert!(result.is_err());
}

#[test]
fn test_build_partition_table_only() {
    let config = Config {
        flash_size: FlashSize::Size16MB,
        ..Default::default()
    };

    let partition_table_data = ImageBuilder::build_partition_table_only(&config).unwrap();

    // Should have some data (partition tables are typically a few KB)
    assert!(!partition_table_data.is_empty());
    assert!(partition_table_data.len() > 100);
    assert!(partition_table_data.len() < 10 * 1024); // Shouldn't be too large
}

#[test]
fn test_build_flash_image_minimal_size() {
    let firmwares = vec![
        create_test_firmware("bootloader", 32 * 1024, 1),
        create_test_firmware("factory_app", 100 * 1024, 2),
    ];

    let config = Config {
        flash_size: FlashSize::Size16MB,
        max_ota_partitions: 4,
        pad_flash: false, // Minimal size
        ..Default::default()
    };

    let flash_image = ImageBuilder::build_flash_image(&firmwares, &config).unwrap();

    // Should be much smaller than full flash size
    assert!(flash_image.len() < 16 * 1024 * 1024);
    assert!(flash_image.len() > 100 * 1024); // Should contain the firmware

    // Check bootloader at its offset
    let boot = BOOTLOADER_OFFSET as usize;
    assert_eq!(&flash_image[boot..boot + 10], &firmwares[0].data[0..10]);
    assert_eq!(flash_image[boot], firmwares[0].data[0]);

    // Check factory app at FACTORY_OFFSET
    let factory_offset = FACTORY_OFFSET as usize;
    assert_eq!(
        &flash_image[factory_offset..factory_offset + 10],
        &firmwares[1].data[0..10]
    );
    assert_eq!(flash_image[factory_offset], firmwares[1].data[0]);
}

#[test]
fn test_build_flash_image_padded_size() {
    let firmwares = vec![
        create_test_firmware("bootloader", 32 * 1024, 1),
        create_test_firmware("factory_app", 100 * 1024, 2),
    ];

    let config = Config {
        flash_size: FlashSize::Size16MB,
        max_ota_partitions: 4,
        pad_flash: true, // Full flash size
        ..Default::default()
    };

    let flash_image = ImageBuilder::build_flash_image(&firmwares, &config).unwrap();

    // Should be exactly full flash size
    assert_eq!(flash_image.len(), 16 * 1024 * 1024);

    // Check bootloader at its offset
    let boot = BOOTLOADER_OFFSET as usize;
    assert_eq!(&flash_image[boot..boot + 10], &firmwares[0].data[0..10]);

    // Check that most of the flash is still 0xFF (empty)
    let ff_count = flash_image.iter().filter(|&&b| b == 0xFF).count();
    assert!(ff_count > flash_image.len() / 2); // More than half should be empty
}

#[test]
fn test_build_flash_image_no_firmwares() {
    let firmwares = vec![];
    let config = Config::default();

    let flash_image = ImageBuilder::build_flash_image(&firmwares, &config).unwrap();

    // Should still create an image with just partition table
    assert!(flash_image.len() > 1000); // At least the partition table
    assert!(flash_image.len() < 16 * 1024 * 1024); // Minimal size
}

#[test]
fn test_build_flash_image_only_bootloader() {
    let firmwares = vec![create_test_firmware("bootloader", 32 * 1024, 1)];

    let config = Config::default();

    let flash_image = ImageBuilder::build_flash_image(&firmwares, &config).unwrap();

    // Should have bootloader + partition table
    assert!(flash_image.len() > 32 * 1024); // Bootloader
    assert!(flash_image.len() < 16 * 1024 * 1024); // Minimal size

    // Check bootloader at its offset
    let boot = BOOTLOADER_OFFSET as usize;
    assert_eq!(&flash_image[boot..boot + 10], &firmwares[0].data[0..10]);
}

#[test]
fn minimal_image_ends_at_the_last_write() {
    let firmwares = vec![
        create_test_firmware("bootloader", 32 * 1024, 1),
        create_test_firmware("factory_app", 100 * 1024, 2),
    ];
    let image = ImageBuilder::build_flash_image(&firmwares, &Config::default()).unwrap();
    assert_eq!(image.len(), FACTORY_OFFSET as usize + 100 * 1024);
    // The gap before the bootloader is erase-state filler.
    assert!(image[..BOOTLOADER_OFFSET as usize].iter().all(|&b| b == 0xFF));
    // The partition table sits at its offset and opens with the record magic.
    let pt = PARTITION_TABLE_OFFSET as usize;
    assert_eq!(&image[pt..pt + 2], &[0xAA, 0x50]);
    // The factory application carries a patched, valid checksum.
    let factory = &image[FACTORY_OFFSET as usize..];
    assert!(EspChecksum::verify_checksum(factory).unwrap());
    // The bootloader is written unchanged.
    let boot = BOOTLOADER_OFFSET as usize;
    assert_eq!(&image[boot..boot + 32 * 1024], &firmwares[0].data[..]);
}

#[test]
fn table_blob_matches_standalone_encoding() {
    let config = Config::default();
    let bin = ImageBuilder::build_partition_table_only(&config).unwrap();
    assert_eq!(bin.len(), 0xC00);
    assert_eq!(&bin[0..2], &[0xAA, 0x50]);
    // Five records, then the MD5 record.
    assert_eq!(&bin[5 * 32..5 * 32 + 2], &[0xEB, 0xEB]);
    let csv = ImageBuilder::build_partition_table_csv(&config).unwrap();
    assert!(csv.contains("factory"));
    assert!(csv.contains("otadata"));
}

#[test]
fn ota_components_go_to_their_slots() {
    let firmwares = vec![
        create_test_firmware("bootloader", 32 * 1024, 1),
        create_test_firmware("factory_app", 100 * 1024, 2),
        create_test_firmware("ota_a", 200 * 1024, 3),
    ];
    let config = Config::default();
    let image = ImageBuilder::build_flash_image(&firmwares, &config).unwrap();
    let table = PartitionGenerator::generate_table(&firmwares, &config).unwrap();
    let slot = table.find("ota_0").unwrap().offset() as usize;
    assert_eq!(slot, FACTORY_OFFSET as usize + 128 * 1024);
    assert_eq!(image.len(), slot + 200 * 1024);
    assert_eq!(&image[slot..slot + 10], &firmwares[2].data[0..10]);
}

#[test]
fn build_errors() {
    // A bootloader without the image magic.
    let mut bad = create_test_firmware("bootloader", 1024, 1);
    bad.data[0] = 0x00;
    match ImageBuilder::build_flash_image(&[bad], &Config::default()) {
        Err(BuildError::Image(ImageError::Parse(ParseError::BadMagic { found: 0 }))) => {}
        other => panic!("unexpected {:?}", other),
    }
    // A factory application whose length is not a multiple of four.
    let firmwares = vec![
        create_test_firmware("bootloader", 1024, 1),
        create_test_firmware("factory_app", 1023, 2),
    ];
    match ImageBuilder::build_flash_image(&firmwares, &Config::default()) {
        Err(BuildError::Image(ImageError::Misaligned { len: 1023, alignment: 4 })) => {}
        other => panic!("unexpected {:?}", other),
    }
    // A layout failure.
    let firmwares = vec![
        create_test_firmware("bootloader", 1024, 1),
        create_test_firmware("factory_app", 1024, 2),
        create_test_firmware("huge", 20 * 1024 * 1024, 3),
    ];
    match ImageBuilder::build_flash_image(&firmwares, &Config::default()) {
        Err(BuildError::Layout(_)) => {}
        other => panic!("unexpected {:?}", other),
    }
    // A write past a pre-sized image.
    let mut small = vec![0xFF; 16];
    match ImageBuilder::write_to_flash(&mut small, 10, &[1, 2, 3, 4, 5, 6, 7]) {
        Err(BuildError::OutOfBounds { offset: 10, len: 7, image_len: 16 }) => {}
        other => panic!("unexpected {:?}", other),
    }
    assert_eq!(small, vec![0xFF; 16]);
}

#[test]
fn too_many_entries_for_the_table_format() {
    let firmwares: Vec<FirmwareBinary> = (0..100)
        .map(|i| FirmwareBinary::new(format!("c{}", i), format!("c{}.bin", i), Vec::new(), i))
        .collect();
    let config = Config { max_ota_partitions: 100, ..Default::default() };
    match ImageBuilder::build_flash_image(&firmwares, &config) {
        Err(BuildError::TableTooLarge { entries: 103 }) => {}
        other => panic!("unexpected {:?}", other),
    }
}

#[test]
fn build_error_messages() {
    let mut bad = create_test_firmware("bootloader", 1024, 1);
    bad.data[0] = 0x00;
    let e = ImageBuilder::build_flash_image(&[bad], &Config::default()).unwrap_err();
    assert_eq!(e.to_string(), "Invalid image magic byte 0");
    let e = BuildError::OutOfBounds { offset: 10, len: 7, image_len: 16 };
    assert_eq!(e.to_string(), "Write exceeds flash image bounds: offset=10, size=7, image_size=16");
}
