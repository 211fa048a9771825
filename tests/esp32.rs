use esp32_image_composer::esp32::{
    parse_header, ChecksumError, ImageError, ParseError, Segment, IMAGE_MAGIC,
};
use esp32_image_composer::{Esp32P4Processor, EspChecksum};

#[test]
fn test_xor_checksum_calculation() {
    let data = vec![0x12, 0x34, 0x56, 0x78];

    // Manual calculation: 0xEF ^ 0x12 ^ 0x34 ^ 0x56 ^ 0x78
    let expected = 0xEF ^ 0x12 ^ 0x34 ^ 0x56 ^ 0x78;
    let calculated = EspChecksum::calculate_checksum(&data).unwrap();

    assert_eq!(calculated, expected);
}

#[test]
fn test_checksum_verification() {
    let data = vec![0x12, 0x34, 0x56, 0x78];
    let checksum = EspChecksum::calculate_checksum(&data).unwrap();

    let mut good = data.clone();
    good.push(checksum);
    let mut bad = data.clone();
    bad.push(checksum ^ 0xFF);

    assert!(EspChecksum::verify_checksum(&good).unwrap());
    assert!(!EspChecksum::verify_checksum(&bad).unwrap());
}

#[test]
fn test_checksum_patching() {
    let mut data = vec![
        0xE9, 0x07, 0x02, 0x4F, 0x00, 0x10, 0x20, 0x30, 0xEE, 0x12, 0x34, 0x56,
    ];
    // The tail scan places the checksum at the last byte that is not 0xFF.
    let location = data.len() - 1;
    let original_checksum_field = data[location];

    // Patch the checksum
    let patched = EspChecksum::calculate_and_patch_checksum(&mut data).unwrap();

    // Verify checksum was updated
    assert_ne!(data[location], original_checksum_field);

    // Verify the new checksum is correct
    let expected_checksum = EspChecksum::calculate_checksum(&data[..location]).unwrap();
    assert_eq!(data[location], expected_checksum);
    assert_eq!(patched, expected_checksum);
}

#[test]
fn test_esp32_p4_alignment() {
    // App partition should be 64KB aligned
    assert!(Esp32P4Processor::verify_alignment(0x10000, true).is_ok());
    assert!(Esp32P4Processor::verify_alignment(0x18000, true).is_err()); // 0x18000 % 65536 != 0

    // Data partition should be 4KB aligned
    assert!(Esp32P4Processor::verify_alignment(0x9000, false).is_ok());
    assert!(Esp32P4Processor::verify_alignment(0x9100, false).is_err()); // 0x9100 % 4096 != 0
}

#[test]
fn test_esp32_p4_constants() {
    assert_eq!(Esp32P4Processor::BOOTLOADER_OFFSET, 0x2000);
    assert_eq!(Esp32P4Processor::CHIP_ID, 18);
    assert_eq!(Esp32P4Processor::IROM_ALIGN, 64 * 1024);
    assert_eq!(Esp32P4Processor::ENCRYPTED_WRITE_ALIGN, 16);
}

#[test]
fn test_process_bootloader_image() {
    // Create a minimal ESP32 bootloader image
    let mut bootloader = vec![
        0xE9, // Magic byte
        0x03, // Segment count
        0x02, // Flash mode
        0x4F, // Flash size + frequency
        0x12, 0x34, 0x56, 0x78, // Entry point
        0xFF, // Checksum field of the header, never rewritten
        0x00, 0x00, 0x00, 0x00, // Padding
        0x12, 0x00, 0x00, 0x00, // Segment 1: RAM
        0x20, 0x00, 0x00, 0x00, // Segment 1: offset
        0x10, 0x00, 0x00, 0x00, // Segment 1: length
        0x78, 0x56, 0x34, 0x12, // Segment 1: address
    ];
    bootloader.extend(vec![0x42; 100]);
    let original = bootloader.clone();

    Esp32P4Processor::process_bootloader_image(&mut bootloader).unwrap();

    // The bootloader is preserved as it is, its checksum included.
    assert_eq!(bootloader[8], 0xFF);
    assert_eq!(bootloader, original);
}

#[test]
fn checksum_of_partial_word_is_zero_padded() {
    // 0xEF ^ 0x000201 (bytes 01 02, padded) then folded.
    let acc: u32 = 0xEF ^ 0x0201;
    let expected = ((acc >> 24) ^ (acc >> 16) ^ (acc >> 8) ^ acc) as u8;
    assert_eq!(EspChecksum::calculate_checksum(&[0x01, 0x02]).unwrap(), expected);
    // Two full words are XOR-ed before folding.
    let acc: u32 = 0xEF ^ 0x0403_0201 ^ 0x0807_0605;
    let expected = ((acc >> 24) ^ (acc >> 16) ^ (acc >> 8) ^ acc) as u8;
    assert_eq!(
        EspChecksum::calculate_checksum(&[1, 2, 3, 4, 5, 6, 7, 8]).unwrap(),
        expected
    );
}

#[test]
fn checksum_errors() {
    assert_eq!(EspChecksum::calculate_checksum(&[]), Err(ChecksumError::EmptyInput));
    assert_eq!(EspChecksum::verify_checksum(&[]), Err(ChecksumError::EmptyInput));
    assert_eq!(
        EspChecksum::verify_checksum(&[0xFF, 0xFF, 0xFF]),
        Err(ChecksumError::NoChecksumLocation)
    );
    let mut empty: Vec<u8> = Vec::new();
    assert_eq!(
        EspChecksum::calculate_and_patch_checksum(&mut empty),
        Err(ChecksumError::EmptyInput)
    );
    let mut fill = vec![0x12, 0xFF, 0xFF];
    assert_eq!(
        EspChecksum::calculate_and_patch_checksum(&mut fill),
        Err(ChecksumError::NoChecksumLocation)
    );
    assert_eq!(fill, vec![0x12, 0xFF, 0xFF]);
}

#[test]
fn patch_then_verify_is_valid() {
    let mut data = vec![0xE9, 0x01, 0x02, 0x03, 0x10, 0x20, 0x30, 0x00];
    EspChecksum::calculate_and_patch_checksum(&mut data).unwrap();
    assert!(EspChecksum::verify_checksum(&data).unwrap());
}

#[test]
fn erased_padding_is_ignored() {
    let mut data = vec![0xE9, 0x01, 0x02, 0x03, 0x10, 0x20, 0x30, 0x00];
    let mut padded = data.clone();
    padded.extend(vec![0xFF; 9]);
    let a = EspChecksum::calculate_and_patch_checksum(&mut data).unwrap();
    let b = EspChecksum::calculate_and_patch_checksum(&mut padded).unwrap();
    assert_eq!(a, b);
    assert_eq!(&padded[..data.len()], &data[..]);
    assert!(padded[data.len()..].iter().all(|&x| x == 0xFF));
    assert_eq!(
        EspChecksum::verify_checksum(&padded),
        EspChecksum::verify_checksum(&data)
    );
}

fn image_with_segments(extended: bool, lens: &[u32]) -> Vec<u8> {
    let mut d = vec![0u8; 24];
    d[0] = IMAGE_MAGIC;
    d[1] = lens.len() as u8;
    if extended {
        d[3] = 0x80;
        d.extend(vec![0u8; 16]);
    }
    for (i, len) in lens.iter().enumerate() {
        d.extend((0x4000_0000u32 + i as u32).to_le_bytes());
        d.extend(len.to_le_bytes());
    }
    d
}

#[test]
fn header_size_counts_segments_and_checksum() {
    let mut d = image_with_segments(false, &[0x10, 0x20]);
    let header_len = d.len();
    d.extend(vec![0x11; 0x30]);
    let h = parse_header(&d).unwrap();
    assert_eq!(h.header_len, 24 + 2 * 8);
    assert_eq!(h.header_len, header_len);
    assert_eq!(h.image_size, (24 + 16 + 0x30 + 1) as u64);
    assert_eq!(
        h.segments,
        vec![
            Segment { load_address: 0x4000_0000, data_len: 0x10 },
            Segment { load_address: 0x4000_0001, data_len: 0x20 },
        ]
    );
    assert!(!h.has_extended_header);
    assert_eq!(
        EspChecksum::parse_esp32_image_header(&d).unwrap(),
        (h.image_size, h.image_size - 1)
    );
}

#[test]
fn header_with_extended_block() {
    let d = image_with_segments(true, &[0x100]);
    let h = parse_header(&d).unwrap();
    assert!(h.has_extended_header);
    assert_eq!(h.header_len, 24 + 16 + 8);
    assert_eq!(h.image_size, (24 + 16 + 8 + 0x100 + 1) as u64);
}

#[test]
fn header_walk_stops_at_buffer_end() {
    let mut d = image_with_segments(false, &[0x10, 0x20, 0x30]);
    d.truncate(24 + 8 + 4);
    let h = parse_header(&d).unwrap();
    assert_eq!(h.segments.len(), 1);
    assert_eq!(h.image_size, (24 + 3 * 8 + 0x10 + 1) as u64);
}

#[test]
fn header_size_matches_tail_scan() {
    let mut d = image_with_segments(false, &[8]);
    d.extend(vec![0x21; 8]);
    d.push(0x5A);
    d.extend(vec![0xFF; 7]);
    let (size, checksum_at) = EspChecksum::parse_esp32_image_header(&d).unwrap();
    assert_eq!(size, 24 + 8 + 8 + 1);
    let mut patched = d.clone();
    EspChecksum::calculate_and_patch_checksum(&mut patched).unwrap();
    assert_eq!(patched[..checksum_at as usize], d[..checksum_at as usize]);
    assert_eq!(
        patched[checksum_at as usize],
        EspChecksum::calculate_checksum(&d[..checksum_at as usize]).unwrap()
    );
}

#[test]
fn header_errors() {
    assert_eq!(parse_header(&[0xE9; 10]).unwrap_err(), ParseError::TooSmall { len: 10 });
    let mut d = image_with_segments(false, &[]);
    d[0] = 0xEA;
    assert_eq!(parse_header(&d).unwrap_err(), ParseError::BadMagic { found: 0xEA });
    d[0] = IMAGE_MAGIC;
    d[1] = 17;
    assert_eq!(parse_header(&d).unwrap_err(), ParseError::TooManySegments { count: 17 });
}

#[test]
fn app_image_processing() {
    let mut short = vec![0xE9; 20];
    assert_eq!(
        Esp32P4Processor::process_app_image(&mut short, false),
        Err(ImageError::Parse(ParseError::TooSmall { len: 20 }))
    );
    let mut bad = vec![0x00; 32];
    assert_eq!(
        Esp32P4Processor::process_app_image(&mut bad, false),
        Err(ImageError::Parse(ParseError::BadMagic { found: 0 }))
    );
    let mut odd = vec![0xE9; 30];
    assert_eq!(
        Esp32P4Processor::process_app_image(&mut odd, false),
        Err(ImageError::Misaligned { len: 30, alignment: 4 })
    );
    let mut enc = vec![0xE9; 40];
    assert_eq!(
        Esp32P4Processor::process_app_image(&mut enc, true),
        Err(ImageError::Misaligned { len: 40, alignment: 16 })
    );
    let mut ok = vec![0xE9; 32];
    Esp32P4Processor::process_app_image(&mut ok, false).unwrap();
    assert_eq!(ok[31], EspChecksum::calculate_checksum(&ok[..31]).unwrap());
    assert!(EspChecksum::verify_checksum(&ok).unwrap());
    assert_eq!(
        Esp32P4Processor::verify_alignment(0x18000, true),
        Err(ImageError::UnalignedOffset { offset: 0x18000, alignment: 0x10000 })
    );
}

#[test]
fn bootloader_errors() {
    let mut short = vec![0xE9; 23];
    assert_eq!(
        Esp32P4Processor::process_bootloader_image(&mut short),
        Err(ImageError::Parse(ParseError::TooSmall { len: 23 }))
    );
    let mut bad = vec![0x12; 24];
    assert_eq!(
        Esp32P4Processor::process_bootloader_image(&mut bad),
        Err(ImageError::Parse(ParseError::BadMagic { found: 0x12 }))
    );
}

#[test]
fn app_image_without_checksum_location() {
    let mut data = vec![0xFF; 32];
    data[0] = 0xE9;
    assert_eq!(
        Esp32P4Processor::process_app_image(&mut data, false),
        Err(ImageError::Checksum(ChecksumError::NoChecksumLocation))
    );
}
