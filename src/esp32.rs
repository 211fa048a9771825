//! The native executable-image header of the chip and its integrity checksum.

use vstd::prelude::*;
use vstd::slice::slice_subrange;

verus! {

/// Byte that fills unwritten (erased) flash.
pub const ERASED_BYTE: u8 = 0xFF;

/// Byte `i` of `d`, or zero past its end.
pub open spec fn byte_or_zero(d: Seq<u8>, i: int) -> u8 {
    if 0 <= i < d.len() {
        d[i]
    } else {
        0
    }
}

/// Word `w` of `d` read as a little-endian 32-bit value, zero-padded on the right.
pub open spec fn word_at(d: Seq<u8>, w: int) -> u32 {
    (byte_or_zero(d, 4 * w) + 0x100 * byte_or_zero(d, 4 * w + 1) + 0x1_0000 * byte_or_zero(
        d,
        4 * w + 2,
    ) + 0x100_0000 * byte_or_zero(d, 4 * w + 3)) as u32
}

/// Number of 32-bit words that cover `len` bytes.
pub open spec fn word_count(len: nat) -> nat {
    (len + 3) as nat / 4
}

/// The accumulator after XOR-ing the first `n` words of `d` into the seed.
pub open spec fn xor_words(d: Seq<u8>, n: nat) -> u32
    decreases n,
{
    if n == 0 {
        EspChecksum::ESP_ROM_CHECKSUM_INITIAL
    } else {
        xor_words(d, (n - 1) as nat) ^ word_at(d, n - 1)
    }
}

/// A 32-bit accumulator reduced to eight bits by XOR-ing its four bytes.
pub open spec fn fold_word(w: u32) -> u8 {
    ((w >> 24u32) ^ (w >> 16u32) ^ (w >> 8u32) ^ w) as u8
}

/// The ROM bootloader's checksum of `d`.
pub open spec fn checksum_of(d: Seq<u8>) -> u8 {
    fold_word(xor_words(d, word_count(d.len())))
}

/// The backward scan from the last byte past trailing erase-state bytes: the
/// index of the last byte that is not `0xFF`, stopping at index 0.
pub open spec fn scan_from(d: Seq<u8>, i: int) -> int
    decreases i,
{
    if i > 0 && d[i] == ERASED_BYTE {
        scan_from(d, i - 1)
    } else {
        i
    }
}

/// Where the tail scan of `d` places the checksum byte (0 when none is found).
pub open spec fn checksum_location(d: Seq<u8>) -> int {
    if d.len() == 0 {
        0
    } else {
        scan_from(d, d.len() - 1)
    }
}

/// Why no checksum could be computed or located.
#[derive(Clone, Copy, Debug, PartialEq, Eq, Structural)]
pub enum ChecksumError {
    /// The input holds no byte at all.
    EmptyInput,
    /// The tail scan found no byte that could hold the checksum.
    NoChecksumLocation,
}

/// The ROM bootloader's image checksum.
pub struct EspChecksum;

impl EspChecksum {
    /// Seed of the running XOR accumulator.
    pub const ESP_ROM_CHECKSUM_INITIAL: u32 = 0xEF;

    /// The checksum of `data`: a running XOR of its little-endian words
    /// (the last one zero-padded) into the seed, folded to eight bits.
    pub fn calculate_checksum(data: &[u8]) -> (r: Result<u8, ChecksumError>)
        ensures
            data@.len() == 0 ==> r == Err::<u8, ChecksumError>(ChecksumError::EmptyInput),
            data@.len() > 0 ==> r == Ok::<u8, ChecksumError>(checksum_of(data@)),
    {
        if data.len() == 0 {
            return Err(ChecksumError::EmptyInput);
        }
        let len = data.len();
        let num_words: usize = len / 4 + if len % 4 == 0 { 0 } else { 1 };
        assert(num_words == word_count(len as nat));
        let mut acc: u32 = Self::ESP_ROM_CHECKSUM_INITIAL;
        let mut i: usize = 0;
        while i < num_words
            invariant
                len == data@.len(),
                num_words == word_count(len as nat),
                i <= num_words,
                acc == xor_words(data@, i as nat),
            decreases num_words - i,
        {
            let base: usize = 4 * i;
            let b0: u8 = if base < len { data[base] } else { 0 };
            let b1: u8 = if base + 1 < len { data[base + 1] } else { 0 };
            let b2: u8 = if base + 2 < len { data[base + 2] } else { 0 };
            let b3: u8 = if base + 3 < len { data[base + 3] } else { 0 };
            let word: u32 = b0 as u32 + 0x100 * (b1 as u32) + 0x1_0000 * (b2 as u32) + 0x100_0000 * (
            b3 as u32);
            assert(word == word_at(data@, i as int));
            acc = acc ^ word;
            i = i + 1;
        }
        let folded: u8 = ((acc >> 24u32) ^ (acc >> 16u32) ^ (acc >> 8u32) ^ acc) as u8;
        Ok(folded)
    }

    /// The index that the tail scan gives for non-empty `data`.
    fn find_checksum_location(data: &[u8]) -> (r: usize)
        requires
            data@.len() > 0,
        ensures
            r as int == checksum_location(data@),
            r < data@.len(),
    {
        let mut i: usize = data.len() - 1;
        while i > 0 && data[i] == ERASED_BYTE
            invariant
                i < data@.len(),
                scan_from(data@, i as int) == checksum_location(data@),
            decreases i,
        {
            i = i - 1;
        }
        i
    }

    /// Computes the checksum of the bytes before the tail-scan location and
    /// writes it there.
    pub fn calculate_and_patch_checksum(data: &mut [u8]) -> (r: Result<u8, ChecksumError>)
        ensures
            old(data)@.len() == 0 ==> r == Err::<u8, ChecksumError>(ChecksumError::EmptyInput),
            old(data)@.len() > 0 && checksum_location(old(data)@) == 0 ==> r == Err::<
                u8,
                ChecksumError,
            >(ChecksumError::NoChecksumLocation),
            r is Err ==> final(data)@ == old(data)@,
            patched(old(data)@) matches Some(p) ==> r == Ok::<u8, ChecksumError>(
                checksum_of(old(data)@.take(checksum_location(old(data)@))),
            ) && final(data)@ == p,
    {
        if data.len() == 0 {
            return Err(ChecksumError::EmptyInput);
        }
        let loc = Self::find_checksum_location(data);
        if loc == 0 {
            return Err(ChecksumError::NoChecksumLocation);
        }
        let cs = match Self::calculate_checksum(slice_subrange(data, 0, loc)) {
            Ok(c) => c,
            Err(e) => {
                return Err(e);
            },
        };
        assert(data@.subrange(0, loc as int) == data@.take(loc as int));
        data[loc] = cs;
        Ok(cs)
    }

    /// Whether the byte at the tail-scan location equals the checksum of the
    /// bytes before it.
    pub fn verify_checksum(data: &[u8]) -> (r: Result<bool, ChecksumError>)
        ensures
            r == verified(data@),
    {
        if data.len() == 0 {
            return Err(ChecksumError::EmptyInput);
        }
        let loc = Self::find_checksum_location(data);
        if loc == 0 {
            return Err(ChecksumError::NoChecksumLocation);
        }
        let stored = data[loc];
        let calculated = match Self::calculate_checksum(slice_subrange(data, 0, loc)) {
            Ok(c) => c,
            Err(e) => {
                return Err(e);
            },
        };
        assert(data@.subrange(0, loc as int) == data@.take(loc as int));
        Ok(stored == calculated)
    }
}

/// `d` with its checksum written at the tail-scan location, when there is one.
pub open spec fn patched(d: Seq<u8>) -> Option<Seq<u8>> {
    let loc = checksum_location(d);
    if d.len() == 0 || loc == 0 {
        None
    } else {
        Some(d.update(loc, checksum_of(d.take(loc))))
    }
}

/// What checking the stored checksum of `d` gives.
pub open spec fn verified(d: Seq<u8>) -> Result<bool, ChecksumError> {
    let loc = checksum_location(d);
    if d.len() == 0 {
        Err(ChecksumError::EmptyInput)
    } else if loc == 0 {
        Err(ChecksumError::NoChecksumLocation)
    } else {
        Ok(d[loc] == checksum_of(d.take(loc)))
    }
}

/// Magic byte that opens every executable image.
pub const IMAGE_MAGIC: u8 = 0xE9;

/// Length of the base header.
pub const BASE_HEADER_LEN: usize = 24;

/// Length of the optional extended header.
pub const EXTENDED_HEADER_LEN: usize = 16;

/// Length of one segment descriptor.
pub const SEGMENT_HEADER_LEN: usize = 8;

/// Largest segment count a valid header declares.
pub const MAX_SEGMENTS: u8 = 16;

/// The little-endian 32-bit value stored at `off` in `d`.
pub open spec fn le_u32_at(d: Seq<u8>, off: int) -> u32 {
    (d[off] + 0x100 * d[off + 1] + 0x1_0000 * d[off + 2] + 0x100_0000 * d[off + 3]) as u32
}

/// Whether byte 3 flags an extended header.
pub open spec fn flags_extended_header(d: Seq<u8>) -> bool {
    d[3] & 0x80u8 != 0
}

/// Where the segment descriptors start.
pub open spec fn segment_table_start(d: Seq<u8>) -> nat {
    if flags_extended_header(d) {
        (BASE_HEADER_LEN + EXTENDED_HEADER_LEN) as nat
    } else {
        BASE_HEADER_LEN as nat
    }
}

/// Header bytes: base header, extended header if flagged, and one descriptor per declared segment.
pub open spec fn declared_header_len(d: Seq<u8>) -> nat {
    (segment_table_start(d) + SEGMENT_HEADER_LEN * d[1]) as nat
}

/// How many descriptors the walk reads: the declared count, cut short where a
/// descriptor would run past the end of `d`.
pub open spec fn walked_segments(d: Seq<u8>) -> nat {
    let start = segment_table_start(d);
    if d.len() < start {
        0
    } else {
        let fit = ((d.len() - start) as nat) / (SEGMENT_HEADER_LEN as nat);
        if (d[1] as nat) < fit {
            d[1] as nat
        } else {
            fit
        }
    }
}

/// Offset of descriptor `i`.
pub open spec fn descriptor_offset(d: Seq<u8>, i: int) -> int {
    segment_table_start(d) + SEGMENT_HEADER_LEN * i
}

/// Sum of the data lengths that the first `k` descriptors declare.
pub open spec fn segment_data_sum(d: Seq<u8>, k: nat) -> nat
    decreases k,
{
    if k == 0 {
        0
    } else {
        (segment_data_sum(d, (k - 1) as nat) + le_u32_at(d, descriptor_offset(d, k - 1) + 4)) as nat
    }
}

/// Total image size: header bytes, the walked segments' data, one checksum byte.
pub open spec fn image_size_of(d: Seq<u8>) -> nat {
    declared_header_len(d) + segment_data_sum(d, walked_segments(d)) + 1
}

/// Whether `d` opens with a header that `parse_header` accepts.
pub open spec fn header_accepted(d: Seq<u8>) -> bool {
    &&& d.len() >= BASE_HEADER_LEN
    &&& d[0] == IMAGE_MAGIC
    &&& d[1] <= MAX_SEGMENTS
}

/// Why a header could not be decoded.
#[derive(Clone, Copy, Debug, PartialEq, Eq, Structural)]
pub enum ParseError {
    /// Fewer bytes than the base header holds.
    TooSmall { len: usize },
    /// The first byte is not the image magic.
    BadMagic { found: u8 },
    /// More segments declared than a header may hold.
    TooManySegments { count: u8 },
}

/// The error that `parse_header` gives on `d`, if any.
pub open spec fn header_error(d: Seq<u8>) -> Option<ParseError> {
    if d.len() < BASE_HEADER_LEN {
        Some(ParseError::TooSmall { len: d.len() as usize })
    } else if d[0] != IMAGE_MAGIC {
        Some(ParseError::BadMagic { found: d[0] })
    } else if d[1] > MAX_SEGMENTS {
        Some(ParseError::TooManySegments { count: d[1] })
    } else {
        None
    }
}

/// One load unit of an image.
#[derive(Clone, Copy, Debug, PartialEq, Eq, Structural)]
pub struct Segment {
    pub load_address: u32,
    pub data_len: u32,
}

/// A decoded view of an image's leading bytes.
#[derive(Clone, Debug)]
pub struct ImageHeader {
    pub magic: u8,
    pub segment_count: u8,
    pub has_extended_header: bool,
    /// The descriptors that the walk read, in order.
    pub segments: Vec<Segment>,
    /// Base header, extended header if flagged, and all declared descriptors.
    pub header_len: usize,
    /// Header bytes, the segments' data and the checksum byte.
    pub image_size: u64,
}

/// Whether `h` is what decoding `d` gives.
pub open spec fn decodes_to(d: Seq<u8>, h: ImageHeader) -> bool {
    &&& h.magic == d[0]
    &&& h.segment_count == d[1]
    &&& h.has_extended_header == flags_extended_header(d)
    &&& h.segments@.len() == walked_segments(d)
    &&& forall|i: int|
        0 <= i < h.segments@.len() ==> #[trigger] h.segments@[i] == (Segment {
            load_address: le_u32_at(d, descriptor_offset(d, i)),
            data_len: le_u32_at(d, descriptor_offset(d, i) + 4),
        })
    &&& h.header_len == declared_header_len(d)
    &&& h.image_size == image_size_of(d)
}

/// Decodes the header at the start of `bytes`.
pub fn parse_header(bytes: &[u8]) -> (r: Result<ImageHeader, ParseError>)
    ensures
        header_error(bytes@) matches Some(e) ==> r == Err::<ImageHeader, ParseError>(e),
        header_error(bytes@) is None ==> (r matches Ok(h) && decodes_to(bytes@, h)),
{
    let len = bytes.len();
    if len < BASE_HEADER_LEN {
        return Err(ParseError::TooSmall { len });
    }
    if bytes[0] != IMAGE_MAGIC {
        return Err(ParseError::BadMagic { found: bytes[0] });
    }
    let count = bytes[1];
    if count > MAX_SEGMENTS {
        return Err(ParseError::TooManySegments { count });
    }
    let extended = bytes[3] & 0x80u8 != 0;
    let start: usize = if extended {
        BASE_HEADER_LEN + EXTENDED_HEADER_LEN
    } else {
        BASE_HEADER_LEN
    };
    let header_len: usize = start + SEGMENT_HEADER_LEN * (count as usize);
    let walked: usize = if len < start {
        0
    } else {
        let fit = (len - start) / SEGMENT_HEADER_LEN;
        if (count as usize) < fit {
            count as usize
        } else {
            fit
        }
    };
    assert(walked == walked_segments(bytes@));
    assert(walked > 0 ==> start + SEGMENT_HEADER_LEN * walked <= len) by (nonlinear_arith)
        requires
            len < start ==> walked == 0,
            len >= start ==> walked <= (len - start) / 8,
            SEGMENT_HEADER_LEN == 8,
            start <= 40,
            len >= 24,
    ;
    let mut segments: Vec<Segment> = Vec::new();
    let mut sum: u64 = 0;
    let mut i: usize = 0;
    while i < walked
        invariant
            bytes@.len() == len,
            len >= BASE_HEADER_LEN,
            start == segment_table_start(bytes@),
            walked == walked_segments(bytes@),
            walked <= MAX_SEGMENTS,
            walked > 0 ==> start + SEGMENT_HEADER_LEN * walked <= len,
            i <= walked,
            sum == segment_data_sum(bytes@, i as nat),
            sum <= i * 0xFFFF_FFFFu64,
            segments@.len() == i,
            forall|j: int|
                0 <= j < i ==> #[trigger] segments@[j] == (Segment {
                    load_address: le_u32_at(bytes@, descriptor_offset(bytes@, j)),
                    data_len: le_u32_at(bytes@, descriptor_offset(bytes@, j) + 4),
                }),
        decreases walked - i,
    {
        let pos: usize = start + SEGMENT_HEADER_LEN * i;
        let addr: u32 = bytes[pos] as u32 + 0x100 * (bytes[pos + 1] as u32) + 0x1_0000 * (bytes[pos
            + 2] as u32) + 0x100_0000 * (bytes[pos + 3] as u32);
        let dlen: u32 = bytes[pos + 4] as u32 + 0x100 * (bytes[pos + 5] as u32) + 0x1_0000 * (
        bytes[pos + 6] as u32) + 0x100_0000 * (bytes[pos + 7] as u32);
        segments.push(Segment { load_address: addr, data_len: dlen });
        sum = sum + dlen as u64;
        i = i + 1;
    }
    let image_size: u64 = header_len as u64 + sum + 1;
    Ok(
        ImageHeader {
            magic: bytes[0],
            segment_count: count,
            has_extended_header: extended,
            segments,
            header_len,
            image_size,
        },
    )
}

/// `(image size, checksum offset)` that the header of `d` declares.
pub open spec fn declared_sizes(d: Seq<u8>) -> (u64, u64) {
    (image_size_of(d) as u64, (image_size_of(d) - 1) as u64)
}

impl EspChecksum {
    /// The image size and the checksum byte's offset that the header declares.
    pub fn parse_esp32_image_header(data: &[u8]) -> (r: Result<(u64, u64), ParseError>)
        ensures
            header_error(data@) matches Some(e) ==> r == Err::<(u64, u64), ParseError>(e),
            header_error(data@) is None ==> r == Ok::<(u64, u64), ParseError>(
                declared_sizes(data@),
            ),
    {
        match parse_header(data) {
            Ok(h) => Ok((h.image_size, h.image_size - 1)),
            Err(e) => Err(e),
        }
    }
}

/// Why a component could not be prepared for writing.
#[derive(Clone, Copy, Debug, PartialEq, Eq, Structural)]
pub enum ImageError {
    /// The image header is unusable.
    Parse(ParseError),
    /// The checksum could not be placed.
    Checksum(ChecksumError),
    /// The component's length is not a multiple of the write alignment.
    Misaligned { len: usize, alignment: u32 },
    /// A region's offset is not aligned as its type requires.
    UnalignedOffset { offset: u32, alignment: u32 },
}

/// Write alignment for plain and for encrypted writes.
pub open spec fn write_alignment(encrypted: bool) -> u32 {
    if encrypted {
        Esp32P4Processor::ENCRYPTED_WRITE_ALIGN
    } else {
        Esp32P4Processor::WRITE_ALIGN
    }
}

/// The basic header check that every component passes before it is written.
pub open spec fn basic_header_error(d: Seq<u8>) -> Option<ImageError> {
    if d.len() < BASE_HEADER_LEN {
        Some(ImageError::Parse(ParseError::TooSmall { len: d.len() as usize }))
    } else if d[0] != IMAGE_MAGIC {
        Some(ImageError::Parse(ParseError::BadMagic { found: d[0] }))
    } else {
        None
    }
}

/// The bootloader as written: checked, never rewritten.
pub open spec fn processed_bootloader(d: Seq<u8>) -> Result<Seq<u8>, ImageError> {
    match basic_header_error(d) {
        Some(e) => Err(e),
        None => Ok(d),
    }
}

/// An application image as written: checked, then its checksum patched.
pub open spec fn processed_app(d: Seq<u8>, encrypted: bool) -> Result<Seq<u8>, ImageError> {
    match basic_header_error(d) {
        Some(e) => Err(e),
        None => if d.len() % (write_alignment(encrypted) as nat) != 0 {
            Err(
                ImageError::Misaligned { len: d.len() as usize, alignment: write_alignment(encrypted) },
            )
        } else {
            match patched(d) {
                Some(p) => Ok(p),
                None => Err(ImageError::Checksum(ChecksumError::NoChecksumLocation)),
            }
        },
    }
}

/// Region alignment: 64 KiB for application regions, 4 KiB for data regions.
pub open spec fn region_alignment(is_app: bool) -> u32 {
    if is_app {
        Esp32P4Processor::IROM_ALIGN
    } else {
        Esp32P4Processor::DATA_ALIGN
    }
}

/// Chip-specific preparation of components.
pub struct Esp32P4Processor;

impl Esp32P4Processor {
    /// Flash offset of the second-stage bootloader.
    pub const BOOTLOADER_OFFSET: u32 = 0x2000;

    /// Chip identifier.
    pub const CHIP_ID: u8 = 18;

    /// Alignment of application regions.
    pub const IROM_ALIGN: u32 = 0x1_0000;

    /// Alignment of data regions.
    pub const DATA_ALIGN: u32 = 0x1000;

    /// Write alignment under flash encryption.
    pub const ENCRYPTED_WRITE_ALIGN: u32 = 16;

    /// Plain write alignment.
    pub const WRITE_ALIGN: u32 = 4;

    /// Checks the bootloader's header; its bytes, checksum included, stay as they are.
    pub fn process_bootloader_image(bootloader_data: &mut [u8]) -> (r: Result<(), ImageError>)
        ensures
            final(bootloader_data)@ == old(bootloader_data)@,
            basic_header_error(old(bootloader_data)@) matches Some(e) ==> r == Err::<
                (),
                ImageError,
            >(e),
            basic_header_error(old(bootloader_data)@) is None ==> r is Ok,
    {
        if bootloader_data.len() < BASE_HEADER_LEN {
            return Err(ImageError::Parse(ParseError::TooSmall { len: bootloader_data.len() }));
        }
        if bootloader_data[0] != IMAGE_MAGIC {
            return Err(ImageError::Parse(ParseError::BadMagic { found: bootloader_data[0] }));
        }
        Ok(())
    }

    /// Checks an application image's header and length alignment, then patches its checksum.
    pub fn process_app_image(app_data: &mut [u8], encrypted: bool) -> (r: Result<(), ImageError>)
        ensures
            match processed_app(old(app_data)@, encrypted) {
                Ok(p) => (r is Ok) && final(app_data)@ == p,
                Err(e) => r == Err::<(), ImageError>(e) && final(app_data)@ == old(app_data)@,
            },
    {
        if app_data.len() < BASE_HEADER_LEN {
            return Err(ImageError::Parse(ParseError::TooSmall { len: app_data.len() }));
        }
        if app_data[0] != IMAGE_MAGIC {
            return Err(ImageError::Parse(ParseError::BadMagic { found: app_data[0] }));
        }
        let alignment: u32 = if encrypted {
            Self::ENCRYPTED_WRITE_ALIGN
        } else {
            Self::WRITE_ALIGN
        };
        if app_data.len() % (alignment as usize) != 0 {
            return Err(ImageError::Misaligned { len: app_data.len(), alignment });
        }
        match EspChecksum::calculate_and_patch_checksum(app_data) {
            Ok(_) => Ok(()),
            Err(e) => Err(ImageError::Checksum(e)),
        }
    }

    /// Checks that `offset` is aligned as a region of its type must be.
    pub fn verify_alignment(offset: u32, is_app_partition: bool) -> (r: Result<(), ImageError>)
        ensures
            offset % region_alignment(is_app_partition) == 0 ==> r is Ok,
            offset % region_alignment(is_app_partition) != 0 ==> r == Err::<(), ImageError>(
                ImageError::UnalignedOffset {
                    offset,
                    alignment: region_alignment(is_app_partition),
                },
            ),
    {
        let required: u32 = if is_app_partition {
            Self::IROM_ALIGN
        } else {
            Self::DATA_ALIGN
        };
        if offset % required != 0 {
            return Err(ImageError::UnalignedOffset { offset, alignment: required });
        }
        Ok(())
    }
}

/// What the backward scan from `i` gives: a position at or before `i` past
/// which, up to `i`, every byte is an erase-state byte.
proof fn lemma_scan_from_bounds(d: Seq<u8>, i: int)
    requires
        0 <= i < d.len(),
    ensures
        0 <= scan_from(d, i) <= i,
        scan_from(d, i) > 0 ==> d[scan_from(d, i)] != ERASED_BYTE,
        forall|k: int| scan_from(d, i) < k <= i ==> d[k] == ERASED_BYTE,
    decreases i,
{
    if i > 0 && d[i] == ERASED_BYTE {
        lemma_scan_from_bounds(d, i - 1);
    }
}

/// The backward scan from `i` stops at `j` when `j` holds real data (or is the
/// first byte) and only erase-state bytes follow it up to `i`.
proof fn lemma_scan_from_stops_at(d: Seq<u8>, i: int, j: int)
    requires
        0 <= j <= i < d.len(),
        j == 0 || d[j] != ERASED_BYTE,
        forall|k: int| j < k <= i ==> d[k] == ERASED_BYTE,
    ensures
        scan_from(d, i) == j,
    decreases i,
{
    if i > j {
        lemma_scan_from_stops_at(d, i - 1, j);
    }
}

/// Patching then verifying is a fixed point: once the checksum is written at
/// the tail-scan location, checking it succeeds. This holds whenever patching
/// succeeds and the written checksum is not itself an erase-state byte.
pub proof fn lemma_patched_checksum_verifies(d: Seq<u8>)
    requires
        d.len() > 0,
        checksum_location(d) > 0,
        checksum_of(d.take(checksum_location(d))) != ERASED_BYTE,
    ensures
        patched(d) matches Some(p) && verified(p) == Ok::<bool, ChecksumError>(true),
{
    let loc = checksum_location(d);
    let cs = checksum_of(d.take(loc));
    let p = d.update(loc, cs);
    lemma_scan_from_bounds(d, d.len() - 1);
    lemma_scan_from_stops_at(p, p.len() - 1, loc);
    assert(p.take(loc) =~= d.take(loc));
}

/// Erase-state padding after the data changes nothing: appending `0xFF` bytes
/// to a non-empty `d` leaves the checksum location, the verification outcome
/// and the patched checksum as they were.
pub proof fn lemma_erased_padding_tolerated(d: Seq<u8>, k: nat)
    requires
        d.len() > 0,
    ensures
        checksum_location(d + Seq::new(k, |i: int| ERASED_BYTE)) == checksum_location(d),
        verified(d + Seq::new(k, |i: int| ERASED_BYTE)) == verified(d),
        patched(d) matches Some(p) ==> patched(d + Seq::new(k, |i: int| ERASED_BYTE)) == Some(
            p + Seq::new(k, |i: int| ERASED_BYTE),
        ),
        patched(d) is None ==> patched(d + Seq::new(k, |i: int| ERASED_BYTE)) is None,
{
    let pad = Seq::new(k, |i: int| ERASED_BYTE);
    let e = d + pad;
    let loc = checksum_location(d);
    lemma_scan_from_bounds(d, d.len() - 1);
    assert forall|j: int| loc < j <= e.len() - 1 implies e[j] == ERASED_BYTE by {
        if j >= d.len() {
            assert(e[j] == pad[j - d.len()]);
        }
    }
    lemma_scan_from_stops_at(e, e.len() - 1, loc);
    assert(e.take(loc) =~= d.take(loc));
    if loc > 0 {
        let cs = checksum_of(d.take(loc));
        assert(e.update(loc, cs) =~= d.update(loc, cs) + pad);
    }
}

/// For a complete image (every declared descriptor present) whose checksum
/// byte is real data and is followed only by erase-state padding, the size the
/// header declares ends exactly at the byte that the tail scan finds.
pub proof fn lemma_header_size_matches_tail_scan(d: Seq<u8>)
    requires
        header_accepted(d),
        walked_segments(d) == d[1],
        image_size_of(d) <= d.len(),
        d[image_size_of(d) - 1] != ERASED_BYTE,
        forall|k: int| image_size_of(d) <= k < d.len() ==> d[k] == ERASED_BYTE,
    ensures
        image_size_of(d) == declared_header_len(d) + segment_data_sum(d, d[1] as nat) + 1,
        checksum_location(d) == image_size_of(d) - 1,
{
    lemma_scan_from_stops_at(d, d.len() - 1, image_size_of(d) - 1);
}

} // verus!
