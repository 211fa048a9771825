//! Target constants of the chip's flash layout and the composition settings.

use vstd::prelude::*;

verus! {

/// Second-stage bootloader region.
pub const BOOTLOADER_OFFSET: u32 = 0x2000;

pub const BOOTLOADER_SIZE: u32 = 0x6000;

/// Partition-table region.
pub const PARTITION_TABLE_OFFSET: u32 = 0x1_0000;

pub const PARTITION_TABLE_SIZE: u32 = 0x1000;

/// Non-volatile storage region.
pub const NVS_OFFSET: u32 = 0x9000;

pub const NVS_SIZE: u32 = 0x1000;

/// OTA selection data region.
pub const OTADATA_OFFSET: u32 = 0xA000;

pub const OTADATA_SIZE: u32 = 0x2000;

/// Factory application region. Its size in a table is the factory component's
/// length rounded up; `FACTORY_SIZE` is the nominal extent that bounds an
/// inspected factory region when no header sizes it.
pub const FACTORY_OFFSET: u32 = 0x2_0000;

pub const FACTORY_SIZE: u32 = 0x10_0000;

/// Unit to which application region sizes are rounded up.
pub const OTA_ALIGNMENT: u32 = 0x1_0000;

/// Supported flash capacities.
#[derive(Clone, Copy, Debug, PartialEq, Eq, Structural)]
pub enum FlashSize {
    Size8MB,
    Size16MB,
    Size32MB,
}

impl FlashSize {
    /// Capacity in bytes.
    pub open spec fn spec_size_bytes(&self) -> u32 {
        match self {
            FlashSize::Size8MB => 0x80_0000,
            FlashSize::Size16MB => 0x100_0000,
            FlashSize::Size32MB => 0x200_0000,
        }
    }

    /// Capacity in bytes.
    pub fn size_bytes(&self) -> (r: u32)
        ensures
            r == self.spec_size_bytes(),
    {
        match self {
            FlashSize::Size8MB => 0x80_0000,
            FlashSize::Size16MB => 0x100_0000,
            FlashSize::Size32MB => 0x200_0000,
        }
    }
}

/// Whether `c` is one of the supported capacities.
pub open spec fn is_flash_capacity(c: u32) -> bool {
    c == 0x80_0000 || c == 0x100_0000 || c == 0x200_0000
}

/// Composition settings.
#[derive(Clone, Debug)]
pub struct Config {
    pub flash_size: FlashSize,
    pub firmware_dir: String,
    pub output_file: String,
    pub max_ota_partitions: usize,
    pub verbose: bool,
    /// Pad the image to the full capacity instead of its minimal length.
    pub pad_flash: bool,
}

impl Default for Config {
    fn default() -> (r: Self)
        ensures
            r.flash_size == FlashSize::Size16MB,
            r.firmware_dir@ == "firmwares"@,
            r.output_file@ == "combined-image.bin"@,
            r.max_ota_partitions == 16,
            !r.verbose,
            !r.pad_flash,
    {
        Config {
            flash_size: FlashSize::Size16MB,
            firmware_dir: String::from_str("firmwares"),
            output_file: String::from_str("combined-image.bin"),
            max_ota_partitions: 16,
            verbose: false,
            pad_flash: false,
        }
    }
}

/// Whether `a` and `b` hold the same characters.
pub fn same_text(a: &str, b: &str) -> (r: bool)
    ensures
        r == (a@ == b@),
{
    let n = a.unicode_len();
    if n != b.unicode_len() {
        return false;
    }
    let mut i: usize = 0;
    while i < n
        invariant
            n == a@.len(),
            n == b@.len(),
            i <= n,
            forall|k: int| 0 <= k < i ==> a@[k] == b@[k],
        decreases n - i,
    {
        if a.get_char(i) != b.get_char(i) {
            return false;
        }
        i = i + 1;
    }
    assert(a@ =~= b@);
    true
}

/// The capacity that a command-line label names; unknown labels give 16 MB.
pub fn flash_size_from_label(label: &str) -> (r: FlashSize)
    ensures
        label@ == "8MB"@ ==> r == FlashSize::Size8MB,
        label@ == "32MB"@ ==> r == FlashSize::Size32MB,
        label@ != "8MB"@ && label@ != "32MB"@ ==> r == FlashSize::Size16MB,
{
    proof {
        reveal_strlit("8MB");
        reveal_strlit("16MB");
        reveal_strlit("32MB");
        assert("32MB"@[0] != "16MB"@[0]);
        assert("8MB"@.len() != "16MB"@.len());
    }
    if same_text(label, "8MB") {
        FlashSize::Size8MB
    } else if same_text(label, "16MB") {
        FlashSize::Size16MB
    } else if same_text(label, "32MB") {
        FlashSize::Size32MB
    } else {
        FlashSize::Size16MB
    }
}

} // verus!
