//! Composition of flashable ESP32-P4 firmware images: the native image-header
//! codec and its checksum, the partition table layout, the image assembler and
//! the image inspector.

pub mod config;
pub mod esp32;
pub mod firmware;
pub mod image;
pub mod inspect;
pub mod partition;

pub use config::Config;
pub use esp32::{Esp32P4Processor, EspChecksum};
pub use firmware::{FirmwareBinary, FirmwareLoader};
pub use image::ImageBuilder;
pub use partition::PartitionGenerator;
