//! Assembly of the flash image: each component, prepared for writing, is
//! copied into the output buffer at the offset its region was given.

use vstd::prelude::*;
use vstd::slice::slice_to_vec;
use esp_idf_part::{Flags, Partition, SubType, Type};
use crate::config::{
    Config, BOOTLOADER_OFFSET, FACTORY_OFFSET, OTA_ALIGNMENT, PARTITION_TABLE_OFFSET,
};
use crate::esp32::{
    ChecksumError, Esp32P4Processor, ImageError, ParseError, ERASED_BYTE, processed_app, processed_bootloader,
};
use crate::firmware::FirmwareBinary;
use crate::partition::{
    EntryModel, LayoutError, LayoutFault, PartitionEntry, PartitionGenerator, PartitionKind,
    PartitionTable, aligned_up, decimal, decimal_text, entry_models, layout_message, factory_entry, first_named, fixed_entries,
    layout_outcome, lemma_factory_only_layout, ota_slot_name, sizes_of, slot_name,
    subtypes_admitted,
};

verus! {

/// Largest number of entries the on-device table format holds.
pub const MAX_TABLE_ENTRIES: usize = 95;

/// Length of an encoded partition table.
pub const ENCODED_TABLE_LEN: usize = 0xC00;

/// The on-device binary encoding of a partition table with entries `es`.
pub uninterp spec fn partition_table_bin(es: Seq<EntryModel>) -> Seq<u8>;

/// The human-readable tabular text of a partition table with entries `es`.
pub uninterp spec fn partition_table_csv(es: Seq<EntryModel>) -> Seq<char>;

/// The error type of esp_idf_part's table encoders, only carried to be mapped.
#[verifier::external_type_specification]
#[verifier::external_body]
pub struct ExPartitionError(esp_idf_part::Error);

/// Relies on esp_idf_part's `PartitionTable::to_bin`: one 32-byte record per
/// entry, then the MD5 record, padded with 0xFF to 0xC00 bytes. It depends on
/// the entries alone, and panics past 95 entries (the padding would be
/// negative). Its only error paths are writes into a `Vec`, which do not fail. `SubType::app` and `SubType::data` panic on a tag that the
/// crate's `AppType` or `DataType` lacks, hence the admitted subtypes.
#[verifier::external_body]
fn encode_table_bin(entries: &Vec<PartitionEntry>) -> (r: Result<Vec<u8>, esp_idf_part::Error>)
    requires
        entries@.len() <= MAX_TABLE_ENTRIES,
        subtypes_admitted(entry_models(entries@)),
    ensures
        r is Ok,
        r matches Ok(b) ==> b@ == partition_table_bin(entry_models(entries@)) && b@.len()
            == ENCODED_TABLE_LEN,
{
    let parts: Vec<Partition> = entries.iter().map(|e| {
        let (ty, sub) = match e.kind {
            PartitionKind::App => (Type::App, SubType::app(e.subtype)),
            PartitionKind::Data => (Type::Data, SubType::data(e.subtype)),
        };
        Partition::new(e.name.clone(), ty, sub, e.offset, e.size, Flags::empty())
    }).collect();
    esp_idf_part::PartitionTable::new(parts).to_bin()
}

/// Relies on esp_idf_part's `PartitionTable::to_csv`: a header comment, then
/// one line per entry; it depends on the entries alone. It writes only into a
/// `Vec`, so its error paths and its `unwrap` are not reached. The subtypes must be
/// admitted for the same reason as in `encode_table_bin`.
#[verifier::external_body]
fn encode_table_csv(entries: &Vec<PartitionEntry>) -> (r: Result<String, esp_idf_part::Error>)
    requires
        subtypes_admitted(entry_models(entries@)),
    ensures
        r is Ok,
        r matches Ok(s) ==> s@ == partition_table_csv(entry_models(entries@)),
{
    let parts: Vec<Partition> = entries.iter().map(|e| {
        let (ty, sub) = match e.kind {
            PartitionKind::App => (Type::App, SubType::app(e.subtype)),
            PartitionKind::Data => (Type::Data, SubType::data(e.subtype)),
        };
        Partition::new(e.name.clone(), ty, sub, e.offset, e.size, Flags::empty())
    }).collect();
    esp_idf_part::PartitionTable::new(parts).to_csv()
}

/// Why no image could be built.
#[derive(Debug)]
pub enum BuildError {
    /// A component could not be prepared for writing.
    Image(ImageError),
    /// No partition table could be laid out.
    Layout(LayoutError),
    /// A write would pass the end of a pre-sized image.
    OutOfBounds { offset: usize, len: usize, image_len: usize },
    /// The table has more entries than its on-device format holds.
    TableTooLarge { entries: usize },
}

/// A build failure, as the contracts state it.
pub enum BuildFault {
    Image(ImageError),
    Layout(LayoutFault),
    OutOfBounds { offset: nat, len: nat, image_len: nat },
    TableTooLarge { entries: nat },
}

impl View for BuildError {
    type V = BuildFault;

    open spec fn view(&self) -> BuildFault {
        match self {
            BuildError::Image(e) => BuildFault::Image(*e),
            BuildError::Layout(e) => BuildFault::Layout(e@),
            BuildError::OutOfBounds { offset, len, image_len } => BuildFault::OutOfBounds {
                offset: *offset as nat,
                len: *len as nat,
                image_len: *image_len as nat,
            },
            BuildError::TableTooLarge { entries } => BuildFault::TableTooLarge {
                entries: *entries as nat,
            },
        }
    }
}

/// How a component is prepared before it is written.
pub enum JobKind {
    /// Checked only; written as it is.
    Bootloader,
    /// The encoded partition table, written as it is.
    Table,
    /// Checked, checksum patched, and its region's alignment checked.
    Application,
}

/// One write of the assembly: what to write, and where.
pub struct WriteJob {
    pub kind: JobKind,
    pub offset: nat,
    pub data: Seq<u8>,
}

/// `buf` with `d` copied in at `offset`.
pub open spec fn overwrite(buf: Seq<u8>, offset: nat, d: Seq<u8>) -> Seq<u8> {
    Seq::new(
        buf.len(),
        |i: int|
            if offset <= i < offset + d.len() {
                d[i - offset]
            } else {
                buf[i]
            },
    )
}

/// `buf` extended with erase-state bytes to at least `n` bytes.
pub open spec fn grown(buf: Seq<u8>, n: nat) -> Seq<u8> {
    if buf.len() >= n {
        buf
    } else {
        buf + Seq::new((n - buf.len()) as nat, |i: int| ERASED_BYTE)
    }
}

/// Writing `d` at `offset`: a pre-sized image must already hold the span; a
/// minimal image grows to it.
pub open spec fn write_at(buf: Seq<u8>, offset: nat, d: Seq<u8>, padded: bool) -> Result<
    Seq<u8>,
    BuildFault,
> {
    if padded && offset + d.len() > buf.len() {
        Err(BuildFault::OutOfBounds { offset, len: d.len(), image_len: buf.len() })
    } else if !padded && offset + d.len() > usize::MAX {
        Err(BuildFault::OutOfBounds { offset, len: d.len(), image_len: buf.len() })
    } else {
        Ok(overwrite(grown(buf, offset + d.len()), offset, d))
    }
}

/// The bytes that `job` writes, or why it cannot be written.
pub open spec fn job_bytes(job: WriteJob) -> Result<Seq<u8>, BuildFault> {
    match job.kind {
        JobKind::Bootloader => match processed_bootloader(job.data) {
            Ok(d) => Ok(d),
            Err(e) => Err(BuildFault::Image(e)),
        },
        JobKind::Table => Ok(job.data),
        JobKind::Application => match processed_app(job.data, false) {
            Err(e) => Err(BuildFault::Image(e)),
            Ok(d) => if job.offset % (Esp32P4Processor::IROM_ALIGN as nat) != 0 {
                Err(
                    BuildFault::Image(
                        ImageError::UnalignedOffset {
                            offset: job.offset as u32,
                            alignment: Esp32P4Processor::IROM_ALIGN,
                        },
                    ),
                )
            } else {
                Ok(d)
            },
        },
    }
}

/// Runs `jobs` in order on `buf`, stopping at the first failure.
pub open spec fn run_jobs(buf: Seq<u8>, jobs: Seq<WriteJob>, padded: bool) -> Result<
    Seq<u8>,
    BuildFault,
>
    decreases jobs.len(),
{
    if jobs.len() == 0 {
        Ok(buf)
    } else {
        match job_bytes(jobs[0]) {
            Err(e) => Err(e),
            Ok(d) => match write_at(buf, jobs[0].offset, d, padded) {
                Err(e) => Err(e),
                Ok(b) => run_jobs(b, jobs.drop_first(), padded),
            },
        }
    }
}

/// The OTA writes from component `i + 2` on: each goes to the region named
/// after its slot, and is skipped when the table has no such region.
pub open spec fn ota_jobs(comps: Seq<Seq<u8>>, es: Seq<EntryModel>, i: nat) -> Seq<WriteJob>
    decreases comps.len() - i,
{
    if i + 2 >= comps.len() {
        Seq::empty()
    } else {
        match first_named(es, slot_name(i)) {
            Some(k) => seq![
                WriteJob { kind: JobKind::Application, offset: es[k].offset, data: comps[i + 2 as int] },
            ] + ota_jobs(comps, es, i + 1),
            None => ota_jobs(comps, es, i + 1),
        }
    }
}

/// The writes after the bootloader's: the partition table, the factory
/// application if there is one, then the OTA applications.
pub open spec fn jobs_after_bootloader(comps: Seq<Seq<u8>>, es: Seq<EntryModel>, blob: Seq<u8>) -> Seq<WriteJob> {
    let factory = if comps.len() >= 2 {
        seq![
            WriteJob { kind: JobKind::Application, offset: FACTORY_OFFSET as nat, data: comps[1] },
        ]
    } else {
        Seq::empty()
    };
    seq![WriteJob { kind: JobKind::Table, offset: PARTITION_TABLE_OFFSET as nat, data: blob }]
        + (factory + ota_jobs(comps, es, 0))
}

/// Every write of the assembly, in order.
pub open spec fn write_jobs(comps: Seq<Seq<u8>>, es: Seq<EntryModel>, blob: Seq<u8>) -> Seq<WriteJob> {
    if comps.len() >= 1 {
        seq![
            WriteJob { kind: JobKind::Bootloader, offset: BOOTLOADER_OFFSET as nat, data: comps[0] },
        ] + jobs_after_bootloader(comps, es, blob)
    } else {
        jobs_after_bootloader(comps, es, blob)
    }
}

/// The buffer the assembly starts from: `cap` erase-state bytes when padded, else empty.
pub open spec fn initial_image(padded: bool, cap: nat) -> Seq<u8> {
    if padded {
        Seq::new(cap, |i: int| ERASED_BYTE)
    } else {
        Seq::empty()
    }
}

/// The image that components `comps` and a table with entries `es`, encoded as
/// `blob`, assemble to.
pub open spec fn assembled(
    comps: Seq<Seq<u8>>,
    es: Seq<EntryModel>,
    blob: Seq<u8>,
    padded: bool,
    cap: nat,
) -> Result<Seq<u8>, BuildFault> {
    run_jobs(initial_image(padded, cap), write_jobs(comps, es, blob), padded)
}

/// The bytes of each component.
pub open spec fn components_of(fw: Seq<FirmwareBinary>) -> Seq<Seq<u8>> {
    fw.map_values(|f: FirmwareBinary| f.data@)
}

/// A build result as the contracts state it.
pub open spec fn result_view(r: Result<Vec<u8>, BuildError>) -> Result<Seq<u8>, BuildFault> {
    match r {
        Ok(v) => Ok(v@),
        Err(e) => Err(e@),
    }
}

/// Builds the flash image.
pub struct ImageBuilder;

impl ImageBuilder {
    /// Copies `data` into the pre-sized `flash_image` at `offset`.
    pub fn write_to_flash(flash_image: &mut [u8], offset: u32, data: &[u8]) -> (r: Result<
        (),
        BuildError,
    >)
        ensures
            match write_at(old(flash_image)@, offset as nat, data@, true) {
                Ok(b) => r is Ok && final(flash_image)@ == b,
                Err(f) => r matches Err(e) && e@ == f && final(flash_image)@ == old(flash_image)@,
            },
    {
        let start = offset as usize;
        if data.len() > flash_image.len() || start > flash_image.len() - data.len() {
            return Err(
                BuildError::OutOfBounds { offset: start, len: data.len(), image_len: flash_image.len() },
            );
        }
        let ghost before = flash_image@;
        let total = flash_image.len();
        let mut j: usize = 0;
        while j < data.len()
            invariant
                total == flash_image@.len(),
                start + data@.len() <= flash_image@.len(),
                flash_image@.len() == before.len(),
                j <= data@.len(),
                forall|i: int|
                    0 <= i < before.len() ==> #[trigger] flash_image@[i] == if start <= i < start
                        + j {
                        data@[i - start]
                    } else {
                        before[i]
                    },
            decreases data@.len() - j,
        {
            flash_image[start + j] = data[j];
            j = j + 1;
        }
        assert(flash_image@ =~= overwrite(grown(before, (start + data@.len()) as nat), start as nat, data@));
        Ok(())
    }

    /// Copies `data` into `image` at `offset`, first growing it with
    /// erase-state bytes to cover the span.
    fn write_growing(image: &mut Vec<u8>, offset: u32, data: &[u8]) -> (r: Result<(), BuildError>)
        ensures
            match write_at(old(image)@, offset as nat, data@, false) {
                Ok(b) => r is Ok && final(image)@ == b,
                Err(f) => r matches Err(e) && e@ == f,
            },
    {
        let start = offset as usize;
        if data.len() > usize::MAX - start {
            return Err(
                BuildError::OutOfBounds { offset: start, len: data.len(), image_len: image.len() },
            );
        }
        let end = start + data.len();
        let ghost before = image@;
        while image.len() < end
            invariant
                image@.len() <= end || image@ == before,
                before.len() <= image@.len(),
                image@.subrange(0, before.len() as int) == before,
                forall|i: int| before.len() <= i < image@.len() ==> #[trigger] image@[i] == ERASED_BYTE,
            decreases end - image@.len(),
        {
            image.push(ERASED_BYTE);
        }
        let ghost g = image@;
        assert(g =~= grown(before, end as nat)) by {
            if before.len() < end {
                assert forall|i: int| 0 <= i < g.len() implies g[i] == grown(before, end as nat)[i] by {
                    if i < before.len() {
                        assert(g.subrange(0, before.len() as int)[i] == g[i]);
                    }
                }
            }
        }
        let mut j: usize = 0;
        while j < data.len()
            invariant
                end == start + data@.len(),
                end <= image@.len(),
                image@.len() == g.len(),
                j <= data@.len(),
                forall|i: int|
                    0 <= i < g.len() ==> #[trigger] image@[i] == if start <= i < start + j {
                        data@[i - start]
                    } else {
                        g[i]
                    },
            decreases data@.len() - j,
        {
            image.set(start + j, data[j]);
            j = j + 1;
        }
        assert(image@ =~= overwrite(g, start as nat, data@));
        Ok(())
    }

    /// Writes `data` at `offset` as the mode asks.
    fn write_in_mode(image: &mut Vec<u8>, offset: u32, data: &[u8], padded: bool) -> (r: Result<
        (),
        BuildError,
    >)
        ensures
            match write_at(old(image)@, offset as nat, data@, padded) {
                Ok(b) => r is Ok && final(image)@ == b,
                Err(f) => r matches Err(e) && e@ == f,
            },
    {
        if padded {
            Self::write_to_flash(image.as_mut_slice(), offset, data)
        } else {
            Self::write_growing(image, offset, data)
        }
    }
}

impl ImageBuilder {
    /// Writes the components into an image according to `table`, with the
    /// encoded table `table_bin` at the partition-table offset. A padded image
    /// starts as `capacity` erase-state bytes; a minimal one grows as needed.
    pub fn assemble(
        firmwares: &[FirmwareBinary],
        table: &PartitionTable,
        table_bin: &[u8],
        padded: bool,
        capacity: u32,
    ) -> (r: Result<Vec<u8>, BuildError>)
        ensures
            result_view(r) == assembled(
                components_of(firmwares@),
                table@,
                table_bin@,
                padded,
                capacity as nat,
            ),
    {
        let n = firmwares.len();
        let ghost comps = components_of(firmwares@);
        let ghost es = table@;
        let ghost target = assembled(comps, es, table_bin@, padded, capacity as nat);
        let mut image: Vec<u8> = if padded {
            vec![ERASED_BYTE; capacity as usize]
        } else {
            Vec::new()
        };
        assert(image@ =~= initial_image(padded, capacity as nat));
        let ghost mut rest = write_jobs(comps, es, table_bin@);
        assert(comps.len() == n);
        if n >= 1 {
            let mut d = slice_to_vec(firmwares[0].data.as_slice());
            assert(d@ == comps[0]);
            match Esp32P4Processor::process_bootloader_image(d.as_mut_slice()) {
                Err(e) => {
                    return Err(BuildError::Image(e));
                },
                Ok(()) => {},
            }
            match Self::write_in_mode(&mut image, BOOTLOADER_OFFSET, d.as_slice(), padded) {
                Err(e) => {
                    return Err(e);
                },
                Ok(()) => {},
            }
            proof {
                rest = rest.drop_first();
                assert(rest =~= jobs_after_bootloader(comps, es, table_bin@));
            }
        }
        assert(run_jobs(image@, rest, padded) == target);
        assert(rest == jobs_after_bootloader(comps, es, table_bin@));
        let ghost table_job = WriteJob {
            kind: JobKind::Table,
            offset: PARTITION_TABLE_OFFSET as nat,
            data: table_bin@,
        };
        assert(rest[0] == table_job);
        match Self::write_in_mode(&mut image, PARTITION_TABLE_OFFSET, table_bin, padded) {
            Err(e) => {
                return Err(e);
            },
            Ok(()) => {},
        }
        proof {
            rest = rest.drop_first();
        }
        assert(run_jobs(image@, rest, padded) == target);
        if n >= 2 {
            let ghost factory_job = WriteJob {
                kind: JobKind::Application,
                offset: FACTORY_OFFSET as nat,
                data: comps[1],
            };
            assert(rest =~= seq![factory_job] + ota_jobs(comps, es, 0));
            assert(rest[0] == factory_job);
            let mut d = slice_to_vec(firmwares[1].data.as_slice());
            assert(d@ == comps[1]);
            match Esp32P4Processor::process_app_image(d.as_mut_slice(), false) {
                Err(e) => {
                    return Err(BuildError::Image(e));
                },
                Ok(()) => {},
            }
            match Esp32P4Processor::verify_alignment(FACTORY_OFFSET, true) {
                Err(e) => {
                    return Err(BuildError::Image(e));
                },
                Ok(()) => {},
            }
            match Self::write_in_mode(&mut image, FACTORY_OFFSET, d.as_slice(), padded) {
                Err(e) => {
                    return Err(e);
                },
                Ok(()) => {},
            }
            proof {
                rest = rest.drop_first();
            }
        }
        assert(rest =~= ota_jobs(comps, es, 0));
        let mut i: usize = 0;
        while n >= 2 && i < n - 2
            invariant
                n == firmwares@.len(),
                comps == components_of(firmwares@),
                comps.len() == n,
                es == table@,
                target == assembled(comps, es, table_bin@, padded, capacity as nat),
                run_jobs(image@, ota_jobs(comps, es, i as nat), padded) == target,
            decreases n - i,
        {
            let name = ota_slot_name(i);
            match table.find(name.as_str()) {
                Some(part) => {
                    let offset = part.offset();
                    let ghost job = WriteJob {
                        kind: JobKind::Application,
                        offset: offset as nat,
                        data: comps[i + 2],
                    };
                    assert(ota_jobs(comps, es, i as nat) =~= seq![job] + ota_jobs(
                        comps,
                        es,
                        (i + 1) as nat,
                    ));
                    assert((seq![job] + ota_jobs(comps, es, (i + 1) as nat)).drop_first()
                        =~= ota_jobs(comps, es, (i + 1) as nat));
                    assert((seq![job] + ota_jobs(comps, es, (i + 1) as nat))[0] == job);
                    assert(run_jobs(image@, seq![job] + ota_jobs(comps, es, (i + 1) as nat), padded)
                        == target);
                    let mut d = slice_to_vec(firmwares[i + 2].data.as_slice());
                    assert(d@ == comps[i + 2]);
                    match Esp32P4Processor::process_app_image(d.as_mut_slice(), false) {
                        Err(e) => {
                            return Err(BuildError::Image(e));
                        },
                        Ok(()) => {},
                    }
                    match Esp32P4Processor::verify_alignment(offset, true) {
                        Err(e) => {
                            return Err(BuildError::Image(e));
                        },
                        Ok(()) => {},
                    }
                    match Self::write_in_mode(&mut image, offset, d.as_slice(), padded) {
                        Err(e) => {
                            return Err(e);
                        },
                        Ok(()) => {},
                    }
                },
                None => {},
            }
            i = i + 1;
        }
        Ok(image)
    }

    /// Encodes `table` in the on-device binary format.
    pub fn serialize_partition_table(table: &PartitionTable) -> (r: Result<Vec<u8>, BuildError>)
        ensures
            table@.len() > MAX_TABLE_ENTRIES ==> (r matches Err(
                BuildError::TableTooLarge { entries },
            ) && entries == table@.len()),
            table@.len() <= MAX_TABLE_ENTRIES ==> (r matches Ok(b) && b@ == partition_table_bin(
                table@,
            ) && b@.len() == ENCODED_TABLE_LEN),
    {
        let entries = table.partitions();
        if entries.len() > MAX_TABLE_ENTRIES {
            return Err(BuildError::TableTooLarge { entries: entries.len() });
        }
        Ok(encode_table_bin(entries).unwrap())
    }

    /// Lays out the partition table for `firmwares`, then assembles the image:
    /// padded to the full capacity or of minimal length, as `config` asks.
    pub fn build_flash_image(firmwares: &[FirmwareBinary], config: &Config) -> (r: Result<
        Vec<u8>,
        BuildError,
    >)
        ensures
            match layout_outcome(
                sizes_of(firmwares@),
                config.flash_size.spec_size_bytes() as nat,
                config.max_ota_partitions as nat,
            ) {
                Err(f) => r matches Err(BuildError::Layout(e)) && e@ == f,
                Ok(es) => if es.len() > MAX_TABLE_ENTRIES {
                    r matches Err(BuildError::TableTooLarge { entries }) && entries == es.len()
                } else {
                    result_view(r) == assembled(
                        components_of(firmwares@),
                        es,
                        partition_table_bin(es),
                        config.pad_flash,
                        config.flash_size.spec_size_bytes() as nat,
                    )
                },
            },
    {
        let table = match PartitionGenerator::generate_table(firmwares, config) {
            Ok(t) => t,
            Err(e) => {
                return Err(BuildError::Layout(e));
            },
        };
        let bin = match Self::serialize_partition_table(&table) {
            Ok(b) => b,
            Err(e) => {
                return Err(e);
            },
        };
        Self::assemble(
            firmwares,
            &table,
            bin.as_slice(),
            config.pad_flash,
            config.flash_size.size_bytes(),
        )
    }
}

/// The table laid out for a placeholder bootloader and a 1 MiB factory
/// application, which a standalone partition table describes.
pub open spec fn placeholder_table() -> Seq<EntryModel> {
    fixed_entries().push(factory_entry(PLACEHOLDER_FACTORY_LEN as u32))
}

/// Length of the placeholder bootloader.
pub const PLACEHOLDER_BOOTLOADER_LEN: usize = 0x8000;

/// Length of the placeholder factory application.
pub const PLACEHOLDER_FACTORY_LEN: usize = 0x10_0000;

impl ImageBuilder {
    /// Lays out the table for a placeholder bootloader and factory application.
    fn placeholder_layout(config: &Config) -> (r: PartitionTable)
        ensures
            r@ == placeholder_table(),
    {
        let bootloader = FirmwareBinary::new(
            String::from_str("bootloader"),
            config.firmware_dir.clone().concat("/dummy-bootloader.bin"),
            vec![0u8; PLACEHOLDER_BOOTLOADER_LEN],
            1,
        );
        let factory = FirmwareBinary::new(
            String::from_str("factory"),
            config.firmware_dir.clone().concat("/dummy-factory.bin"),
            vec![0u8; PLACEHOLDER_FACTORY_LEN],
            2,
        );
        let firmwares = vec![bootloader, factory];
        proof {
            let sizes = sizes_of(firmwares@);
            assert(sizes.len() == 2);
            assert(sizes[1] == PLACEHOLDER_FACTORY_LEN as u32);
            assert(aligned_up(0x10_0000, OTA_ALIGNMENT as nat) == 0x10_0000) by (nonlinear_arith);
            lemma_factory_only_layout(
                sizes,
                config.flash_size.spec_size_bytes() as nat,
                config.max_ota_partitions as nat,
            );
        }
        match PartitionGenerator::generate_table(firmwares.as_slice(), config) {
            Ok(t) => t,
            Err(_) => {
                proof {
                    assert(false);
                }
                PartitionTable::new(Vec::new())
            },
        }
    }

    /// The standalone partition table in the on-device binary format.
    pub fn build_partition_table_only(config: &Config) -> (r: Result<Vec<u8>, BuildError>)
        ensures
            r matches Ok(b) && b@ == partition_table_bin(placeholder_table()) && b@.len()
                == ENCODED_TABLE_LEN,
    {
        let table = Self::placeholder_layout(config);
        Self::serialize_partition_table(&table)
    }

    /// The standalone partition table as tabular text.
    pub fn build_partition_table_csv(config: &Config) -> (r: Result<String, BuildError>)
        ensures
            r matches Ok(s) && s@ == partition_table_csv(placeholder_table()),
    {
        let table = Self::placeholder_layout(config);
        Ok(encode_table_csv(table.partitions()).unwrap())
    }
}

/// The message of a failure to prepare a component.
pub open spec fn image_message(e: ImageError) -> Seq<char> {
    match e {
        ImageError::Parse(ParseError::TooSmall { len }) => "Image too small for its header ("@
            + decimal(len as nat) + " bytes)"@,
        ImageError::Parse(ParseError::BadMagic { found }) => "Invalid image magic byte "@
            + decimal(found as nat),
        ImageError::Parse(ParseError::TooManySegments { count }) => "Invalid segment count "@
            + decimal(count as nat),
        ImageError::Checksum(ChecksumError::EmptyInput) => "Image data is empty"@,
        ImageError::Checksum(ChecksumError::NoChecksumLocation) => "Cannot find checksum location"@,
        ImageError::Misaligned { len, alignment } => "Image length "@ + decimal(len as nat)
            + " is not a multiple of "@ + decimal(alignment as nat),
        ImageError::UnalignedOffset { offset, alignment } => "Offset "@ + decimal(offset as nat)
            + " not aligned to "@ + decimal(alignment as nat),
    }
}

/// The message of a build failure.
pub open spec fn build_message(e: BuildError) -> Seq<char> {
    match e {
        BuildError::Image(i) => image_message(i),
        BuildError::Layout(l) => layout_message(l),
        BuildError::OutOfBounds { offset, len, image_len } => "Write exceeds flash image bounds: offset="@
            + decimal(offset as nat) + ", size="@ + decimal(len as nat) + ", image_size="@
            + decimal(image_len as nat),
        BuildError::TableTooLarge { entries } => "Partition table has too many entries: "@
            + decimal(entries as nat),
    }
}

/// The message of a failure to prepare a component.
fn image_error_text(e: ImageError) -> (r: String)
    ensures
        r@ == image_message(e),
{
    match e {
        ImageError::Parse(ParseError::TooSmall { len }) => {
            let mut m = String::from_str("Image too small for its header (");
            m.append(decimal_text(len as u64).as_str());
            m.append(" bytes)");
            m
        },
        ImageError::Parse(ParseError::BadMagic { found }) => String::from_str(
            "Invalid image magic byte ",
        ).concat(decimal_text(found as u64).as_str()),
        ImageError::Parse(ParseError::TooManySegments { count }) => String::from_str(
            "Invalid segment count ",
        ).concat(decimal_text(count as u64).as_str()),
        ImageError::Checksum(ChecksumError::EmptyInput) => String::from_str("Image data is empty"),
        ImageError::Checksum(ChecksumError::NoChecksumLocation) => String::from_str(
            "Cannot find checksum location",
        ),
        ImageError::Misaligned { len, alignment } => {
            let mut m = String::from_str("Image length ");
            m.append(decimal_text(len as u64).as_str());
            m.append(" is not a multiple of ");
            m.append(decimal_text(alignment as u64).as_str());
            m
        },
        ImageError::UnalignedOffset { offset, alignment } => {
            let mut m = String::from_str("Offset ");
            m.append(decimal_text(offset as u64).as_str());
            m.append(" not aligned to ");
            m.append(decimal_text(alignment as u64).as_str());
            m
        },
    }
}

impl BuildError {
    /// The message that describes the failure.
    pub fn to_string(&self) -> (r: String)
        ensures
            r@ == build_message(*self),
    {
        match self {
            BuildError::Image(i) => image_error_text(*i),
            BuildError::Layout(l) => l.to_string(),
            BuildError::OutOfBounds { offset, len, image_len } => {
                let mut m = String::from_str("Write exceeds flash image bounds: offset=");
                m.append(decimal_text(*offset as u64).as_str());
                m.append(", size=");
                m.append(decimal_text(*len as u64).as_str());
                m.append(", image_size=");
                m.append(decimal_text(*image_len as u64).as_str());
                m
            },
            BuildError::TableTooLarge { entries } => String::from_str(
                "Partition table has too many entries: ",
            ).concat(decimal_text(*entries as u64).as_str()),
        }
    }
}

} // verus!
