//! Inspection of a finished image or a raw flash dump: each fixed region is
//! located, sized by its own header where it has one, and its checksum checked.

use vstd::prelude::*;
use vstd::slice::{slice_subrange, slice_to_vec};
use crate::config::{BOOTLOADER_OFFSET, FACTORY_OFFSET, FACTORY_SIZE, NVS_OFFSET, PARTITION_TABLE_OFFSET};
use crate::config::BOOTLOADER_SIZE;
use crate::esp32::{
    EspChecksum, ERASED_BYTE, IMAGE_MAGIC, checksum_location, checksum_of, declared_header_len,
    descriptor_offset, header_accepted, header_error, image_size_of, le_u32_at, parse_header,
    patched, processed_app, segment_data_sum, segment_table_start, verified, walked_segments,
};
use crate::image::{
    JobKind, WriteJob, assembled, grown, initial_image, job_bytes, ota_jobs, run_jobs, write_at,
    write_jobs,
};
use crate::partition::{
    EntryModel, aligned_up, first_named, first_named_from, layout_outcome, lemma_aligned_up_covers,
    lemma_slots_follow_factory, ota_start, slot_name,
};

verus! {

/// First byte of a partition-table record.
pub const TABLE_MAGIC_0: u8 = 0xAA;

/// Second byte of a partition-table record.
pub const TABLE_MAGIC_1: u8 = 0x50;

/// First two bytes of the record that closes the table's entries.
pub const TABLE_END_MARKER: u8 = 0xEB;

/// Size of one partition-table record.
pub const TABLE_RECORD_LEN: usize = 32;

/// Candidate OTA slots that a detailed inspection looks at.
pub const OTA_SCAN_SLOTS: usize = 16;

/// Unit to which slot sizes are rounded up.
pub const SLOT_ALIGNMENT: usize = 0x1_0000;

/// What to inspect.
#[derive(Clone, Copy, Debug, PartialEq, Eq, Structural)]
pub struct InspectOptions {
    /// Also scan the candidate OTA slots and report the used length.
    pub detailed: bool,
    /// Check each region's stored checksum.
    pub verify_checksums: bool,
}

/// The outcome of checking a region's stored checksum.
#[derive(Clone, Copy, Debug, PartialEq, Eq, Structural)]
pub enum ChecksumStatus {
    /// Not asked for.
    NotChecked,
    Valid,
    /// The stored byte differs; `calculated` is the checksum of all bytes but
    /// the region's last, when there is at least one.
    Invalid { calculated: Option<u8> },
    /// No checksum location could be found.
    Unverifiable,
}

/// A located region.
#[derive(Clone, Copy, Debug, PartialEq, Eq, Structural)]
pub struct RegionReport {
    pub offset: usize,
    pub len: usize,
    /// The region's first byte.
    pub magic: u8,
    pub magic_valid: bool,
    /// Whether the length comes from the region's own header.
    pub sized_by_header: bool,
    /// The region's last byte.
    pub stored_checksum: u8,
    pub checksum: ChecksumStatus,
}

/// The partition-table region.
#[derive(Clone, Debug)]
pub struct TableReport {
    pub offset: usize,
    pub len: usize,
    pub magic_valid: bool,
    /// Records before the end marker that open with the record magic.
    pub entry_count: usize,
    /// The name field of each counted full record, trailing zero bytes removed.
    pub names: Vec<Vec<u8>>,
}

/// A candidate OTA slot that holds an image.
#[derive(Clone, Copy, Debug, PartialEq, Eq, Structural)]
pub struct OtaReport {
    pub slot: usize,
    pub region: RegionReport,
}

/// What an inspection found.
#[derive(Clone, Debug)]
pub struct InspectionReport {
    pub image_len: usize,
    pub bootloader: Option<RegionReport>,
    pub partition_table: Option<TableReport>,
    pub factory: Option<RegionReport>,
    /// Filled only for a detailed inspection.
    pub ota: Vec<OtaReport>,
    /// One past the last byte that is not an erase-state byte.
    pub used_len: usize,
}

/// The span `[start, end)` that the region at `start` covers: up to the end of
/// the image its header declares when it opens with the magic and a readable
/// header, else up to `next` (both cut at the end of `d`); none when `d` ends
/// before `start`.
pub open spec fn region_span(d: Seq<u8>, start: nat, next: nat) -> Option<(nat, nat)> {
    if start >= d.len() {
        None
    } else if d[start as int] == IMAGE_MAGIC && header_error(d.subrange(start as int, d.len() as int)) is None {
        let size = image_size_of(d.subrange(start as int, d.len() as int));
        Some((start, if start + size < d.len() { start + size } else { d.len() }))
    } else {
        let end = if next < d.len() { next } else { d.len() };
        if end > start { Some((start, end)) } else { None }
    }
}

/// Whether the span at `start` comes from the region's own header.
pub open spec fn span_from_header(d: Seq<u8>, start: nat) -> bool {
    start < d.len() && d[start as int] == IMAGE_MAGIC && header_error(d.subrange(start as int, d.len() as int)) is None
}

/// The checksum status of region bytes `s`.
pub open spec fn checksum_status(s: Seq<u8>, verify: bool) -> ChecksumStatus {
    if !verify {
        ChecksumStatus::NotChecked
    } else {
        match verified(s) {
            Ok(true) => ChecksumStatus::Valid,
            Ok(false) => ChecksumStatus::Invalid {
                calculated: if s.len() > 1 { Some(checksum_of(s.take(s.len() - 1))) } else { None },
            },
            Err(_) => ChecksumStatus::Unverifiable,
        }
    }
}

/// The report on the region that `span` locates in `d`.
pub open spec fn region_report(d: Seq<u8>, span: (nat, nat), header: bool, verify: bool) -> RegionReport {
    RegionReport {
        offset: span.0 as usize,
        len: (span.1 - span.0) as usize,
        magic: d[span.0 as int],
        magic_valid: d[span.0 as int] == IMAGE_MAGIC,
        sized_by_header: header,
        stored_checksum: d[span.1 - 1],
        checksum: checksum_status(d.subrange(span.0 as int, span.1 as int), verify),
    }
}

/// What inspecting the region at `start` reports.
pub open spec fn region_outcome(d: Seq<u8>, start: nat, next: nat, verify: bool) -> Option<RegionReport> {
    match region_span(d, start, next) {
        None => None,
        Some(span) => Some(region_report(d, span, span_from_header(d, start), verify)),
    }
}

/// The record of table bytes `s` that starts at `a` (the last may be short).
pub open spec fn record(s: Seq<u8>, a: nat) -> Seq<u8> {
    let b = a + TABLE_RECORD_LEN;
    s.subrange(a as int, if b < s.len() { b as int } else { s.len() as int })
}

/// Whether record bytes `c` open with the record magic.
pub open spec fn is_entry_record(c: Seq<u8>) -> bool {
    c.len() >= 2 && c[0] == TABLE_MAGIC_0 && c[1] == TABLE_MAGIC_1
}

/// Whether record bytes `c` open with the end marker.
pub open spec fn is_end_record(c: Seq<u8>) -> bool {
    c.len() >= 2 && c[0] == TABLE_END_MARKER && c[1] == TABLE_END_MARKER
}

/// `c` without its trailing zero bytes.
pub open spec fn trim_zeros(c: Seq<u8>) -> Seq<u8>
    decreases c.len(),
{
    if c.len() > 0 && c.last() == 0 {
        trim_zeros(c.drop_last())
    } else {
        c
    }
}

/// The name field of an entry record (empty when the record is cut short).
pub open spec fn record_name(c: Seq<u8>) -> Seq<u8> {
    if c.len() >= 28 {
        trim_zeros(c.subrange(12, 28))
    } else {
        Seq::empty()
    }
}

/// The entry records of `s` from the record at `a` on, up to the end marker.
pub open spec fn entry_records_from(s: Seq<u8>, a: nat) -> Seq<Seq<u8>>
    decreases s.len() + TABLE_RECORD_LEN - a,
{
    if a >= s.len() {
        Seq::empty()
    } else {
        let c = record(s, a);
        if is_entry_record(c) {
            seq![c] + entry_records_from(s, (a + TABLE_RECORD_LEN) as nat)
        } else if is_end_record(c) {
            Seq::empty()
        } else {
            entry_records_from(s, (a + TABLE_RECORD_LEN) as nat)
        }
    }
}

/// Index one past the last byte of `d` that is not an erase-state byte (0 if none).
pub open spec fn used_len_of(d: Seq<u8>, n: int) -> int
    decreases n,
{
    if n <= 0 {
        0
    } else if d[n - 1] != ERASED_BYTE {
        n
    } else {
        used_len_of(d, n - 1)
    }
}

/// The last used byte's successor.
pub fn find_last_used_byte(image_data: &[u8]) -> (r: usize)
    ensures
        r == used_len_of(image_data@, image_data@.len() as int),
        r <= image_data@.len(),
        forall|k: int| r <= k < image_data@.len() ==> image_data@[k] == ERASED_BYTE,
        r > 0 ==> image_data@[r - 1] != ERASED_BYTE,
{
    let mut n = image_data.len();
    while n > 0 && image_data[n - 1] == ERASED_BYTE
        invariant
            n <= image_data@.len(),
            used_len_of(image_data@, n as int) == used_len_of(image_data@, image_data@.len() as int),
            forall|k: int| n <= k < image_data@.len() ==> image_data@[k] == ERASED_BYTE,
        decreases n,
    {
        n = n - 1;
    }
    n
}

/// The checksum status of region bytes `s`.
fn region_checksum(s: &[u8], verify: bool) -> (r: ChecksumStatus)
    ensures
        r == checksum_status(s@, verify),
{
    if !verify {
        return ChecksumStatus::NotChecked;
    }
    match EspChecksum::verify_checksum(s) {
        Ok(true) => ChecksumStatus::Valid,
        Ok(false) => {
            let calculated = if s.len() > 1 {
                match EspChecksum::calculate_checksum(slice_subrange(s, 0, s.len() - 1)) {
                    Ok(c) => Some(c),
                    Err(_) => None,
                }
            } else {
                None
            };
            proof {
                if s@.len() > 1 {
                    assert(s@.subrange(0, s@.len() - 1) == s@.take(s@.len() - 1));
                }
            }
            ChecksumStatus::Invalid { calculated }
        },
        Err(_) => ChecksumStatus::Unverifiable,
    }
}

/// Locates and reports the region at `start`, bounded by `next` when its
/// header cannot size it.
pub fn get_component_at_offset(
    image_data: &[u8],
    start_offset: usize,
    next_component_offset: usize,
    verify: bool,
) -> (r: Option<RegionReport>)
    ensures
        r == region_outcome(image_data@, start_offset as nat, next_component_offset as nat, verify),
{
    let len = image_data.len();
    if start_offset >= len {
        return None;
    }
    let mut end: usize = if next_component_offset < len {
        next_component_offset
    } else {
        len
    };
    let mut by_header = false;
    if image_data[start_offset] == IMAGE_MAGIC {
        let tail = slice_subrange(image_data, start_offset, len);
        match parse_header(tail) {
            Ok(h) => {
                by_header = true;
                end = if h.image_size < (len - start_offset) as u64 {
                    start_offset + h.image_size as usize
                } else {
                    len
                };
            },
            Err(_) => {},
        }
    }
    if end <= start_offset {
        return None;
    }
    let span = slice_subrange(image_data, start_offset, end);
    let checksum = region_checksum(span, verify);
    Some(
        RegionReport {
            offset: start_offset,
            len: end - start_offset,
            magic: image_data[start_offset],
            magic_valid: image_data[start_offset] == IMAGE_MAGIC,
            sized_by_header: by_header,
            stored_checksum: image_data[end - 1],
            checksum,
        },
    )
}

/// `c` without its trailing zero bytes.
fn trimmed_zeros(c: &[u8]) -> (r: Vec<u8>)
    ensures
        r@ == trim_zeros(c@),
{
    let mut n = c.len();
    assert(c@.take(n as int) =~= c@);
    while n > 0 && c[n - 1] == 0
        invariant
            n <= c@.len(),
            trim_zeros(c@.take(n as int)) == trim_zeros(c@),
        decreases n,
    {
        assert(c@.take(n as int).drop_last() =~= c@.take(n - 1));
        n = n - 1;
    }
    let head = slice_subrange(c, 0, n);
    assert(head@ =~= c@.take(n as int));
    slice_to_vec(head)
}

/// The name field of record bytes `c`.
fn name_of_record(c: &[u8]) -> (r: Vec<u8>)
    ensures
        r@ == record_name(c@),
{
    if c.len() >= 28 {
        trimmed_zeros(slice_subrange(c, 12, 28))
    } else {
        Vec::new()
    }
}

/// Scans table bytes `s` record by record up to the end marker: how many
/// entry records there are, and their names.
pub fn scan_partition_records(s: &[u8]) -> (r: (usize, Vec<Vec<u8>>))
    ensures
        r.0 == entry_records_from(s@, 0).len(),
        r.1@.len() == r.0,
        forall|k: int| 0 <= k < r.0 ==> #[trigger] r.1@[k]@ == record_name(entry_records_from(s@, 0)[k]),
{
    let len = s.len();
    let mut a: usize = 0;
    let mut stop = false;
    let mut names: Vec<Vec<u8>> = Vec::new();
    let ghost mut got: Seq<Seq<u8>> = Seq::empty();
    while a < len && !stop
        invariant
            len == s@.len(),
            a <= len,
            stop ==> entry_records_from(s@, a as nat) == Seq::<Seq<u8>>::empty(),
            entry_records_from(s@, 0) == got + entry_records_from(s@, a as nat),
            names@.len() == got.len(),
            forall|k: int| 0 <= k < got.len() ==> #[trigger] names@[k]@ == record_name(got[k]),
        decreases len - a + if stop { 0int } else { 1int },
    {
        let end: usize = if len - a < TABLE_RECORD_LEN {
            len
        } else {
            a + TABLE_RECORD_LEN
        };
        let c = slice_subrange(s, a, end);
        assert(c@ == record(s@, a as nat));
        let ghost next = (a + TABLE_RECORD_LEN) as nat;
        assert(entry_records_from(s@, next) == entry_records_from(s@, end as nat)) by {
            if end < next {
                assert(end == len);
            }
        }
        if c.len() >= 2 && c[0] == TABLE_MAGIC_0 && c[1] == TABLE_MAGIC_1 {
            let name = name_of_record(c);
            names.push(name);
            proof {
                assert(entry_records_from(s@, a as nat) == seq![c@] + entry_records_from(s@, next));
                assert(got + (seq![c@] + entry_records_from(s@, next)) =~= got.push(c@)
                    + entry_records_from(s@, next));
                got = got.push(c@);
            }
            a = end;
        } else if c.len() >= 2 && c[0] == TABLE_END_MARKER && c[1] == TABLE_END_MARKER {
            stop = true;
        } else {
            a = end;
        }
    }
    proof {
        if !stop {
            assert(entry_records_from(s@, a as nat) == Seq::<Seq<u8>>::empty());
        }
        assert(got + Seq::<Seq<u8>>::empty() =~= got);
    }
    (names.len(), names)
}

/// The candidate OTA slots from `cursor` on, numbered from `i`. A slot is
/// taken when a header sizes the region there; the next candidate follows at
/// that length rounded up to the slot alignment, as the layout packs slots.
pub open spec fn ota_chain(d: Seq<u8>, cursor: nat, i: nat, verify: bool) -> Seq<OtaReport>
    decreases OTA_SCAN_SLOTS - i,
{
    if i >= OTA_SCAN_SLOTS || !span_from_header(d, cursor) {
        Seq::empty()
    } else {
        let rep = region_outcome(d, cursor, cursor, verify)->Some_0;
        let next = cursor + aligned_up(rep.len as nat, SLOT_ALIGNMENT as nat);
        seq![OtaReport { slot: i as usize, region: rep }] + ota_chain(d, next, i + 1, verify)
    }
}

/// The OTA slots a detailed inspection reports: the chain that starts right
/// after the factory region, when a header sizes that region.
pub open spec fn ota_reports(d: Seq<u8>, verify: bool) -> Seq<OtaReport> {
    let f = region_outcome(d, FACTORY_OFFSET as nat, (FACTORY_OFFSET + FACTORY_SIZE) as nat, verify);
    if f is Some && f->Some_0.sized_by_header {
        ota_chain(d, (FACTORY_OFFSET + aligned_up(f->Some_0.len as nat, SLOT_ALIGNMENT as nat)) as nat, 0, verify)
    } else {
        Seq::empty()
    }
}

/// The table region's span: from its offset up to the factory offset, cut
/// at the end of `d`.
pub open spec fn table_span_end(d: Seq<u8>) -> nat {
    if (FACTORY_OFFSET as nat) < d.len() {
        FACTORY_OFFSET as nat
    } else {
        d.len()
    }
}

/// Inspects `raw`, never failing: a region that is missing or unreadable is
/// reported as such.
pub fn inspect(raw: &[u8], options: InspectOptions) -> (r: InspectionReport)
    ensures
        r.image_len == raw@.len(),
        r.bootloader == region_outcome(
            raw@,
            BOOTLOADER_OFFSET as nat,
            NVS_OFFSET as nat,
            options.verify_checksums,
        ),
        r.factory == region_outcome(
            raw@,
            FACTORY_OFFSET as nat,
            (FACTORY_OFFSET + FACTORY_SIZE) as nat,
            options.verify_checksums,
        ),
        (PARTITION_TABLE_OFFSET as nat) < raw@.len() ==> (r.partition_table matches Some(t) && ({
            let s = raw@.subrange(PARTITION_TABLE_OFFSET as int, table_span_end(raw@) as int);
            &&& t.offset == PARTITION_TABLE_OFFSET
            &&& t.len == s.len()
            &&& t.magic_valid == is_entry_record(s)
            &&& t.entry_count == entry_records_from(s, 0).len()
            &&& t.names@.len() == t.entry_count
            &&& forall|k: int|
                0 <= k < t.entry_count ==> #[trigger] t.names@[k]@ == record_name(
                    entry_records_from(s, 0)[k],
                )
        })),
        (PARTITION_TABLE_OFFSET as nat) >= raw@.len() ==> r.partition_table is None,
        options.detailed ==> r.ota@ == ota_reports(raw@, options.verify_checksums),
        !options.detailed ==> r.ota@.len() == 0,
        r.used_len == used_len_of(raw@, raw@.len() as int),
{
    let len = raw.len();
    let verify = options.verify_checksums;
    let bootloader = get_component_at_offset(
        raw,
        BOOTLOADER_OFFSET as usize,
        NVS_OFFSET as usize,
        verify,
    );
    let pt_start = PARTITION_TABLE_OFFSET as usize;
    let partition_table = if pt_start < len {
        let end: usize = if (FACTORY_OFFSET as usize) < len {
            FACTORY_OFFSET as usize
        } else {
            len
        };
        let s = slice_subrange(raw, pt_start, end);
        let (entry_count, names) = scan_partition_records(s);
        let magic_valid = s.len() >= 2 && s[0] == TABLE_MAGIC_0 && s[1] == TABLE_MAGIC_1;
        Some(TableReport { offset: pt_start, len: end - pt_start, magic_valid, entry_count, names })
    } else {
        None
    };
    let factory = get_component_at_offset(
        raw,
        FACTORY_OFFSET as usize,
        (FACTORY_OFFSET + FACTORY_SIZE) as usize,
        verify,
    );
    let mut ota: Vec<OtaReport> = Vec::new();
    if options.detailed {
        if let Some(f) = factory {
            if f.sized_by_header {
                let start: u128 = FACTORY_OFFSET as u128 + (f.len as u128 + 0xFFFF) / 0x1_0000
                    * 0x1_0000;
                assert(start == FACTORY_OFFSET + aligned_up(f.len as nat, SLOT_ALIGNMENT as nat));
                if start < len as u128 {
                    let mut cursor: usize = start as usize;
                    let mut i: usize = 0;
                    while i < OTA_SCAN_SLOTS
                        invariant
                            len == raw@.len(),
                            i <= OTA_SCAN_SLOTS,
                            verify == options.verify_checksums,
                            ota_chain(raw@, start as nat, 0, verify) == ota@ + ota_chain(
                                raw@,
                                cursor as nat,
                                i as nat,
                                verify,
                            ),
                        decreases OTA_SCAN_SLOTS - i,
                    {
                        let ghost before = ota@;
                        match get_component_at_offset(raw, cursor, cursor, verify) {
                            Some(rep) => {
                                if rep.sized_by_header {
                                    ota.push(OtaReport { slot: i, region: rep });
                                    let next: u128 = cursor as u128 + (rep.len as u128 + 0xFFFF)
                                        / 0x1_0000 * 0x1_0000;
                                    let ghost rest = ota_chain(raw@, next as nat, (i + 1) as nat, verify);
                                    assert(before + (seq![OtaReport { slot: i, region: rep }] + rest)
                                        =~= ota@ + rest);
                                    if next < len as u128 {
                                        cursor = next as usize;
                                        i = i + 1;
                                    } else {
                                        assert(rest == Seq::<OtaReport>::empty());
                                        i = OTA_SCAN_SLOTS;
                                    }
                                } else {
                                    i = OTA_SCAN_SLOTS;
                                }
                            },
                            None => {
                                i = OTA_SCAN_SLOTS;
                            },
                        }
                    }
                }
            }
        }
        assert(ota@ + Seq::<OtaReport>::empty() =~= ota@);
    }
    let used_len = find_last_used_byte(raw);
    InspectionReport { image_len: len, bootloader, partition_table, factory, ota, used_len }
}

/// Whether `d` is a complete image: an accepted header, every declared
/// descriptor present, and the whole declared size held.
pub open spec fn complete_image(d: Seq<u8>) -> bool {
    &&& header_accepted(d)
    &&& walked_segments(d) == d[1]
    &&& image_size_of(d) <= d.len()
}

/// A write changes only the span it writes, and the buffer never shrinks.
proof fn lemma_write_at_frame(buf: Seq<u8>, off: nat, d: Seq<u8>, padded: bool)
    requires
        write_at(buf, off, d, padded) is Ok,
    ensures
        ({
            let b = write_at(buf, off, d, padded)->Ok_0;
            &&& b.len() >= buf.len()
            &&& b.len() >= off + d.len()
            &&& forall|i: int|
                0 <= i < buf.len() && !(off <= i < off + d.len()) ==> #[trigger] b[i] == buf[i]
            &&& forall|i: int| off <= i < off + d.len() ==> #[trigger] b[i] == d[i - off]
        }),
{
    let g = grown(buf, off + d.len());
    assert forall|i: int| 0 <= i < buf.len() implies #[trigger] g[i] == buf[i] by {
        if buf.len() < off + d.len() {
            assert(g[i] == (buf + Seq::new((off + d.len() - buf.len()) as nat, |k: int| ERASED_BYTE))[i]);
        }
    }
}

/// Jobs that all write at or after `b` leave the first `b` bytes as they were.
proof fn lemma_run_jobs_keeps_prefix(buf: Seq<u8>, jobs: Seq<WriteJob>, padded: bool, b: int)
    requires
        run_jobs(buf, jobs, padded) is Ok,
        0 <= b <= buf.len(),
        forall|k: int| 0 <= k < jobs.len() ==> #[trigger] jobs[k].offset >= b,
    ensures
        run_jobs(buf, jobs, padded)->Ok_0.len() >= buf.len(),
        forall|i: int| 0 <= i < b ==> #[trigger] run_jobs(buf, jobs, padded)->Ok_0[i] == buf[i],
    decreases jobs.len(),
{
    if jobs.len() > 0 {
        let j = jobs[0];
        let d = job_bytes(j)->Ok_0;
        let b1 = write_at(buf, j.offset, d, padded)->Ok_0;
        lemma_write_at_frame(buf, j.offset, d, padded);
        let rest = jobs.drop_first();
        assert forall|k: int| 0 <= k < rest.len() implies #[trigger] rest[k].offset >= b by {
            assert(rest[k] == jobs[k + 1]);
        }
        lemma_run_jobs_keeps_prefix(b1, rest, padded, b);
    }
}

/// Two byte sequences that agree on a complete header's bytes decode to the same size.
proof fn lemma_header_prefix(d1: Seq<u8>, d2: Seq<u8>, n: int)
    requires
        header_accepted(d1),
        walked_segments(d1) == d1[1],
        declared_header_len(d1) <= n <= d1.len(),
        n <= d2.len(),
        forall|i: int| 0 <= i < n ==> d1[i] == #[trigger] d2[i],
    ensures
        header_error(d2) is None,
        image_size_of(d2) == image_size_of(d1),
{
    assert(d1[0] == d2[0] && d1[1] == d2[1] && d1[3] == d2[3]);
    let start = segment_table_start(d1);
    let count = d1[1] as int;
    assert(segment_table_start(d2) == start);
    assert(((d2.len() - start) as nat) / 8 >= count) by (nonlinear_arith)
        requires
            d2.len() - start >= 8 * count,
            count >= 0,
    ;
    assert(walked_segments(d2) == count);
    lemma_segment_sums_agree(d1, d2, n, count as nat);
}

/// The segment sums agree while the descriptors read lie in the agreeing prefix.
proof fn lemma_segment_sums_agree(d1: Seq<u8>, d2: Seq<u8>, n: int, k: nat)
    requires
        d1.len() >= 4 && d2.len() >= 4,
        d1[3] == d2[3],
        segment_table_start(d1) + 8 * k <= n,
        n <= d1.len(),
        n <= d2.len(),
        forall|i: int| 0 <= i < n ==> d1[i] == #[trigger] d2[i],
    ensures
        segment_data_sum(d1, k) == segment_data_sum(d2, k),
    decreases k,
{
    if k > 0 {
        lemma_segment_sums_agree(d1, d2, n, (k - 1) as nat);
        let o = descriptor_offset(d1, k - 1) + 4;
        assert(descriptor_offset(d2, k - 1) + 4 == o);
        assert(d1[o] == d2[o] && d1[o + 1] == d2[o + 1] && d1[o + 2] == d2[o + 2] && d1[o + 3]
            == d2[o + 3]);
        assert(le_u32_at(d1, o) == le_u32_at(d2, o));
    }
}


/// The search for a name stops at an entry of that name.
proof fn lemma_first_named_from(es: Seq<EntryModel>, name: Seq<char>, i: int)
    ensures
        first_named_from(es, name, i) matches Some(k) ==> 0 <= k < es.len() && es[k].name == name,
    decreases es.len() - i,
{
    if 0 <= i < es.len() && es[i].name != name {
        lemma_first_named_from(es, name, i + 1);
    }
}

/// OTA writes go to regions named after their slots, so when every such
/// region starts at or after `b`, so does every OTA write.
proof fn lemma_ota_jobs_after(comps: Seq<Seq<u8>>, es: Seq<EntryModel>, i: nat, b: int)
    requires
        forall|k: int, j: nat|
            0 <= k < es.len() && #[trigger] es[k].name == #[trigger] slot_name(j) ==> es[k].offset >= b,
    ensures
        forall|k: int|
            0 <= k < ota_jobs(comps, es, i).len() ==> #[trigger] ota_jobs(comps, es, i)[k].offset >= b,
    decreases comps.len() - i,
{
    if i + 2 < comps.len() {
        lemma_ota_jobs_after(comps, es, i + 1, b);
        let rest = ota_jobs(comps, es, i + 1);
        let all = ota_jobs(comps, es, i);
        lemma_first_named_from(es, slot_name(i), 0);
        match first_named(es, slot_name(i)) {
            Some(m) => {
                assert(es[m].name == slot_name(i));
                assert forall|k: int| 0 <= k < all.len() implies #[trigger] all[k].offset >= b by {
                    if k > 0 {
                        assert(all[k] == rest[k - 1]);
                    }
                }
            },
            None => {},
        }
    }
}

/// Assembling an image and then inspecting it recovers each of the bootloader
/// and factory components: the region at the bootloader offset and the one at
/// the factory offset open with that component's magic byte, and their
/// checksums check out. This holds for complete component images when the
/// bootloader's own checksum is valid and it fits its region, when the
/// factory's checksum byte is where its header says and the patched value is
/// not an erase-state byte, with the table that the builder lays out for the
/// components' sizes.
#[verifier::rlimit(60)]
pub proof fn lemma_assemble_then_inspect(
    comps: Seq<Seq<u8>>,
    sizes: Seq<u32>,
    max_ota: nat,
    blob: Seq<u8>,
    padded: bool,
    cap: nat,
)
    requires
        comps.len() >= 2,
        sizes.len() == comps.len(),
        sizes[1] == comps[1].len(),
        layout_outcome(sizes, cap, max_ota) is Ok,
        complete_image(comps[0]),
        comps[0].len() <= BOOTLOADER_SIZE,
        verified(comps[0].take(image_size_of(comps[0]) as int)) == Ok::<bool, crate::esp32::ChecksumError>(true),
        complete_image(comps[1]),
        checksum_location(comps[1]) == image_size_of(comps[1]) - 1,
        checksum_of(comps[1].take(checksum_location(comps[1]))) != ERASED_BYTE,
        assembled(
            comps,
            layout_outcome(sizes, cap, max_ota)->Ok_0,
            blob,
            padded,
            cap,
        ) is Ok,
    ensures
        ({
            let es = layout_outcome(sizes, cap, max_ota)->Ok_0;
            let img = assembled(comps, es, blob, padded, cap)->Ok_0;
            &&& region_outcome(img, BOOTLOADER_OFFSET as nat, NVS_OFFSET as nat, true) matches Some(r)
                && r.magic == comps[0][0] && r.checksum == ChecksumStatus::Valid
            &&& region_outcome(img, FACTORY_OFFSET as nat, (FACTORY_OFFSET + FACTORY_SIZE) as nat, true)
                matches Some(r) && r.magic == comps[1][0] && r.checksum == ChecksumStatus::Valid
        }),
{
    let es = layout_outcome(sizes, cap, max_ota)->Ok_0;
    let c0 = comps[0];
    let c1 = comps[1];
    lemma_slots_follow_factory(sizes, cap, max_ota);
    lemma_aligned_up_covers(sizes[1] as nat, 0x1_0000);
    assert(ota_start(sizes) >= FACTORY_OFFSET + c1.len());
    lemma_ota_jobs_after(comps, es, 0, FACTORY_OFFSET + c1.len());
    let img0 = initial_image(padded, cap);
    let boot = WriteJob { kind: JobKind::Bootloader, offset: BOOTLOADER_OFFSET as nat, data: c0 };
    let table = WriteJob { kind: JobKind::Table, offset: PARTITION_TABLE_OFFSET as nat, data: blob };
    let fac = WriteJob { kind: JobKind::Application, offset: FACTORY_OFFSET as nat, data: c1 };
    let ota = ota_jobs(comps, es, 0);
    let jobs = write_jobs(comps, es, blob);
    let after_boot = seq![table] + (seq![fac] + ota);
    let after_table = seq![fac] + ota;
    assert(jobs =~= seq![boot] + after_boot);
    assert(jobs[0] == boot);
    assert(jobs.drop_first() =~= after_boot);
    assert(after_boot[0] == table);
    assert(after_boot.drop_first() =~= after_table);
    assert(after_table[0] == fac);
    assert(after_table.drop_first() =~= ota);

    // The bootloader write.
    assert(job_bytes(boot) == Ok::<Seq<u8>, crate::image::BuildFault>(c0));
    assert(write_at(img0, BOOTLOADER_OFFSET as nat, c0, padded) is Ok);
    let img1 = write_at(img0, BOOTLOADER_OFFSET as nat, c0, padded)->Ok_0;
    lemma_write_at_frame(img0, BOOTLOADER_OFFSET as nat, c0, padded);
    assert(run_jobs(img0, jobs, padded) == run_jobs(img1, after_boot, padded));
    // The table write.
    assert(job_bytes(table) == Ok::<Seq<u8>, crate::image::BuildFault>(blob));
    assert(write_at(img1, PARTITION_TABLE_OFFSET as nat, blob, padded) is Ok);
    let img2 = write_at(img1, PARTITION_TABLE_OFFSET as nat, blob, padded)->Ok_0;
    lemma_write_at_frame(img1, PARTITION_TABLE_OFFSET as nat, blob, padded);
    assert(run_jobs(img1, after_boot, padded) == run_jobs(img2, after_table, padded));
    // The factory write.
    assert(job_bytes(fac) is Ok);
    let d3 = job_bytes(fac)->Ok_0;
    let loc = checksum_location(c1);
    let l1 = image_size_of(c1);
    assert(processed_app(c1, false) == Ok::<Seq<u8>, crate::esp32::ImageError>(d3));
    assert(d3 == c1.update(loc, checksum_of(c1.take(loc))));
    let img3 = write_at(img2, FACTORY_OFFSET as nat, d3, padded)->Ok_0;
    lemma_write_at_frame(img2, FACTORY_OFFSET as nat, d3, padded);
    assert(run_jobs(img0, jobs, padded) == run_jobs(img3, ota, padded));
    // The OTA writes.
    let fend = FACTORY_OFFSET + c1.len();
    lemma_run_jobs_keeps_prefix(img3, ota, padded, fend);
    let img = run_jobs(img3, ota, padded)->Ok_0;
    assert(img == assembled(comps, es, blob, padded, cap)->Ok_0);

    // The bootloader region.
    let b0 = BOOTLOADER_OFFSET as int;
    let l0 = image_size_of(c0);
    let tail0 = img.subrange(b0, img.len() as int);
    assert forall|i: int| 0 <= i < c0.len() implies c0[i] == #[trigger] tail0[i] by {
        assert(img[b0 + i] == img3[b0 + i]);
        assert(img3[b0 + i] == img2[b0 + i]);
        assert(img2[b0 + i] == img1[b0 + i]);
    }
    lemma_header_prefix(c0, tail0, c0.len() as int);
    assert(img.subrange(b0, b0 + l0) =~= c0.take(l0 as int)) by {
        assert forall|i: int| 0 <= i < l0 implies img.subrange(b0, b0 + l0)[i] == c0[i] by {
            assert(tail0[i] == c0[i]);
        }
    }
    assert(img[b0] == c0[0]) by {
        assert(tail0[0] == c0[0]);
    }

    // The factory region.
    let f0 = FACTORY_OFFSET as int;
    let tail1 = img.subrange(f0, img.len() as int);
    assert forall|i: int| 0 <= i < c1.len() implies d3[i] == #[trigger] tail1[i] by {
        assert(img[f0 + i] == img3[f0 + i]);
    }
    assert forall|i: int| 0 <= i < l1 - 1 implies c1[i] == #[trigger] tail1[i] by {
        assert(d3[i] == tail1[i]);
    }
    lemma_header_prefix(c1, tail1, l1 - 1);
    let r1 = img.subrange(f0, f0 + l1);
    assert(r1 =~= d3.take(l1 as int)) by {
        assert forall|i: int| 0 <= i < l1 implies r1[i] == d3[i] by {
            assert(tail1[i] == d3[i]);
        }
    }
    assert(checksum_location(r1) == l1 - 1);
    assert(r1.take(l1 - 1) =~= c1.take(loc));
    assert(img[f0] == c1[0]) by {
        assert(tail1[0] == d3[0]);
    }
}

} // verus!
