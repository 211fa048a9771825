//! The partition table: fixed system regions followed by the factory
//! application and the OTA slots, checked against the flash capacity.

use vstd::prelude::*;
use crate::config::{
    Config, is_flash_capacity, BOOTLOADER_OFFSET, BOOTLOADER_SIZE, PARTITION_TABLE_OFFSET,
    PARTITION_TABLE_SIZE, NVS_OFFSET, NVS_SIZE, OTADATA_OFFSET, OTADATA_SIZE, FACTORY_OFFSET,
    FACTORY_SIZE, OTA_ALIGNMENT,
};
use crate::firmware::FirmwareBinary;

verus! {

/// Coarse region type.
#[derive(Clone, Copy, Debug, PartialEq, Eq, Structural)]
pub enum PartitionKind {
    /// Application code.
    App,
    /// Data.
    Data,
}

/// Subtype tag of a factory application (and of the bootloader region).
pub const SUBTYPE_FACTORY: u8 = 0x00;

/// Subtype tag of the first OTA slot; slot `i` has this plus `i`.
pub const SUBTYPE_OTA_FIRST: u8 = 0x10;

/// Number of distinct OTA subtype tags.
pub const OTA_SUBTYPE_COUNT: usize = 16;

/// Subtype tag of the partition-table region.
pub const SUBTYPE_PHY: u8 = 0x01;

/// Subtype tag of the NVS region.
pub const SUBTYPE_NVS: u8 = 0x02;

/// Subtype tag of the OTA selection data region.
pub const SUBTYPE_OTADATA: u8 = 0x00;

/// What a partition entry describes.
pub struct EntryModel {
    pub name: Seq<char>,
    pub kind: PartitionKind,
    pub subtype: u8,
    pub offset: nat,
    pub size: nat,
}

/// A named, typed region of the flash image.
#[derive(Clone, Debug)]
pub struct PartitionEntry {
    pub name: String,
    pub kind: PartitionKind,
    pub subtype: u8,
    pub offset: u32,
    pub size: u32,
}

impl View for PartitionEntry {
    type V = EntryModel;

    open spec fn view(&self) -> EntryModel {
        EntryModel {
            name: self.name@,
            kind: self.kind,
            subtype: self.subtype,
            offset: self.offset as nat,
            size: self.size as nat,
        }
    }
}

impl PartitionEntry {
    pub fn name(&self) -> (r: String)
        ensures
            r@ == self.name@,
    {
        self.name.clone()
    }

    pub fn offset(&self) -> (r: u32)
        ensures
            r == self.offset,
    {
        self.offset
    }

    pub fn size(&self) -> (r: u32)
        ensures
            r == self.size,
    {
        self.size
    }
}

/// Whether `subtype` is a tag that regions of `kind` may carry.
pub open spec fn subtype_admitted(kind: PartitionKind, subtype: u8) -> bool {
    match kind {
        PartitionKind::App => subtype == SUBTYPE_FACTORY || (SUBTYPE_OTA_FIRST <= subtype <= 0x20),
        PartitionKind::Data => subtype <= 0x06 || (0x80 <= subtype <= 0x83),
    }
}

/// Whether every entry of `es` carries a subtype its kind admits.
pub open spec fn subtypes_admitted(es: Seq<EntryModel>) -> bool {
    forall|i: int| 0 <= i < es.len() ==> subtype_admitted(#[trigger] es[i].kind, es[i].subtype)
}

/// An ordered set of partition entries, each with a subtype its kind admits.
#[derive(Debug)]
pub struct PartitionTable {
    entries: Vec<PartitionEntry>,
}

/// The models of `v`'s entries.
pub open spec fn entry_models(v: Seq<PartitionEntry>) -> Seq<EntryModel> {
    v.map_values(|e: PartitionEntry| e@)
}

impl View for PartitionTable {
    type V = Seq<EntryModel>;

    closed spec fn view(&self) -> Seq<EntryModel> {
        entry_models(self.entries@)
    }
}

/// The first index from `i` on whose entry is named `name`.
pub open spec fn first_named_from(es: Seq<EntryModel>, name: Seq<char>, i: int) -> Option<int>
    decreases es.len() - i,
{
    if i < 0 || i >= es.len() {
        None
    } else if es[i].name == name {
        Some(i)
    } else {
        first_named_from(es, name, i + 1)
    }
}

/// The first index whose entry is named `name`.
pub open spec fn first_named(es: Seq<EntryModel>, name: Seq<char>) -> Option<int> {
    first_named_from(es, name, 0)
}

impl PartitionTable {
    #[verifier::type_invariant]
    spec fn inv(&self) -> bool {
        subtypes_admitted(entry_models(self.entries@))
    }

    pub fn new(entries: Vec<PartitionEntry>) -> (r: Self)
        requires
            subtypes_admitted(entry_models(entries@)),
        ensures
            r@ == entry_models(entries@),
    {
        PartitionTable { entries }
    }

    /// The entries, in table order.
    pub fn partitions(&self) -> (r: &Vec<PartitionEntry>)
        ensures
            entry_models(r@) == self@,
            subtypes_admitted(self@),
    {
        proof {
            use_type_invariant(self);
        }
        &self.entries
    }

    /// The first entry named `name`.
    pub fn find(&self, name: &str) -> (r: Option<&PartitionEntry>)
        ensures
            match first_named(self@, name@) {
                Some(i) => r matches Some(e) && e@ == self@[i],
                None => r is None,
            },
    {
        let mut i: usize = 0;
        while i < self.entries.len()
            invariant
                i <= self.entries@.len(),
                first_named_from(self@, name@, i as int) == first_named(self@, name@),
            decreases self.entries@.len() - i,
        {
            if crate::config::same_text(self.entries[i].name.as_str(), name) {
                return Some(&self.entries[i]);
            }
            i = i + 1;
        }
        None
    }
}

/// `size` rounded up to a multiple of `a`.
pub open spec fn aligned_up(size: nat, a: nat) -> nat {
    if a == 0 {
        size
    } else {
        ((size + a - 1) as nat / a) * a
    }
}

/// The character of decimal digit `d`.
pub open spec fn digit_char(d: nat) -> char {
    ((d % 10 + 48) as u8) as char
}

/// `n` written in decimal, without leading zeros.
pub open spec fn decimal(n: nat) -> Seq<char>
    decreases n,
{
    if n < 10 {
        seq![digit_char(n)]
    } else {
        decimal(n / 10).push(digit_char(n % 10))
    }
}

/// Name of OTA slot `i`.
pub open spec fn slot_name(i: nat) -> Seq<char> {
    seq!['o', 't', 'a', '_'] + decimal(i)
}

/// Subtype tag of OTA slot `i`; past the platform's sixteen tags, the first.
pub open spec fn slot_subtype(i: nat) -> u8 {
    if i < OTA_SUBTYPE_COUNT {
        (SUBTYPE_OTA_FIRST + i) as u8
    } else {
        SUBTYPE_OTA_FIRST
    }
}

/// The one-character text of decimal digit `d`.
fn digit_text(d: u64) -> (r: &'static str)
    requires
        d < 10,
    ensures
        r@ == seq![digit_char(d as nat)],
{
    match d {
        0 => {
            proof {
                reveal_strlit("0");
            }
            "0"
        },
        1 => {
            proof {
                reveal_strlit("1");
            }
            "1"
        },
        2 => {
            proof {
                reveal_strlit("2");
            }
            "2"
        },
        3 => {
            proof {
                reveal_strlit("3");
            }
            "3"
        },
        4 => {
            proof {
                reveal_strlit("4");
            }
            "4"
        },
        5 => {
            proof {
                reveal_strlit("5");
            }
            "5"
        },
        6 => {
            proof {
                reveal_strlit("6");
            }
            "6"
        },
        7 => {
            proof {
                reveal_strlit("7");
            }
            "7"
        },
        8 => {
            proof {
                reveal_strlit("8");
            }
            "8"
        },
        _ => {
            proof {
                reveal_strlit("9");
            }
            "9"
        },
    }
}

/// `n` written in decimal, without leading zeros.
pub(crate) fn decimal_text(n: u64) -> (r: String)
    ensures
        r@ == decimal(n as nat),
    decreases n,
{
    if n < 10 {
        String::from_str(digit_text(n))
    } else {
        let mut t = decimal_text(n / 10);
        t.append(digit_text(n % 10));
        proof {
            assert(decimal(n as nat) == decimal((n / 10) as nat).push(digit_char((n % 10) as nat)));
            assert(t@ =~= decimal(n as nat));
        }
        t
    }
}

/// The name of OTA slot `index`: `ota_` followed by the index in decimal.
pub fn ota_slot_name(index: usize) -> (r: String)
    ensures
        r@ == slot_name(index as nat),
{
    let digits = decimal_text(index as u64);
    let name = String::from_str("ota_").concat(digits.as_str());
    proof {
        reveal_strlit("ota_");
        assert(name@ =~= slot_name(index as nat));
    }
    name
}

/// The message of a layout failure.
pub open spec fn layout_message(e: LayoutError) -> Seq<char> {
    match e {
        LayoutError::InsufficientSpace { name, needed, available, .. } => "Not enough flash space for OTA partition '"@
            + name@ + "' ("@ + decimal(needed as nat) + " bytes needed, "@ + decimal(
            available as nat,
        ) + " bytes available)"@,
        LayoutError::PartitionExceedsCapacity { name, end, capacity } => "Partition '"@ + name@
            + "' exceeds flash size (ends at "@ + decimal(end as nat) + ", flash size: "@
            + decimal(capacity as nat) + ")"@,
        LayoutError::PartitionOverlap { first, second } => "Partition '"@ + first@
            + "' overlaps with partition '"@ + second@ + "'"@,
    }
}

impl LayoutError {
    /// The message that describes the failure.
    pub fn to_string(&self) -> (r: String)
        ensures
            r@ == layout_message(*self),
    {
        match self {
            LayoutError::InsufficientSpace { name, needed, available, .. } => {
                let mut m = String::from_str("Not enough flash space for OTA partition '");
                m.append(name.as_str());
                m.append("' (");
                m.append(decimal_text(*needed).as_str());
                m.append(" bytes needed, ");
                m.append(decimal_text(*available).as_str());
                m.append(" bytes available)");
                m
            },
            LayoutError::PartitionExceedsCapacity { name, end, capacity } => {
                let mut m = String::from_str("Partition '");
                m.append(name.as_str());
                m.append("' exceeds flash size (ends at ");
                m.append(decimal_text(*end).as_str());
                m.append(", flash size: ");
                m.append(decimal_text(*capacity as u64).as_str());
                m.append(")");
                m
            },
            LayoutError::PartitionOverlap { first, second } => {
                let mut m = String::from_str("Partition '");
                m.append(first.as_str());
                m.append("' overlaps with partition '");
                m.append(second.as_str());
                m.append("'");
                m
            },
        }
    }
}

/// The four system regions, at their fixed offsets.
pub open spec fn fixed_entries() -> Seq<EntryModel> {
    seq![
        EntryModel {
            name: "bootloader"@,
            kind: PartitionKind::App,
            subtype: SUBTYPE_FACTORY,
            offset: BOOTLOADER_OFFSET as nat,
            size: BOOTLOADER_SIZE as nat,
        },
        EntryModel {
            name: "partition-table"@,
            kind: PartitionKind::Data,
            subtype: SUBTYPE_PHY,
            offset: PARTITION_TABLE_OFFSET as nat,
            size: PARTITION_TABLE_SIZE as nat,
        },
        EntryModel {
            name: "nvs"@,
            kind: PartitionKind::Data,
            subtype: SUBTYPE_NVS,
            offset: NVS_OFFSET as nat,
            size: NVS_SIZE as nat,
        },
        EntryModel {
            name: "otadata"@,
            kind: PartitionKind::Data,
            subtype: SUBTYPE_OTADATA,
            offset: OTADATA_OFFSET as nat,
            size: OTADATA_SIZE as nat,
        },
    ]
}

/// The factory region for a component of `size` bytes.
pub open spec fn factory_entry(size: u32) -> EntryModel {
    EntryModel {
        name: "factory"@,
        kind: PartitionKind::App,
        subtype: SUBTYPE_FACTORY,
        offset: FACTORY_OFFSET as nat,
        size: aligned_up(size as nat, OTA_ALIGNMENT as nat),
    }
}

/// OTA slot `i` at `offset`, `size` bytes long.
pub open spec fn slot_entry(i: nat, offset: nat, size: nat) -> EntryModel {
    EntryModel {
        name: slot_name(i),
        kind: PartitionKind::App,
        subtype: slot_subtype(i),
        offset,
        size,
    }
}

/// Where the first OTA slot starts: right after the factory region, whose
/// size is the second component's rounded up to the alignment unit.
pub open spec fn ota_start(sizes: Seq<u32>) -> nat {
    if sizes.len() >= 2 {
        (FACTORY_OFFSET + aligned_up(sizes[1] as nat, OTA_ALIGNMENT as nat)) as nat
    } else {
        FACTORY_OFFSET as nat
    }
}

/// Room left on a flash of `cap` bytes from `cursor` on.
pub open spec fn room(cap: nat, cursor: nat) -> nat {
    if cursor <= cap {
        (cap - cursor) as nat
    } else {
        0
    }
}

/// How many OTA slots `n` components and a limit of `max_ota` give.
pub open spec fn slot_count(n: nat, max_ota: nat) -> nat {
    let rest: nat = if n > 2 {
        (n - 2) as nat
    } else {
        0
    };
    if rest < max_ota {
        rest
    } else {
        max_ota
    }
}

/// A layout failure, as the contracts state it.
pub enum LayoutFault {
    InsufficientSpace { name: Seq<char>, needed: nat, available: nat, placed: Seq<EntryModel> },
    ExceedsCapacity { name: Seq<char>, end: nat, capacity: nat },
    Overlap,
}

/// Places OTA slots `i..count` from `cursor` on, each sized to its component
/// rounded up to the alignment unit; fails at the first that would pass `cap`.
pub open spec fn place_slots(sizes: Seq<u32>, cap: nat, count: nat, i: nat, cursor: nat) -> Result<
    Seq<EntryModel>,
    LayoutFault,
>
    decreases count - i,
{
    if i >= count {
        Ok(Seq::empty())
    } else {
        let a = aligned_up(sizes[i + 2 as int] as nat, OTA_ALIGNMENT as nat);
        if cursor + a > cap {
            Err(
                LayoutFault::InsufficientSpace {
                    name: slot_name(i),
                    needed: a,
                    available: room(cap, cursor),
                    placed: Seq::empty(),
                },
            )
        } else {
            prepend(seq![slot_entry(i, cursor, a)], place_slots(sizes, cap, count, i + 1, cursor + a))
        }
    }
}

/// `f` with `done` added before the slots it records as placed.
pub open spec fn with_placed(done: Seq<EntryModel>, f: LayoutFault) -> LayoutFault {
    match f {
        LayoutFault::InsufficientSpace { name, needed, available, placed } => LayoutFault::InsufficientSpace {
            name,
            needed,
            available,
            placed: done + placed,
        },
        _ => f,
    }
}

/// `done` followed by what `rest` places, or the failure of `rest` with
/// `done` among the slots placed before it.
pub open spec fn prepend(done: Seq<EntryModel>, rest: Result<Seq<EntryModel>, LayoutFault>) -> Result<
    Seq<EntryModel>,
    LayoutFault,
> {
    match rest {
        Ok(s) => Ok(done + s),
        Err(f) => Err(with_placed(done, f)),
    }
}

/// Whether `e` ends within `cap`.
pub open spec fn within_capacity(e: EntryModel, cap: nat) -> bool {
    e.offset + e.size <= cap
}

/// Whether entry `i` comes before entry `j` once the entries are sorted by
/// offset, equal offsets keeping table order.
pub open spec fn sorted_before(es: Seq<EntryModel>, i: int, j: int) -> bool {
    es[i].offset < es[j].offset || (es[i].offset == es[j].offset && i < j)
}

/// Whether entry `i` runs into entry `j` that follows it in offset order.
pub open spec fn runs_into(es: Seq<EntryModel>, i: int, j: int) -> bool {
    &&& 0 <= i < es.len()
    &&& 0 <= j < es.len()
    &&& i != j
    &&& sorted_before(es, i, j)
    &&& es[i].offset + es[i].size > es[j].offset
}

/// No entry runs into one that follows it in offset order; equivalently,
/// sorting the entries by offset yields no adjacent overlapping pair.
pub open spec fn no_overlap(es: Seq<EntryModel>) -> bool {
    forall|i: int, j: int| !#[trigger] runs_into(es, i, j)
}

/// The first failure that checking entries `i..` of `es` against `cap` finds:
/// an entry past the capacity, else an overlap.
pub open spec fn validation_fault(es: Seq<EntryModel>, cap: nat, i: int) -> Option<LayoutFault>
    decreases es.len() - i,
{
    if i < 0 || i >= es.len() {
        if no_overlap(es) {
            None
        } else {
            Some(LayoutFault::Overlap)
        }
    } else if !within_capacity(es[i], cap) {
        Some(
            LayoutFault::ExceedsCapacity {
                name: es[i].name,
                end: es[i].offset + es[i].size,
                capacity: cap,
            },
        )
    } else {
        validation_fault(es, cap, i + 1)
    }
}

/// The regions that `sizes` give before validation: the system regions, the
/// factory region if there are two components or more, then the OTA slots.
pub open spec fn candidate_entries(sizes: Seq<u32>, slots: Seq<EntryModel>) -> Seq<EntryModel> {
    if sizes.len() >= 2 {
        fixed_entries().push(factory_entry(sizes[1])) + slots
    } else {
        fixed_entries() + slots
    }
}

/// The table that components of `sizes` bytes give on a flash of `cap` bytes
/// with at most `max_ota` OTA slots, or the layout failure.
pub open spec fn layout_outcome(sizes: Seq<u32>, cap: nat, max_ota: nat) -> Result<
    Seq<EntryModel>,
    LayoutFault,
> {
    match place_slots(sizes, cap, slot_count(sizes.len(), max_ota), 0, ota_start(sizes)) {
        Err(f) => Err(f),
        Ok(slots) => {
            let es = candidate_entries(sizes, slots);
            match validation_fault(es, cap, 0) {
                Some(f) => Err(f),
                None => Ok(es),
            }
        },
    }
}

/// Why no partition table could be laid out.
#[derive(Clone, Debug)]
pub enum LayoutError {
    /// An OTA slot would pass the end of the flash; `placed` holds the slots
    /// placed before it.
    InsufficientSpace { name: String, needed: u64, available: u64, placed: Vec<PartitionEntry> },
    /// A region ends past the end of the flash.
    PartitionExceedsCapacity { name: String, end: u64, capacity: u32 },
    /// Two regions overlap.
    PartitionOverlap { first: String, second: String },
}

impl View for LayoutError {
    type V = LayoutFault;

    open spec fn view(&self) -> LayoutFault {
        match self {
            LayoutError::InsufficientSpace {
                name,
                needed,
                available,
                placed,
            } => LayoutFault::InsufficientSpace {
                name: name@,
                needed: *needed as nat,
                available: *available as nat,
                placed: entry_models(placed@),
            },
            LayoutError::PartitionExceedsCapacity { name, end, capacity } => LayoutFault::ExceedsCapacity {
                name: name@,
                end: *end as nat,
                capacity: *capacity as nat,
            },
            LayoutError::PartitionOverlap { .. } => LayoutFault::Overlap,
        }
    }
}

/// Whether an overlap error `e` names a pair of `es` where the first runs into the second.
pub open spec fn names_overlapping_pair(e: LayoutError, es: Seq<EntryModel>) -> bool {
    e matches LayoutError::PartitionOverlap { first, second } ==> exists|i: int, j: int|
        #[trigger] runs_into(es, i, j) && es[i].name == first@ && es[j].name == second@
}

/// The component sizes of `fw`.
pub open spec fn sizes_of(fw: Seq<FirmwareBinary>) -> Seq<u32> {
    fw.map_values(|f: FirmwareBinary| f.size)
}

/// Builds the partition table.
pub struct PartitionGenerator;

impl PartitionGenerator {
    /// `size` rounded up to a multiple of `alignment`.
    pub fn align_up(size: u32, alignment: u32) -> (r: u64)
        requires
            alignment > 0,
        ensures
            r == aligned_up(size as nat, alignment as nat),
            r as int % alignment as int == 0,
            size <= r < size + alignment,
    {
        let a = alignment as u64;
        let q = (size as u64 + a - 1) / a;
        proof {
            let s = size as int;
            assert(q * a <= s + a - 1) by (nonlinear_arith)
                requires
                    q == (s + a - 1) / (a as int),
                    a > 0,
                    s >= 0,
            ;
            assert(q * a > s - 1) by (nonlinear_arith)
                requires
                    q == (s + a - 1) / (a as int),
                    a > 0,
                    s >= 0,
            ;
            assert((q * a) % (a as int) == 0) by (nonlinear_arith)
                requires
                    a > 0,
            ;
        }
        let r = q * a;
        r
    }

    /// The four system regions.
    fn fixed_partitions() -> (r: Vec<PartitionEntry>)
        ensures
            entry_models(r@) == fixed_entries(),
    {
        let mut v: Vec<PartitionEntry> = Vec::new();
        v.push(
            PartitionEntry {
                name: String::from_str("bootloader"),
                kind: PartitionKind::App,
                subtype: SUBTYPE_FACTORY,
                offset: BOOTLOADER_OFFSET,
                size: BOOTLOADER_SIZE,
            },
        );
        v.push(
            PartitionEntry {
                name: String::from_str("partition-table"),
                kind: PartitionKind::Data,
                subtype: SUBTYPE_PHY,
                offset: PARTITION_TABLE_OFFSET,
                size: PARTITION_TABLE_SIZE,
            },
        );
        v.push(
            PartitionEntry {
                name: String::from_str("nvs"),
                kind: PartitionKind::Data,
                subtype: SUBTYPE_NVS,
                offset: NVS_OFFSET,
                size: NVS_SIZE,
            },
        );
        v.push(
            PartitionEntry {
                name: String::from_str("otadata"),
                kind: PartitionKind::Data,
                subtype: SUBTYPE_OTADATA,
                offset: OTADATA_OFFSET,
                size: OTADATA_SIZE,
            },
        );
        assert(entry_models(v@) =~= fixed_entries());
        v
    }

    /// Checks that every entry ends within `capacity` and that no entry runs
    /// into the next once they are sorted by offset.
    pub fn validate_partition_table(entries: &Vec<PartitionEntry>, capacity: u32) -> (r: Result<
        (),
        LayoutError,
    >)
        ensures
            match validation_fault(entry_models(entries@), capacity as nat, 0) {
                None => r is Ok,
                Some(f) => r matches Err(e) && e@ == f && names_overlapping_pair(
                    e,
                    entry_models(entries@),
                ),
            },
    {
        let ghost es = entry_models(entries@);
        let n = entries.len();
        let mut i: usize = 0;
        while i < n
            invariant
                n == entries@.len(),
                es == entry_models(entries@),
                i <= n,
                validation_fault(es, capacity as nat, i as int) == validation_fault(
                    es,
                    capacity as nat,
                    0,
                ),
            decreases n - i,
        {
            let e = &entries[i];
            let end: u64 = e.offset as u64 + e.size as u64;
            if end > capacity as u64 {
                return Err(
                    LayoutError::PartitionExceedsCapacity { name: e.name.clone(), end, capacity },
                );
            }
            i = i + 1;
        }
        let mut a: usize = 0;
        while a < n
            invariant
                n == entries@.len(),
                es == entry_models(entries@),
                a <= n,
                validation_fault(es, capacity as nat, n as int) == validation_fault(
                    es,
                    capacity as nat,
                    0,
                ),
                forall|x: int, y: int| 0 <= x < a ==> !#[trigger] runs_into(es, x, y),
            decreases n - a,
        {
            let mut b: usize = 0;
            while b < n
                invariant
                    n == entries@.len(),
                    es == entry_models(entries@),
                    a < n,
                    b <= n,
                    validation_fault(es, capacity as nat, n as int) == validation_fault(
                        es,
                        capacity as nat,
                        0,
                    ),
                    forall|x: int, y: int| 0 <= x < a ==> !#[trigger] runs_into(es, x, y),
                    forall|y: int| 0 <= y < b ==> !#[trigger] runs_into(es, a as int, y),
                decreases n - b,
            {
                let ea = &entries[a];
                let eb = &entries[b];
                let before = ea.offset < eb.offset || (ea.offset == eb.offset && a < b);
                if a != b && before && ea.offset as u64 + ea.size as u64 > eb.offset as u64 {
                    assert(runs_into(es, a as int, b as int));
                    return Err(
                        LayoutError::PartitionOverlap {
                            first: ea.name.clone(),
                            second: eb.name.clone(),
                        },
                    );
                }
                b = b + 1;
            }
            assert forall|x: int, y: int| 0 <= x < a + 1 implies !#[trigger] runs_into(es, x, y) by {
                if x == a && 0 <= y < n {
                } else if x == a {
                }
            }
            a = a + 1;
        }
        assert(no_overlap(es)) by {
            assert forall|x: int, y: int| !#[trigger] runs_into(es, x, y) by {
                if 0 <= x < n {
                }
            }
        }
        Ok(())
    }

    /// Lays out the partition table for `firmwares` on the configured flash.
    pub fn generate_table(firmwares: &[FirmwareBinary], config: &Config) -> (r: Result<
        PartitionTable,
        LayoutError,
    >)
        ensures
            ({
                let outcome = layout_outcome(
                    sizes_of(firmwares@),
                    config.flash_size.spec_size_bytes() as nat,
                    config.max_ota_partitions as nat,
                );
                match r {
                    Ok(t) => outcome == Ok::<Seq<EntryModel>, LayoutFault>(t@),
                    Err(e) => outcome == Err::<Seq<EntryModel>, LayoutFault>(e@)
                        && names_overlapping_pair(e, match outcome {
                        Ok(es) => es,
                        Err(_) => candidate_entries(
                            sizes_of(firmwares@),
                            place_slots(
                                sizes_of(firmwares@),
                                config.flash_size.spec_size_bytes() as nat,
                                slot_count(firmwares@.len(), config.max_ota_partitions as nat),
                                0,
                                ota_start(sizes_of(firmwares@)),
                            )->Ok_0,
                        ),
                    }),
                }
            }),
    {
        let capacity = config.flash_size.size_bytes();
        let cap = capacity as u64;
        let ghost sizes = sizes_of(firmwares@);
        let ghost capn = capacity as nat;
        let n = firmwares.len();
        let rest: usize = if n > 2 {
            n - 2
        } else {
            0
        };
        let count: usize = if rest < config.max_ota_partitions {
            rest
        } else {
            config.max_ota_partitions
        };
        let ghost count_n = slot_count(n as nat, config.max_ota_partitions as nat);
        assert(count == count_n);
        assert(sizes.len() == n);
        let fsize: u64 = if n >= 2 {
            Self::align_up(firmwares[1].size, OTA_ALIGNMENT)
        } else {
            0
        };
        proof {
            if n >= 2 {
                assert(sizes[1] == firmwares@[1].size);
            }
        }
        let start: u64 = FACTORY_OFFSET as u64 + fsize;
        assert(start == ota_start(sizes));
        let mut slots: Vec<PartitionEntry> = Vec::new();
        let mut cursor: u64 = start;
        let mut i: usize = 0;
        while i < count
            invariant
                n == firmwares@.len(),
                sizes == sizes_of(firmwares@),
                capn == capacity as nat,
                capn == config.flash_size.spec_size_bytes() as nat,
                count_n == slot_count(sizes.len(), config.max_ota_partitions as nat),
                sizes.len() == n,
                cap == capacity as u64,
                is_flash_capacity(capacity),
                count == count_n,
                count <= rest,
                n > 2 ==> rest == n - 2,
                n <= 2 ==> rest == 0,
                i <= count,
                cursor <= cap || cursor == start,
                start <= FACTORY_OFFSET + 0x1_0000_0000u64,
                n >= 2 ==> fsize == aligned_up(sizes[1] as nat, OTA_ALIGNMENT as nat),
                start == ota_start(sizes),
                subtypes_admitted(entry_models(slots@)),
                place_slots(sizes, capn, count_n, 0, ota_start(sizes)) == prepend(
                    entry_models(slots@),
                    place_slots(sizes, capn, count_n, i as nat, cursor as nat),
                ),
            decreases count - i,
        {
            let a = Self::align_up(firmwares[i + 2].size, OTA_ALIGNMENT);
            assert(sizes[i + 2] == firmwares@[i + 2].size);
            if cursor + a > cap {
                let name = ota_slot_name(i);
                assert(place_slots(sizes, capn, count_n, i as nat, cursor as nat) == Err::<
                    Seq<EntryModel>,
                    LayoutFault,
                >(
                    LayoutFault::InsufficientSpace {
                        name: slot_name(i as nat),
                        needed: a as nat,
                        available: room(capn, cursor as nat),
                        placed: Seq::empty(),
                    },
                ));
                let available: u64 = if cursor <= cap {
                    cap - cursor
                } else {
                    0
                };
                assert(entry_models(slots@) + Seq::<EntryModel>::empty() =~= entry_models(slots@));
                let err = LayoutError::InsufficientSpace {
                    name,
                    needed: a,
                    available,
                    placed: slots,
                };
                return Err(err);
            }
            let entry = PartitionEntry {
                name: ota_slot_name(i),
                kind: PartitionKind::App,
                subtype: if i < OTA_SUBTYPE_COUNT {
                    SUBTYPE_OTA_FIRST + i as u8
                } else {
                    SUBTYPE_OTA_FIRST
                },
                offset: cursor as u32,
                size: a as u32,
            };
            let ghost before = entry_models(slots@);
            slots.push(entry);
            proof {
                assert(entry_models(slots@) =~= before.push(entry@));
                assert(entry@ == slot_entry(i as nat, cursor as nat, a as nat));
                let tail = place_slots(sizes, capn, count_n, (i + 1) as nat, (cursor + a) as nat);
                match tail {
                    Ok(t) => {
                        assert(before + (seq![entry@] + t) =~= before.push(entry@) + t);
                    },
                    Err(f) => {
                        match f {
                            LayoutFault::InsufficientSpace { placed, .. } => {
                                assert(before + (seq![entry@] + placed) =~= before.push(entry@)
                                    + placed);
                            },
                            _ => {},
                        }
                    },
                }
            }
            cursor = cursor + a;
            i = i + 1;
        }
        let ghost slot_models = entry_models(slots@);
        assert(place_slots(sizes, capn, count_n, 0, ota_start(sizes)) == Ok::<
            Seq<EntryModel>,
            LayoutFault,
        >(slot_models)) by {
            assert(slot_models + Seq::<EntryModel>::empty() =~= slot_models);
        }
        let ghost es = candidate_entries(sizes, slot_models);
        let mut entries = Self::fixed_partitions();
        if n >= 2 {
            let fend: u64 = FACTORY_OFFSET as u64 + fsize;
            if fend > cap {
                proof {
                    let fx = fixed_entries();
                    assert(es[0] == fx[0]);
                    assert(es[1] == fx[1]);
                    assert(es[2] == fx[2]);
                    assert(es[3] == fx[3]);
                    assert(es[4] == factory_entry(sizes[1]));
                    assert(validation_fault(es, capn, 3) == validation_fault(es, capn, 4));
                    assert(validation_fault(es, capn, 2) == validation_fault(es, capn, 3));
                    assert(validation_fault(es, capn, 1) == validation_fault(es, capn, 2));
                    assert(validation_fault(es, capn, 0) == validation_fault(es, capn, 1));
                }
                return Err(
                    LayoutError::PartitionExceedsCapacity {
                        name: String::from_str("factory"),
                        end: fend,
                        capacity,
                    },
                );
            }
            entries.push(
                PartitionEntry {
                    name: String::from_str("factory"),
                    kind: PartitionKind::App,
                    subtype: SUBTYPE_FACTORY,
                    offset: FACTORY_OFFSET,
                    size: fsize as u32,
                },
            );
        }
        let ghost head = entry_models(entries@);
        assert(subtypes_admitted(head)) by {
            assert(subtypes_admitted(fixed_entries()));
        }
        entries.append(&mut slots);
        assert(entry_models(entries@) =~= es) by {
            assert(entry_models(entries@) =~= head + slot_models);
        }
        match Self::validate_partition_table(&entries, capacity) {
            Ok(()) => Ok(PartitionTable::new(entries)),
            Err(e) => Err(e),
        }
    }
}

/// Whether `order` lists every index of `es` once, sorted by offset with equal
/// offsets in table order (what a stable sort by offset produces).
pub open spec fn is_offset_order(es: Seq<EntryModel>, order: Seq<int>) -> bool {
    &&& order.len() == es.len()
    &&& forall|k: int| 0 <= k < order.len() ==> 0 <= #[trigger] order[k] < es.len()
    &&& forall|k: int, l: int| 0 <= k < l < order.len() ==> order[k] != order[l]
    &&& forall|k: int| 0 <= k < order.len() - 1 ==> sorted_before(es, #[trigger] order[k], order[k + 1])
}

/// A check from entry `i` on that finds nothing leaves every entry from `i` on
/// within the capacity and no overlap.
proof fn lemma_validation_passed(es: Seq<EntryModel>, cap: nat, i: int)
    requires
        0 <= i <= es.len(),
        validation_fault(es, cap, i) is None,
    ensures
        no_overlap(es),
        forall|k: int| i <= k < es.len() ==> within_capacity(#[trigger] es[k], cap),
    decreases es.len() - i,
{
    if i < es.len() {
        lemma_validation_passed(es, cap, i + 1);
    }
}

/// Every table that the builder produces lies within the flash, and once its
/// entries are sorted by offset no entry overlaps the next.
pub proof fn lemma_built_table_sorted_disjoint(sizes: Seq<u32>, cap: nat, max_ota: nat)
    requires
        layout_outcome(sizes, cap, max_ota) is Ok,
    ensures
        ({
            let es = layout_outcome(sizes, cap, max_ota)->Ok_0;
            &&& no_overlap(es)
            &&& forall|k: int| 0 <= k < es.len() ==> #[trigger] es[k].offset + es[k].size <= cap
            &&& forall|order: Seq<int>, k: int|
                is_offset_order(es, order) && 0 <= k < order.len() - 1 ==> es[order[k]].offset
                    + es[order[k]].size <= es[#[trigger] order[k + 1]].offset
        }),
{
    let slots = place_slots(sizes, cap, slot_count(sizes.len(), max_ota), 0, ota_start(sizes))->Ok_0;
    let es = candidate_entries(sizes, slots);
    lemma_validation_passed(es, cap, 0);
    assert forall|k: int| 0 <= k < es.len() implies #[trigger] es[k].offset + es[k].size <= cap by {
        assert(within_capacity(es[k], cap));
    }
    assert forall|order: Seq<int>, k: int|
        is_offset_order(es, order) && 0 <= k < order.len() - 1 implies es[order[k]].offset
        + es[order[k]].size <= es[#[trigger] order[k + 1]].offset by {
        assert(order[k] != order[k + 1]);
        assert(sorted_before(es, order[k], order[k + 1]));
        assert(!runs_into(es, order[k], order[k + 1]));
    }
}

/// The system regions lie within every supported capacity and do not overlap.
proof fn lemma_fixed_entries_valid(cap: nat)
    requires
        is_flash_capacity(cap as u32),
        cap <= u32::MAX,
    ensures
        validation_fault(fixed_entries(), cap, 0) is None,
{
    let es = fixed_entries();
    assert(no_overlap(es)) by {
        assert forall|i: int, j: int| !#[trigger] runs_into(es, i, j) by {
            if 0 <= i < 4 && 0 <= j < 4 {
                assert(es[0].offset == 0x2000 && es[0].size == 0x6000);
                assert(es[1].offset == 0x1_0000 && es[1].size == 0x1000);
                assert(es[2].offset == 0x9000 && es[2].size == 0x1000);
                assert(es[3].offset == 0xA000 && es[3].size == 0x2000);
            }
        }
    }
    assert(validation_fault(es, cap, 3) == validation_fault(es, cap, 4));
    assert(validation_fault(es, cap, 2) == validation_fault(es, cap, 3));
    assert(validation_fault(es, cap, 1) == validation_fault(es, cap, 2));
    assert(validation_fault(es, cap, 0) == validation_fault(es, cap, 1));
}

/// With no components the builder still succeeds, and the table holds exactly
/// the four system regions.
pub proof fn lemma_no_components_fixed_entries(cap: nat, max_ota: nat)
    requires
        is_flash_capacity(cap as u32),
        cap <= u32::MAX,
    ensures
        layout_outcome(Seq::empty(), cap, max_ota) == Ok::<Seq<EntryModel>, LayoutFault>(
            fixed_entries(),
        ),
{
    let sizes = Seq::<u32>::empty();
    assert(slot_count(0, max_ota) == 0);
    assert(candidate_entries(sizes, Seq::empty()) =~= fixed_entries());
    lemma_fixed_entries_valid(cap);
}

/// Offset of OTA slot `k`: the slots before it, each rounded up, packed from the start.
pub open spec fn slot_offset(sizes: Seq<u32>, k: nat) -> nat
    decreases k,
{
    if k == 0 {
        ota_start(sizes)
    } else {
        slot_offset(sizes, (k - 1) as nat) + aligned_up(
            sizes[k + 1 as int] as nat,
            OTA_ALIGNMENT as nat,
        )
    }
}

/// OTA slots `i..s` as the builder places them.
pub open spec fn placed_slots(sizes: Seq<u32>, i: nat, s: nat) -> Seq<EntryModel> {
    Seq::new(
        (s - i) as nat,
        |k: int|
            slot_entry(
                (i + k) as nat,
                slot_offset(sizes, (i + k) as nat),
                aligned_up(sizes[i + k + 2] as nat, OTA_ALIGNMENT as nat),
            ),
    )
}

/// The failure that slot `s` gives, with slots `i..s` placed before it.
pub open spec fn slot_failure(sizes: Seq<u32>, cap: nat, i: nat, s: nat) -> LayoutFault {
    LayoutFault::InsufficientSpace {
        name: slot_name(s),
        needed: aligned_up(sizes[s + 2 as int] as nat, OTA_ALIGNMENT as nat),
        available: room(cap, slot_offset(sizes, s)),
        placed: placed_slots(sizes, i, s),
    }
}

/// Placing slots from `i` on fails at slot `s` when the slots between fit.
proof fn lemma_place_slots_fails_at(sizes: Seq<u32>, cap: nat, count: nat, i: nat, s: nat)
    requires
        i <= s < count,
        count + 2 <= sizes.len(),
        forall|k: nat| i <= k < s ==> #[trigger] slot_offset(sizes, k + 1) <= cap,
        slot_offset(sizes, s) + aligned_up(sizes[s + 2 as int] as nat, OTA_ALIGNMENT as nat) > cap,
    ensures
        place_slots(sizes, cap, count, i, slot_offset(sizes, i)) == Err::<
            Seq<EntryModel>,
            LayoutFault,
        >(slot_failure(sizes, cap, i, s)),
    decreases s - i,
{
    if i < s {
        assert(slot_offset(sizes, i + 1) <= cap);
        lemma_place_slots_fails_at(sizes, cap, count, i + 1, s);
        let e = slot_entry(
            i,
            slot_offset(sizes, i),
            aligned_up(sizes[i + 2 as int] as nat, OTA_ALIGNMENT as nat),
        );
        assert(seq![e] + placed_slots(sizes, i + 1, s) =~= placed_slots(sizes, i, s));
    } else {
        assert(placed_slots(sizes, i, s) =~= Seq::<EntryModel>::empty());
    }
}

/// A component whose rounded-up size would push its OTA slot past the end of
/// the flash makes the builder fail with a space error that names that slot
/// and keeps the slots placed before it, provided those fit.
pub proof fn lemma_slot_past_capacity_fails(sizes: Seq<u32>, cap: nat, max_ota: nat, s: nat)
    requires
        s < slot_count(sizes.len(), max_ota),
        forall|k: nat| k < s ==> #[trigger] slot_offset(sizes, k + 1) <= cap,
        slot_offset(sizes, s) + aligned_up(sizes[s + 2 as int] as nat, OTA_ALIGNMENT as nat) > cap,
    ensures
        layout_outcome(sizes, cap, max_ota) == Err::<Seq<EntryModel>, LayoutFault>(
            slot_failure(sizes, cap, 0, s),
        ),
{
    lemma_place_slots_fails_at(sizes, cap, slot_count(sizes.len(), max_ota), 0, s);
}

/// With exactly two components whose factory region stays within its fixed
/// extent, the table holds the system regions and the factory region.
pub proof fn lemma_factory_only_layout(sizes: Seq<u32>, cap: nat, max_ota: nat)
    requires
        sizes.len() == 2,
        is_flash_capacity(cap as u32),
        cap <= u32::MAX,
        aligned_up(sizes[1] as nat, OTA_ALIGNMENT as nat) <= FACTORY_SIZE,
    ensures
        layout_outcome(sizes, cap, max_ota) == Ok::<Seq<EntryModel>, LayoutFault>(
            fixed_entries().push(factory_entry(sizes[1])),
        ),
{
    assert(slot_count(2, max_ota) == 0);
    let es = candidate_entries(sizes, Seq::empty());
    assert(es =~= fixed_entries().push(factory_entry(sizes[1])));
    assert(no_overlap(es)) by {
        assert forall|i: int, j: int| !#[trigger] runs_into(es, i, j) by {
            if 0 <= i < 5 && 0 <= j < 5 {
                assert(es[0].offset == 0x2000 && es[0].size == 0x6000);
                assert(es[1].offset == 0x1_0000 && es[1].size == 0x1000);
                assert(es[2].offset == 0x9000 && es[2].size == 0x1000);
                assert(es[3].offset == 0xA000 && es[3].size == 0x2000);
                assert(es[4].offset == 0x2_0000 && es[4].size <= 0x10_0000);
            }
        }
    }
    assert(validation_fault(es, cap, 4) == validation_fault(es, cap, 5));
    assert(validation_fault(es, cap, 3) == validation_fault(es, cap, 4));
    assert(validation_fault(es, cap, 2) == validation_fault(es, cap, 3));
    assert(validation_fault(es, cap, 1) == validation_fault(es, cap, 2));
    assert(validation_fault(es, cap, 0) == validation_fault(es, cap, 1));
}

/// Rounding up never makes a size smaller.
pub proof fn lemma_aligned_up_covers(size: nat, a: nat)
    requires
        a > 0,
    ensures
        aligned_up(size, a) >= size,
{
    let q = ((size + a - 1) as nat / a) as int;
    assert(q * a > size - 1) by (nonlinear_arith)
        requires
            q == (size + a - 1) / (a as int),
            a > 0,
    ;
}

/// Every slot that placement yields starts at or after `cursor`.
proof fn lemma_placed_slots_after(sizes: Seq<u32>, cap: nat, count: nat, i: nat, cursor: nat)
    requires
        place_slots(sizes, cap, count, i, cursor) is Ok,
    ensures
        forall|k: int|
            0 <= k < place_slots(sizes, cap, count, i, cursor)->Ok_0.len() ==> #[trigger] place_slots(
                sizes,
                cap,
                count,
                i,
                cursor,
            )->Ok_0[k].offset >= cursor,
    decreases count - i,
{
    if i < count {
        let a = aligned_up(sizes[i + 2 as int] as nat, OTA_ALIGNMENT as nat);
        if cursor + a <= cap {
            lemma_placed_slots_after(sizes, cap, count, i + 1, cursor + a);
            let rest = place_slots(sizes, cap, count, i + 1, cursor + a)->Ok_0;
            let all = place_slots(sizes, cap, count, i, cursor)->Ok_0;
            assert(all == seq![slot_entry(i, cursor, a)] + rest);
            assert forall|k: int| 0 <= k < all.len() implies #[trigger] all[k].offset >= cursor by {
                if k > 0 {
                    assert(all[k] == rest[k - 1]);
                }
            }
        }
    }
}

/// In a table that the builder produces, every region named after an OTA slot
/// starts at or after the end of the factory region.
pub proof fn lemma_slots_follow_factory(sizes: Seq<u32>, cap: nat, max_ota: nat)
    requires
        layout_outcome(sizes, cap, max_ota) is Ok,
    ensures
        ({
            let es = layout_outcome(sizes, cap, max_ota)->Ok_0;
            forall|k: int, j: nat|
                0 <= k < es.len() && #[trigger] es[k].name == #[trigger] slot_name(j) ==> es[k].offset
                    >= ota_start(sizes)
        }),
{
    let count = slot_count(sizes.len(), max_ota);
    let slots = place_slots(sizes, cap, count, 0, ota_start(sizes))->Ok_0;
    let es = candidate_entries(sizes, slots);
    lemma_placed_slots_after(sizes, cap, count, 0, ota_start(sizes));
    let head: nat = if sizes.len() >= 2 { 5 } else { 4 };
    assert forall|k: int, j: nat|
        0 <= k < es.len() && #[trigger] es[k].name == #[trigger] slot_name(j) implies es[k].offset
        >= ota_start(sizes) by {
        reveal_strlit("bootloader");
        reveal_strlit("partition-table");
        reveal_strlit("nvs");
        reveal_strlit("otadata");
        reveal_strlit("factory");
        let sn = slot_name(j);
        assert(sn[0] == 'o' && sn[3] == '_');
        if k < head {
            if k == 0 {
                assert(es[k].name == "bootloader"@);
                assert(es[k].name[0] != sn[0]);
            } else if k == 1 {
                assert(es[k].name == "partition-table"@);
                assert(es[k].name[0] != sn[0]);
            } else if k == 2 {
                assert(es[k].name == "nvs"@);
                assert(es[k].name[0] != sn[0]);
            } else if k == 3 {
                assert(es[k].name == "otadata"@);
                assert(es[k].name[3] != sn[3]);
            } else {
                assert(es[k].name == "factory"@);
                assert(es[k].name[0] != sn[0]);
            }
        } else {
            assert(es[k] == slots[k - head]);
        }
    }
}

} // verus!
