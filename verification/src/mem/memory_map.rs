//! The physical memory map handed over by a multiboot loader: decoding its
//! entries from the loader's bytes, and carving the kernel's own image out of
//! the region that holds it.

use vstd::prelude::*;
use vstd::bytes::{spec_u32_from_le_bytes, spec_u64_from_le_bytes, spec_u32_to_le_bytes, spec_u64_to_le_bytes, u32_from_le_bytes, u64_from_le_bytes};
use vstd::slice::slice_subrange;

verus! {

/// How many entries the loader's map may hold.
pub const MMAP_MAX_LEN: usize = 30;

/// The room for entries in a loaded map: one more, for the kernel's image.
pub const MMAP_SLOTS: usize = 31;

/// The size of an entry in the loader's format.
pub const ENTRY_BYTES: usize = 24;

/// The value of `skip_to_next` for an entry followed directly by the next one.
pub const ENTRY_SKIP: u32 = 20;

/// The loader's type code of usable memory.
pub const AVAILABLE_CODE: u32 = 1;

/// Whether a range of memory may be used.
#[derive(Clone, Copy, Debug, PartialEq, Eq, Structural)]
pub enum EntryType {
    Available,
    Occupied,
}

impl Default for EntryType {
    fn default() -> (r: Self)
        ensures
            r == EntryType::Occupied,
    {
        EntryType::Occupied
    }
}

/// One range of physical memory: its start, its length in bytes and its type,
/// with the distance from the end of the first field to the next entry.
#[derive(Clone, Copy, Debug)]
pub struct Entry {
    skip_to_next: u32,
    start: u64,
    len: u64,
    typ: EntryType,
}

/// An entry with these fields.
pub open spec fn entry_spec(skip: u32, start: u64, len: u64, typ: EntryType) -> Entry {
    Entry::from_fields(skip, start, len, typ)
}

impl Default for Entry {
    fn default() -> (r: Self)
        ensures
            r == entry_spec(0, 0, 0, EntryType::Occupied),
    {
        Entry { skip_to_next: 0, start: 0, len: 0, typ: EntryType::Occupied }
    }
}

impl Entry {
    /// The entry with these fields.
    pub closed spec fn from_fields(skip: u32, start: u64, len: u64, typ: EntryType) -> Entry {
        Entry { skip_to_next: skip, start, len, typ }
    }

    pub closed spec fn spec_skip(&self) -> u32 {
        self.skip_to_next
    }

    pub closed spec fn spec_start(&self) -> u64 {
        self.start
    }

    pub closed spec fn spec_len(&self) -> u64 {
        self.len
    }

    pub closed spec fn spec_typ(&self) -> EntryType {
        self.typ
    }

    /// The fields of an entry built from fields.
    pub proof fn lemma_from_fields(skip: u32, start: u64, len: u64, typ: EntryType)
        ensures
            Entry::from_fields(skip, start, len, typ).spec_skip() == skip,
            Entry::from_fields(skip, start, len, typ).spec_start() == start,
            Entry::from_fields(skip, start, len, typ).spec_len() == len,
            Entry::from_fields(skip, start, len, typ).spec_typ() == typ,
    {
    }

    /// The entry for the addresses `start..end`, directly followed by the next one.
    pub fn new(start: u64, end: u64, typ: EntryType) -> (e: Entry)
        requires
            start <= end,
        ensures
            e == entry_spec(ENTRY_SKIP, start, (end - start) as u64, typ),
    {
        Entry { skip_to_next: ENTRY_SKIP, start: start, len: end - start, typ: typ }
    }

    /// The first address of the range.
    pub fn start(&self) -> (r: u64)
        ensures
            r == self.spec_start(),
    {
        self.start
    }

    /// The address just past the range.
    pub fn end(&self) -> (r: u64)
        requires
            self.spec_start() + self.spec_len() <= u64::MAX,
        ensures
            r == self.spec_start() + self.spec_len(),
    {
        self.start + self.len
    }

    /// The length of the range in bytes (truncated to the width of `usize`).
    pub fn len(&self) -> (r: usize)
        ensures
            r == self.spec_len() as usize,
    {
        self.len as usize
    }

    /// The length of the range in bytes.
    pub(crate) fn len64(&self) -> (r: u64)
        ensures
            r == self.spec_len(),
    {
        self.len
    }

    /// Whether the range is usable memory.
    pub fn is_available(&self) -> (r: bool)
        ensures
            r == (self.spec_typ() == EntryType::Available),
    {
        self.typ == EntryType::Available
    }

    /// The type of the range.
    pub fn typ(&self) -> (r: EntryType)
        ensures
            r == self.spec_typ(),
    {
        self.typ
    }

    /// The distance from the end of the first field to the next entry.
    pub fn skip_to_next(&self) -> (r: usize)
        ensures
            r == self.spec_skip() as usize,
    {
        self.skip_to_next as usize
    }
}

/// The entry whose bytes start at `off`.
pub open spec fn decode_entry(raw: Seq<u8>, off: int) -> Entry {
    let code = spec_u32_from_le_bytes(raw.subrange(off + 20, off + 24));
    entry_spec(
        spec_u32_from_le_bytes(raw.subrange(off, off + 4)),
        spec_u64_from_le_bytes(raw.subrange(off + 4, off + 12)),
        spec_u64_from_le_bytes(raw.subrange(off + 12, off + 20)),
        if code == AVAILABLE_CODE {
            EntryType::Available
        } else {
            EntryType::Occupied
        },
    )
}

/// Only the loader's type code 1 marks usable memory: an entry decodes as
/// available exactly when its four type bytes hold 1 in little endian
/// (`01 00 00 00`), and with any other code (reserved, ACPI, defective
/// memory, ...) as occupied.
pub proof fn lemma_decoded_type(raw: Seq<u8>, off: int)
    requires
        0 <= off,
        off + 24 <= raw.len(),
    ensures
        decode_entry(raw, off).spec_typ() == EntryType::Available <==> raw.subrange(off + 20, off + 24)
            == spec_u32_to_le_bytes(1u32),
        decode_entry(raw, off).spec_typ() == EntryType::Available <==> spec_u32_from_le_bytes(
            raw.subrange(off + 20, off + 24),
        ) == 1,
        decode_entry(raw, off).spec_typ() != EntryType::Available ==> decode_entry(raw, off).spec_typ()
            == EntryType::Occupied,
{
    let b = raw.subrange(off + 20, off + 24);
    vstd::bytes::lemma_auto_spec_u32_to_from_le_bytes();
    Entry::lemma_from_fields(
        spec_u32_from_le_bytes(raw.subrange(off, off + 4)),
        spec_u64_from_le_bytes(raw.subrange(off + 4, off + 12)),
        spec_u64_from_le_bytes(raw.subrange(off + 12, off + 20)),
        if spec_u32_from_le_bytes(b) == AVAILABLE_CODE { EntryType::Available } else { EntryType::Occupied },
    );
    assert(spec_u32_to_le_bytes(spec_u32_from_le_bytes(b)) == b);
    assert(spec_u32_to_le_bytes(1u32).len() == 4);
    assert(spec_u32_from_le_bytes(spec_u32_to_le_bytes(1u32)) == 1u32);
}

/// An entry written in the loader's format (skip, start and length, then the
/// type code, each little endian) decodes to those fields, usable exactly
/// when the code is 1.
pub proof fn lemma_decode_written_entry(skip: u32, start: u64, len: u64, code: u32)
    ensures
        decode_entry(
            spec_u32_to_le_bytes(skip) + spec_u64_to_le_bytes(start) + spec_u64_to_le_bytes(len) + spec_u32_to_le_bytes(
                code,
            ),
            0,
        ) == entry_spec(skip, start, len, if code == 1 { EntryType::Available } else { EntryType::Occupied }),
{
    vstd::bytes::lemma_auto_spec_u32_to_from_le_bytes();
    vstd::bytes::lemma_auto_spec_u64_to_from_le_bytes();
    let a = spec_u32_to_le_bytes(skip);
    let b = spec_u64_to_le_bytes(start);
    let c = spec_u64_to_le_bytes(len);
    let d = spec_u32_to_le_bytes(code);
    assert(a.len() == 4 && b.len() == 8 && c.len() == 8 && d.len() == 4);
    let raw = a + b + c + d;
    assert(raw.subrange(0, 4) =~= a);
    assert(raw.subrange(4, 12) =~= b);
    assert(raw.subrange(12, 20) =~= c);
    assert(raw.subrange(20, 24) =~= d);
}

/// The entries of a loader's map whose bytes are `raw`, from offset `off` on:
/// each entry is followed by the next one `skip + 4` bytes after its start,
/// until the offset reaches the end; `None` if an entry runs past the end.
pub open spec fn decode_entries(raw: Seq<u8>, off: int) -> Option<Seq<Entry>>
    decreases raw.len() - off,
{
    if off < 0 || off >= raw.len() {
        Some(Seq::empty())
    } else if off + 24 > raw.len() {
        None
    } else {
        let e = decode_entry(raw, off);
        let next = off + e.spec_skip() + 4;
        if next >= raw.len() {
            Some(seq![e])
        } else {
            match decode_entries(raw, next) {
                Some(rest) => Some(seq![e] + rest),
                None => None,
            }
        }
    }
}

/// Reads the entry whose bytes start at `off`.
fn read_entry(raw: &[u8], off: usize) -> (e: Entry)
    requires
        off + 24 <= raw@.len(),
    ensures
        e == decode_entry(raw@, off as int),
{
    let n = raw.len();
    let skip = u32_from_le_bytes(slice_subrange(raw, off, off + 4));
    let start = u64_from_le_bytes(slice_subrange(raw, off + 4, off + 12));
    let len = u64_from_le_bytes(slice_subrange(raw, off + 12, off + 20));
    let code = u32_from_le_bytes(slice_subrange(raw, off + 20, off + 24));
    let typ = if code == AVAILABLE_CODE {
        EntryType::Available
    } else {
        EntryType::Occupied
    };
    Entry { skip_to_next: skip, start: start, len: len, typ: typ }
}

/// Decodes the entries of a loader's map from its bytes; `None` if an entry
/// runs past the end.
pub fn decode(raw: &[u8]) -> (r: Option<Vec<Entry>>)
    ensures
        match decode_entries(raw@, 0) {
            Some(s) => r is Some && r.unwrap()@ == s,
            None => r is None,
        },
{
    let mut out: Vec<Entry> = Vec::new();
    let mut off: usize = 0;
    let ghost total = decode_entries(raw@, 0);
    while off < raw.len()
        invariant
            total == decode_entries(raw@, 0),
            decode_entries(raw@, 0) == match decode_entries(raw@, off as int) {
                Some(rest) => Some(out@ + rest),
                None => None::<Seq<Entry>>,
            },
        decreases raw@.len() - off,
    {
        if raw.len() - off < 24 {
            return None;
        }
        let e = read_entry(raw, off);
        let skip = e.skip_to_next();
        let ghost old_out = out@;
        out.push(e);
        if skip >= raw.len() - off - 4 {
            proof {
                assert(old_out + seq![e] =~= out@);
            }
            return Some(out);
        }
        proof {
            match decode_entries(raw@, (off + skip + 4) as int) {
                Some(rest) => {
                    assert(old_out + (seq![e] + rest) =~= out@ + rest);
                },
                None => {},
            }
        }
        off = off + skip + 4;
    }
    proof {
        assert(out@ + Seq::<Entry>::empty() =~= out@);
    }
    Some(out)
}

/// Where the loader's memory map lies: its length in bytes and its address.
#[derive(Clone, Copy, PartialEq, Eq, Structural)]
pub struct MemoryMapPtr {
    pub length: u32,
    pub addr: u32,
}

impl MemoryMapPtr {
    /// The entries of the map, read from `region`, the `length` bytes at
    /// `addr`; `None` if an entry runs past the end.
    pub fn iter(&self, region: &[u8]) -> (r: Option<Vec<Entry>>)
        requires
            region@.len() == self.length,
        ensures
            match decode_entries(region@, 0) {
                Some(s) => r is Some && r.unwrap()@ == s,
                None => r is None,
            },
    {
        decode(region)
    }
}

/// Whether `e` holds the kernel's image `kernel_start..kernel_end`.
pub open spec fn holds_kernel(e: Entry, kernel_start: u64, kernel_end: u64) -> bool {
    e.spec_start() < kernel_start && e.spec_start() + e.spec_len() >= kernel_end
}

/// The entries a loaded map keeps for `e`: the entry itself, directly followed
/// by the next one; or, for the entry that holds the kernel's image, the part
/// before the image, the image (occupied) and the part after it.
pub open spec fn loaded_entries_of(e: Entry, kernel_start: u64, kernel_end: u64) -> Seq<Entry> {
    if holds_kernel(e, kernel_start, kernel_end) {
        seq![
            entry_spec(ENTRY_SKIP, e.spec_start(), (kernel_start - e.spec_start()) as u64, EntryType::Available),
            entry_spec(ENTRY_SKIP, kernel_start, (kernel_end - kernel_start) as u64, EntryType::Occupied),
            entry_spec(ENTRY_SKIP, kernel_end, (e.spec_start() + e.spec_len() - kernel_end) as u64, EntryType::Available),
        ]
    } else {
        seq![entry_spec(ENTRY_SKIP, e.spec_start(), e.spec_len(), e.spec_typ())]
    }
}

/// The entries of a loaded map built from `es`.
pub open spec fn loaded_entries(es: Seq<Entry>, kernel_start: u64, kernel_end: u64) -> Seq<Entry>
    decreases es.len(),
{
    if es.len() == 0 {
        Seq::empty()
    } else {
        loaded_entries(es.drop_last(), kernel_start, kernel_end) + loaded_entries_of(
            es.last(),
            kernel_start,
            kernel_end,
        )
    }
}

/// Every entry ends within the address space, and an entry that holds the
/// kernel's image is usable memory.
pub open spec fn loadable(es: Seq<Entry>, kernel_start: u64, kernel_end: u64) -> bool {
    &&& kernel_start <= kernel_end
    &&& forall|i: int|
        0 <= i < es.len() ==> #[trigger] es[i].spec_start() + es[i].spec_len() <= u64::MAX
    &&& forall|i: int|
        0 <= i < es.len() && holds_kernel(#[trigger] es[i], kernel_start, kernel_end)
            ==> es[i].spec_typ() == EntryType::Available
}

/// The physical memory map, with the kernel's image as a range of its own.
pub struct MemoryMap {
    entries: Vec<Entry>,
    len: usize,
}

impl MemoryMap {
    /// The entries of the map, in order.
    pub closed spec fn view(&self) -> Seq<Entry> {
        self.entries@.subrange(0, self.len as int)
    }

    pub closed spec fn wf(&self) -> bool {
        self.entries@.len() == MMAP_SLOTS && self.len <= MMAP_SLOTS
    }

    /// Builds the map from the loader's entries `es`; the entry that holds the
    /// kernel's image `kernel_start..kernel_end` is split in three around it.
    pub fn load(es: &[Entry], kernel_start: u64, kernel_end: u64) -> (r: MemoryMap)
        requires
            loadable(es@, kernel_start, kernel_end),
            loaded_entries(es@, kernel_start, kernel_end).len() <= MMAP_SLOTS,
        ensures
            r.wf(),
            r@ == loaded_entries(es@, kernel_start, kernel_end),
    {
        let mut entries: Vec<Entry> = Vec::new();
        let mut k: usize = 0;
        while k < MMAP_SLOTS
            invariant
                entries@.len() == k,
                k <= MMAP_SLOTS,
            decreases MMAP_SLOTS - k,
        {
            entries.push(Entry::default());
            k += 1;
        }
        let mut len: usize = 0;
        let mut i: usize = 0;
        while i < es.len()
            invariant
                loadable(es@, kernel_start, kernel_end),
                loaded_entries(es@, kernel_start, kernel_end).len() <= MMAP_SLOTS,
                0 <= i <= es@.len(),
                entries@.len() == MMAP_SLOTS,
                len == loaded_entries(es@.subrange(0, i as int), kernel_start, kernel_end).len(),
                entries@.subrange(0, len as int) == loaded_entries(
                    es@.subrange(0, i as int),
                    kernel_start,
                    kernel_end,
                ),
            decreases es@.len() - i,
        {
            let entry = es[i];
            proof {
                lemma_loaded_prefix(es@, i as int + 1, kernel_start, kernel_end);
                lemma_loaded_mono(es@, i as int + 1, kernel_start, kernel_end);
                assert(es@.subrange(0, i as int + 1).drop_last() =~= es@.subrange(0, i as int));
                assert(es@.subrange(0, i as int + 1).last() == entry);
                assert(entry.spec_start() + entry.spec_len() <= u64::MAX);
            }
            let ghost prefix = entries@.subrange(0, len as int);
            if entry.start() < kernel_start && entry.end() >= kernel_end {
                entries.set(len, Entry::new(entry.start(), kernel_start, EntryType::Available));
                entries.set(len + 1, Entry::new(kernel_start, kernel_end, EntryType::Occupied));
                entries.set(len + 2, Entry::new(kernel_end, entry.end(), EntryType::Available));
                len += 2;
            } else {
                let mut copy = entry;
                copy.skip_to_next = ENTRY_SKIP;
                entries.set(len, copy);
            }
            len += 1;
            i += 1;
            proof {
                assert(entries@.subrange(0, len as int) =~= prefix + loaded_entries_of(
                    entry,
                    kernel_start,
                    kernel_end,
                ));
            }
        }
        proof {
            assert(es@.subrange(0, es@.len() as int) =~= es@);
        }
        MemoryMap { entries, len }
    }

    /// The entries of the map, in order.
    pub fn iter(&self) -> (r: Vec<Entry>)
        requires
            self.wf(),
        ensures
            r@ == self@,
    {
        let mut out: Vec<Entry> = Vec::new();
        let mut i: usize = 0;
        while i < self.len
            invariant
                self.wf(),
                i <= self.len,
                out@ == self.entries@.subrange(0, i as int),
            decreases self.len - i,
        {
            out.push(self.entries[i]);
            i += 1;
            proof {
                assert(out@ =~= self.entries@.subrange(0, i as int));
            }
        }
        out
    }
}

/// Whether a map can be built from the loader's entries `es`: each entry ends
/// within the address space, the entry that holds the kernel's image is usable
/// memory, and the entries of the map fit in `MMAP_SLOTS`.
pub fn loads(es: &[Entry], kernel_start: u64, kernel_end: u64) -> (r: bool)
    ensures
        r == (loadable(es@, kernel_start, kernel_end) && loaded_entries(es@, kernel_start, kernel_end).len()
            <= MMAP_SLOTS),
{
    if kernel_start > kernel_end {
        return false;
    }
    let mut count: usize = 0;
    let mut i: usize = 0;
    while i < es.len()
        invariant
            kernel_start <= kernel_end,
            i <= es@.len(),
            count == loaded_entries(es@.subrange(0, i as int), kernel_start, kernel_end).len(),
            count <= MMAP_SLOTS,
            loadable(es@.subrange(0, i as int), kernel_start, kernel_end),
        decreases es@.len() - i,
    {
        let e = es[i];
        proof {
            lemma_loaded_prefix(es@, i as int + 1, kernel_start, kernel_end);
            assert(es@.subrange(0, i as int + 1)[i as int] == e);
        }
        if e.len > u64::MAX - e.start {
            proof {
                assert(!loadable(es@, kernel_start, kernel_end)) by {
                    assert(es@[i as int] == e);
                }
            }
            return false;
        }
        let holds = e.start < kernel_start && e.start + e.len >= kernel_end;
        if holds && e.typ != EntryType::Available {
            proof {
                assert(!loadable(es@, kernel_start, kernel_end)) by {
                    assert(es@[i as int] == e);
                }
            }
            return false;
        }
        let add: usize = if holds { 3 } else { 1 };
        if count + add > MMAP_SLOTS {
            proof {
                lemma_loaded_mono(es@, i as int + 1, kernel_start, kernel_end);
            }
            return false;
        }
        count = count + add;
        i += 1;
        proof {
            let sub = es@.subrange(0, i as int);
            assert forall|j: int| 0 <= j < sub.len() implies #[trigger] sub[j].spec_start() + sub[j].spec_len() <= u64::MAX && (holds_kernel(sub[j], kernel_start, kernel_end) ==> sub[j].spec_typ() == EntryType::Available) by {
                if j < i - 1 {
                    assert(es@.subrange(0, i - 1)[j] == sub[j]);
                }
            }
        }
    }
    proof {
        assert(es@.subrange(0, es@.len() as int) =~= es@);
    }
    true
}

/// A prefix yields no more entries than the whole.
proof fn lemma_loaded_mono(es: Seq<Entry>, k: int, kernel_start: u64, kernel_end: u64)
    requires
        0 <= k <= es.len(),
    ensures
        loaded_entries(es.subrange(0, k), kernel_start, kernel_end).len() <= loaded_entries(
            es,
            kernel_start,
            kernel_end,
        ).len(),
    decreases es.len() - k,
{
    if k < es.len() {
        lemma_loaded_mono(es, k + 1, kernel_start, kernel_end);
        lemma_loaded_prefix(es, k + 1, kernel_start, kernel_end);
    } else {
        assert(es.subrange(0, k) =~= es);
    }
}

/// The entries of a prefix grow one entry's share at a time.
proof fn lemma_loaded_prefix(es: Seq<Entry>, k: int, kernel_start: u64, kernel_end: u64)
    requires
        0 < k <= es.len(),
    ensures
        loaded_entries(es.subrange(0, k), kernel_start, kernel_end) == loaded_entries(
            es.subrange(0, k - 1),
            kernel_start,
            kernel_end,
        ) + loaded_entries_of(es[k - 1], kernel_start, kernel_end),
        loaded_entries(es.subrange(0, k - 1), kernel_start, kernel_end).len() <= loaded_entries(
            es.subrange(0, k),
            kernel_start,
            kernel_end,
        ).len(),
{
    assert(es.subrange(0, k).drop_last() =~= es.subrange(0, k - 1));
}

} // verus!
