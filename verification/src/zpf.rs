//! Encoding a patched ROM as a ZPF patch stream (before zlib compression).
//!
//! The stream holds a header, the changed records of the ROM's DMA table, and the changed bytes,
//! grouped into blocks and XOR-ed with keys taken from a fixed range of the base ROM.

use vstd::prelude::*;
use crate::patch::Patch;

verus! {

/// Address of the DMA table in the ROM.
pub const DMADATA_START: u32 = 0x7430;

/// First address of the base ROM range that XOR keys are taken from.
pub const XOR_START: usize = 0x00b8_ad30;

/// Address just past the base ROM range that XOR keys are taken from.
pub const XOR_END: usize = 0x00f0_29a0;

/// Unchanged bytes shorter than this do not start a new block.
pub const BLOCK_HEADER_SIZE: usize = 7;

/// The DMA table's own record was not found among the first 2001 records.
#[derive(Debug, Clone, Copy, PartialEq, Eq, Structural)]
pub struct DmaTableError;

/// Why a ZPF stream could not be produced.
///
/// `DmaTable` is the error that patch writing reports. Each other variant names an input on which
/// writing the patch cannot finish.
#[derive(Debug, Clone, Copy, PartialEq, Eq, Structural)]
pub enum ZpfError {
    /// The DMA table could not be located.
    DmaTable(DmaTableError),
    /// An address or offset does not fit its type.
    AddressOutOfRange,
    /// An arithmetic result fell outside its integer type.
    Overflow,
    /// A read went past the end of the ROM.
    ReadPastEnd,
    /// A changed DMA record's index does not fit into 16 bits.
    DmaIndexOutOfRange,
    /// A changed DMA record's size does not fit into 24 bits.
    DmaSizeTooLarge,
    /// The record a changed DMA record was copied from was not found.
    DmaRecordNotFound,
    /// Two changed DMA records start at the same address.
    DuplicateRelocation,
    /// Two changed DMA records' ranges overlap.
    OverlappingRelocations,
    /// A changed segment starts at an address of the base ROM with no bytes.
    PatchIndex,
    /// A section of an XOR block is longer than 0xffff bytes.
    SectionTooLong,
    /// The key range of the base ROM holds no usable XOR key.
    NoXorKey,
}

/// One changed record of the DMA table.
#[derive(Debug, Clone, Copy, PartialEq, Eq, Structural)]
pub struct DmaChange {
    pub index: u32,
    pub from_file: i32,
    pub start: u32,
    pub size: u32,
}

/// A range of the new ROM layout and where its data comes from in the base ROM
/// (`None`: zero bytes).
#[derive(Debug, Clone, Copy, PartialEq, Eq, Structural)]
pub struct Relocation {
    pub start: u32,
    pub end: u32,
    pub source: Option<u32>,
}

/// Big-endian bytes of a 16-bit value.
pub open spec fn be16(x: int) -> Seq<u8> {
    seq![((x / 0x100) % 0x100) as u8, (x % 0x100) as u8]
}

/// Big-endian bytes of a 32-bit value.
pub open spec fn be32(x: int) -> Seq<u8> {
    seq![
        ((x / 0x100_0000) % 0x100) as u8,
        ((x / 0x1_0000) % 0x100) as u8,
        ((x / 0x100) % 0x100) as u8,
        (x % 0x100) as u8,
    ]
}

/// The 32-bit value of four big-endian bytes.
pub open spec fn be32_value(s: Seq<u8>) -> int {
    s[0] * 0x100_0000 + s[1] * 0x1_0000 + s[2] * 0x100 + s[3]
}

/// The two's complement bit pattern of a 32-bit signed value.
pub open spec fn i32_bits(x: i32) -> int {
    if x < 0 {
        x + 0x1_0000_0000
    } else {
        x as int
    }
}

fn push_be16(out: &mut Vec<u8>, x: u16)
    ensures
        final(out)@ == old(out)@ + be16(x as int),
{
    out.push((x / 0x100) as u8);
    out.push((x % 0x100) as u8);
    proof {
        assert(final(out)@ =~= old(out)@ + be16(x as int));
    }
}

fn push_be32(out: &mut Vec<u8>, x: u32)
    ensures
        final(out)@ == old(out)@ + be32(x as int),
{
    out.push((x / 0x100_0000) as u8);
    out.push(((x / 0x1_0000) % 0x100) as u8);
    out.push(((x / 0x100) % 0x100) as u8);
    out.push((x % 0x100) as u8);
    proof {
        assert(final(out)@ =~= old(out)@ + be32(x as int));
    }
}

fn word_at(bytes: &[u8], at: usize) -> (r: u32)
    requires
        at + 4 <= bytes@.len(),
    ensures
        r == be32_value(bytes@.subrange(at as int, at + 4)),
{
    (bytes[at] as u32) * 0x100_0000 + (bytes[at + 1] as u32) * 0x1_0000 + (bytes[at + 2] as u32)
        * 0x100 + (bytes[at + 3] as u32)
}

impl<'a> Patch<'a> {
    /// Reading the 32-bit word at `lo` through `slice`.
    pub open spec fn slice_word(&self, lo: int) -> Result<u32, ZpfError> {
        if lo + 4 > usize::MAX {
            Err(ZpfError::AddressOutOfRange)
        } else if !self.slice_ok(lo, lo + 4) {
            Err(ZpfError::ReadPastEnd)
        } else {
            Ok(be32_value(self.slice_view(lo, lo + 4)) as u32)
        }
    }

    /// Reading a 32-bit word of the base ROM at `lo`.
    pub open spec fn base_word(&self, lo: int) -> Result<u32, ZpfError> {
        if lo + 4 > self.base().len() {
            Err(ZpfError::ReadPastEnd)
        } else {
            Ok(be32_value(self.base().subrange(lo, lo + 4)) as u32)
        }
    }

    /// Reads the 32-bit word at `lo` through `slice`; addresses are computed in 64 bits.
    fn read_slice_word(&self, lo: u64) -> (r: Result<u32, ZpfError>)
        requires
            lo <= u32::MAX,
        ensures
            r == self.slice_word(lo as int),
    {
        if lo > usize::MAX as u64 - 4 {
            return Err(ZpfError::AddressOutOfRange);
        }
        let lo = lo as usize;
        if !self.slice_ok_exec(lo, lo + 4) {
            return Err(ZpfError::ReadPastEnd);
        }
        let bytes = self.slice(lo, lo + 4);
        let w = word_at(bytes.as_slice(), 0);
        proof {
            assert(bytes@.subrange(0, 4) =~= self.slice_view(lo as int, lo + 4));
        }
        Ok(w)
    }

    /// Reads a 32-bit word of the base ROM at `lo`.
    fn read_base_word(&self, lo: u64) -> (r: Result<u32, ZpfError>)
        requires
            lo <= u32::MAX,
        ensures
            r == self.base_word(lo as int),
    {
        if lo + 4 > self.base_rom().len() as u64 {
            return Err(ZpfError::ReadPastEnd);
        }
        Ok(word_at(self.base_rom(), lo as usize))
    }
}

impl<'a> Patch<'a> {
    /// The index of the DMA table's own record: the first record, from `i` on and not past
    /// record 2000, whose start word (read through `slice`) is the table's address.
    pub open spec fn dma_index_from(&self, i: int) -> Result<u32, ZpfError>
        decreases 2001 - i,
    {
        if i > 2000 || i < 0 {
            Err(ZpfError::DmaTable(DmaTableError))
        } else {
            let lo = DMADATA_START + 0x10 * i;
            match self.slice_word(lo) {
                Err(e) => Err(e),
                Ok(w) => if w == DMADATA_START {
                    Ok(i as u32)
                } else {
                    self.dma_index_from(i + 1)
                },
            }
        }
    }

    /// Finds the DMA table's own record.
    fn find_dma_index(&self) -> (r: Result<u32, ZpfError>)
        ensures
            r == self.dma_index_from(0),
            r matches Ok(d) ==> d <= 2000,
    {
        let mut i: u64 = 0;
        while i <= 2000
            invariant
                0 <= i <= 2001,
                self.dma_index_from(0) == self.dma_index_from(i as int),
            decreases 2001 - i,
        {
            let lo = 0x7430u64 + i * 0x10;
            match self.read_slice_word(lo) {
                Err(e) => {
                    return Err(e);
                },
                Ok(w) => {
                    if w == DMADATA_START {
                        return Ok(i as u32);
                    }
                },
            }
            i = i + 1;
        }
        Err(ZpfError::DmaTable(DmaTableError))
    }

    /// Scanning DMA records `idx .. num` for records that differ between the patched and the
    /// base ROM, after `acc` were found: each record's start and end words are read from its own
    /// place in the table.
    pub open spec fn scan_dma_from(&self, num: int, idx: int, acc: Seq<DmaChange>) -> Result<
        Seq<DmaChange>,
        ZpfError,
    >
        decreases num - idx,
    {
        if idx >= num || idx < 0 {
            Ok(acc)
        } else {
            let lo1 = DMADATA_START + 0x10 * idx;
            let lo2 = lo1 + 4;
            if lo1 > u32::MAX {
                Err(ZpfError::Overflow)
            } else {
                match self.slice_word(lo1) {
                    Err(e) => Err(e),
                    Ok(dma_start) => if lo2 > u32::MAX {
                        Err(ZpfError::Overflow)
                    } else {
                        match self.slice_word(lo2) {
                            Err(e) => Err(e),
                            Ok(dma_end) => match self.base_word(lo1) {
                                Err(e) => Err(e),
                                Ok(old_start) => match self.base_word(lo2) {
                                    Err(e) => Err(e),
                                    Ok(old_end) => if dma_start == 0 && dma_end == 0 && old_start == 0
                                        && old_end == 0 {
                                        Ok(acc)
                                    } else if dma_start == old_start && dma_end == old_end {
                                        self.scan_dma_from(num, idx + 1, acc)
                                    } else if idx < 1496 && old_start > i32::MAX {
                                        Err(ZpfError::AddressOutOfRange)
                                    } else if dma_end < dma_start {
                                        Err(ZpfError::Overflow)
                                    } else {
                                        let from_file: i32 = if idx < 1496 {
                                            old_start as i32
                                        } else {
                                            -1i32
                                        };
                                        self.scan_dma_from(
                                            num,
                                            idx + 1,
                                            acc.push(
                                                DmaChange {
                                                    index: idx as u32,
                                                    from_file,
                                                    start: dma_start,
                                                    size: (dma_end - dma_start) as u32,
                                                },
                                            ),
                                        )
                                    },
                                },
                            },
                        }
                    },
                }
            }
        }
    }

    /// Collects the DMA records that differ between the patched and the base ROM.
    fn scan_dma(&self, num: u32) -> (r: Result<Vec<DmaChange>, ZpfError>)
        ensures
            r matches Ok(v) ==> self.scan_dma_from(num as int, 0, Seq::empty()) == Ok::<
                Seq<DmaChange>,
                ZpfError,
            >(v@),
            r matches Err(e) ==> self.scan_dma_from(num as int, 0, Seq::empty()) == Err::<
                Seq<DmaChange>,
                ZpfError,
            >(e),
    {
        let mut changed: Vec<DmaChange> = Vec::new();
        let mut idx: u32 = 0;
        while idx < num
            invariant
                self.scan_dma_from(num as int, 0, Seq::empty()) == self.scan_dma_from(
                    num as int,
                    idx as int,
                    changed@,
                ),
            decreases num - idx,
        {
            let lo1 = 0x7430u64 + (idx as u64) * 0x10;
            let lo2 = lo1 + 4;
            if lo1 > u32::MAX as u64 {
                return Err(ZpfError::Overflow);
            }
            let dma_start = match self.read_slice_word(lo1) {
                Err(e) => {
                    return Err(e);
                },
                Ok(w) => w,
            };
            if lo2 > u32::MAX as u64 {
                return Err(ZpfError::Overflow);
            }
            let dma_end = match self.read_slice_word(lo2) {
                Err(e) => {
                    return Err(e);
                },
                Ok(w) => w,
            };
            let old_start = match self.read_base_word(lo1) {
                Err(e) => {
                    return Err(e);
                },
                Ok(w) => w,
            };
            let old_end = match self.read_base_word(lo2) {
                Err(e) => {
                    return Err(e);
                },
                Ok(w) => w,
            };
            if dma_start == 0 && dma_end == 0 && old_start == 0 && old_end == 0 {
                return Ok(changed);
            }
            if !(dma_start == old_start && dma_end == old_end) {
                if idx < 1496 && old_start > 0x7fff_ffff {
                    return Err(ZpfError::AddressOutOfRange);
                }
                if dma_end < dma_start {
                    return Err(ZpfError::Overflow);
                }
                let from_file: i32 = if idx < 1496 {
                    old_start as i32
                } else {
                    -1
                };
                changed.push(DmaChange { index: idx, from_file, start: dma_start, size: dma_end - dma_start });
            }
            idx = idx + 1;
        }
        Ok(changed)
    }
}

/// Relocations are sorted and do not overlap.
pub open spec fn rels_ordered(rels: Seq<Relocation>) -> bool {
    &&& forall|i: int| 0 <= i < rels.len() ==> (#[trigger] rels[i]).start <= rels[i].end
    &&& forall|i: int, j: int| 0 <= i < j < rels.len() ==> (#[trigger] rels[i]).end <= (#[trigger] rels[j]).start
}

/// Where a relocation starting at `key` goes among ordered relocations.
pub open spec fn is_insert_point(rels: Seq<Relocation>, key: int, i: int) -> bool {
    &&& 0 <= i <= rels.len()
    &&& forall|j: int| 0 <= j < i ==> (#[trigger] rels[j]).start < key
    &&& forall|j: int| i <= j < rels.len() ==> (#[trigger] rels[j]).start > key
}

/// Some relocation starts at `key`.
pub open spec fn starts_at(rels: Seq<Relocation>, key: int) -> bool {
    exists|j: int| 0 <= j < rels.len() && (#[trigger] rels[j]).start == key
}

/// The insert point of a relocation starting at `key`.
pub open spec fn insert_point(rels: Seq<Relocation>, key: int) -> int {
    choose|i: int| is_insert_point(rels, key, i)
}

/// A range `[start, end)` fits among ordered relocations at position `i`.
pub open spec fn fits_at(rels: Seq<Relocation>, i: int, start: int, end: int) -> bool {
    &&& (i == 0 || rels[i - 1].end <= start)
    &&& (i == rels.len() || end <= rels[i].start)
}

proof fn lemma_insert_point_unique(rels: Seq<Relocation>, key: int, i: int, k: int)
    requires
        is_insert_point(rels, key, i),
        is_insert_point(rels, key, k),
    ensures
        i == k,
{
    if i < k {
        assert(rels[i].start > key);
    } else if k < i {
        assert(rels[k].start > key);
    }
}

/// Finds a relocation starting at `key`, or where one would be inserted.
fn search_relocation(rels: &Vec<Relocation>, key: u32) -> (r: Result<usize, usize>)
    requires
        rels_ordered(rels@),
    ensures
        r is Ok <==> starts_at(rels@, key as int),
        r matches Err(i) ==> is_insert_point(rels@, key as int, i as int),
{
    let mut lo: usize = 0;
    let mut hi: usize = rels.len();
    while lo < hi
        invariant
            rels_ordered(rels@),
            0 <= lo <= hi <= rels@.len(),
            forall|j: int| 0 <= j < lo ==> (#[trigger] rels@[j]).start < key,
            forall|j: int| hi <= j < rels@.len() ==> (#[trigger] rels@[j]).start > key,
        decreases hi - lo,
    {
        let mid = lo + (hi - lo) / 2;
        let s = rels[mid].start;
        if s == key {
            return Ok(mid);
        } else if s < key {
            proof {
                assert forall|j: int| 0 <= j < mid + 1 implies (#[trigger] rels@[j]).start < key by {
                    if j < mid {
                        assert(rels@[j].end <= rels@[mid as int].start);
                    }
                }
            }
            lo = mid + 1;
        } else {
            proof {
                assert forall|j: int| mid <= j < rels@.len() implies (#[trigger] rels@[j]).start > key by {
                    if j > mid {
                        assert(rels@[mid as int].end <= rels@[j].start);
                    }
                }
            }
            hi = mid;
        }
    }
    proof {
        if starts_at(rels@, key as int) {
            let j = choose|j: int| 0 <= j < rels@.len() && (#[trigger] rels@[j]).start == key;
        }
    }
    Err(lo)
}

/// Inserting a range that fits keeps relocations ordered.
proof fn lemma_insert_ordered(rels: Seq<Relocation>, i: int, r: Relocation)
    requires
        rels_ordered(rels),
        0 <= i <= rels.len(),
        r.start <= r.end,
        fits_at(rels, i, r.start as int, r.end as int),
    ensures
        rels_ordered(rels.insert(i, r)),
{
    let n = rels.insert(i, r);
    assert forall|a: int, b: int| 0 <= a < b < n.len() implies (#[trigger] n[a]).end <= (#[trigger] n[b]).start by {
        if a < i && b == i {
            assert(rels[a].end <= rels[i - 1].end) by {
                if a < i - 1 {
                    assert(rels[a].end <= rels[i - 1].start);
                }
            }
        } else if a == i && b > i {
            assert(rels[i].start <= rels[b - 1].start) by {
                if i < b - 1 {
                    assert(rels[i].end <= rels[b - 1].start);
                }
            }
        }
    }
}

impl<'a> Patch<'a> {
    /// The first DMA record from `e` on, below `num`, whose base start word is `target`.
    pub open spec fn find_entry_from(&self, num: int, target: u32, e: int) -> Result<int, ZpfError>
        decreases num - e,
    {
        if e >= num || e < 0 {
            Err(ZpfError::DmaRecordNotFound)
        } else {
            let lo = DMADATA_START + 0x10 * e;
            if lo > u32::MAX {
                Err(ZpfError::Overflow)
            } else {
                match self.base_word(lo) {
                    Err(err) => Err(err),
                    Ok(w) => if w == target {
                        Ok(e)
                    } else {
                        self.find_entry_from(num, target, e + 1)
                    },
                }
            }
        }
    }

    fn find_entry(&self, num: u32, target: u32) -> (r: Result<u32, ZpfError>)
        ensures
            r matches Ok(e) ==> self.find_entry_from(num as int, target, 0) == Ok::<int, ZpfError>(e as int),
            r matches Err(err) ==> self.find_entry_from(num as int, target, 0) == Err::<int, ZpfError>(err),
    {
        let mut e: u32 = 0;
        while e < num
            invariant
                self.find_entry_from(num as int, target, 0) == self.find_entry_from(num as int, target, e as int),
            decreases num - e,
        {
            let lo = 0x7430u64 + (e as u64) * 0x10;
            if lo > u32::MAX as u64 {
                return Err(ZpfError::Overflow);
            }
            match self.read_base_word(lo) {
                Err(err) => {
                    return Err(err);
                },
                Ok(w) => {
                    if w == target {
                        return Ok(e);
                    }
                },
            }
            e = e + 1;
        }
        Err(ZpfError::DmaRecordNotFound)
    }

    /// The bytes announcing one changed DMA record.
    pub open spec fn change_bytes(c: DmaChange) -> Seq<u8> {
        be16(c.index as int) + be32(i32_bits(c.from_file)) + be32(c.start as int) + be32(
            c.size as int,
        ).subrange(1, 4)
    }

    /// The relocations after recording changed DMA record `c`.
    #[verifier::opaque]
    pub open spec fn change_relocations(&self, num: int, c: DmaChange, rels: Seq<Relocation>) -> Result<
        Seq<Relocation>,
        ZpfError,
    > {
        let start = c.start as int;
        let size = c.size as int;
        let pos = insert_point(rels, start);
        if c.from_file >= 0 {
            let old_start = c.from_file as u32;
            match self.find_entry_from(num, old_start, 0) {
                Err(e) => Err(e),
                Ok(e) => {
                    let lo = DMADATA_START + 0x10 * e + 4;
                    if lo > u32::MAX {
                        Err(ZpfError::Overflow)
                    } else {
                        match self.base_word(lo) {
                            Err(err) => Err(err),
                            Ok(old_end) => if old_end < old_start {
                                Err(ZpfError::Overflow)
                            } else {
                                let copy = if size <= old_end - old_start {
                                    size
                                } else {
                                    old_end - old_start
                                };
                                if starts_at(rels, start) {
                                    Err(ZpfError::DuplicateRelocation)
                                } else if start + copy > u32::MAX {
                                    Err(ZpfError::Overflow)
                                } else if copy < size && start + size > u32::MAX {
                                    Err(ZpfError::Overflow)
                                } else if !fits_at(rels, pos, start, start + size) {
                                    Err(ZpfError::OverlappingRelocations)
                                } else {
                                    let r1 = Relocation {
                                        start: c.start,
                                        end: (start + copy) as u32,
                                        source: Some(old_start),
                                    };
                                    if copy < size {
                                        let r2 = Relocation {
                                            start: (start + copy) as u32,
                                            end: (start + size) as u32,
                                            source: None,
                                        };
                                        Ok(rels.insert(pos, r1).insert(pos + 1, r2))
                                    } else {
                                        Ok(rels.insert(pos, r1))
                                    }
                                }
                            },
                        }
                    }
                },
            }
        } else {
            if starts_at(rels, start) {
                Err(ZpfError::DuplicateRelocation)
            } else if start + size > u32::MAX {
                Err(ZpfError::Overflow)
            } else if !fits_at(rels, pos, start, start + size) {
                Err(ZpfError::OverlappingRelocations)
            } else {
                Ok(rels.insert(pos, Relocation { start: c.start, end: (start + size) as u32, source: None }))
            }
        }
    }

    /// Announcing changed DMA records `k ..` after `out` was written and `rels` were recorded:
    /// the bytes written and the relocations recorded.
    pub open spec fn emit_from(&self, num: int, changes: Seq<DmaChange>, k: int, out: Seq<u8>, rels: Seq<
        Relocation,
    >) -> Result<(Seq<u8>, Seq<Relocation>), ZpfError>
        decreases changes.len() - k,
    {
        if k >= changes.len() || k < 0 {
            Ok((out, rels))
        } else {
            let c = changes[k];
            if c.index > 0xffff {
                Err(ZpfError::DmaIndexOutOfRange)
            } else if c.size >= 0x100_0000 {
                Err(ZpfError::DmaSizeTooLarge)
            } else {
                match self.change_relocations(num, c, rels) {
                    Err(e) => Err(e),
                    Ok(rels2) => self.emit_from(num, changes, k + 1, out + Self::change_bytes(c), rels2),
                }
            }
        }
    }

    fn push_change_bytes(out: &mut Vec<u8>, c: DmaChange)
        requires
            c.index <= 0xffff,
            c.size < 0x100_0000,
        ensures
            final(out)@ == old(out)@ + Self::change_bytes(c),
    {
        let ghost out_before = out@;
        push_be16(out, c.index as u16);
        let bits: u32 = if c.from_file < 0 {
            (c.from_file as i64 + 0x1_0000_0000i64) as u32
        } else {
            c.from_file as u32
        };
        push_be32(out, bits);
        push_be32(out, c.start);
        out.push(((c.size / 0x1_0000) % 0x100) as u8);
        out.push(((c.size / 0x100) % 0x100) as u8);
        out.push((c.size % 0x100) as u8);
        proof {
            assert(out@ =~= out_before + Self::change_bytes(c));
        }
    }

    /// Records the relocations implied by changed DMA record `c`.
    fn record_change(&self, num: u32, c: DmaChange, rels: &mut Vec<Relocation>) -> (r: Result<(), ZpfError>)
        requires
            rels_ordered(old(rels)@),
        ensures
            r is Ok ==> self.change_relocations(num as int, c, old(rels)@) == Ok::<Seq<Relocation>, ZpfError>(final(rels)@),
            r is Ok ==> rels_ordered(final(rels)@),
            r matches Err(e) ==> self.change_relocations(num as int, c, old(rels)@) == Err::<Seq<Relocation>, ZpfError>(e),
    {
        reveal(Patch::change_relocations);
        let ghost rels_before = rels@;
        let start = c.start;
        let size = c.size;
        match search_relocation(&rels, start) {
            Ok(_) => {
                if c.from_file >= 0 {
                    // the copied record is looked up before the duplicate is noticed
                    let e = match self.find_entry(num, c.from_file as u32) {
                        Err(err) => {
                            return Err(err);
                        },
                        Ok(e) => e,
                    };
                    let lo = 0x7430u64 + (e as u64) * 0x10 + 4;
                    if lo > u32::MAX as u64 {
                        return Err(ZpfError::Overflow);
                    }
                    let old_end = match self.read_base_word(lo) {
                        Err(err) => {
                            return Err(err);
                        },
                        Ok(w) => w,
                    };
                    if old_end < c.from_file as u32 {
                        return Err(ZpfError::Overflow);
                    }
                }
                return Err(ZpfError::DuplicateRelocation);
            },
            Err(pos) => {
                proof {
                    assert(is_insert_point(rels@, start as int, insert_point(rels@, start as int)));
                    lemma_insert_point_unique(rels@, start as int, pos as int, insert_point(rels@, start as int));
                }
                if c.from_file >= 0 {
                    let old_start = c.from_file as u32;
                    let e = match self.find_entry(num, old_start) {
                        Err(err) => {
                            return Err(err);
                        },
                        Ok(e) => e,
                    };
                    let lo = 0x7430u64 + (e as u64) * 0x10 + 4;
                    if lo > u32::MAX as u64 {
                        return Err(ZpfError::Overflow);
                    }
                    let old_end = match self.read_base_word(lo) {
                        Err(err) => {
                            return Err(err);
                        },
                        Ok(w) => w,
                    };
                    if old_end < old_start {
                        return Err(ZpfError::Overflow);
                    }
                    let copy = if size <= old_end - old_start {
                        size
                    } else {
                        old_end - old_start
                    };
                    if start as u64 + copy as u64 > u32::MAX as u64 {
                        return Err(ZpfError::Overflow);
                    }
                    if copy < size && start as u64 + size as u64 > u32::MAX as u64 {
                        return Err(ZpfError::Overflow);
                    }
                    if !((pos == 0 || rels[pos - 1].end <= start) && (pos == rels.len()
                        || start as u64 + size as u64 <= rels[pos].start as u64)) {
                        return Err(ZpfError::OverlappingRelocations);
                    }
                    let r1 = Relocation { start, end: start + copy, source: Some(old_start) };
                    proof {
                        lemma_insert_ordered(rels@, pos as int, r1);
                    }
                    rels.insert(pos, r1);
                    if copy < size {
                        let r2 = Relocation { start: start + copy, end: start + size, source: None };
                        proof {
                            let n1 = rels@;
                            assert(fits_at(n1, pos + 1, r2.start as int, r2.end as int)) by {
                                if pos + 1 < n1.len() {
                                    assert(n1[pos + 1] == rels_before[pos as int]);
                                }
                            }
                            lemma_insert_ordered(n1, pos + 1, r2);
                        }
                        assert(pos < rels.len());
                        rels.insert(pos + 1, r2);
                    }
                } else {
                    if start as u64 + size as u64 > u32::MAX as u64 {
                        return Err(ZpfError::Overflow);
                    }
                    if !((pos == 0 || rels[pos - 1].end <= start) && (pos == rels.len()
                        || start as u64 + size as u64 <= rels[pos].start as u64)) {
                        return Err(ZpfError::OverlappingRelocations);
                    }
                    let r = Relocation { start, end: start + size, source: None };
                    proof {
                        lemma_insert_ordered(rels@, pos as int, r);
                    }
                    rels.insert(pos, r);
                }
            },
        }
        Ok(())
    }

    /// Writes the announcements of the changed DMA records and computes the relocations they
    /// imply.
    fn emit_dma_updates(&self, num: u32, changes: &Vec<DmaChange>, out: &mut Vec<u8>) -> (r: Result<
        Vec<Relocation>,
        ZpfError,
    >)
        ensures
            r matches Ok(rels) ==> self.emit_from(num as int, changes@, 0, old(out)@, Seq::empty())
                == Ok::<(Seq<u8>, Seq<Relocation>), ZpfError>((final(out)@, rels@)),
            r matches Err(e) ==> self.emit_from(num as int, changes@, 0, old(out)@, Seq::empty())
                == Err::<(Seq<u8>, Seq<Relocation>), ZpfError>(e),
            r matches Ok(rels) ==> rels_ordered(rels@),
    {
        let mut rels: Vec<Relocation> = Vec::new();
        let mut k: usize = 0;
        let ghost out0 = out@;
        while k < changes.len()
            invariant
                0 <= k <= changes@.len(),
                out0 == old(out)@,
                rels_ordered(rels@),
                self.emit_from(num as int, changes@, 0, out0, Seq::empty()) == self.emit_from(
                    num as int,
                    changes@,
                    k as int,
                    out@,
                    rels@,
                ),
            decreases changes@.len() - k,
        {
            let c = changes[k];
            if c.index > 0xffff {
                return Err(ZpfError::DmaIndexOutOfRange);
            }
            if c.size >= 0x100_0000 {
                return Err(ZpfError::DmaSizeTooLarge);
            }
            Self::push_change_bytes(out, c);
            match self.record_change(num, c, &mut rels) {
                Err(e) => {
                    return Err(e);
                },
                Ok(()) => {},
            }
            k = k + 1;
        }
        Ok(rels)
    }
}

impl<'a> Patch<'a> {
    /// The bytes a relocation stands for: copied from the base ROM, or zeros.
    pub open spec fn piece(&self, r: Relocation) -> Seq<u8> {
        match r.source {
            Some(src) => self.base().subrange(src as int, src + (r.end - r.start)),
            None => Seq::new((r.end - r.start) as nat, |i: int| 0u8),
        }
    }

    /// The relocated layout from the start of relocation 0 to the end of relocation `k - 1`:
    /// each relocation's bytes, with the base ROM's bytes in the gaps between them.
    pub open spec fn reloc_bytes(&self, rels: Seq<Relocation>, k: int) -> Seq<u8>
        decreases k,
    {
        if k <= 0 {
            Seq::empty()
        } else {
            let r = rels[k - 1];
            let gap = if k >= 2 {
                self.base().subrange(rels[k - 2].end as int, r.start as int)
            } else {
                Seq::empty()
            };
            self.reloc_bytes(rels, k - 1) + gap + self.piece(r)
        }
    }

    /// The bytes a relocation copies lie within the base ROM.
    pub open spec fn source_fits(&self, r: Relocation) -> bool {
        match r.source {
            Some(src) => src + (r.end - r.start) <= self.base().len(),
            None => true,
        }
    }

    /// Some relocation copies bytes from past the end of the base ROM.
    pub open spec fn source_past_end(&self, rels: Seq<Relocation>) -> bool {
        exists|i: int| 0 <= i < rels.len() && !self.source_fits(#[trigger] rels[i])
    }

    /// The base ROM with the relocations applied: what the patched ROM is compared against.
    pub open spec fn relocated(&self, rels: Seq<Relocation>) -> Result<Seq<u8>, ZpfError> {
        let n = rels.len();
        let len = self.base().len();
        if n == 0 {
            Ok(self.base())
        } else if rels[0].start > len || self.source_past_end(rels) || rels[n - 1].end > len {
            Err(ZpfError::ReadPastEnd)
        } else {
            Ok(
                self.base().subrange(0, rels[0].start as int) + self.reloc_bytes(rels, n as int)
                    + self.base().subrange(rels[n - 1].end as int, len as int),
            )
        }
    }

    proof fn lemma_reloc_bytes_len(&self, rels: Seq<Relocation>, k: int)
        requires
            rels_ordered(rels),
            1 <= k <= rels.len(),
            forall|i: int| 0 <= i < rels.len() ==> self.source_fits(#[trigger] rels[i]),
            rels[rels.len() - 1].end <= self.base().len(),
        ensures
            self.reloc_bytes(rels, k).len() == rels[k - 1].end - rels[0].start,
        decreases k,
    {
        assert(self.source_fits(rels[k - 1]));
        assert(rels[k - 1].start <= rels[k - 1].end);
        assert(rels[k - 1].end <= rels[rels.len() - 1].end) by {
            if k - 1 < rels.len() - 1 {
                assert(rels[k - 1].end <= rels[rels.len() - 1].start);
            }
        }
        let r = rels[k - 1];
        assert(self.piece(r).len() == r.end - r.start) by {
            match r.source {
                Some(src) => {},
                None => {},
            }
        }
        if k >= 2 {
            self.lemma_reloc_bytes_len(rels, k - 1);
            assert(rels[k - 2].end <= rels[k - 1].start);
            assert(self.reloc_bytes(rels, k).len() == self.reloc_bytes(rels, k - 1).len() + (r.start
                - rels[k - 2].end) + (r.end - r.start));
        } else {
            assert(self.reloc_bytes(rels, 0) =~= Seq::<u8>::empty());
            assert(self.reloc_bytes(rels, k) =~= self.piece(r));
        }
    }

    /// The base ROM with the relocations applied.
    fn relocated_base(&self, rels: &Vec<Relocation>) -> (r: Result<Vec<u8>, ZpfError>)
        requires
            rels_ordered(rels@),
        ensures
            r matches Ok(v) ==> self.relocated(rels@) == Ok::<Seq<u8>, ZpfError>(v@),
            r matches Ok(v) ==> v@.len() == self.base().len(),
            r matches Err(e) ==> self.relocated(rels@) == Err::<Seq<u8>, ZpfError>(e),
    {
        let base = self.base_rom();
        let len = base.len();
        let n = rels.len();
        if n == 0 {
            return Ok(vstd::slice::slice_to_vec(base));
        }
        if rels[0].start as usize > len {
            return Err(ZpfError::ReadPastEnd);
        }
        let mut i: usize = 0;
        while i < n
            invariant
                n == rels@.len(),
                len == self.base().len(),
                rels_ordered(rels@),
                forall|j: int| 0 <= j < i ==> self.source_fits(#[trigger] rels@[j]),
            decreases n - i,
        {
            let r = rels[i];
            match r.source {
                Some(src) => {
                    if src as u64 + (r.end - r.start) as u64 > len as u64 {
                        proof {
                            assert(self.source_past_end(rels@));
                        }
                        return Err(ZpfError::ReadPastEnd);
                    }
                },
                None => {},
            }
            i = i + 1;
        }
        assert(!self.source_past_end(rels@));
        if rels[n - 1].end as usize > len {
            return Err(ZpfError::ReadPastEnd);
        }
        let mut out: Vec<u8> = vstd::slice::slice_to_vec(&base[0..rels[0].start as usize]);
        let mut k: usize = 0;
        while k < n
            invariant
                n == rels@.len(),
                n >= 1,
                len == self.base().len(),
                rels_ordered(rels@),
                base@ == self.base(),
                0 <= k <= n,
                rels@[0].start <= len,
                rels@[n - 1].end <= len,
                forall|j: int| 0 <= j < n ==> self.source_fits(#[trigger] rels@[j]),
                out@ == self.base().subrange(0, rels@[0].start as int) + self.reloc_bytes(rels@, k as int),
            decreases n - k,
        {
            let r = rels[k];
            proof {
                assert(r.end <= rels@[n - 1].end) by {
                    if k < n - 1 {
                        assert(rels@[k as int].end <= rels@[n - 1].start);
                    }
                }
            }
            let ghost before = out@;
            if k >= 1 {
                let prev_end = rels[k - 1].end as usize;
                assert(rels@[k - 1].end <= rels@[k as int].start);
                out.extend_from_slice(&base[prev_end..r.start as usize]);
            }
            let ghost mid = out@;
            match r.source {
                Some(src) => {
                    let s = src as usize;
                    out.extend_from_slice(&base[s..s + (r.end - r.start) as usize]);
                },
                None => {
                    let mut z: u32 = r.start;
                    while z < r.end
                        invariant
                            r.start <= z <= r.end,
                            out@ == mid + Seq::new((z - r.start) as nat, |i: int| 0u8),
                        decreases r.end - z,
                    {
                        out.push(0);
                        proof {
                            assert(out@ =~= mid + Seq::new((z + 1 - r.start) as nat, |i: int| 0u8));
                        }
                        z = z + 1;
                    }
                },
            }
            proof {
                let gap = if k >= 1 {
                    self.base().subrange(rels@[k - 1].end as int, r.start as int)
                } else {
                    Seq::empty()
                };
                assert(mid =~= before + gap);
                assert(out@ =~= mid + self.piece(r));
                assert(self.reloc_bytes(rels@, k + 1) == self.reloc_bytes(rels@, k as int) + gap + self.piece(r));
                assert(out@ =~= self.base().subrange(0, rels@[0].start as int) + self.reloc_bytes(rels@, k + 1));
            }
            k = k + 1;
        }
        let last_end = rels[n - 1].end as usize;
        out.extend_from_slice(&base[last_end..len]);
        proof {
            self.lemma_reloc_bytes_len(rels@, n as int);
            assert(out@ =~= self.base().subrange(0, rels@[0].start as int) + self.reloc_bytes(rels@, n as int)
                + self.base().subrange(rels@[n - 1].end as int, len as int));
        }
        Ok(out)
    }
}

impl<'a> Patch<'a> {
    /// Address `a` is outside the DMA table and differs from the relocated base ROM.
    pub open spec fn is_changed(&self, base2: Seq<u8>, dma_end: int, a: int) -> bool {
        !(DMADATA_START <= a < dma_end) && base2[a] != self.byte_at(a)
    }

    /// Grouping the changed addresses below `k` into blocks: the finished blocks and the open one.
    /// A changed address more than `BLOCK_HEADER_SIZE` bytes past the open block starts a new
    /// block; otherwise it extends the open block.
    pub open spec fn blocks_upto(&self, base2: Seq<u8>, dma_end: int, k: int) -> (Seq<(usize, usize)>, Option<(usize, usize)>)
        decreases k,
    {
        if k <= 0 {
            (Seq::empty(), None)
        } else {
            let (done, open) = self.blocks_upto(base2, dma_end, k - 1);
            let a = k - 1;
            if !self.is_changed(base2, dma_end, a) {
                (done, open)
            } else {
                match open {
                    None => (done, Some((a as usize, k as usize))),
                    Some((s, e)) => if a > e + BLOCK_HEADER_SIZE {
                        (done.push((s, e)), Some((a as usize, k as usize)))
                    } else {
                        (done, Some((s, k as usize)))
                    },
                }
            }
        }
    }

    /// The blocks of changed addresses of the whole ROM.
    pub open spec fn blocks(&self, base2: Seq<u8>, dma_end: int) -> Seq<(usize, usize)> {
        let (done, open) = self.blocks_upto(base2, dma_end, self.base().len() as int);
        match open {
            Some(b) => done.push(b),
            None => done,
        }
    }

    /// Groups the changed addresses of the ROM into blocks.
    fn changed_blocks(&self, base2: &Vec<u8>, dma_end: u32) -> (r: Vec<(usize, usize)>)
        requires
            base2@.len() == self.base().len(),
            self.all_indexable(),
        ensures
            r@ == self.blocks(base2@, dma_end as int),
    {
        let len = base2.len();
        let mut done: Vec<(usize, usize)> = Vec::new();
        let mut open: Option<(usize, usize)> = None;
        let mut a: usize = 0;
        while a < len
            invariant
                len == base2@.len(),
                len == self.base().len(),
                self.all_indexable(),
                0 <= a <= len,
                (done@, open) == self.blocks_upto(base2@, dma_end as int, a as int),
                open matches Some((s, e)) ==> e <= a,
            decreases len - a,
        {
            let patched = self.index(a);
            if !(DMADATA_START as usize <= a && a < dma_end as usize) && base2[a] != patched {
                match open {
                    None => {
                        open = Some((a, a + 1));
                    },
                    Some((s, e)) => {
                        if a - e > BLOCK_HEADER_SIZE {
                            done.push((s, e));
                            open = Some((a, a + 1));
                        } else {
                            open = Some((s, a + 1));
                        }
                    },
                }
            }
            a = a + 1;
        }
        match open {
            Some(b) => {
                done.push(b);
            },
            None => {},
        }
        done
    }
}

/// Number of addresses in the XOR key range.
pub const XOR_LEN: u32 = 0x0037_9c70;

/// The key address after `a`, wrapping around at the end of the key range.
pub open spec fn next_key_addr(a: usize) -> usize {
    if a + 1 >= XOR_END {
        XOR_START
    } else {
        (a + 1) as usize
    }
}

/// The state of XOR-encoding one block: the key address, the number of keys skipped, whether the
/// current section continues an earlier one, the bytes of the current section, and the bytes
/// written.
pub struct XorState {
    pub key_addr: usize,
    pub key_offset: u8,
    pub cont: bool,
    pub data: Seq<u8>,
    pub out: Seq<u8>,
}

/// The bytes of one section of a block starting at `bs`: the block's address for its first
/// section, `0xff` and the number of skipped keys for a continuation, then the length and the
/// data.
pub open spec fn section(bs: usize, key_skip: u8, data: Seq<u8>, cont: bool) -> Seq<u8> {
    (if cont {
        seq![0xffu8, key_skip]
    } else {
        be32(bs as int)
    }) + be16(data.len() as int) + data
}

/// Writing out the current section and starting a continuation.
pub open spec fn flush(st: XorState, bs: usize) -> Result<XorState, ZpfError> {
    if st.data.len() > 0xffff {
        Err(ZpfError::SectionTooLong)
    } else {
        Ok(
            XorState {
                key_addr: st.key_addr,
                key_offset: 0,
                cont: true,
                data: Seq::empty(),
                out: st.out + section(bs, st.key_offset, st.data, st.cont),
            },
        )
    }
}

/// Appending `byte` XOR-ed with `key` to the current section, closing it when it is full.
pub open spec fn finish_byte(st: XorState, bs: usize, byte: u8, key: u8) -> Result<XorState, ZpfError> {
    let st4 = XorState { data: st.data.push(byte ^ key), ..st };
    if st4.data.len() == 0xffff {
        flush(st4, bs)
    } else {
        Ok(st4)
    }
}

impl<'a> Patch<'a> {
    /// Searching for the next nonzero key after address `a`, trying at most `fuel` addresses.
    pub open spec fn key_search(&self, a: usize, fuel: nat) -> Result<(usize, u8), ZpfError>
        decreases fuel,
    {
        if fuel == 0 {
            Err(ZpfError::NoXorKey)
        } else {
            let b = next_key_addr(a);
            if b >= self.base().len() {
                Err(ZpfError::ReadPastEnd)
            } else if self.base()[b as int] != 0 {
                Ok((b, self.base()[b as int]))
            } else {
                self.key_search(b, (fuel - 1) as nat)
            }
        }
    }

    /// The next nonzero key after address `a` and its address; `NoXorKey` when the key range
    /// holds only zeros.
    pub open spec fn key_next(&self, a: usize) -> Result<(usize, u8), ZpfError> {
        self.key_search(a, XOR_LEN as nat)
    }

    /// Skipping keys that equal `byte` (the current key does), at most `fuel` times; every 255
    /// skipped keys close a section.
    pub open spec fn retry(&self, st: XorState, bs: usize, byte: u8, fuel: nat) -> Result<(XorState, u8), ZpfError>
        decreases fuel,
    {
        if fuel == 0 {
            Err(ZpfError::NoXorKey)
        } else {
            match self.key_next(st.key_addr) {
                Err(e) => Err(e),
                Ok((b, k)) => {
                    let st2 = XorState { key_addr: b, key_offset: (st.key_offset + 1) as u8, ..st };
                    let st3 = if st2.key_offset == 0xff {
                        flush(st2, bs)
                    } else {
                        Ok(st2)
                    };
                    match st3 {
                        Err(e) => Err(e),
                        Ok(st3) => if k == byte {
                            self.retry(st3, bs, byte, (fuel - 1) as nat)
                        } else {
                            Ok((st3, k))
                        },
                    }
                },
            }
        }
    }

    /// The key found after skipping keys equal to a byte differs from that byte, so the byte
    /// never encodes to 0, which stands for an unencoded 0.
    pub proof fn law_retry_key_differs(&self, st: XorState, bs: usize, byte: u8, fuel: nat)
        ensures
            self.retry(st, bs, byte, fuel) matches Ok((_, k)) ==> k != byte && byte ^ k != 0,
        decreases fuel,
    {
        if fuel > 0 {
            if let Ok((b, k)) = self.key_next(st.key_addr) {
                let st2 = XorState { key_addr: b, key_offset: (st.key_offset + 1) as u8, ..st };
                let st3 = if st2.key_offset == 0xff {
                    flush(st2, bs)
                } else {
                    Ok(st2)
                };
                if let Ok(st3) = st3 {
                    if k == byte {
                        self.law_retry_key_differs(st3, bs, byte, (fuel - 1) as nat);
                    } else {
                        assert(byte ^ k != 0) by (bit_vector)
                            requires
                                k != byte,
                        ;
                    }
                }
            }
        }
    }

    /// Encoding one byte of a block starting at `bs`.
    #[verifier::opaque]
    pub open spec fn encode_byte(&self, st: XorState, bs: usize, byte: u8) -> Result<XorState, ZpfError> {
        if byte == 0 {
            Ok(XorState { data: st.data.push(0), ..st })
        } else {
            match self.key_next(st.key_addr) {
                Err(e) => Err(e),
                Ok((b, k)) => {
                    let st1 = XorState { key_addr: b, ..st };
                    let found = if byte == k {
                        match flush(st1, bs) {
                            Err(e) => Err(e),
                            Ok(st2) => self.retry(st2, bs, byte, XOR_LEN as nat),
                        }
                    } else {
                        Ok((st1, k))
                    };
                    match found {
                        Err(e) => Err(e),
                        Ok((st3, k2)) => finish_byte(st3, bs, byte, k2),
                    }
                },
            }
        }
    }

    /// The state of encoding a block starting at `bs`, with keys after `key_addr`, after its first
    /// `n` bytes.
    pub open spec fn encode_prefix(&self, key_addr: usize, bs: usize, n: nat) -> Result<XorState, ZpfError>
        decreases n,
    {
        if n == 0 {
            Ok(XorState { key_addr, key_offset: 0, cont: false, data: Seq::empty(), out: Seq::empty() })
        } else {
            match self.encode_prefix(key_addr, bs, (n - 1) as nat) {
                Err(e) => Err(e),
                Ok(st) => self.encode_byte(st, bs, self.byte_at(bs + n - 1)),
            }
        }
    }

    /// The bytes of an XOR-encoded block and the key address after it.
    pub open spec fn encode_block(&self, key_addr: usize, block: (usize, usize)) -> Result<(Seq<u8>, usize), ZpfError> {
        match self.encode_prefix(key_addr, block.0, (block.1 - block.0) as nat) {
            Err(e) => Err(e),
            Ok(st) => match flush(st, block.0) {
                Err(e) => Err(e),
                Ok(st2) => Ok((st2.out, st2.key_addr)),
            },
        }
    }

    /// The bytes of the first `k` XOR-encoded blocks and the key address after them.
    pub open spec fn encode_blocks(&self, blocks: Seq<(usize, usize)>, key_addr: usize, k: nat) -> Result<(Seq<u8>, usize), ZpfError>
        decreases k,
    {
        if k == 0 {
            Ok((Seq::empty(), key_addr))
        } else {
            match self.encode_blocks(blocks, key_addr, (k - 1) as nat) {
                Err(e) => Err(e),
                Ok((bytes, a)) => match self.encode_block(a, blocks[k - 1]) {
                    Err(e) => Err(e),
                    Ok((more, a2)) => Ok((bytes + more, a2)),
                },
            }
        }
    }
}

/// The value of the big-endian 16-bit word at `i` of `b`.
pub open spec fn be16_at(b: Seq<u8>, i: int) -> int {
    b[i] as int * 0x100 + b[i + 1] as int
}

proof fn lemma_be16_value(x: int)
    requires
        0 <= x < 0x1_0000,
    ensures
        be16_at(be16(x), 0) == x,
{
    assert(((x / 0x100) % 0x100) * 0x100 + x % 0x100 == x) by (nonlinear_arith)
        requires
            0 <= x < 0x1_0000,
    ;
}

impl<'a> Patch<'a> {
    /// The key address after `n` more keys are taken from `a`.
    pub open spec fn skip_keys(&self, a: usize, n: nat) -> Option<usize>
        decreases n,
    {
        if n == 0 {
            Some(a)
        } else {
            match self.skip_keys(a, (n - 1) as nat) {
                None => None,
                Some(b) => match self.key_next(b) {
                    Ok((c, _)) => Some(c),
                    Err(_) => None,
                },
            }
        }
    }

    /// Decoding XOR data with the keys after `a`: a 0 stays 0, any other byte is XOR-ed with the
    /// next key, and must not equal it; with the key address after the data.
    pub open spec fn decode_data(&self, data: Seq<u8>, a: usize) -> Option<(Seq<u8>, usize)>
        decreases data.len(),
    {
        if data.len() == 0 {
            Some((Seq::empty(), a))
        } else {
            match self.decode_data(data.drop_last(), a) {
                None => None,
                Some((d, b)) => if data.last() == 0 {
                    Some((d.push(0u8), b))
                } else {
                    match self.key_next(b) {
                        Ok((c, k)) => if data.last() == k {
                            None
                        } else {
                            Some((d.push(data.last() ^ k), c))
                        },
                        Err(_) => None,
                    }
                },
            }
        }
    }

    /// Decoding the sections of an XOR block with the keys after `a`: the first section (if
    /// `first`) starts with the block's address, each later one with `0xff` and the number of
    /// keys to skip; then come the length of the data and the data. With the key address after
    /// the block.
    pub open spec fn decode_sections(&self, bytes: Seq<u8>, a: usize, first: bool) -> Option<(Seq<u8>, usize)>
        decreases bytes.len(),
    {
        if bytes.len() == 0 {
            Some((Seq::empty(), a))
        } else {
            let h: int = if first {
                4
            } else {
                2
            };
            if bytes.len() < h + 2 {
                None
            } else if !first && bytes[0] != 0xff {
                None
            } else {
                let skip: nat = if first {
                    0
                } else {
                    bytes[1] as nat
                };
                let len = be16_at(bytes, h);
                if bytes.len() < h + 2 + len {
                    None
                } else {
                    match self.skip_keys(a, skip) {
                        None => None,
                        Some(a1) => match self.decode_data(bytes.subrange(h + 2, h + 2 + len), a1) {
                            None => None,
                            Some((d, a2)) => match self.decode_sections(
                                bytes.subrange(h + 2 + len, bytes.len() as int),
                                a2,
                                false,
                            ) {
                                None => None,
                                Some((d2, a3)) => Some((d + d2, a3)),
                            },
                        },
                    }
                }
            }
        }
    }

    /// Decoding a single section.
    proof fn lemma_decode_single(&self, a: usize, first: bool, bs: usize, skip: u8, data: Seq<u8>)
        requires
            data.len() <= 0xffff,
            first ==> skip == 0,
        ensures
            self.decode_sections(section(bs, skip, data, !first), a, first) == match self.skip_keys(a, skip as nat) {
                None => None,
                Some(a2) => match self.decode_data(data, a2) {
                    None => None,
                    Some((d2, a3)) => Some((d2, a3)),
                },
            },
    {
        let sec = section(bs, skip, data, !first);
        let h: int = if first {
            4
        } else {
            2
        };
        lemma_be16_value(data.len() as int);
        assert(sec[h] == be16(data.len() as int)[0]);
        assert(sec[h + 1] == be16(data.len() as int)[1]);
        assert(be16_at(sec, h) == data.len());
        assert(sec.len() == h + 2 + data.len());
        assert(sec.subrange(h + 2, h + 2 + data.len()) =~= data);
        assert(sec.subrange(h + 2 + data.len(), sec.len() as int) =~= Seq::<u8>::empty());
        if !first {
            assert(sec[0] == 0xff && sec[1] == skip);
        }
        let skip0: nat = if first {
            0
        } else {
            sec[1] as nat
        };
        assert(skip0 == skip as nat);
        assert(sec.len() >= h + 2);
        match self.skip_keys(a, skip as nat) {
            None => {},
            Some(a2) => match self.decode_data(data, a2) {
                None => {},
                Some((d2, a3)) => {
                    let empty = sec.subrange(h + 2 + data.len(), sec.len() as int);
                    assert(self.decode_sections(empty, a3, false) == Some((Seq::<u8>::empty(), a3)));
                    assert(d2 + Seq::<u8>::empty() =~= d2);
                },
            },
        }
    }

    /// Decoding sections followed by one more section: the earlier sections, then the new one.
    #[verifier::rlimit(50)]
    proof fn lemma_decode_append(&self, out: Seq<u8>, a: usize, first: bool, bs: usize, skip: u8, data: Seq<u8>)
        requires
            self.decode_sections(out, a, first) is Some,
            data.len() <= 0xffff,
            out.len() == 0 && first ==> skip == 0,
        ensures
            ({
                let (d, a1) = self.decode_sections(out, a, first)->0;
                self.decode_sections(out + section(bs, skip, data, !(out.len() == 0 && first)), a, first) == match self.skip_keys(
                    a1,
                    skip as nat,
                ) {
                    None => None,
                    Some(a2) => match self.decode_data(data, a2) {
                        None => None,
                        Some((d2, a3)) => Some((d + d2, a3)),
                    },
                }
            }),
        decreases out.len(),
    {
        let sec = section(bs, skip, data, !(out.len() == 0 && first));
        let all = out + sec;
        if out.len() == 0 {
            assert(all =~= sec);
            self.lemma_decode_single(a, first, bs, skip, data);
            match self.skip_keys(a, skip as nat) {
                None => {},
                Some(a2) => match self.decode_data(data, a2) {
                    None => {},
                    Some((d2, a3)) => {
                        assert(Seq::<u8>::empty() + d2 =~= d2);
                    },
                },
            }
        } else {
            let h: int = if first {
                4
            } else {
                2
            };
            let len = be16_at(out, h);
            let k = h + 2 + len;
            assert(be16_at(all, h) == len);
            assert(all.subrange(h + 2, k) =~= out.subrange(h + 2, k));
            let rest = out.subrange(k, out.len() as int);
            assert(all.subrange(k, all.len() as int) =~= rest + sec);
            if !first {
                assert(all[0] == out[0] && all[1] == out[1]);
            }
            let skip0: nat = if first {
                0
            } else {
                out[1] as nat
            };
            let a1 = self.skip_keys(a, skip0)->0;
            let (d, a2) = self.decode_data(out.subrange(h + 2, k), a1)->0;
            self.lemma_decode_append(rest, a2, false, bs, skip, data);
            assert(rest.len() == 0 && false ==> skip == 0);
            assert(!(out.len() == 0 && first) == !(rest.len() == 0 && false));
            let (dr, ar) = self.decode_sections(rest, a2, false)->0;
            assert(self.decode_sections(out, a, first) == Some((d + dr, ar)));
            match self.skip_keys(ar, skip as nat) {
                None => {},
                Some(b2) => match self.decode_data(data, b2) {
                    None => {},
                    Some((d2, a3)) => {
                        assert(d + (dr + d2) =~= (d + dr) + d2);
                    },
                },
            }
        }
    }
}

impl<'a> Patch<'a> {
    /// The bytes of the patched ROM in `bs .. bs + n`.
    pub open spec fn block_bytes(&self, bs: usize, n: nat) -> Seq<u8> {
        Seq::new(n, |i: int| self.byte_at(bs + i))
    }

    /// The sections written so far, the skipped keys and the data of the current section
    /// decode, with the keys after `ka`, to `bytes`, ending at the state's key address.
    pub open spec fn decodes(&self, st: XorState, ka: usize, bytes: Seq<u8>) -> bool {
        &&& (st.cont <==> st.out.len() > 0)
        &&& (!st.cont ==> st.key_offset == 0)
        &&& self.decode_sections(st.out, ka, true) matches Some((d1, am))
        &&& self.skip_keys(am, st.key_offset as nat) matches Some(p)
        &&& self.decode_data(st.data, p) matches Some((d2, e))
        &&& e == st.key_addr
        &&& d1 + d2 == bytes
    }

    /// A key was taken for a byte that it would turn into 0: the sections written so far decode
    /// to `bytes`, and the keys skipped since, this one included, end at the state's key address.
    pub open spec fn pending(&self, st: XorState, ka: usize, bytes: Seq<u8>) -> bool {
        &&& st.cont
        &&& st.out.len() > 0
        &&& st.data.len() == 0
        &&& st.key_offset < 0xff
        &&& self.decode_sections(st.out, ka, true) matches Some((d1, am))
        &&& self.skip_keys(am, (st.key_offset + 1) as nat) == Some(st.key_addr)
        &&& d1 == bytes
    }

    proof fn lemma_flush_decodes(&self, st: XorState, ka: usize, bytes: Seq<u8>, bs: usize)
        requires
            self.decodes(st, ka, bytes),
        ensures
            flush(st, bs) matches Ok(st2) ==> self.decodes(st2, ka, bytes) && st2.cont && st2.data.len() == 0
                && st2.key_offset == 0 && st2.key_addr == st.key_addr,
    {
        if let Ok(st2) = flush(st, bs) {
            self.lemma_decode_append(st.out, ka, true, bs, st.key_offset, st.data);
            assert(st.cont == !(st.out.len() == 0 && true));
            let (d1, am) = self.decode_sections(st.out, ka, true)->0;
            let p = self.skip_keys(am, st.key_offset as nat)->0;
            let (d2, e) = self.decode_data(st.data, p)->0;
            assert(self.decode_sections(st2.out, ka, true) == Some((d1 + d2, e)));
            assert(self.decode_data(st2.data, e) == Some((Seq::<u8>::empty(), e)));
            assert((d1 + d2) + Seq::<u8>::empty() =~= d1 + d2);
            assert(st2.out.len() > 0);
        }
    }

    proof fn lemma_retry_decodes(&self, st: XorState, ka: usize, bytes: Seq<u8>, bs: usize, byte: u8, fuel: nat)
        requires
            self.pending(st, ka, bytes),
        ensures
            self.retry(st, bs, byte, fuel) matches Ok((st3, k)) ==> {
                &&& st3.cont
                &&& st3.out.len() > 0
                &&& st3.data.len() == 0
                &&& k != byte
                &&& (!st3.cont ==> st3.key_offset == 0)
                &&& self.decode_sections(st3.out, ka, true) matches Some((d1, am))
                &&& d1 == bytes
                &&& self.skip_keys(am, st3.key_offset as nat) matches Some(p)
                &&& self.key_next(p) == Ok::<(usize, u8), ZpfError>((st3.key_addr, k))
            },
        decreases fuel,
    {
        if fuel > 0 {
            if let Ok((b, k)) = self.key_next(st.key_addr) {
                let st2 = XorState { key_addr: b, key_offset: (st.key_offset + 1) as u8, ..st };
                let (d1, am) = self.decode_sections(st.out, ka, true)->0;
                assert(self.skip_keys(am, (st2.key_offset + 1) as nat) == Some(b));
                if st2.key_offset == 0xff {
                    if let Ok(st3) = flush(st2, bs) {
                        self.lemma_decode_append(st.out, ka, true, bs, 0xff, Seq::empty());
                        let am2 = self.skip_keys(am, 0xff)->0;
                        assert(self.decode_data(Seq::<u8>::empty(), am2) == Some((Seq::<u8>::empty(), am2)));
                        assert(bytes + Seq::<u8>::empty() =~= bytes);
                        assert(self.decode_sections(st3.out, ka, true) == Some((bytes, am2)));
                        assert(self.skip_keys(am2, 1) == Some(b));
                        assert(self.pending(st3, ka, bytes));
                        if k == byte {
                            self.lemma_retry_decodes(st3, ka, bytes, bs, byte, (fuel - 1) as nat);
                        } else {
                            assert(st3.key_offset == 0);
                            assert(self.skip_keys(am2, 0) == Some(am2));
                            assert(self.skip_keys(am, 0xff) == Some(am2));
                            assert(self.key_next(st.key_addr) == Ok::<(usize, u8), ZpfError>((b, k)));
                            assert(self.skip_keys(am, (st.key_offset + 1) as nat) == Some(st.key_addr));
                        }
                    }
                } else {
                    assert(self.pending(st2, ka, bytes));
                    if k == byte {
                        self.lemma_retry_decodes(st2, ka, bytes, bs, byte, (fuel - 1) as nat);
                    }
                }
            }
        }
    }

    proof fn lemma_encode_byte_decodes(&self, st: XorState, ka: usize, bytes: Seq<u8>, bs: usize, byte: u8)
        requires
            self.decodes(st, ka, bytes),
        ensures
            self.encode_byte(st, bs, byte) matches Ok(st2) ==> self.decodes(st2, ka, bytes.push(byte)),
    {
        reveal(Patch::encode_byte);
        let (d1, am) = self.decode_sections(st.out, ka, true)->0;
        let p = self.skip_keys(am, st.key_offset as nat)->0;
        let (d2, e) = self.decode_data(st.data, p)->0;
        if byte == 0 {
            let st2 = XorState { data: st.data.push(0), ..st };
            assert(st2.data.drop_last() =~= st.data);
            assert(self.decode_data(st2.data, p) == Some((d2.push(0u8), e)));
            assert(d1 + d2.push(0u8) =~= bytes.push(byte));
        } else if let Ok((b, k)) = self.key_next(st.key_addr) {
            let st1 = XorState { key_addr: b, ..st };
            if byte != k {
                let x = byte ^ k;
                assert(x != 0 && x != k && x ^ k == byte) by (bit_vector)
                    requires
                        x == byte ^ k,
                        byte != k,
                        byte != 0,
                ;
                let st4 = XorState { data: st1.data.push(x), ..st1 };
                assert(st4.data.drop_last() =~= st.data);
                assert(self.decode_data(st4.data, p) == Some((d2.push(byte), b)));
                assert(d1 + d2.push(byte) =~= bytes.push(byte));
                assert(self.decodes(st4, ka, bytes.push(byte)));
                if st4.data.len() == 0xffff {
                    self.lemma_flush_decodes(st4, ka, bytes.push(byte), bs);
                }
            } else {
                if let Ok(st2) = flush(st1, bs) {
                    self.lemma_decode_append(st.out, ka, true, bs, st.key_offset, st.data);
                    assert(st.cont == !(st.out.len() == 0 && true));
                    assert(self.decode_sections(st2.out, ka, true) == Some((d1 + d2, e)));
                    assert(e == st.key_addr);
                    assert(self.skip_keys(e, 0) == Some(e));
                    assert(self.skip_keys(e, 1) == Some(b));
                    assert(self.pending(st2, ka, bytes));
                    self.lemma_retry_decodes(st2, ka, bytes, bs, byte, XOR_LEN as nat);
                    if let Ok((st3, k2)) = self.retry(st2, bs, byte, XOR_LEN as nat) {
                        let x = byte ^ k2;
                        assert(x != 0 && x != k2 && x ^ k2 == byte) by (bit_vector)
                            requires
                                x == byte ^ k2,
                                byte != k2,
                                byte != 0,
                        ;
                        let (d3, am3) = self.decode_sections(st3.out, ka, true)->0;
                        let p3 = self.skip_keys(am3, st3.key_offset as nat)->0;
                        let st4 = XorState { data: st3.data.push(x), ..st3 };
                        assert(st4.data.drop_last() =~= Seq::<u8>::empty());
                        assert(self.decode_data(Seq::<u8>::empty(), p3) == Some((Seq::<u8>::empty(), p3)));
                        assert(self.decode_data(st4.data, p3) == Some((Seq::<u8>::empty().push(byte), st3.key_addr)));
                        assert(d3 + Seq::<u8>::empty().push(byte) =~= bytes.push(byte));
                        assert(self.decodes(st4, ka, bytes.push(byte)));
                    }
                }
            }
        }
    }

    proof fn lemma_encode_prefix_decodes(&self, ka: usize, bs: usize, n: nat)
        ensures
            self.encode_prefix(ka, bs, n) matches Ok(st) ==> self.decodes(st, ka, self.block_bytes(bs, n)),
        decreases n,
    {
        if n == 0 {
            let st = XorState { key_addr: ka, key_offset: 0, cont: false, data: Seq::empty(), out: Seq::empty() };
            assert(self.decode_sections(Seq::<u8>::empty(), ka, true) == Some((Seq::<u8>::empty(), ka)));
            assert(self.decode_data(Seq::<u8>::empty(), ka) == Some((Seq::<u8>::empty(), ka)));
            assert(Seq::<u8>::empty() + Seq::<u8>::empty() =~= self.block_bytes(bs, 0));
        } else {
            self.lemma_encode_prefix_decodes(ka, bs, (n - 1) as nat);
            if let Ok(st) = self.encode_prefix(ka, bs, (n - 1) as nat) {
                let byte = self.byte_at(bs + n - 1);
                self.lemma_encode_byte_decodes(st, ka, self.block_bytes(bs, (n - 1) as nat), bs, byte);
                assert(self.block_bytes(bs, (n - 1) as nat).push(byte) =~= self.block_bytes(bs, n));
            }
        }
    }

    /// An encoded block decodes back to the block's bytes of the patched ROM: reading its
    /// sections in order, skipping the keys each continuation names, and XOR-ing each nonzero
    /// byte with the next nonzero key of the key range (which never equals it) while zeros stay
    /// zeros; the keys end where encoding left them.
    pub proof fn law_block_decodes(&self, key_addr: usize, block: (usize, usize))
        requires
            block.0 <= block.1,
        ensures
            self.encode_block(key_addr, block) matches Ok((out, a2)) ==> self.decode_sections(out, key_addr, true)
                == Some((self.block_bytes(block.0, (block.1 - block.0) as nat), a2)),
    {
        let n = (block.1 - block.0) as nat;
        self.lemma_encode_prefix_decodes(key_addr, block.0, n);
        if let Ok(st) = self.encode_prefix(key_addr, block.0, n) {
            self.lemma_flush_decodes(st, key_addr, self.block_bytes(block.0, n), block.0);
            if let Ok(st2) = flush(st, block.0) {
                let (d1, am) = self.decode_sections(st2.out, key_addr, true)->0;
                assert(self.skip_keys(am, 0) == Some(am));
                assert(self.decode_data(Seq::<u8>::empty(), am) == Some((Seq::<u8>::empty(), am)));
                assert(d1 + Seq::<u8>::empty() =~= d1);
            }
        }
    }
}

impl<'a> Patch<'a> {
    proof fn lemma_key_search_in_range(&self, a: usize, fuel: nat)
        requires
            XOR_START <= a < XOR_END,
        ensures
            self.key_search(a, fuel) matches Ok((b, _)) ==> XOR_START <= b < XOR_END,
        decreases fuel,
    {
        if fuel > 0 {
            let b = next_key_addr(a);
            if b < self.base().len() && self.base()[b as int] == 0 {
                self.lemma_key_search_in_range(b, (fuel - 1) as nat);
            }
        }
    }

    proof fn lemma_skip_keys_in_range(&self, a: usize, n: nat)
        requires
            XOR_START <= a < XOR_END,
        ensures
            self.skip_keys(a, n) matches Some(b) ==> XOR_START <= b < XOR_END,
        decreases n,
    {
        if n > 0 {
            self.lemma_skip_keys_in_range(a, (n - 1) as nat);
            if let Some(b) = self.skip_keys(a, (n - 1) as nat) {
                self.lemma_key_search_in_range(b, XOR_LEN as nat);
            }
        }
    }

    proof fn lemma_decode_data_in_range(&self, data: Seq<u8>, a: usize)
        requires
            XOR_START <= a < XOR_END,
        ensures
            self.decode_data(data, a) matches Some((_, b)) ==> XOR_START <= b < XOR_END,
        decreases data.len(),
    {
        if data.len() > 0 {
            self.lemma_decode_data_in_range(data.drop_last(), a);
            if let Some((_, b)) = self.decode_data(data.drop_last(), a) {
                self.lemma_key_search_in_range(b, XOR_LEN as nat);
            }
        }
    }

    proof fn lemma_decode_sections_in_range(&self, bytes: Seq<u8>, a: usize, first: bool)
        requires
            XOR_START <= a < XOR_END,
        ensures
            self.decode_sections(bytes, a, first) matches Some((_, b)) ==> XOR_START <= b < XOR_END,
        decreases bytes.len(),
    {
        if bytes.len() > 0 {
            let h: int = if first {
                4
            } else {
                2
            };
            if bytes.len() >= h + 2 && (first || bytes[0] == 0xff) {
                let skip: nat = if first {
                    0
                } else {
                    bytes[1] as nat
                };
                let len = be16_at(bytes, h);
                if bytes.len() >= h + 2 + len {
                    self.lemma_skip_keys_in_range(a, skip);
                    if let Some(a1) = self.skip_keys(a, skip) {
                        self.lemma_decode_data_in_range(bytes.subrange(h + 2, h + 2 + len), a1);
                        if let Some((_, a2)) = self.decode_data(bytes.subrange(h + 2, h + 2 + len), a1) {
                            self.lemma_decode_sections_in_range(
                                bytes.subrange(h + 2 + len, bytes.len() as int),
                                a2,
                                false,
                            );
                        }
                    }
                }
            }
        }
    }

    /// Encoding a block with keys taken after an address of the key range leaves the key address
    /// in that range.
    pub proof fn law_block_keeps_key_in_range(&self, key_addr: usize, block: (usize, usize))
        requires
            XOR_START <= key_addr < XOR_END,
            block.0 <= block.1,
        ensures
            self.encode_block(key_addr, block) matches Ok((_, a2)) ==> XOR_START <= a2 < XOR_END,
    {
        self.law_block_decodes(key_addr, block);
        if let Ok((out, a2)) = self.encode_block(key_addr, block) {
            self.lemma_decode_sections_in_range(out, key_addr, true);
        }
    }

    /// Encoding a run of blocks with keys taken after an address of the key range leaves the key
    /// address in that range.
    pub proof fn law_blocks_keep_key_in_range(&self, blocks: Seq<(usize, usize)>, key_addr: usize, k: nat)
        requires
            XOR_START <= key_addr < XOR_END,
            k <= blocks.len(),
            forall|i: int| 0 <= i < blocks.len() ==> (#[trigger] blocks[i]).0 <= blocks[i].1,
        ensures
            self.encode_blocks(blocks, key_addr, k) matches Ok((_, a2)) ==> XOR_START <= a2 < XOR_END,
        decreases k,
    {
        if k > 0 {
            self.law_blocks_keep_key_in_range(blocks, key_addr, (k - 1) as nat);
            if let Ok((_, a)) = self.encode_blocks(blocks, key_addr, (k - 1) as nat) {
                self.law_block_keeps_key_in_range(a, blocks[k - 1]);
            }
        }
    }
}

/// Writes one section of a block starting at `start`.
fn write_block_section(start: usize, key_skip: u8, in_data: &Vec<u8>, is_continue: bool, writer: &mut Vec<u8>) -> (r: Result<(), ZpfError>)
    requires
        start <= u32::MAX,
    ensures
        r is Err <==> in_data@.len() > 0xffff,
        r matches Err(e) ==> e == ZpfError::SectionTooLong,
        r is Ok ==> final(writer)@ == old(writer)@ + section(start, key_skip, in_data@, is_continue),
{
    if in_data.len() > 0xffff {
        return Err(ZpfError::SectionTooLong);
    }
    let ghost w0 = writer@;
    if !is_continue {
        push_be32(writer, start as u32);
    } else {
        writer.push(0xff);
        writer.push(key_skip);
    }
    let ghost w1 = writer@;
    push_be16(writer, in_data.len() as u16);
    writer.extend_from_slice(in_data.as_slice());
    proof {
        assert(w1 =~= w0 + (if is_continue {
            seq![0xffu8, key_skip]
        } else {
            be32(start as int)
        }));
        assert(writer@ =~= w0 + section(start, key_skip, in_data@, is_continue));
    }
    Ok(())
}

/// The running state of XOR-encoding a block.
struct XorWriter {
    key_addr: usize,
    key_offset: u8,
    cont: bool,
    data: Vec<u8>,
    out: Vec<u8>,
}

impl XorWriter {
    spec fn state(&self) -> XorState {
        XorState {
            key_addr: self.key_addr,
            key_offset: self.key_offset,
            cont: self.cont,
            data: self.data@,
            out: self.out@,
        }
    }

    fn flush(&mut self, bs: usize) -> (r: Result<(), ZpfError>)
        requires
            bs <= u32::MAX,
        ensures
            r is Ok ==> flush(old(self).state(), bs) == Ok::<XorState, ZpfError>(final(self).state()),
            r matches Err(e) ==> flush(old(self).state(), bs) == Err::<XorState, ZpfError>(e),
    {
        match write_block_section(bs, self.key_offset, &self.data, self.cont, &mut self.out) {
            Err(e) => Err(e),
            Ok(()) => {
                self.data = Vec::new();
                self.key_offset = 0;
                self.cont = true;
                proof {
                    assert(self.data@ =~= Seq::<u8>::empty());
                }
                Ok(())
            },
        }
    }
}

impl<'a> Patch<'a> {
    /// Gets the next nonzero XOR key after `*key_address`, moving `*key_address` to it.
    fn key_next_exec(&self, key_address: &mut usize) -> (r: Result<u8, ZpfError>)
        ensures
            self.key_next(*old(key_address)) matches Ok((b, k)) ==> (r == Ok::<u8, ZpfError>(k)
                && *final(key_address) == b),
            self.key_next(*old(key_address)) matches Err(e) ==> r == Err::<u8, ZpfError>(e),
    {
        let base = self.base_rom();
        let mut a = *key_address;
        let mut fuel: u32 = XOR_LEN;
        while fuel > 0
            invariant
                base@ == self.base(),
                self.key_next(*old(key_address)) == self.key_search(a, fuel as nat),
            decreases fuel,
        {
            a = if a >= XOR_END - 1 {
                XOR_START
            } else {
                a + 1
            };
            if a >= base.len() {
                return Err(ZpfError::ReadPastEnd);
            }
            let key = base[a];
            if key != 0 {
                *key_address = a;
                return Ok(key);
            }
            fuel = fuel - 1;
        }
        Err(ZpfError::NoXorKey)
    }

    /// Encodes one byte of a block starting at `bs`.
    fn encode_byte_exec(&self, w: &mut XorWriter, bs: usize, byte: u8) -> (r: Result<(), ZpfError>)
        requires
            bs <= u32::MAX,
            old(w).key_offset < 0xff,
        ensures
            r is Ok ==> self.encode_byte(old(w).state(), bs, byte) == Ok::<XorState, ZpfError>(final(w).state()),
            r is Ok ==> final(w).key_offset < 0xff,
            r matches Err(e) ==> self.encode_byte(old(w).state(), bs, byte) == Err::<XorState, ZpfError>(e),
    {
        reveal(Patch::encode_byte);
        let ghost w0 = w.state();
        if byte == 0 {
            w.data.push(0);
            return Ok(());
        }
        let k = match self.key_next_exec(&mut w.key_addr) {
            Err(e) => {
                return Err(e);
            },
            Ok(k) => k,
        };
        let mut key = k;
        if byte == k {
            match w.flush(bs) {
                Err(e) => {
                    return Err(e);
                },
                Ok(()) => {},
            }
            let ghost st0 = w.state();
            let mut fuel: u32 = XOR_LEN;
            proof {
                assert(self.encode_byte(w0, bs, byte) == match self.retry(st0, bs, byte, XOR_LEN as nat) {
                    Err(e) => Err(e),
                    Ok((st3, k2)) => finish_byte(st3, bs, byte, k2),
                });
            }
            while byte == key
                invariant
                    bs <= u32::MAX,
                    w0 == old(w).state(),
                    self.encode_byte(w0, bs, byte) == match self.retry(st0, bs, byte, XOR_LEN as nat) {
                        Err(e) => Err(e),
                        Ok((st3, k2)) => finish_byte(st3, bs, byte, k2),
                    },
                    w.key_offset < 0xff,
                    byte == key ==> self.retry(st0, bs, byte, XOR_LEN as nat) == self.retry(w.state(), bs, byte, fuel as nat),
                    byte != key ==> self.retry(st0, bs, byte, XOR_LEN as nat) == Ok::<(XorState, u8), ZpfError>((w.state(), key)),
                decreases fuel,
            {
                if fuel == 0 {
                    return Err(ZpfError::NoXorKey);
                }
                let ghost before = w.state();
                w.key_offset = w.key_offset + 1;
                key = match self.key_next_exec(&mut w.key_addr) {
                    Err(e) => {
                        return Err(e);
                    },
                    Ok(k) => k,
                };
                if w.key_offset == 0xff {
                    match w.flush(bs) {
                        Err(e) => {
                            return Err(e);
                        },
                        Ok(()) => {},
                    }
                }
                fuel = fuel - 1;
            }
        }
        w.data.push(byte ^ key);
        if w.data.len() == 0xffff {
            match w.flush(bs) {
                Err(e) => {
                    return Err(e);
                },
                Ok(()) => {},
            }
        }
        Ok(())
    }

    /// XOR-encodes the bytes of the patched ROM at `block`, appending the block's sections to
    /// `out` and moving `*xor_address` past the keys used.
    fn write_zpf_xor_block(&self, xor_address: &mut usize, block: (usize, usize), out: &mut Vec<u8>) -> (r: Result<(), ZpfError>)
        requires
            block.0 <= block.1 <= self.base().len(),
            block.0 <= u32::MAX,
            self.all_indexable(),
        ensures
            self.encode_block(*old(xor_address), block) matches Ok((bytes, a)) ==> (r is Ok
                && final(out)@ == old(out)@ + bytes && *final(xor_address) == a),
            self.encode_block(*old(xor_address), block) matches Err(e) ==> r == Err::<(), ZpfError>(e),
    {
        let (start, end) = block;
        let ghost x0 = *xor_address;
        let mut w = XorWriter { key_addr: *xor_address, key_offset: 0, cont: false, data: Vec::new(), out: Vec::new() };
        let mut address = start;
        proof {
            assert(w.state() == XorState { key_addr: x0, key_offset: 0, cont: false, data: Seq::empty(), out: Seq::empty() });
        }
        while address < end
            invariant
                start <= address <= end,
                end <= self.base().len(),
                start <= u32::MAX,
                self.all_indexable(),
                w.key_offset < 0xff,
                x0 == *old(xor_address),
                block.0 == start && block.1 == end,
                self.encode_prefix(x0, start, (address - start) as nat) == Ok::<XorState, ZpfError>(w.state()),
            decreases end - address,
        {
            let byte = self.index(address);
            match self.encode_byte_exec(&mut w, start, byte) {
                Err(e) => {
                    proof {
                        let n = (address + 1 - start) as nat;
                        assert(self.encode_prefix(x0, start, n) == Err::<XorState, ZpfError>(e));
                        self.lemma_encode_prefix_err(x0, start, n, (end - start) as nat);
                    }
                    return Err(e);
                },
                Ok(()) => {},
            }
            address = address + 1;
        }
        match w.flush(start) {
            Err(e) => {
                return Err(e);
            },
            Ok(()) => {},
        }
        *xor_address = w.key_addr;
        out.extend_from_slice(w.out.as_slice());
        proof {
            assert(final(out)@ =~= old(out)@ + w.out@);
        }
        Ok(())
    }

    /// Once encoding a block fails, it fails with the same error for every longer prefix.
    proof fn lemma_encode_prefix_err(&self, key_addr: usize, bs: usize, n: nat, m: nat)
        requires
            n <= m,
            self.encode_prefix(key_addr, bs, n) is Err,
        ensures
            self.encode_prefix(key_addr, bs, m) == self.encode_prefix(key_addr, bs, n),
        decreases m - n,
    {
        if n < m {
            self.lemma_encode_prefix_err(key_addr, bs, n, (m - 1) as nat);
        }
    }
}

/// Address `a` lies in block `b`.
pub open spec fn block_has(b: (usize, usize), a: int) -> bool {
    b.0 <= a < b.1
}

/// Blocks that are nonempty, in ascending order, and apart from each other.
pub open spec fn blocks_ordered(bl: Seq<(usize, usize)>) -> bool {
    &&& forall|i: int| 0 <= i < bl.len() ==> (#[trigger] bl[i]).0 < bl[i].1
    &&& forall|i: int, j: int| 0 <= i < j < bl.len() ==> (#[trigger] bl[i]).1 < (#[trigger] bl[j]).0
}

impl<'a> Patch<'a> {
    proof fn lemma_blocks_upto_cover(&self, base2: Seq<u8>, dma_end: int, k: int)
        requires
            0 <= k <= usize::MAX,
        ensures
            ({
                let (done, open) = self.blocks_upto(base2, dma_end, k);
                &&& blocks_ordered(done)
                &&& open is None ==> done.len() == 0
                &&& open matches Some((s, e)) ==> s < e <= k && forall|i: int|
                    0 <= i < done.len() ==> (#[trigger] done[i]).1 < s
                &&& forall|a: int|
                    0 <= a < k && #[trigger] self.is_changed(base2, dma_end, a) ==> (exists|i: int|
                        0 <= i < done.len() && block_has(#[trigger] done[i], a)) || (open matches Some(b)
                        && block_has(b, a))
            }),
        decreases k,
    {
        if k > 0 {
            self.lemma_blocks_upto_cover(base2, dma_end, k - 1);
            let (done, open) = self.blocks_upto(base2, dma_end, k - 1);
            let (d2, o2) = self.blocks_upto(base2, dma_end, k);
            let a0 = k - 1;
            if self.is_changed(base2, dma_end, a0) {
                match open {
                    None => {},
                    Some((s, e)) => {
                        if a0 > e + BLOCK_HEADER_SIZE {
                            assert(d2 == done.push((s, e)));
                            assert forall|i: int, j: int| 0 <= i < j < d2.len() implies (#[trigger] d2[i]).1
                                < (#[trigger] d2[j]).0 by {
                                if j < done.len() {
                                    assert(d2[i] == done[i] && d2[j] == done[j]);
                                } else {
                                    assert(d2[i] == done[i]);
                                }
                            }
                            assert forall|i: int| 0 <= i < d2.len() implies (#[trigger] d2[i]).1 < a0 by {
                                if i < done.len() {
                                    assert(d2[i] == done[i]);
                                }
                            }
                            assert forall|a: int|
                                0 <= a < k && #[trigger] self.is_changed(base2, dma_end, a) implies (exists|i: int|
                                0 <= i < d2.len() && block_has(#[trigger] d2[i], a)) || (o2 matches Some(b)
                                && block_has(b, a)) by {
                                if a < k - 1 {
                                    if exists|i: int| 0 <= i < done.len() && block_has(#[trigger] done[i], a) {
                                        let i = choose|i: int| 0 <= i < done.len() && block_has(#[trigger] done[i], a);
                                        assert(d2[i] == done[i]);
                                        assert(0 <= i < d2.len() && block_has(d2[i], a));
                                    } else {
                                        assert(d2[done.len() as int] == (s, e));
                                        assert(block_has(d2[done.len() as int], a));
                                    }
                                } else {
                                    assert(o2 == Some((a0 as usize, k as usize)));
                                }
                            }
                        } else {
                            assert forall|a: int|
                                0 <= a < k && #[trigger] self.is_changed(base2, dma_end, a) implies (exists|i: int|
                                0 <= i < d2.len() && block_has(#[trigger] d2[i], a)) || (o2 matches Some(b)
                                && block_has(b, a)) by {
                                assert(o2 == Some((s, k as usize)));
                                if a < k - 1 {
                                    if exists|i: int| 0 <= i < done.len() && block_has(#[trigger] done[i], a) {
                                        let i = choose|i: int| 0 <= i < done.len() && block_has(#[trigger] done[i], a);
                                        assert(0 <= i < d2.len() && block_has(d2[i], a));
                                    }
                                }
                            }
                        }
                    },
                }
            }
        }
    }

    /// The blocks of a patch are nonempty, lie in the ROM, come in ascending order apart from
    /// each other, and together hold every address outside the DMA table where the patched ROM
    /// differs from the relocated base ROM; so writing the patched bytes of the blocks over the
    /// relocated base ROM gives the patched ROM outside the DMA table.
    pub proof fn law_blocks_cover_changes(&self, base2: Seq<u8>, dma_end: int)
        requires
            self.base().len() <= usize::MAX,
        ensures
            blocks_ordered(self.blocks(base2, dma_end)),
            forall|i: int|
                0 <= i < self.blocks(base2, dma_end).len() ==> (#[trigger] self.blocks(base2, dma_end)[i]).1
                    <= self.base().len(),
            forall|a: int|
                0 <= a < self.base().len() && #[trigger] self.is_changed(base2, dma_end, a) ==> exists|i: int|
                    0 <= i < self.blocks(base2, dma_end).len() && block_has(
                        #[trigger] self.blocks(base2, dma_end)[i],
                        a,
                    ),
    {
        let n = self.base().len() as int;
        self.lemma_blocks_bounds(base2, dma_end);
        self.lemma_blocks_upto_cover(base2, dma_end, n);
        let (done, open) = self.blocks_upto(base2, dma_end, n);
        let bl = self.blocks(base2, dma_end);
        match open {
            None => {},
            Some(b) => {
                assert(bl == done.push(b));
                assert forall|i: int, j: int| 0 <= i < j < bl.len() implies (#[trigger] bl[i]).1
                    < (#[trigger] bl[j]).0 by {
                    if j < done.len() {
                        assert(bl[i] == done[i] && bl[j] == done[j]);
                    } else {
                        assert(bl[i] == done[i]);
                    }
                }
                assert forall|a: int|
                    0 <= a < n && #[trigger] self.is_changed(base2, dma_end, a) implies exists|i: int|
                    0 <= i < bl.len() && block_has(#[trigger] bl[i], a) by {
                    if exists|i: int| 0 <= i < done.len() && block_has(#[trigger] done[i], a) {
                        let i = choose|i: int| 0 <= i < done.len() && block_has(#[trigger] done[i], a);
                        assert(bl[i] == done[i]);
                    } else {
                        assert(bl[done.len() as int] == b);
                    }
                }
            },
        }
    }
}

/// The header of a ZPF stream whose XOR keys start after `xor_start`.
pub open spec fn zpf_header(xor_start: usize) -> Seq<u8> {
    seq![0x5au8, 0x50, 0x46, 0x76, 0x31] + be32(DMADATA_START as int) + be32(XOR_START as int) + be32(
        XOR_END as int,
    ) + be32(xor_start as int)
}

impl<'a> Patch<'a> {
    /// The DMA table's end address, read from the table's own record.
    pub open spec fn dma_end_word(&self, d: int) -> Result<u32, ZpfError> {
        self.slice_word(DMADATA_START + 0x10 * d + 4)
    }

    /// The uncompressed ZPF stream of this patch, with XOR keys taken after `xor_start`: the
    /// header, the changed DMA records, the end marker `0xffff`, and the XOR-encoded blocks of
    /// changed bytes; or why it cannot be produced.
    pub open spec fn zpf_stream(&self, xor_start: usize) -> Result<Seq<u8>, ZpfError> {
        match self.layout() {
            Err(e) => Err(e),
            Ok((updates, base2, dma_end)) => if !self.all_indexable() {
                Err(ZpfError::PatchIndex)
            } else if self.base().len() > 0x1_0000_0000 {
                Err(ZpfError::AddressOutOfRange)
            } else {
                let blocks = self.blocks(base2, dma_end as int);
                match self.encode_blocks(blocks, xor_start, blocks.len()) {
                    Err(e) => Err(e),
                    Ok((xor, _)) => Ok(zpf_header(xor_start) + updates + seq![0xffu8, 0xff] + xor),
                }
            },
        }
    }

    /// The part of the stream that describes the new layout of the ROM: the bytes of the changed
    /// DMA records, the base ROM with the files they move relocated, and the end of the DMA table;
    /// or why it cannot be produced.
    pub open spec fn layout(&self) -> Result<(Seq<u8>, Seq<u8>, u32), ZpfError> {
        match self.dma_index_from(0) {
            Err(e) => Err(e),
            Ok(d) => match self.dma_end_word(d as int) {
                Err(e) => Err(e),
                Ok(dma_end) => if dma_end < DMADATA_START {
                    Err(ZpfError::Overflow)
                } else {
                    let num = (dma_end - DMADATA_START) / 16;
                    match self.scan_dma_from(num, 0, Seq::empty()) {
                        Err(e) => Err(e),
                        Ok(changes) => match self.emit_from(num, changes, 0, Seq::empty(), Seq::empty()) {
                            Err(e) => Err(e),
                            Ok((updates, rels)) => match self.relocated(rels) {
                                Err(e) => Err(e),
                                Ok(base2) => Ok((updates, base2, dma_end)),
                            },
                        },
                    }
                },
            },
        }
    }

    /// Every stream that can be written starts with the header, which names the DMA table, the
    /// key range, and the address the keys are taken after.
    pub proof fn law_stream_starts_with_header(&self, xor_start: usize)
        ensures
            self.zpf_stream(xor_start) matches Ok(s) ==> s.len() >= 21 && s.subrange(0, 21) == zpf_header(xor_start),
    {
        if let Ok(s) = self.zpf_stream(xor_start) {
            assert(zpf_header(xor_start).len() == 21);
            assert(s.subrange(0, 21) =~= zpf_header(xor_start));
        }
    }

    proof fn lemma_blocks_upto_bounds(&self, base2: Seq<u8>, dma_end: int, k: int)
        requires
            0 <= k <= self.base().len(),
            self.base().len() <= usize::MAX,
        ensures
            ({
                let (done, open) = self.blocks_upto(base2, dma_end, k);
                &&& forall|i: int| 0 <= i < done.len() ==> (#[trigger] done[i]).0 < done[i].1 <= k
                &&& open matches Some((s, e)) ==> s < e <= k
            }),
        decreases k,
    {
        if k > 0 {
            self.lemma_blocks_upto_bounds(base2, dma_end, k - 1);
            let (done, open) = self.blocks_upto(base2, dma_end, k - 1);
            let (d2, o2) = self.blocks_upto(base2, dma_end, k);
            assert forall|i: int| 0 <= i < d2.len() implies (#[trigger] d2[i]).0 < d2[i].1 <= k by {
                if i < done.len() {
                    assert(d2[i] == done[i]);
                }
            }
        }
    }

    proof fn lemma_blocks_bounds(&self, base2: Seq<u8>, dma_end: int)
        requires
            self.base().len() <= usize::MAX,
        ensures
            forall|i: int|
                0 <= i < self.blocks(base2, dma_end).len() ==> (#[trigger] self.blocks(base2, dma_end)[i]).0
                    < self.blocks(base2, dma_end)[i].1 <= self.base().len(),
    {
        self.lemma_blocks_upto_bounds(base2, dma_end, self.base().len() as int);
    }

    proof fn lemma_encode_blocks_err(&self, blocks: Seq<(usize, usize)>, key_addr: usize, n: nat, m: nat)
        requires
            n <= m,
            self.encode_blocks(blocks, key_addr, n) is Err,
        ensures
            self.encode_blocks(blocks, key_addr, m) == self.encode_blocks(blocks, key_addr, n),
        decreases m - n,
    {
        if n < m {
            self.lemma_encode_blocks_err(blocks, key_addr, n, (m - 1) as nat);
        }
    }

    /// Writes the uncompressed ZPF stream of this patch, with XOR keys taken after `xor_start`.
    pub fn write_zpf_with_xor_start(&self, xor_start: usize) -> (r: Result<Vec<u8>, ZpfError>)
        requires
            XOR_START <= xor_start < XOR_END,
        ensures
            r matches Ok(v) ==> self.zpf_stream(xor_start) == Ok::<Seq<u8>, ZpfError>(v@),
            r matches Err(e) ==> self.zpf_stream(xor_start) == Err::<Seq<u8>, ZpfError>(e),
            self.base().len() <= 0xff00_0000 ==> (r matches Ok(v) ==> self.applies_back(v@, xor_start)),
    {
        let d = match self.find_dma_index() {
            Err(e) => {
                return Err(e);
            },
            Ok(d) => d,
        };
        let lo = 0x7430u64 + (d as u64) * 0x10 + 4;
        let dma_end = match self.read_slice_word(lo) {
            Err(e) => {
                return Err(e);
            },
            Ok(w) => w,
        };
        if dma_end < DMADATA_START {
            return Err(ZpfError::Overflow);
        }
        let num = (dma_end - DMADATA_START) / 16;
        let changes = match self.scan_dma(num) {
            Err(e) => {
                return Err(e);
            },
            Ok(c) => c,
        };
        let mut updates: Vec<u8> = Vec::new();
        let rels = match self.emit_dma_updates(num, &changes, &mut updates) {
            Err(e) => {
                return Err(e);
            },
            Ok(r) => r,
        };
        let base2 = match self.relocated_base(&rels) {
            Err(e) => {
                return Err(e);
            },
            Ok(b) => b,
        };
        if !self.all_indexable_exec() {
            return Err(ZpfError::PatchIndex);
        }
        if self.base_rom().len() as u64 > 0x1_0000_0000u64 {
            return Err(ZpfError::AddressOutOfRange);
        }
        let blocks = self.changed_blocks(&base2, dma_end);
        proof {
            self.lemma_blocks_bounds(base2@, dma_end as int);
        }
        let mut out: Vec<u8> = Vec::new();
        out.push(0x5a);
        out.push(0x50);
        out.push(0x46);
        out.push(0x76);
        out.push(0x31);
        push_be32(&mut out, DMADATA_START);
        push_be32(&mut out, XOR_START as u32);
        push_be32(&mut out, XOR_END as u32);
        push_be32(&mut out, xor_start as u32);
        out.append(&mut updates);
        out.push(0xff);
        out.push(0xff);
        let ghost prefix = out@;
        proof {
            assert(prefix =~= zpf_header(xor_start) + self.emit_from(num as int, changes@, 0, Seq::empty(), Seq::empty())->Ok_0.0 + seq![0xffu8, 0xff]);
        }
        proof {
            assert(self.zpf_stream(xor_start) == match self.encode_blocks(blocks@, xor_start, blocks@.len()) {
                Err(e) => Err(e),
                Ok((xor, _)) => Ok(prefix + xor),
            });
        }
        let mut xor_address = xor_start;
        let mut k: usize = 0;
        while k < blocks.len()
            invariant
                0 <= k <= blocks@.len(),
                self.zpf_stream(xor_start) == match self.encode_blocks(blocks@, xor_start, blocks@.len()) {
                    Err(e) => Err(e),
                    Ok((xor, _)) => Ok(prefix + xor),
                },
                blocks@ == self.blocks(base2@, dma_end as int),
                forall|i: int|
                    0 <= i < blocks@.len() ==> (#[trigger] blocks@[i]).0 < blocks@[i].1 <= self.base().len(),
                self.base().len() <= 0x1_0000_0000,
                self.all_indexable(),
                self.encode_blocks(blocks@, xor_start, k as nat) matches Ok((bytes, a)) && out@ == prefix
                    + bytes && xor_address == a,
            decreases blocks@.len() - k,
        {
            let ghost before = out@;
            match self.write_zpf_xor_block(&mut xor_address, blocks[k], &mut out) {
                Err(e) => {
                    proof {
                        self.lemma_encode_blocks_err(blocks@, xor_start, (k + 1) as nat, blocks@.len());
                    }
                    return Err(e);
                },
                Ok(()) => {},
            }
            proof {
                assert(out@ =~= prefix + self.encode_blocks(blocks@, xor_start, (k + 1) as nat)->Ok_0.0);
            }
            k = k + 1;
        }
        proof {
            let updates = self.emit_from(num as int, changes@, 0, Seq::empty(), Seq::empty())->Ok_0.0;
            assert(self.layout() == Ok::<(Seq<u8>, Seq<u8>, u32), ZpfError>((updates, base2@, dma_end)));
            if self.base().len() <= 0xff00_0000 {
                self.lemma_blocks_apply_back(base2@, dma_end, xor_start);
                let h: int = updates.len() as int + 23;
                let xor = self.encode_blocks(blocks@, xor_start, blocks@.len())->Ok_0.0;
                assert(out@.subrange(0, h) =~= prefix);
                assert(out@.subrange(h, out@.len() as int) =~= xor);
            }
        }
        Ok(out)
    }
}

/// The length of the XOR block at the start of `bytes`: its first section (starting with the
/// block's address if `first`, else with `0xff` and a count of keys to skip), then every
/// following section that starts with `0xff`.
pub open spec fn block_len(bytes: Seq<u8>, first: bool) -> int
    decreases bytes.len(),
{
    let h: int = if first {
        4
    } else {
        2
    };
    if bytes.len() < h + 2 {
        bytes.len() as int
    } else {
        let l = h + 2 + be16_at(bytes, h);
        if l >= bytes.len() {
            bytes.len() as int
        } else if bytes[l] == 0xff {
            l + block_len(bytes.subrange(l, bytes.len() as int), false)
        } else {
            l
        }
    }
}

/// `rom` with `data` written at `at`.
pub open spec fn write_bytes(rom: Seq<u8>, at: int, data: Seq<u8>) -> Seq<u8> {
    Seq::new(rom.len(), |i: int| if at <= i < at + data.len() { data[i - at] } else { rom[i] })
}

/// Address `a` lies in one of `blocks`.
pub open spec fn in_some_block(blocks: Seq<(usize, usize)>, a: int) -> bool {
    exists|j: int| 0 <= j < blocks.len() && block_has(#[trigger] blocks[j], a)
}

/// The first section of an encoding state's output, once there is one, starts with the block's
/// address `bs`; before that no section was begun.
pub open spec fn starts_block(st: XorState, bs: usize) -> bool {
    &&& st.out.len() == 0 ==> !st.cont
    &&& st.out.len() > 0 ==> st.out.len() >= 4 && st.out.subrange(0, 4) == be32(bs as int)
}

proof fn lemma_be32_value(x: int)
    requires
        0 <= x < 0x1_0000_0000,
    ensures
        be32_value(be32(x)) == x,
        x < 0xff00_0000 ==> be32(x)[0] != 0xff,
{
    assert(((x / 0x100_0000) % 0x100) * 0x100_0000 + ((x / 0x1_0000) % 0x100) * 0x1_0000 + ((x / 0x100)
        % 0x100) * 0x100 + x % 0x100 == x) by (nonlinear_arith)
        requires
            0 <= x < 0x1_0000_0000,
    ;
    assert(x < 0xff00_0000 ==> (x / 0x100_0000) % 0x100 < 0xff) by (nonlinear_arith)
        requires
            0 <= x < 0x1_0000_0000,
    ;
}

proof fn lemma_flush_starts(st: XorState, bs: usize)
    requires
        starts_block(st, bs),
    ensures
        flush(st, bs) matches Ok(st2) ==> starts_block(st2, bs) && st2.out.len() > 0,
{
    if let Ok(st2) = flush(st, bs) {
        let sec = section(bs, st.key_offset, st.data, st.cont);
        if st.out.len() == 0 {
            assert(st2.out =~= sec);
            assert(sec.subrange(0, 4) =~= be32(bs as int));
        } else {
            assert(st2.out.subrange(0, 4) =~= st.out.subrange(0, 4));
        }
    }
}

impl<'a> Patch<'a> {
    /// Decoding a run of XOR blocks with keys after `a`, writing each block's bytes into `rom`
    /// at the block's address: the ROM that results and the key address after the run.
    pub open spec fn decode_blocks(&self, bytes: Seq<u8>, a: usize, rom: Seq<u8>) -> Option<(Seq<u8>, usize)>
        decreases bytes.len(),
    {
        if bytes.len() == 0 {
            Some((rom, a))
        } else if bytes.len() < 4 {
            None
        } else {
            let l = block_len(bytes, true);
            if l <= 0 || l > bytes.len() {
                None
            } else {
                let addr = be32_value(bytes.subrange(0, 4));
                match self.decode_sections(bytes.subrange(0, l), a, true) {
                    None => None,
                    Some((d, a2)) => if addr + d.len() > rom.len() {
                        None
                    } else {
                        self.decode_blocks(bytes.subrange(l, bytes.len() as int), a2, write_bytes(rom, addr, d))
                    },
                }
            }
        }
    }

    /// The stream `s` written with keys after `xor_start` applies back: after the header, the
    /// changed DMA records and the end marker, its XOR blocks, decoded with the keys of the base
    /// ROM and written over the base ROM with the moved files relocated, give a ROM as long as
    /// the base ROM that equals the patched ROM everywhere outside the DMA table.
    pub open spec fn applies_back(&self, s: Seq<u8>, xor_start: usize) -> bool {
        match self.layout() {
            Ok((updates, base2, dma_end)) => {
                let h: int = updates.len() as int + 23;
                &&& s.len() >= h
                &&& s.subrange(0, h) == zpf_header(xor_start) + updates + seq![0xffu8, 0xff]
                &&& self.decode_blocks(s.subrange(h, s.len() as int), xor_start, base2) matches Some((r, _))
                &&& r.len() == self.base().len()
                &&& forall|a: int|
                    0 <= a < r.len() && !(DMADATA_START <= a < dma_end) ==> #[trigger] r[a] == self.byte_at(a)
            },
            Err(_) => false,
        }
    }

    proof fn lemma_block_len(&self, out: Seq<u8>, rest: Seq<u8>, a: usize, first: bool)
        requires
            self.decode_sections(out, a, first) is Some,
            out.len() > 0,
            rest.len() == 0 || rest[0] != 0xff,
        ensures
            block_len(out + rest, first) == out.len(),
        decreases out.len(),
    {
        let h: int = if first {
            4
        } else {
            2
        };
        let all = out + rest;
        let len = be16_at(out, h);
        let l = h + 2 + len;
        assert(be16_at(all, h) == len);
        if l < out.len() {
            let skip: nat = if first {
                0
            } else {
                out[1] as nat
            };
            let a1 = self.skip_keys(a, skip)->0;
            let a2 = (self.decode_data(out.subrange(h + 2, l), a1)->0).1;
            let tail = out.subrange(l, out.len() as int);
            assert(self.decode_sections(tail, a2, false) is Some);
            assert(tail[0] == 0xff);
            assert(all[l] == 0xff);
            assert(all.subrange(l, all.len() as int) =~= tail + rest);
            self.lemma_block_len(tail, rest, a2, false);
        } else if rest.len() > 0 {
            assert(all[l] == rest[0]);
        }
    }

    proof fn lemma_retry_starts(&self, st: XorState, bs: usize, byte: u8, fuel: nat)
        requires
            starts_block(st, bs),
        ensures
            self.retry(st, bs, byte, fuel) matches Ok((st3, _)) ==> starts_block(st3, bs),
        decreases fuel,
    {
        if fuel > 0 {
            if let Ok((b, k)) = self.key_next(st.key_addr) {
                let st2 = XorState { key_addr: b, key_offset: (st.key_offset + 1) as u8, ..st };
                lemma_flush_starts(st2, bs);
                let st3 = if st2.key_offset == 0xff {
                    flush(st2, bs)
                } else {
                    Ok(st2)
                };
                if let Ok(st3) = st3 {
                    if k == byte {
                        self.lemma_retry_starts(st3, bs, byte, (fuel - 1) as nat);
                    }
                }
            }
        }
    }

    proof fn lemma_encode_byte_starts(&self, st: XorState, bs: usize, byte: u8)
        requires
            starts_block(st, bs),
        ensures
            self.encode_byte(st, bs, byte) matches Ok(st2) ==> starts_block(st2, bs),
    {
        reveal(Patch::encode_byte);
        if byte != 0 {
            if let Ok((b, k)) = self.key_next(st.key_addr) {
                let st1 = XorState { key_addr: b, ..st };
                lemma_flush_starts(st1, bs);
                if byte == k {
                    if let Ok(st2) = flush(st1, bs) {
                        self.lemma_retry_starts(st2, bs, byte, XOR_LEN as nat);
                        if let Ok((st3, k2)) = self.retry(st2, bs, byte, XOR_LEN as nat) {
                            lemma_flush_starts(XorState { data: st3.data.push(byte ^ k2), ..st3 }, bs);
                        }
                    }
                } else {
                    lemma_flush_starts(XorState { data: st1.data.push(byte ^ k), ..st1 }, bs);
                }
            }
        }
    }

    proof fn lemma_encode_prefix_starts(&self, ka: usize, bs: usize, n: nat)
        ensures
            self.encode_prefix(ka, bs, n) matches Ok(st) ==> starts_block(st, bs),
        decreases n,
    {
        if n > 0 {
            self.lemma_encode_prefix_starts(ka, bs, (n - 1) as nat);
            if let Ok(st) = self.encode_prefix(ka, bs, (n - 1) as nat) {
                self.lemma_encode_byte_starts(st, bs, self.byte_at(bs + n - 1));
            }
        }
    }

    proof fn lemma_encode_block_starts(&self, ka: usize, block: (usize, usize))
        ensures
            self.encode_block(ka, block) matches Ok((out, _)) ==> out.len() >= 4 && out.subrange(0, 4) == be32(
                block.0 as int,
            ),
    {
        let n = (block.1 - block.0) as nat;
        self.lemma_encode_prefix_starts(ka, block.0, n);
        if let Ok(st) = self.encode_prefix(ka, block.0, n) {
            lemma_flush_starts(st, block.0);
        }
    }

    proof fn lemma_encode_blocks_first(&self, blocks: Seq<(usize, usize)>, x: usize, k: nat)
        requires
            1 <= k <= blocks.len(),
            self.encode_blocks(blocks, x, k) is Ok,
        ensures
            self.encode_block(x, blocks[0]) matches Ok((o1, a1)) && self.encode_blocks(
                blocks.drop_first(),
                a1,
                (k - 1) as nat,
            ) matches Ok((rest, a)) && self.encode_blocks(blocks, x, k) == Ok::<(Seq<u8>, usize), ZpfError>(
                (o1 + rest, a),
            ),
        decreases k,
    {
        let tail = blocks.drop_first();
        if k == 1 {
            let (m, a) = self.encode_block(x, blocks[0])->Ok_0;
            assert(Seq::<u8>::empty() + m =~= m);
            assert(m + Seq::<u8>::empty() =~= m);
        } else {
            self.lemma_encode_blocks_first(blocks, x, (k - 1) as nat);
            let (o1, a1) = self.encode_block(x, blocks[0])->Ok_0;
            let (rest1, am) = self.encode_blocks(tail, a1, (k - 2) as nat)->Ok_0;
            let (m, a) = self.encode_block(am, blocks[k - 1])->Ok_0;
            assert(tail[k - 2] == blocks[k - 1]);
            assert(self.encode_blocks(tail, a1, (k - 1) as nat) == Ok::<(Seq<u8>, usize), ZpfError>((rest1 + m, a)));
            assert((o1 + rest1) + m =~= o1 + (rest1 + m));
        }
    }

    proof fn lemma_decode_blocks_step(
        &self,
        o1: Seq<u8>,
        rest: Seq<u8>,
        x: usize,
        rom: Seq<u8>,
        bs: usize,
        d: Seq<u8>,
        a1: usize,
    )
        requires
            self.decode_sections(o1, x, true) == Some((d, a1)),
            o1.len() >= 4,
            o1.subrange(0, 4) == be32(bs as int),
            bs < 0x1_0000_0000,
            rest.len() == 0 || rest[0] != 0xff,
            bs + d.len() <= rom.len(),
        ensures
            self.decode_blocks(o1 + rest, x, rom) == self.decode_blocks(rest, a1, write_bytes(rom, bs as int, d)),
    {
        let xor = o1 + rest;
        self.lemma_block_len(o1, rest, x, true);
        assert(xor.subrange(0, o1.len() as int) =~= o1);
        assert(xor.subrange(0, 4) =~= o1.subrange(0, 4));
        lemma_be32_value(bs as int);
        assert(xor.subrange(o1.len() as int, xor.len() as int) =~= rest);
    }

    /// The encoding of a nonempty run of blocks starting below `0xff00_0000` does not start with
    /// `0xff`.
    proof fn lemma_run_first_byte(&self, blocks: Seq<(usize, usize)>, x: usize)
        requires
            blocks.len() > 0,
            blocks[0].0 < 0xff00_0000,
            self.encode_blocks(blocks, x, blocks.len()) is Ok,
        ensures
            self.encode_blocks(blocks, x, blocks.len())->Ok_0.0.len() > 0,
            self.encode_blocks(blocks, x, blocks.len())->Ok_0.0[0] != 0xff,
    {
        self.lemma_encode_blocks_first(blocks, x, blocks.len());
        self.lemma_encode_block_starts(x, blocks[0]);
        let o1 = self.encode_block(x, blocks[0])->Ok_0.0;
        assert(o1[0] == o1.subrange(0, 4)[0]);
        lemma_be32_value(blocks[0].0 as int);
    }

    #[verifier::rlimit(40)]
    proof fn lemma_decode_run(&self, blocks: Seq<(usize, usize)>, x: usize, rom: Seq<u8>)
        requires
            forall|i: int|
                0 <= i < blocks.len() ==> (#[trigger] blocks[i]).0 <= blocks[i].1 <= rom.len() && blocks[i].0
                    < 0xff00_0000,
            self.encode_blocks(blocks, x, blocks.len()) is Ok,
        ensures
            ({
                let (xor, a) = self.encode_blocks(blocks, x, blocks.len())->Ok_0;
                &&& self.decode_blocks(xor, x, rom) matches Some((r, a2))
                &&& a2 == a
                &&& r.len() == rom.len()
                &&& forall|i: int|
                    0 <= i < rom.len() ==> #[trigger] r[i] == if in_some_block(blocks, i) {
                        self.byte_at(i)
                    } else {
                        rom[i]
                    }
            }),
        decreases blocks.len(),
    {
        if blocks.len() == 0 {
            assert forall|i: int| 0 <= i < rom.len() implies !in_some_block(blocks, i) by {}
        } else {
            let k = blocks.len();
            let tail = blocks.drop_first();
            let b0 = blocks[0];
            self.lemma_encode_blocks_first(blocks, x, k);
            let (o1, a1) = self.encode_block(x, b0)->Ok_0;
            let (rest, a) = self.encode_blocks(tail, a1, (k - 1) as nat)->Ok_0;
            self.law_block_decodes(x, b0);
            self.lemma_encode_block_starts(x, b0);
            let bb = self.block_bytes(b0.0, (b0.1 - b0.0) as nat);
            if tail.len() > 0 {
                assert(tail[0] == blocks[1]);
                self.lemma_run_first_byte(tail, a1);
            } else {
                assert(rest =~= Seq::<u8>::empty());
            }
            self.lemma_decode_blocks_step(o1, rest, x, rom, b0.0, bb, a1);
            let rom1 = write_bytes(rom, b0.0 as int, bb);
            assert forall|i: int| 0 <= i < tail.len() implies (#[trigger] tail[i]).0 <= tail[i].1 <= rom1.len()
                && tail[i].0 < 0xff00_0000 by {
                assert(tail[i] == blocks[i + 1]);
            }
            self.lemma_decode_run(tail, a1, rom1);
            self.lemma_run_cover(blocks, rom, rom1, (self.decode_blocks(rest, a1, rom1)->0).0);
        }
    }

    proof fn lemma_run_cover(&self, blocks: Seq<(usize, usize)>, rom: Seq<u8>, rom1: Seq<u8>, r: Seq<u8>)
        requires
            blocks.len() > 0,
            blocks[0].0 <= blocks[0].1 <= rom.len(),
            rom1 == write_bytes(rom, blocks[0].0 as int, self.block_bytes(blocks[0].0, (blocks[0].1 - blocks[0].0) as nat)),
            r.len() == rom.len(),
            forall|i: int|
                0 <= i < rom.len() ==> #[trigger] r[i] == if in_some_block(blocks.drop_first(), i) {
                    self.byte_at(i)
                } else {
                    rom1[i]
                },
        ensures
            forall|i: int|
                0 <= i < rom.len() ==> #[trigger] r[i] == if in_some_block(blocks, i) {
                    self.byte_at(i)
                } else {
                    rom[i]
                },
    {
        let tail = blocks.drop_first();
        let b0 = blocks[0];
        assert forall|i: int| 0 <= i < rom.len() implies #[trigger] r[i] == if in_some_block(blocks, i) {
            self.byte_at(i)
        } else {
            rom[i]
        } by {
            if in_some_block(tail, i) {
                let j = choose|j: int| 0 <= j < tail.len() && block_has(#[trigger] tail[j], i);
                assert(blocks[j + 1] == tail[j]);
                assert(block_has(blocks[j + 1], i));
            } else if block_has(b0, i) {
                assert(block_has(blocks[0], i));
            } else {
                assert forall|j: int| 0 <= j < blocks.len() implies !block_has(#[trigger] blocks[j], i) by {
                    if j > 0 {
                        assert(blocks[j] == tail[j - 1]);
                    }
                }
            }
        }
    }

    /// Writing the XOR blocks of a patch's changed bytes over the relocated base ROM gives the
    /// patched ROM outside the DMA table.
    proof fn lemma_blocks_apply_back(&self, base2: Seq<u8>, dma_end: u32, x: usize)
        requires
            base2.len() == self.base().len(),
            self.base().len() <= 0xff00_0000,
            self.encode_blocks(self.blocks(base2, dma_end as int), x, self.blocks(base2, dma_end as int).len()) is Ok,
        ensures
            ({
                let bl = self.blocks(base2, dma_end as int);
                let xor = self.encode_blocks(bl, x, bl.len())->Ok_0.0;
                &&& self.decode_blocks(xor, x, base2) matches Some((r, _))
                &&& r.len() == self.base().len()
                &&& forall|a: int|
                    0 <= a < r.len() && !(DMADATA_START <= a < dma_end) ==> #[trigger] r[a] == self.byte_at(a)
            }),
    {
        let bl = self.blocks(base2, dma_end as int);
        self.law_blocks_cover_changes(base2, dma_end as int);
        self.lemma_decode_run(bl, x, base2);
        let xor = self.encode_blocks(bl, x, bl.len())->Ok_0.0;
        let r = (self.decode_blocks(xor, x, base2)->0).0;
        assert forall|a: int| 0 <= a < r.len() && !(DMADATA_START <= a < dma_end) implies #[trigger] r[a]
            == self.byte_at(a) by {
            if !in_some_block(bl, a) {
                if self.is_changed(base2, dma_end as int, a) {
                    assert(in_some_block(bl, a));
                }
            }
        }
    }
}

/// The signed 32-bit value whose two's complement bit pattern is `b`.
pub open spec fn i32_from_bits(b: int) -> i32 {
    if b >= 0x8000_0000 {
        (b - 0x1_0000_0000) as i32
    } else {
        b as i32
    }
}

/// The changed DMA record whose 13 bytes start `b`.
pub open spec fn read_change(b: Seq<u8>) -> DmaChange {
    DmaChange {
        index: be16_at(b, 0) as u32,
        from_file: i32_from_bits(be32_value(b.subrange(2, 6))),
        start: be32_value(b.subrange(6, 10)) as u32,
        size: (b[10] * 0x1_0000 + b[11] * 0x100 + b[12]) as u32,
    }
}

/// Reading changed DMA records from the start of `bytes` up to the end marker `0xffff`: the
/// records, and the number of bytes they and the marker take.
pub open spec fn read_changes(bytes: Seq<u8>) -> Option<(Seq<DmaChange>, int)>
    decreases bytes.len(),
{
    if bytes.len() < 2 {
        None
    } else if be16_at(bytes, 0) == 0xffff {
        Some((Seq::empty(), 2))
    } else if bytes.len() < 13 {
        None
    } else {
        match read_changes(bytes.subrange(13, bytes.len() as int)) {
            None => None,
            Some((cs, n)) => Some((seq![read_change(bytes)] + cs, n + 13)),
        }
    }
}

/// The bytes announcing changed DMA records `k ..` of `changes`.
pub open spec fn changes_bytes(changes: Seq<DmaChange>, k: int) -> Seq<u8>
    decreases changes.len() - k,
{
    if k < 0 || k >= changes.len() {
        Seq::empty()
    } else {
        Patch::change_bytes(changes[k]) + changes_bytes(changes, k + 1)
    }
}

proof fn lemma_read_change(c: DmaChange)
    requires
        c.index < 0xffff,
        c.size < 0x100_0000,
    ensures
        Patch::change_bytes(c).len() == 13,
        be16_at(Patch::change_bytes(c), 0) != 0xffff,
        read_change(Patch::change_bytes(c)) == c,
{
    let b = Patch::change_bytes(c);
    lemma_be16_value(c.index as int);
    assert(b.subrange(0, 2) =~= be16(c.index as int));
    assert(be16_at(b, 0) == be16_at(be16(c.index as int), 0));
    let fb = i32_bits(c.from_file);
    assert(0 <= fb < 0x1_0000_0000);
    lemma_be32_value(fb);
    assert(b.subrange(2, 6) =~= be32(fb));
    lemma_be32_value(c.start as int);
    assert(b.subrange(6, 10) =~= be32(c.start as int));
    let x = c.size as int;
    assert(((x / 0x1_0000) % 0x100) * 0x1_0000 + ((x / 0x100) % 0x100) * 0x100 + x % 0x100 == x) by (nonlinear_arith)
        requires
            0 <= x < 0x100_0000,
    ;
    assert(i32_from_bits(fb) == c.from_file);
}

proof fn lemma_read_changes(changes: Seq<DmaChange>, k: int, tail: Seq<u8>)
    requires
        0 <= k <= changes.len(),
        forall|i: int| 0 <= i < changes.len() ==> (#[trigger] changes[i]).index < 0xffff && changes[i].size < 0x100_0000,
    ensures
        read_changes(changes_bytes(changes, k) + seq![0xffu8, 0xff] + tail) == Some(
            (changes.subrange(k, changes.len() as int), changes_bytes(changes, k).len() as int + 2),
        ),
    decreases changes.len() - k,
{
    let bytes = changes_bytes(changes, k) + seq![0xffu8, 0xff] + tail;
    if k == changes.len() {
        assert(changes_bytes(changes, k) =~= Seq::<u8>::empty());
        assert(be16_at(bytes, 0) == 0xffff);
        assert(changes.subrange(k, changes.len() as int) =~= Seq::<DmaChange>::empty());
    } else {
        let c = changes[k];
        lemma_read_change(c);
        lemma_read_changes(changes, k + 1, tail);
        let cb = Patch::change_bytes(c);
        assert(bytes =~= cb + (changes_bytes(changes, k + 1) + seq![0xffu8, 0xff] + tail));
        assert(bytes.subrange(13, bytes.len() as int) =~= changes_bytes(changes, k + 1) + seq![0xffu8, 0xff] + tail);
        assert(be16_at(bytes, 0) == be16_at(cb, 0));
        assert(bytes.subrange(2, 6) =~= cb.subrange(2, 6));
        assert(bytes.subrange(6, 10) =~= cb.subrange(6, 10));
        assert(read_change(bytes) == read_change(cb));
        assert(seq![c] + changes.subrange(k + 1, changes.len() as int) =~= changes.subrange(k, changes.len() as int));
    }
}

impl<'a> Patch<'a> {
    proof fn lemma_emit_bytes(&self, num: int, changes: Seq<DmaChange>, k: int, out: Seq<u8>, rels: Seq<Relocation>)
        requires
            0 <= k <= changes.len(),
        ensures
            self.emit_from(num, changes, k, out, rels) matches Ok((o, _)) ==> o == out + changes_bytes(changes, k)
                && forall|i: int| k <= i < changes.len() ==> (#[trigger] changes[i]).index <= 0xffff && changes[i].size
                < 0x100_0000,
        decreases changes.len() - k,
    {
        if k < changes.len() {
            let c = changes[k];
            if c.index <= 0xffff && c.size < 0x100_0000 {
                if let Ok(rels2) = self.change_relocations(num, c, rels) {
                    self.lemma_emit_bytes(num, changes, k + 1, out + Self::change_bytes(c), rels2);
                    assert(out + Self::change_bytes(c) + changes_bytes(changes, k + 1) =~= out + changes_bytes(changes, k));
                }
            }
        } else {
            assert(out + changes_bytes(changes, k) =~= out);
        }
    }

    /// The changed DMA records of a patch read back from the stream: after the header come the
    /// records, each read back as written, up to the end marker `0xffff`; unless a record's
    /// index is itself `0xffff`, which reads as the marker.
    pub proof fn law_dma_records_read_back(&self, num: int, changes: Seq<DmaChange>, tail: Seq<u8>)
        requires
            self.emit_from(num, changes, 0, Seq::empty(), Seq::empty()) is Ok,
            forall|i: int| 0 <= i < changes.len() ==> (#[trigger] changes[i]).index != 0xffff,
        ensures
            ({
                let updates = self.emit_from(num, changes, 0, Seq::empty(), Seq::empty())->Ok_0.0;
                read_changes(updates + seq![0xffu8, 0xff] + tail) == Some((changes, updates.len() as int + 2))
            }),
    {
        self.lemma_emit_bytes(num, changes, 0, Seq::empty(), Seq::empty());
        assert(Seq::<u8>::empty() + changes_bytes(changes, 0) =~= changes_bytes(changes, 0));
        lemma_read_changes(changes, 0, tail);
        assert(changes.subrange(0, changes.len() as int) =~= changes);
    }
}

impl<'a> Patch<'a> {
    /// The four words of DMA record `idx`: its start and end in the patched ROM, then in the
    /// base ROM.
    pub open spec fn record_words(&self, idx: int) -> (
        Result<u32, ZpfError>,
        Result<u32, ZpfError>,
        Result<u32, ZpfError>,
        Result<u32, ZpfError>,
    ) {
        let lo = DMADATA_START + 0x10 * idx;
        (self.slice_word(lo), self.slice_word(lo + 4), self.base_word(lo), self.base_word(lo + 4))
    }

    /// DMA record `idx` is all zeros in both ROMs: the table ends there.
    pub open spec fn record_ends_table(&self, idx: int) -> bool {
        let (s, e, os, oe) = self.record_words(idx);
        s == Ok::<u32, ZpfError>(0) && e == Ok::<u32, ZpfError>(0) && os == Ok::<u32, ZpfError>(0) && oe == Ok::<
            u32,
            ZpfError,
        >(0)
    }

    /// DMA record `idx` reads in both ROMs, and its start or its end differs between them.
    pub open spec fn record_differs(&self, idx: int) -> bool {
        match self.record_words(idx) {
            (Ok(s), Ok(e), Ok(os), Ok(oe)) => s != os || e != oe,
            _ => false,
        }
    }

    /// The update announcing that DMA record `idx` changed: its index, the base start it is
    /// copied from (below record 1496; `-1` from there on), the patched start and the size.
    pub open spec fn record_update(&self, idx: int) -> DmaChange {
        let (s, e, os, oe) = self.record_words(idx);
        DmaChange {
            index: idx as u32,
            from_file: if idx < 1496 {
                os->Ok_0 as i32
            } else {
                -1i32
            },
            start: s->Ok_0,
            size: (e->Ok_0 - s->Ok_0) as u32,
        }
    }

    proof fn lemma_scan_lists(&self, num: int, i: int, acc: Seq<DmaChange>)
        requires
            0 <= i,
        ensures
            self.scan_dma_from(num, i, acc) matches Ok(ch) ==> {
                &&& forall|c: DmaChange| #[trigger] acc.contains(c) ==> ch.contains(c)
                &&& forall|idx: int|
                    i <= idx < num && (forall|j: int| i <= j < idx ==> !#[trigger] self.record_ends_table(j))
                        && #[trigger] self.record_differs(idx) ==> ch.contains(self.record_update(idx))
                &&& forall|c: DmaChange|
                    #[trigger] ch.contains(c) ==> acc.contains(c) || exists|idx: int|
                        i <= idx < num && #[trigger] self.record_differs(idx) && c == self.record_update(idx)
            },
        decreases num - i,
    {
        if i < num {
            let lo1 = DMADATA_START + 0x10 * i;
            if let Ok(ch) = self.scan_dma_from(num, i, acc) {
                let (ws, we, wos, woe) = self.record_words(i);
                let s0 = ws->Ok_0;
                let e0 = we->Ok_0;
                let os0 = wos->Ok_0;
                let oe0 = woe->Ok_0;
                if s0 == 0 && e0 == 0 && os0 == 0 && oe0 == 0 {
                    assert(self.record_ends_table(i));
                    assert(!self.record_differs(i));
                    assert forall|c: DmaChange| #[trigger] ch.contains(c) implies acc.contains(c) || exists|idx: int|
                        i <= idx < num && #[trigger] self.record_differs(idx) && c == self.record_update(idx) by {}
                } else if s0 == os0 && e0 == oe0 {
                    self.lemma_scan_lists(num, i + 1, acc);
                    assert(!self.record_differs(i));
                    assert forall|idx: int|
                        i <= idx < num && (forall|j: int| i <= j < idx ==> !#[trigger] self.record_ends_table(j))
                            && #[trigger] self.record_differs(idx) implies ch.contains(self.record_update(idx)) by {
                        assert(idx != i);
                        assert forall|j: int| i + 1 <= j < idx implies !#[trigger] self.record_ends_table(j) by {}
                    }
                    assert forall|c: DmaChange| #[trigger] ch.contains(c) implies acc.contains(c) || exists|idx: int|
                        i <= idx < num && #[trigger] self.record_differs(idx) && c == self.record_update(idx) by {
                        if !acc.contains(c) {
                            let idx = choose|idx: int|
                                i + 1 <= idx < num && #[trigger] self.record_differs(idx) && c == self.record_update(idx);
                        }
                    }
                } else {
                    let c0 = self.record_update(i);
                    let acc2 = acc.push(c0);
                    assert(self.scan_dma_from(num, i, acc) == self.scan_dma_from(num, i + 1, acc2));
                    self.lemma_scan_lists(num, i + 1, acc2);
                    assert(self.record_differs(i));
                    assert(acc2[acc.len() as int] == c0);
                    assert(acc2.contains(c0));
                    assert forall|c: DmaChange| #[trigger] acc.contains(c) implies ch.contains(c) by {
                        let k = choose|k: int| 0 <= k < acc.len() && acc[k] == c;
                        assert(acc2[k] == c);
                        assert(acc2.contains(c));
                    }
                    assert forall|idx: int|
                        i <= idx < num && (forall|j: int| i <= j < idx ==> !#[trigger] self.record_ends_table(j))
                            && #[trigger] self.record_differs(idx) implies ch.contains(self.record_update(idx)) by {
                        if idx > i {
                            assert forall|j: int| i + 1 <= j < idx implies !#[trigger] self.record_ends_table(j) by {}
                        }
                    }
                    assert forall|c: DmaChange| #[trigger] ch.contains(c) implies acc.contains(c) || exists|idx: int|
                        i <= idx < num && #[trigger] self.record_differs(idx) && c == self.record_update(idx) by {
                        if !acc.contains(c) {
                            if acc2.contains(c) {
                                let k = choose|k: int| 0 <= k < acc2.len() && acc2[k] == c;
                                if k < acc.len() {
                                    assert(acc[k] == c);
                                } else {
                                    assert(c == c0);
                                    assert(self.record_differs(i));
                                }
                            } else {
                                let idx = choose|idx: int|
                                    i + 1 <= idx < num && #[trigger] self.record_differs(idx) && c == self.record_update(idx);
                            }
                        }
                    }
                }
            }
        }
    }

    /// Every DMA record before the table's end (its record count), not past the first record that
    /// is all zeros in both ROMs, whose start or end differs between the patched and the base
    /// ROM, is listed as changed with its index, its patched start and its size; and every listed
    /// change is such a record.
    pub proof fn law_scan_lists_changed_records(&self, num: int)
        ensures
            self.scan_dma_from(num, 0, Seq::empty()) matches Ok(ch) ==> {
                &&& forall|idx: int|
                    0 <= idx < num && (forall|j: int| 0 <= j < idx ==> !#[trigger] self.record_ends_table(j))
                        && #[trigger] self.record_differs(idx) ==> ch.contains(self.record_update(idx))
                &&& forall|c: DmaChange|
                    #[trigger] ch.contains(c) ==> exists|idx: int|
                        0 <= idx < num && #[trigger] self.record_differs(idx) && c == self.record_update(idx)
            },
    {
        self.lemma_scan_lists(num, 0, Seq::empty());
    }

    /// The number of records of the DMA table, as its own record gives its end; 0 if that
    /// cannot be read.
    pub open spec fn table_records(&self) -> int {
        match self.dma_index_from(0) {
            Ok(d) => match self.dma_end_word(d as int) {
                Ok(dma_end) => if dma_end < DMADATA_START {
                    0
                } else {
                    ((dma_end - DMADATA_START) / 16) as int
                },
                Err(_) => 0,
            },
            Err(_) => 0,
        }
    }

    /// A written stream announces every changed DMA record: reading the records after its
    /// 21-byte header gives, for every record before the table's end and not past the first
    /// all-zero record whose start or end differs between the ROMs, its index, patched start and
    /// size (for tables of fewer than 0xffff records, whose indices cannot be the end marker).
    pub proof fn law_stream_announces_changed_records(&self, xor_start: usize, idx: int)
        requires
            self.zpf_stream(xor_start) is Ok,
            self.table_records() <= 0xffff,
            0 <= idx < self.table_records(),
            forall|j: int| 0 <= j < idx ==> !#[trigger] self.record_ends_table(j),
            self.record_differs(idx),
        ensures
            ({
                let s = self.zpf_stream(xor_start)->Ok_0;
                read_changes(s.subrange(21, s.len() as int)) matches Some((cs, _)) && cs.contains(self.record_update(idx))
            }),
    {
        let s = self.zpf_stream(xor_start)->Ok_0;
        let d = self.dma_index_from(0)->Ok_0;
        let dma_end = self.dma_end_word(d as int)->Ok_0;
        let num = ((dma_end - DMADATA_START) / 16) as int;
        let changes = self.scan_dma_from(num, 0, Seq::empty())->Ok_0;
        let (updates, rels) = self.emit_from(num, changes, 0, Seq::empty(), Seq::empty())->Ok_0;
        let (u2, base2, de) = self.layout()->Ok_0;
        assert(u2 == updates);
        self.law_scan_lists_changed_records(num);
        assert forall|i: int| 0 <= i < changes.len() implies (#[trigger] changes[i]).index != 0xffff by {
            assert(changes.contains(changes[i]));
        }
        let bl = self.blocks(base2, de as int);
        let xor = self.encode_blocks(bl, xor_start, bl.len())->Ok_0.0;
        assert(s == zpf_header(xor_start) + updates + seq![0xffu8, 0xff] + xor);
        self.law_dma_records_read_back(num, changes, xor);
        assert(s.subrange(21, s.len() as int) =~= updates + seq![0xffu8, 0xff] + xor);
    }
}

/// Calls `rand::random_range` on the XOR key range: the result is an address in that range.
#[verifier::external_body]
fn random_xor_start() -> (r: usize)
    ensures
        XOR_START <= r < XOR_END,
{
    rand::random_range(XOR_START..XOR_END)
}

impl<'a> Patch<'a> {
    /// Writes the uncompressed ZPF stream of this patch, taking XOR keys after a random address
    /// of the key range.
    pub fn write_zpf(&self) -> (r: Result<Vec<u8>, ZpfError>)
        ensures
            exists|x: usize|
                #![trigger self.zpf_stream(x)]
                XOR_START <= x < XOR_END && (r matches Ok(v) ==> self.zpf_stream(x) == Ok::<Seq<u8>, ZpfError>(v@))
                    && (r matches Err(e) ==> self.zpf_stream(x) == Err::<Seq<u8>, ZpfError>(e))
                    && (self.base().len() <= 0xff00_0000 ==> (r matches Ok(v) ==> self.applies_back(v@, x))),
    {
        let xor_address = random_xor_start();
        self.write_zpf_with_xor_start(xor_address)
    }
}

} // verus!
