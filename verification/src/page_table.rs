//! Page-table entries, and the frames of physical memory that hold page tables.

use crate::addr::PhysFrame;
use std::collections::HashMap;
use vstd::prelude::*;
use x86_64::structures::paging::PageTable;

verus! {

/// Entry flag: the entry maps something.
pub const PRESENT: u64 = 1;

/// Entry flag: writes through the entry are allowed.
pub const WRITABLE: u64 = 2;

/// Entry flag: the entry maps a huge page instead of naming a table.
pub const HUGE_PAGE: u64 = 0x80;

/// The bits of an entry that hold flags: 0 to 11 and 52 to 63.
pub const FLAG_BITS: u64 = 0xfff0_0000_0000_0fff;

/// The bits of an entry that hold the frame address: 12 to 51.
pub const ADDR_BITS: u64 = 0x000f_ffff_ffff_f000;

/// Why an entry names no next frame.
#[derive(Clone, Copy, Debug, PartialEq, Eq, Structural)]
pub enum FrameError {
    /// The entry's `PRESENT` flag is clear.
    FrameNotPresent,
    /// The entry's `HUGE_PAGE` flag is set.
    HugeFrame,
}

/// The flags of a page-table entry.
#[derive(Clone, Copy, Debug, PartialEq, Eq, Structural)]
pub struct PageTableFlags {
    pub bits: u64,
}

impl PageTableFlags {
    /// No bit outside the flag positions is set.
    pub open spec fn wf(self) -> bool {
        self.bits & ADDR_BITS == 0
    }

    /// Whether every bit of `flag` is set.
    pub open spec fn spec_contains(self, flag: u64) -> bool {
        self.bits & flag == flag
    }

    /// The flags among `bits`; the address bits are dropped.
    pub fn from_bits_truncate(bits: u64) -> (flags: PageTableFlags)
        ensures
            flags.bits == bits & FLAG_BITS,
            flags.wf(),
    {
        assert((bits & 0xfff0_0000_0000_0fff) & 0x000f_ffff_ffff_f000 == 0) by (bit_vector);
        PageTableFlags { bits: bits & FLAG_BITS }
    }

    /// The flags as the bits of an entry.
    pub fn bits(self) -> (bits: u64)
        ensures
            bits == self.bits,
    {
        self.bits
    }

    /// Whether every bit of `flag` is set.
    pub fn contains(self, flag: u64) -> (r: bool)
        ensures
            r == self.spec_contains(flag),
    {
        self.bits & flag == flag
    }
}

/// Whether the entry's `PRESENT` flag is set.
pub open spec fn entry_is_present(entry: u64) -> bool {
    entry & PRESENT == PRESENT
}

/// Whether the entry's `HUGE_PAGE` flag is set.
pub open spec fn entry_is_huge(entry: u64) -> bool {
    entry & HUGE_PAGE == HUGE_PAGE
}

/// The frame address that the entry holds.
pub open spec fn entry_addr(entry: u64) -> u64 {
    entry & ADDR_BITS
}

/// The frame that an entry names: none where it is not present, none where it
/// maps a huge page, else the one at its address bits.
pub open spec fn spec_entry_frame(entry: u64) -> Result<u64, FrameError> {
    if !entry_is_present(entry) {
        Err(FrameError::FrameNotPresent)
    } else if entry_is_huge(entry) {
        Err(FrameError::HugeFrame)
    } else {
        Ok(entry_addr(entry))
    }
}

/// The address bits of an entry are the start of a frame.
pub proof fn lemma_entry_addr_is_frame(entry: u64)
    ensures
        entry_addr(entry) % 4096 == 0,
        entry_addr(entry) < 0x10_0000_0000_0000,
{
    assert((entry & 0x000f_ffff_ffff_f000) % 4096 == 0) by (bit_vector);
    assert((entry & 0x000f_ffff_ffff_f000) < 0x10_0000_0000_0000) by (bit_vector);
}

/// An entry made of a frame address and flags gives both back.
pub proof fn lemma_make_entry(addr: u64, flags: u64)
    requires
        addr % 4096 == 0,
        addr < 0x10_0000_0000_0000,
    ensures
        entry_addr(spec_make_entry(addr, flags)) == addr,
        entry_is_present(spec_make_entry(addr, flags)) == (flags & PRESENT == PRESENT),
        entry_is_huge(spec_make_entry(addr, flags)) == (flags & HUGE_PAGE == HUGE_PAGE),
        spec_make_entry(addr, flags) & FLAG_BITS == flags & FLAG_BITS,
{
    assert((addr | (flags & 0xfff0_0000_0000_0fff)) & 0x000f_ffff_ffff_f000 == addr) by (bit_vector)
        requires
            addr % 4096 == 0,
            addr < 0x10_0000_0000_0000,
    ;
    assert(((addr | (flags & 0xfff0_0000_0000_0fff)) & 1 == 1) == (flags & 1 == 1)) by (bit_vector)
        requires
            addr % 4096 == 0,
    ;
    assert(((addr | (flags & 0xfff0_0000_0000_0fff)) & 0x80 == 0x80) == (flags & 0x80 == 0x80))
        by (bit_vector)
        requires
            addr % 4096 == 0,
    ;
    assert((addr | (flags & 0xfff0_0000_0000_0fff)) & 0xfff0_0000_0000_0fff == flags
        & 0xfff0_0000_0000_0fff) by (bit_vector)
        requires
            addr % 4096 == 0,
            addr < 0x10_0000_0000_0000,
    ;
}

/// An unused entry is not present.
pub proof fn lemma_zero_entry()
    ensures
        !entry_is_present(0),
        spec_entry_frame(0) == Err::<u64, FrameError>(FrameError::FrameNotPresent),
{
    assert(0u64 & 1 != 1) by (bit_vector);
}

/// The entry that holds `addr` with `flags`.
pub open spec fn spec_make_entry(addr: u64, flags: u64) -> u64 {
    addr | (flags & FLAG_BITS)
}

/// A table in which no entry is used.
pub open spec fn empty_entries() -> Seq<u64> {
    Seq::new(512, |i: int| 0u64)
}

/// `x86_64::structures::paging::PageTable`: 512 entries of 64 bits, laid out
/// as the processor reads them. Its contents are known only through
/// [`page_table_entries`].
#[verifier::external_type_specification]
#[verifier::external_body]
pub struct ExPageTable(PageTable);

/// The 512 entries of a page table, each as the 64 bits that the hardware reads.
pub uninterp spec fn page_table_entries(table: PageTable) -> Seq<u64>;

/// `x86_64::structures::paging::PageTable::new`: a table of 512 entries, all
/// zero.
#[verifier::external_body]
fn new_page_table() -> (table: PageTable)
    ensures
        page_table_entries(table) == empty_entries(),
{
    PageTable::new()
}

/// `x86_64::structures::paging::page_table::PageTableEntry::frame` on the entry
/// at `index`: `FrameNotPresent` where bit 0 is clear, else `HugeFrame` where
/// bit 7 is set, else the frame at the entry's bits 12 to 51.
#[verifier::external_body]
fn page_table_entry_frame(table: &PageTable, index: u16) -> (r: Result<u64, FrameError>)
    requires
        index < 512,
    ensures
        r == spec_entry_frame(page_table_entries(*table)[index as int]),
{
    match table[usize::from(index)].frame() {
        Ok(frame) => Ok(frame.start_address().as_u64()),
        Err(x86_64::structures::paging::page_table::FrameError::FrameNotPresent) => {
            Err(FrameError::FrameNotPresent)
        },
        Err(x86_64::structures::paging::page_table::FrameError::HugeFrame) => {
            Err(FrameError::HugeFrame)
        },
    }
}

/// `x86_64::structures::paging::page_table::PageTableEntry::set_addr` on the
/// entry at `index`: the entry becomes `addr` or-ed with the flag bits of
/// `flags`; no other entry changes. The outside function rejects an `addr`
/// that is not a multiple of 4096 or not below 2^52.
#[verifier::external_body]
fn page_table_set_entry(table: &mut PageTable, index: u16, addr: u64, flags: u64)
    requires
        index < 512,
        addr % 4096 == 0,
        addr < 0x10_0000_0000_0000,
    ensures
        page_table_entries(*final(table)) == page_table_entries(*old(table)).update(
            index as int,
            spec_make_entry(addr, flags),
        ),
{
    table[usize::from(index)].set_addr(
        x86_64::PhysAddr::new(addr),
        x86_64::structures::paging::PageTableFlags::from_bits_truncate(flags),
    );
}

/// The entries of the table in frame `frame`: those stored for it, or 512
/// unused entries where nothing was ever written to the frame.
pub open spec fn spec_table(tables: Map<u64, Seq<u64>>, frame: u64) -> Seq<u64> {
    if tables.contains_key(frame) {
        tables[frame]
    } else {
        empty_entries()
    }
}

/// The entry at `index` of the table in frame `frame`.
pub open spec fn spec_entry(tables: Map<u64, Seq<u64>>, frame: u64, index: int) -> u64 {
    spec_table(tables, frame)[index]
}

/// Every stored table has 512 entries.
pub open spec fn tables_wf(tables: Map<u64, Seq<u64>>) -> bool {
    forall|f: u64| #[trigger] tables.contains_key(f) ==> tables[f].len() == 512
}

/// The frames of physical memory that hold page tables, each with its 512
/// entries. A frame that is not held reads as a table of unused entries.
pub struct PhysicalMemory {
    tables: HashMap<u64, PageTable>,
}

impl View for PhysicalMemory {
    type V = Map<u64, Seq<u64>>;

    /// The stored tables by the start address of their frame.
    closed spec fn view(&self) -> Map<u64, Seq<u64>> {
        Map::new(
            |f: u64| self.tables@.contains_key(f),
            |f: u64| page_table_entries(self.tables@[f]),
        )
    }
}

impl PhysicalMemory {
    /// Every stored table has 512 entries.
    pub open spec fn wf(&self) -> bool {
        tables_wf(self@)
    }

    /// A memory that holds no table.
    pub fn new() -> (memory: PhysicalMemory)
        ensures
            memory@ == Map::<u64, Seq<u64>>::empty(),
            memory.wf(),
    {
        let memory = PhysicalMemory { tables: HashMap::new() };
        assert(memory@ =~= Map::<u64, Seq<u64>>::empty());
        memory
    }

    /// The table stored for `frame`, if there is one.
    pub fn table(&self, frame: PhysFrame) -> (r: Option<&PageTable>)
        ensures
            match r {
                Some(t) => self@.contains_key(frame.start) && page_table_entries(*t)
                    == self@[frame.start],
                None => !self@.contains_key(frame.start),
            },
    {
        let r = self.tables.get(&frame.start);
        assert(r is Some ==> self.tables@.contains_key(frame.start));
        r
    }

    /// Whether a table is stored for `frame`.
    pub fn contains_table(&self, frame: PhysFrame) -> (r: bool)
        ensures
            r == self@.contains_key(frame.start),
    {
        self.tables.contains_key(&frame.start)
    }

    /// The frame named by the entry at `index` of the table in `table`.
    pub fn entry_frame(&self, table: PhysFrame, index: u16) -> (r: Result<PhysFrame, FrameError>)
        requires
            self.wf(),
            index < 512,
        ensures
            r == match spec_entry_frame(spec_entry(self@, table.start, index as int)) {
                Ok(start) => Ok(PhysFrame { start }),
                Err(e) => Err(e),
            },
            r matches Ok(frame) ==> frame.wf(),
    {
        proof {
            lemma_entry_addr_is_frame(spec_entry(self@, table.start, index as int));
            lemma_zero_entry();
        }
        match self.tables.get(&table.start) {
            Some(t) => {
                assert(self@.contains_key(table.start));
                match page_table_entry_frame(t, index) {
                    Ok(start) => Ok(PhysFrame { start }),
                    Err(e) => Err(e),
                }
            },
            None => {
                assert(!self@.contains_key(table.start));
                Err(FrameError::FrameNotPresent)
            },
        }
    }

    /// Writes `frame` with `flags` into the entry at `index` of the table in
    /// `table`. A table that was not held before is held afterwards, with its
    /// other entries unused.
    pub fn set_entry(&mut self, table: PhysFrame, index: u16, frame: PhysFrame, flags: PageTableFlags)
        requires
            old(self).wf(),
            index < 512,
            frame.wf(),
        ensures
            final(self)@ == old(self)@.insert(
                table.start,
                spec_table(old(self)@, table.start).update(
                    index as int,
                    spec_make_entry(frame.start, flags.bits),
                ),
            ),
            final(self).wf(),
    {
        let mut t = match self.tables.remove(&table.start) {
            Some(t) => t,
            None => new_page_table(),
        };
        assert(page_table_entries(t) == spec_table(old(self)@, table.start));
        page_table_set_entry(&mut t, index, frame.start, flags.bits);
        self.tables.insert(table.start, t);
        assert(self@ =~= old(self)@.insert(
            table.start,
            spec_table(old(self)@, table.start).update(
                index as int,
                spec_make_entry(frame.start, flags.bits),
            ),
        ));
    }

    /// Makes the table in `frame` one of 512 unused entries.
    pub fn zero_table(&mut self, frame: PhysFrame)
        requires
            old(self).wf(),
        ensures
            final(self)@ == old(self)@.insert(frame.start, empty_entries()),
            final(self).wf(),
    {
        self.tables.insert(frame.start, new_page_table());
        assert(self@ =~= old(self)@.insert(frame.start, empty_entries()));
    }
}

} // verus!
