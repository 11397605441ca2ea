//! Physical and virtual addresses, frames and pages.

use vstd::prelude::*;

verus! {

/// Size in bytes of one physical frame and of one virtual page.
pub const PAGE_SIZE: u64 = 4096;

/// Number of entries in a page table.
pub const ENTRY_COUNT: u16 = 512;

/// First address that is not a valid physical address.
pub const PHYS_ADDR_LIMIT: u64 = 0x10_0000_0000_0000;

/// Whether bits 48 to 63 of `addr` are copies of bit 47.
pub open spec fn is_canonical(addr: u64) -> bool {
    addr < 0x8000_0000_0000 || addr >= 0xffff_8000_0000_0000
}

/// The canonical address that `addr` stands for, if there is one: `addr`
/// itself when it is canonical, its sign extension when only bit 47 is set
/// above the low 47 bits, and nothing otherwise.
pub open spec fn spec_canonical_form(addr: u64) -> Option<u64> {
    if is_canonical(addr) {
        Some(addr)
    } else if addr < 0x1_0000_0000_0000 {
        Some((addr + 0xffff_0000_0000_0000) as u64)
    } else {
        None
    }
}

/// Index into the level 4 table: bits 39 to 47 of the address.
pub open spec fn spec_p4_index(addr: u64) -> int {
    (addr as int / 0x80_0000_0000) % 512
}

/// Index into the level 3 table: bits 30 to 38 of the address.
pub open spec fn spec_p3_index(addr: u64) -> int {
    (addr as int / 0x4000_0000) % 512
}

/// Index into the level 2 table: bits 21 to 29 of the address.
pub open spec fn spec_p2_index(addr: u64) -> int {
    (addr as int / 0x20_0000) % 512
}

/// Index into the level 1 table: bits 12 to 20 of the address.
pub open spec fn spec_p1_index(addr: u64) -> int {
    (addr as int / 0x1000) % 512
}

/// Offset of the address within its page: bits 0 to 11.
pub open spec fn spec_page_offset(addr: u64) -> int {
    addr as int % 4096
}

/// Start of the 4096-byte block that contains `addr`.
pub open spec fn spec_align_down(addr: u64) -> u64 {
    (addr - addr % 4096) as u64
}

/// `x86_64::VirtAddr::try_new`: accepts an address whose bits 47 to 63 are all
/// equal, sign-extends one in which only bit 47 of them is set, and rejects
/// every other.
#[verifier::external_body]
fn canonical_form(addr: u64) -> (form: Option<u64>)
    ensures
        form == spec_canonical_form(addr),
{
    match x86_64::VirtAddr::try_new(addr) {
        Ok(a) => Some(a.as_u64()),
        Err(_) => None,
    }
}

/// `x86_64::VirtAddr::p4_index`, on the address that
/// `x86_64::VirtAddr::new_truncate` makes of `addr`: bits 39 to 47.
#[verifier::external_body]
fn level_4_index(addr: u64) -> (index: u16)
    ensures
        index as int == spec_p4_index(addr),
{
    u16::from(x86_64::VirtAddr::new_truncate(addr).p4_index())
}

/// `x86_64::VirtAddr::p3_index`, on the address that
/// `x86_64::VirtAddr::new_truncate` makes of `addr`: bits 30 to 38.
#[verifier::external_body]
fn level_3_index(addr: u64) -> (index: u16)
    ensures
        index as int == spec_p3_index(addr),
{
    u16::from(x86_64::VirtAddr::new_truncate(addr).p3_index())
}

/// `x86_64::VirtAddr::p2_index`, on the address that
/// `x86_64::VirtAddr::new_truncate` makes of `addr`: bits 21 to 29.
#[verifier::external_body]
fn level_2_index(addr: u64) -> (index: u16)
    ensures
        index as int == spec_p2_index(addr),
{
    u16::from(x86_64::VirtAddr::new_truncate(addr).p2_index())
}

/// `x86_64::VirtAddr::p1_index`, on the address that
/// `x86_64::VirtAddr::new_truncate` makes of `addr`: bits 12 to 20.
#[verifier::external_body]
fn level_1_index(addr: u64) -> (index: u16)
    ensures
        index as int == spec_p1_index(addr),
{
    u16::from(x86_64::VirtAddr::new_truncate(addr).p1_index())
}

/// `x86_64::VirtAddr::page_offset`, on the address that
/// `x86_64::VirtAddr::new_truncate` makes of `addr`: bits 0 to 11.
#[verifier::external_body]
fn offset_in_page(addr: u64) -> (offset: u16)
    ensures
        offset as int == spec_page_offset(addr),
{
    u16::from(x86_64::VirtAddr::new_truncate(addr).page_offset())
}

/// A canonical 64-bit virtual address.
#[derive(Clone, Copy, Debug, PartialEq, Eq, Structural)]
pub struct VirtAddr {
    pub addr: u64,
}

impl VirtAddr {
    /// The address is canonical.
    pub open spec fn wf(self) -> bool {
        is_canonical(self.addr)
    }

    /// Makes a virtual address of `addr`, sign-extending bit 47 where bits 48
    /// to 63 are clear, or `None` where those bits hold anything else.
    pub fn try_new(addr: u64) -> (r: Option<VirtAddr>)
        ensures
            r == match spec_canonical_form(addr) {
                Some(a) => Some(VirtAddr { addr: a }),
                None => None,
            },
            r matches Some(a) ==> a.wf(),
    {
        match canonical_form(addr) {
            Some(a) => Some(VirtAddr { addr: a }),
            None => None,
        }
    }

    /// Makes a virtual address of a canonical `addr`.
    pub fn new(addr: u64) -> (r: VirtAddr)
        requires
            is_canonical(addr),
        ensures
            r.addr == addr,
            r.wf(),
    {
        VirtAddr { addr }
    }

    /// The address as a number.
    pub fn as_u64(self) -> (r: u64)
        ensures
            r == self.addr,
    {
        self.addr
    }

    /// Index of this address's entry in the level 4 table.
    pub fn p4_index(self) -> (index: u16)
        ensures
            index as int == spec_p4_index(self.addr),
            index < 512,
    {
        level_4_index(self.addr)
    }

    /// Index of this address's entry in the level 3 table.
    pub fn p3_index(self) -> (index: u16)
        ensures
            index as int == spec_p3_index(self.addr),
            index < 512,
    {
        level_3_index(self.addr)
    }

    /// Index of this address's entry in the level 2 table.
    pub fn p2_index(self) -> (index: u16)
        ensures
            index as int == spec_p2_index(self.addr),
            index < 512,
    {
        level_2_index(self.addr)
    }

    /// Index of this address's entry in the level 1 table.
    pub fn p1_index(self) -> (index: u16)
        ensures
            index as int == spec_p1_index(self.addr),
            index < 512,
    {
        level_1_index(self.addr)
    }

    /// Offset of this address within its page.
    pub fn page_offset(self) -> (offset: u16)
        ensures
            offset as int == spec_page_offset(self.addr),
            offset < 4096,
    {
        offset_in_page(self.addr)
    }
}

/// A physical address: at most 52 bits.
#[derive(Clone, Copy, Debug, PartialEq, Eq, Structural)]
pub struct PhysAddr {
    pub addr: u64,
}

impl PhysAddr {
    /// Bits 52 to 63 are clear.
    pub open spec fn wf(self) -> bool {
        self.addr < PHYS_ADDR_LIMIT
    }

    /// Makes a physical address of `addr`, or `None` where one of bits 52 to
    /// 63 is set.
    pub fn try_new(addr: u64) -> (r: Option<PhysAddr>)
        ensures
            r == if addr < PHYS_ADDR_LIMIT {
                Some(PhysAddr { addr })
            } else {
                None
            },
    {
        if addr < PHYS_ADDR_LIMIT {
            Some(PhysAddr { addr })
        } else {
            None
        }
    }

    /// Makes a physical address of an `addr` below 2^52.
    pub fn new(addr: u64) -> (r: PhysAddr)
        requires
            addr < PHYS_ADDR_LIMIT,
        ensures
            r.addr == addr,
            r.wf(),
    {
        PhysAddr { addr }
    }

    /// The address as a number.
    pub fn as_u64(self) -> (r: u64)
        ensures
            r == self.addr,
    {
        self.addr
    }
}

/// A 4096-byte frame of physical memory, named by its first address.
#[derive(Clone, Copy, Debug, PartialEq, Eq, Structural)]
pub struct PhysFrame {
    pub start: u64,
}

impl PhysFrame {
    /// The frame starts on a 4096-byte boundary below 2^52.
    pub open spec fn wf(self) -> bool {
        self.start % 4096 == 0 && self.start < PHYS_ADDR_LIMIT
    }

    /// The frame that contains `address`.
    pub fn containing_address(address: PhysAddr) -> (frame: PhysFrame)
        ensures
            frame.start == spec_align_down(address.addr),
            address.wf() ==> frame.wf(),
    {
        PhysFrame { start: address.addr - address.addr % PAGE_SIZE }
    }

    /// The frame that starts at `address`, or `None` where `address` is not a
    /// multiple of 4096.
    pub fn from_start_address(address: PhysAddr) -> (r: Option<PhysFrame>)
        ensures
            r == if address.addr % 4096 == 0 {
                Some(PhysFrame { start: address.addr })
            } else {
                None
            },
    {
        if address.addr % PAGE_SIZE == 0 {
            Some(PhysFrame { start: address.addr })
        } else {
            None
        }
    }

    /// The first address of the frame.
    pub fn start_address(self) -> (r: PhysAddr)
        ensures
            r.addr == self.start,
    {
        PhysAddr { addr: self.start }
    }
}

/// A 4096-byte page of virtual memory, named by its first address.
#[derive(Clone, Copy, Debug, PartialEq, Eq, Structural)]
pub struct Page {
    pub start: u64,
}

impl Page {
    /// The page starts on a 4096-byte boundary at a canonical address.
    pub open spec fn wf(self) -> bool {
        self.start % 4096 == 0 && is_canonical(self.start)
    }

    /// Whether `addr` lies in this page.
    pub open spec fn contains(self, addr: u64) -> bool {
        spec_align_down(addr) == self.start
    }

    /// The page that contains `address`.
    pub fn containing_address(address: VirtAddr) -> (page: Page)
        ensures
            page.start == spec_align_down(address.addr),
            page.contains(address.addr),
            address.wf() ==> page.wf(),
    {
        Page { start: address.addr - address.addr % PAGE_SIZE }
    }

    /// The page that starts at `address`, or `None` where `address` is not a
    /// multiple of 4096.
    pub fn from_start_address(address: VirtAddr) -> (r: Option<Page>)
        ensures
            r == if address.addr % 4096 == 0 {
                Some(Page { start: address.addr })
            } else {
                None
            },
    {
        if address.addr % PAGE_SIZE == 0 {
            Some(Page { start: address.addr })
        } else {
            None
        }
    }

    /// The first address of the page.
    pub fn start_address(self) -> (r: VirtAddr)
        ensures
            r.addr == self.start,
    {
        VirtAddr { addr: self.start }
    }
}

} // verus!
