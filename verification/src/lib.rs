//! The virtual-memory core of a small x86-64 kernel.
//!
//! The crate hands out unused physical frames from the boot-time memory map
//! ([`memory::BootInfoFrameAllocator`]), walks the four-level page-table
//! hierarchy ([`memory::translate_addr`]), installs new mappings
//! ([`memory::OffsetPageTable::map_to`]) and serves allocations out of a mapped
//! virtual range ([`heap::Heap`]).
//!
//! Nothing here touches the machine. Page tables live in a
//! [`page_table::PhysicalMemory`], which the kernel fills from and copies back
//! to the frames behind its physical-memory offset; a new mapping comes with
//! the page whose cached translation the kernel must invalidate. Every
//! function that changes one of the kernel's singletons takes it by `&mut`, so
//! a caller has to hold it exclusively.

pub mod addr;
pub mod heap;
pub mod hierarchy;
pub mod mapper;
pub mod memory;
pub mod memory_map;
pub mod page_table;
pub mod task;

use vstd::prelude::*;

verus! {

/// How a test run ends, as told to the emulator on exit.
#[derive(Debug, Clone, Copy, PartialEq, Eq, Structural)]
pub enum QemuExitCode {
    Success,
    Failed,
}

impl QemuExitCode {
    /// The number written to the emulator's exit port.
    pub fn code(self) -> (code: u32)
        ensures
            code == match self {
                QemuExitCode::Success => 0x10u32,
                QemuExitCode::Failed => 0x11u32,
            },
    {
        match self {
            QemuExitCode::Success => 0x10,
            QemuExitCode::Failed => 0x11,
        }
    }
}

/// Something that can be run as a test.
pub trait Testable {
    fn run(&self);
}

/// Runs every test, first to last, and yields the exit code of a run in which
/// none of them failed.
pub fn test_runner(tests: &[&dyn Testable]) -> (code: QemuExitCode)
    ensures
        code == QemuExitCode::Success,
{
    let mut i: usize = 0;
    while i < tests.len()
        invariant
            i <= tests.len(),
        decreases tests.len() - i,
    {
        tests[i].run();
        i += 1;
    }
    QemuExitCode::Success
}

} // verus!
