//! Memory and storage core of a small kernel: a fixed-size-class block
//! allocator over a static arena, and a read-only FAT32 volume reader over
//! a sector-addressed block device.
use vstd::prelude::*;

pub mod allocator;
pub mod fat32;

verus! {

/// Exit status reported to the QEMU debug-exit device.
#[derive(Debug, Clone, Copy, PartialEq, Eq, Structural)]
pub enum QemuExitCode {
    Success,
    Failed,
}

impl QemuExitCode {
    /// The value written to the debug-exit port for this status.
    pub fn code(&self) -> (r: u32)
        ensures
            r == match self {
                QemuExitCode::Success => 0x10u32,
                QemuExitCode::Failed => 0x11u32,
            },
    {
        match self {
            QemuExitCode::Success => 0x10,
            QemuExitCode::Failed => 0x11,
        }
    }
}

} // verus!
