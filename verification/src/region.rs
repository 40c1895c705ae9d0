//! Region configuration and the provisioning plan.
//!
//! The region is obtained once, from the operating system's memory-mapping
//! facility, by the unverified adapter around this library. What the library
//! owns is the decision logic: which kind of mapping a configuration calls
//! for, whether the configuration is acceptable at all, and the translation
//! between absolute addresses and region offsets.

use vstd::prelude::*;

verus! {

/// Permitted access to the mapped region.
#[derive(Clone, Copy, PartialEq, Eq, Structural, Debug)]
pub struct Protection {
    pub read: bool,
    pub write: bool,
    pub execute: bool,
}

/// Sharing and placement semantics of the mapping.
#[derive(Clone, Copy, PartialEq, Eq, Structural, Debug)]
pub struct MappingMode {
    /// Shared mapping rather than private (copy-on-write).
    pub shared: bool,
    /// Demand that the region be placed exactly at the requested base.
    pub fixed_placement: bool,
}

/// How a backing file is opened, stated on its own rather than guessed from
/// the memory-protection bits.
#[derive(Clone, Copy, PartialEq, Eq, Structural, Debug)]
pub enum FileAccessMode {
    ReadOnly,
    ReadWrite,
}

/// The immutable configuration of the region, fixed before first use.
pub struct RegionConfig {
    /// Requested starting address; 0 lets the operating system choose.
    pub base: usize,
    /// Total byte length of the region.
    pub size: usize,
    pub protection: Protection,
    pub mode: MappingMode,
    /// When present, the region is backed by this file instead of anonymous
    /// memory.
    pub backing_path: Option<String>,
    /// Access with which a backing file is opened.
    pub file_access: FileAccessMode,
}

/// The one mapping request a configuration calls for.
pub enum MapPlan {
    /// Map `size` bytes of anonymous memory at `base`.
    Anonymous { base: usize, size: usize, protection: Protection, mode: MappingMode },
    /// Open `path` with `access`, then map `size` bytes over it at `base`.
    FileBacked {
        base: usize,
        size: usize,
        protection: Protection,
        mode: MappingMode,
        path: String,
        access: FileAccessMode,
    },
}

impl RegionConfig {
    /// A configuration is acceptable when the region has at least one byte.
    pub open spec fn valid(self) -> bool {
        self.size > 0
    }

    /// Whether provisioning may proceed; a rejection here is fatal for the
    /// hosting program, which cannot run without a heap.
    pub fn is_valid(&self) -> (r: bool)
        ensures
            r == self.valid(),
    {
        self.size > 0
    }

    /// Decide the mapping request: anonymous when no backing path is
    /// configured, file-backed otherwise.
    pub fn plan(self) -> (r: MapPlan)
        requires
            self.valid(),
        ensures
            (match self.backing_path {
                Option::None => r == (MapPlan::Anonymous {
                    base: self.base,
                    size: self.size,
                    protection: self.protection,
                    mode: self.mode,
                }),
                Option::Some(path) => r == (MapPlan::FileBacked {
                    base: self.base,
                    size: self.size,
                    protection: self.protection,
                    mode: self.mode,
                    path: path,
                    access: self.file_access,
                }),
            }),
    {
        match self.backing_path {
            Option::None => MapPlan::Anonymous {
                base: self.base,
                size: self.size,
                protection: self.protection,
                mode: self.mode,
            },
            Option::Some(path) => MapPlan::FileBacked {
                base: self.base,
                size: self.size,
                protection: self.protection,
                mode: self.mode,
                path,
                access: self.file_access,
            },
        }
    }
}

/// Absolute address of a region offset, for handing a pointer back to the
/// hosting program.
pub fn addr_of_offset(base: usize, offset: usize) -> (r: usize)
    requires
        base + offset <= usize::MAX,
    ensures
        r == base + offset,
{
    base + offset
}

/// Region offset of an absolute address, for taking a pointer back from the
/// hosting program.
pub fn offset_of_addr(base: usize, addr: usize) -> (r: usize)
    requires
        base <= addr,
    ensures
        r == addr - base,
{
    addr - base
}

} // verus!
