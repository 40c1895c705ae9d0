//! A process-wide heap allocator core, backed by one explicitly provisioned
//! contiguous memory region.
//!
//! The crate is split along the line drawn by its design: everything that can
//! be stated over plain integers is here and verified, while the operating
//! system boundary (memory mapping, raw pointers, the global-allocator hook)
//! lives in the thin unverified adapter that embeds this library.
//!
//! * [`engine`] — the free-list heap engine: first-fit allocation with block
//!   splitting, release with coalescing, and O(1) used/free aggregates, all
//!   over byte offsets into the region.
//! * [`laws`] — properties that relate several engine operations, proved
//!   once and for all: conservation, the allocate/release round trip, full
//!   coalescing after full release, and the no-fit boundary.
//! * [`region`] — the region configuration and the provisioning plan handed
//!   to the memory-mapping facility, plus offset/address translation.

pub mod engine;
pub mod laws;
pub mod region;
