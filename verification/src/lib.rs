//! Device discovery over a device-tree pseudo-filesystem.
//!
//! The library models a device by the canonical (symlink-free, absolute)
//! path of its node in the device tree, merges the devices discovered
//! through several overlapping namespaces into one deduplicated
//! collection, and derives parent / descendant relationships purely from
//! segment-aligned path containment.
//!
//! Listing directories, reading symlink targets and canonicalizing paths
//! are capabilities of the host environment: callers perform them against
//! the device-tree root of their choice and hand the recorded outcome to
//! [`scan`] as plain data.

pub mod device;
pub mod path;
pub mod scan;

pub use device::Device;
pub use path::CanonicalPath;
pub use scan::ScanError;
pub use scan::ScanInput;
pub use scan::Scanner;

use vstd::prelude::*;

verus! {

/// Merge the recorded outcome of walking the three device namespaces
/// into the deduplicated collection of devices, one handle per distinct
/// canonical path.
///
/// Fails with the first filesystem error recorded in `input`, in
/// traversal order (bus, then class, then block).
pub fn scan(input: &ScanInput) -> (r: Result<Vec<Device>, ScanError>)
    ensures
        match r {
            Ok(devices) => {
                &&& scan::scan_error(*input) is None
                &&& device::device_views(devices@).no_duplicates()
                &&& device::device_views(devices@).to_set() == scan::scan_paths(*input).to_set()
            },
            Err(e) => scan::scan_error(*input) == Some(e),
        },
{
    Scanner::scan(input)
}

} // verus!
