//! A single mapping of a block of container IDs onto a block of host IDs.

use vstd::prelude::*;

pub mod format;
pub mod impl_fromstr;
pub mod mapping_range;
pub mod parse_mapping_error;

pub use parse_mapping_error::{MappingError, ParseMappingError};

verus! {

/// A block of `count` consecutive IDs: container IDs starting at `ct_start`
/// are translated to host IDs starting at `host_start`.
#[derive(Debug, Clone, Copy, PartialEq, Eq, Structural)]
pub struct Mapping {
    pub ct_start: u32,
    pub host_start: u32,
    pub count: u32,
}

impl Mapping {
    /// A mapping is in range when it is not empty and its last ID is an ID,
    /// on the container side and on the host side.
    pub open spec fn in_range(self) -> bool {
        &&& self.count >= 1
        &&& self.ct_start + self.count - 1 <= u32::MAX
        &&& self.host_start + self.count - 1 <= u32::MAX
    }

    /// A mapping is well formed when it is not empty and the ID that follows
    /// its last one is itself an ID, on the container side and on the host
    /// side. Merging and gap filling work on such mappings: they name the ID
    /// after a block.
    pub open spec fn wf(self) -> bool {
        &&& self.count >= 1
        &&& self.ct_start + self.count <= u32::MAX
        &&& self.host_start + self.count <= u32::MAX
    }

    /// The first container ID after the block.
    pub open spec fn ct_end_spec(self) -> int {
        self.ct_start + self.count
    }

    /// The first host ID after the block.
    pub open spec fn host_end_spec(self) -> int {
        self.host_start + self.count
    }

    /// What a host ID is minus the container ID it stands for.
    pub open spec fn offset(self) -> int {
        self.host_start - self.ct_start
    }

    /// Tells whether the mapping is in range.
    pub fn is_in_range(&self) -> (r: bool)
        ensures
            r == self.in_range(),
    {
        self.count >= 1 && self.count - 1 <= u32::MAX - self.ct_start && self.count - 1 <= u32::MAX
            - self.host_start
    }

    /// Tells whether the mapping is well formed.
    pub fn is_valid(&self) -> (r: bool)
        ensures
            r == self.wf(),
    {
        self.count >= 1 && self.count <= u32::MAX - self.ct_start && self.count <= u32::MAX
            - self.host_start
    }

    /// The first container ID after the block.
    pub fn ct_end(&self) -> (r: u32)
        requires
            self.ct_start + self.count <= u32::MAX,
        ensures
            r == self.ct_end_spec(),
    {
        self.ct_start + self.count
    }
}

} // verus!
