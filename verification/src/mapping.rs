//! A mapping as the user states it: two ID ranges and what they apply to.

use vstd::prelude::*;

use crate::mappings::mapping::impl_fromstr::parsed_mapping;
use crate::mappings::mapping::mapping_range::parse_mapping_range_error::{about, message_about};
use crate::mappings::mapping::mapping_range::{MappingRange, RangeError};
use crate::mappings::mapping::MappingError;
use crate::mappings::Mapping as Block;

pub use crate::mappings::mapping::ParseMappingError;

verus! {

/// What a mapping applies to.
#[derive(Debug, Clone, Copy, PartialEq, Eq, Structural)]
pub enum MappingType {
    /// User IDs only.
    Uid,
    /// Group IDs only.
    Gid,
    /// User IDs and group IDs.
    Both,
}

impl MappingType {
    /// A mapping of this type belongs into the table for `target`: it is of
    /// that type, or it is for both.
    pub open spec fn applies_to(self, target: MappingType) -> bool {
        self == target || self == MappingType::Both
    }

    /// Tells whether a mapping of this type belongs into the table for
    /// `target`.
    pub fn serves(&self, target: MappingType) -> (r: bool)
        ensures
            r == self.applies_to(target),
    {
        match (self, target) {
            (MappingType::Both, _) => true,
            (MappingType::Uid, MappingType::Uid) => true,
            (MappingType::Gid, MappingType::Gid) => true,
            _ => false,
        }
    }
}

/// A mapping of a range of container IDs onto a range of host IDs of the
/// same length.
#[derive(Debug, Clone, Copy, PartialEq, Eq)]
pub struct Mapping {
    pub host_range: MappingRange,
    pub container_range: MappingRange,
    pub mapping_type: MappingType,
}

/// The mapping that the text `s` spells, as its container range and its
/// host range, each by its two bounds. The text is read as that of a block
/// is; it spells no mapping where a range starts at 0, the ID of root.
pub open spec fn parsed_ranges(s: Seq<char>) -> Result<((u32, u32), (u32, u32)), MappingError> {
    match parsed_mapping(s) {
        Err(e) => Err(e),
        Ok(m) => if m.ct_start == 0 || m.host_start == 0 {
            Err(MappingError::Range(RangeError::ReservedId))
        } else {
            Ok(
                (
                    (m.ct_start, (m.ct_start + m.count - 1) as u32),
                    (m.host_start, (m.host_start + m.count - 1) as u32),
                ),
            )
        },
    }
}

impl Mapping {
    /// The two ranges hold the same number of IDs.
    pub open spec fn wf(self) -> bool {
        &&& 1 <= self.container_range.first() <= self.container_range.last()
        &&& 1 <= self.host_range.first() <= self.host_range.last()
        &&& self.container_range.last() - self.container_range.first() == self.host_range.last()
            - self.host_range.first()
    }

    /// The mapping as a block of IDs.
    pub open spec fn block_spec(self) -> Block {
        Block {
            ct_start: self.container_range.first(),
            host_start: self.host_range.first(),
            count: (self.container_range.last() - self.container_range.first() + 1) as u32,
        }
    }

    /// Tells whether the mapping is well formed.
    pub fn is_valid(&self) -> (r: bool)
        ensures
            r == self.wf(),
    {
        let ct_start: u32 = self.container_range.start();
        let ct_end: u32 = self.container_range.end();
        let host_start: u32 = self.host_range.start();
        let host_end: u32 = self.host_range.end();
        ct_end - ct_start == host_end - host_start
    }

    /// The mapping as a block of IDs.
    pub fn block(&self) -> (r: Block)
        requires
            self.wf(),
        ensures
            r == self.block_spec(),
            r.in_range(),
    {
        Block {
            ct_start: self.container_range.start(),
            host_start: self.host_range.start(),
            count: self.container_range.len(),
        }
    }

    /// Reads a mapping of the given type from text of the form
    /// `CT_START[-CT_END][:HOST_START[-HOST_END]]`, all bounds inclusive.
    /// The type plays no part in how the text is read.
    ///
    /// An error holds the cause and, as its message, the words for the
    /// cause followed by the text.
    pub fn from_str_with_type(s: &str, mapping_type: MappingType) -> (r: Result<
        Mapping,
        ParseMappingError,
    >)
        ensures
            match r {
                Ok(m) => {
                    &&& parsed_ranges(s@) == Ok::<((u32, u32), (u32, u32)), MappingError>(
                        (
                            (m.container_range.first(), m.container_range.last()),
                            (m.host_range.first(), m.host_range.last()),
                        ),
                    )
                    &&& m.mapping_type == mapping_type
                    &&& m.wf()
                    &&& parsed_mapping(s@) == Ok::<Block, MappingError>(m.block_spec())
                },
                Err(e) => {
                    &&& parsed_ranges(s@) == Err::<((u32, u32), (u32, u32)), MappingError>(e.cause)
                    &&& e.message@ == about(e.cause.text(), s@)
                },
            },
    {
        let block = match Block::from_str(s) {
            Ok(block) => block,
            Err(e) => {
                return Err(e);
            },
        };
        let ct_end: u32 = block.ct_start + (block.count - 1);
        let host_end: u32 = block.host_start + (block.count - 1);
        let ranges = (MappingRange::new(block.ct_start, ct_end), MappingRange::new(
            block.host_start,
            host_end,
        ));
        match ranges {
            (Ok(container_range), Ok(host_range)) => Ok(
                Mapping { host_range, container_range, mapping_type },
            ),
            _ => {
                let cause = MappingError::Range(RangeError::ReservedId);
                Err(ParseMappingError { message: message_about(cause.describe(), s), cause })
            },
        }
    }

    /// Reads a mapping for both user and group IDs.
    pub fn from_str(s: &str) -> (r: Result<Mapping, ParseMappingError>)
        ensures
            match r {
                Ok(m) => {
                    &&& parsed_ranges(s@) == Ok::<((u32, u32), (u32, u32)), MappingError>(
                        (
                            (m.container_range.first(), m.container_range.last()),
                            (m.host_range.first(), m.host_range.last()),
                        ),
                    )
                    &&& m.mapping_type == MappingType::Both
                    &&& m.wf()
                },
                Err(e) => {
                    &&& parsed_ranges(s@) == Err::<((u32, u32), (u32, u32)), MappingError>(e.cause)
                    &&& e.message@ == about(e.cause.text(), s@)
                },
            },
    {
        Mapping::from_str_with_type(s, MappingType::Both)
    }
}

impl std::str::FromStr for Mapping {
    type Err = ParseMappingError;

    /// Reads a mapping for both user and group IDs, as `Mapping::from_str`
    /// does.
    fn from_str(s: &str) -> (r: Result<Self, Self::Err>)
        ensures
            match r {
                Ok(m) => {
                    &&& parsed_ranges(s@) == Ok::<((u32, u32), (u32, u32)), MappingError>(
                        (
                            (m.container_range.first(), m.container_range.last()),
                            (m.host_range.first(), m.host_range.last()),
                        ),
                    )
                    &&& m.mapping_type == MappingType::Both
                    &&& m.wf()
                },
                Err(e) => {
                    &&& parsed_ranges(s@) == Err::<((u32, u32), (u32, u32)), MappingError>(e.cause)
                    &&& e.message@ == about(e.cause.text(), s@)
                },
            },
    {
        Mapping::from_str(s)
    }
}

/// The blocks of the mappings of `list` that belong into the table for
/// `target`, in the order of `list`.
pub open spec fn blocks_for_spec(list: Seq<Mapping>, target: MappingType) -> Seq<Block>
    decreases list.len(),
{
    if list.len() == 0 {
        Seq::empty()
    } else if list.last().mapping_type.applies_to(target) {
        blocks_for_spec(list.drop_last(), target).push(list.last().block_spec())
    } else {
        blocks_for_spec(list.drop_last(), target)
    }
}

/// Every mapping of the list is well formed.
pub open spec fn all_valid(list: Seq<Mapping>) -> bool {
    forall|i: int| 0 <= i < list.len() ==> (#[trigger] list[i]).wf()
}

/// The blocks of the mappings that belong into the table for `target`:
/// those of that type and those for both, in the order in which they come.
pub fn blocks_for(list: &Vec<Mapping>, target: MappingType) -> (r: Vec<Block>)
    requires
        all_valid(list@),
    ensures
        r@ == blocks_for_spec(list@, target),
        crate::mappings::all_in_range(r@),
{
    let n: usize = list.len();
    let mut out: Vec<Block> = Vec::new();
    let mut i: usize = 0;
    while i < n
        invariant
            i <= n,
            n == list@.len(),
            all_valid(list@),
            out@ == blocks_for_spec(list@.subrange(0, i as int), target),
            crate::mappings::all_in_range(out@),
        decreases n - i,
    {
        proof {
            let head = list@.subrange(0, i + 1);
            assert(head.drop_last() == list@.subrange(0, i as int));
            assert(head.last() == list@[i as int]);
        }
        if list[i].mapping_type.serves(target) {
            out.push(list[i].block());
        }
        i = i + 1;
    }
    proof {
        assert(list@.subrange(0, n as int) == list@);
    }
    out
}

} // verus!
