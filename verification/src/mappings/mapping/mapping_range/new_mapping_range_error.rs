//! What can be wrong with the bounds of an ID range.

use vstd::prelude::*;

use crate::text::{decimal, push_decimal};

verus! {

/// Why two bounds make no ID range.
#[derive(Debug, Clone, Copy, PartialEq, Eq, Structural)]
pub enum NewMappingRangeError {
    /// The range would start at 0, the ID of root.
    RootId,
    /// The range would end before it starts.
    EndLessThanStart { start: u32, end: u32 },
}

impl NewMappingRangeError {
    /// The words that describe the error.
    pub open spec fn text(self) -> Seq<char> {
        match self {
            NewMappingRangeError::RootId => "Cannot map root id `0`"@,
            NewMappingRangeError::EndLessThanStart { start, end } => "Mapping range end `"@
                + decimal(end as nat) + "` cannot be less than its start `"@ + decimal(start as nat)
                + "`"@,
        }
    }

    /// The words that describe the error.
    pub fn to_string(&self) -> (r: String)
        ensures
            r@ == self.text(),
    {
        match self {
            NewMappingRangeError::RootId => "Cannot map root id `0`".to_owned(),
            NewMappingRangeError::EndLessThanStart { start, end } => {
                let mut r = "Mapping range end `".to_owned();
                push_decimal(&mut r, *end as u64);
                r.append("` cannot be less than its start `");
                push_decimal(&mut r, *start as u64);
                r.append("`");
                r
            },
        }
    }
}

} // verus!
