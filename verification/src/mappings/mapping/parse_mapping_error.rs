//! What can be wrong with the text of a mapping.

use vstd::prelude::*;

use super::mapping_range::RangeError;
use crate::text::{decimal, push_decimal};

verus! {

/// Why a text is no mapping.
#[derive(Debug, Clone, Copy, PartialEq, Eq, Structural)]
pub enum MappingError {
    /// The text holds more than one colon.
    InvalidFormat,
    /// One of its ranges is no range.
    Range(RangeError),
    /// The host range is written with both bounds and does not hold as many
    /// IDs as the container range.
    LengthMismatch { container_len: u64, host_len: u64 },
    /// No block can hold the mapping: it has more IDs than a `u32` counts,
    /// or its host IDs would go on past the largest `u32`.
    OutOfRange,
}

impl MappingError {
    /// The words that describe the error.
    pub open spec fn text(self) -> Seq<char> {
        match self {
            MappingError::InvalidFormat => "mapping is invalid"@,
            MappingError::Range(e) => e.text(),
            MappingError::LengthMismatch { container_len, host_len } => "container range holds "@
                + decimal(container_len as nat) + " ids but host range holds "@ + decimal(
                host_len as nat,
            ),
            MappingError::OutOfRange => "mapping exceeds the id space"@,
        }
    }

    /// The words that describe the error.
    pub fn describe(&self) -> (r: String)
        ensures
            r@ == self.text(),
    {
        match self {
            MappingError::InvalidFormat => "mapping is invalid".to_owned(),
            MappingError::Range(e) => e.describe(),
            MappingError::LengthMismatch { container_len, host_len } => {
                let mut r = "container range holds ".to_owned();
                push_decimal(&mut r, *container_len);
                r.append(" ids but host range holds ");
                push_decimal(&mut r, *host_len);
                r
            },
            MappingError::OutOfRange => "mapping exceeds the id space".to_owned(),
        }
    }
}

/// A text that is no mapping: the cause, and a message for the user.
#[derive(Debug, Clone, PartialEq, Eq)]
pub struct ParseMappingError {
    pub message: String,
    pub cause: MappingError,
}

impl ParseMappingError {
    /// The message for the user.
    pub fn to_string(&self) -> (r: String)
        ensures
            r@ == self.message@,
    {
        self.message.clone()
    }
}

} // verus!
