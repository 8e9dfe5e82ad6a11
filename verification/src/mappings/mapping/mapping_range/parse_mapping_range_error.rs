//! What can be wrong with the text of an ID range.

use vstd::prelude::*;

verus! {

/// Why a text is no ID range.
#[derive(Debug, Clone, Copy, PartialEq, Eq, Structural)]
pub enum RangeError {
    /// A bound of the range is not the decimal number of an ID.
    NotANumber,
    /// The range ends before it starts; in the text of a mapping also: it
    /// ends where it starts, which is written as that ID alone.
    EndBeforeStart,
    /// The range starts at 0, the ID of root, which must not be mapped.
    ReservedId,
}

impl RangeError {
    /// The words that describe the error.
    pub open spec fn text(self) -> Seq<char> {
        match self {
            RangeError::NotANumber => "id is not a number"@,
            RangeError::EndBeforeStart => "start of id range is greater than or equal to its end"@,
            RangeError::ReservedId => "cannot map root id `0`"@,
        }
    }

    /// The words that describe the error.
    pub fn describe(&self) -> (r: String)
        ensures
            r@ == self.text(),
    {
        match self {
            RangeError::NotANumber => "id is not a number".to_owned(),
            RangeError::EndBeforeStart => "start of id range is greater than or equal to its end".to_owned(),
            RangeError::ReservedId => "cannot map root id `0`".to_owned(),
        }
    }
}

/// The words of an error followed by the text that it is about.
pub open spec fn about(words: Seq<char>, token: Seq<char>) -> Seq<char> {
    words + ": `"@ + token + "`"@
}

/// The words of an error followed by the text that it is about.
pub fn message_about(words: String, token: &str) -> (r: String)
    ensures
        r@ == about(words@, token@),
{
    let mut r = words;
    r.append(": `");
    r.append(token);
    r.append("`");
    r
}

/// A text that is no ID range: the cause, and a message for the user.
#[derive(Debug, Clone, PartialEq, Eq)]
pub struct ParseMappingRangeError {
    pub message: String,
    pub cause: RangeError,
}

impl ParseMappingRangeError {
    /// The message for the user.
    pub fn to_string(&self) -> (r: String)
        ensures
            r@ == self.message@,
    {
        self.message.clone()
    }
}

} // verus!
