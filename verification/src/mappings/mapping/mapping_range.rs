//! A range of IDs with both bounds inclusive.

use vstd::prelude::*;

pub mod new_mapping_range_error;
pub mod parse_mapping_range_error;

pub use new_mapping_range_error::NewMappingRangeError;
pub use parse_mapping_range_error::{ParseMappingRangeError, RangeError};

use crate::text::{
    after, before, chars_of, find, lemma_first_at, parse_number, parsed_number,
};
use parse_mapping_range_error::{about, message_about};

verus! {

/// A mapping range bounded inclusively below and above. It never starts at
/// 0, the ID of root, and never ends before it starts.
#[derive(Debug, Clone, Copy, PartialEq, Eq)]
pub struct MappingRange {
    start: u32,
    end: u32,
}

/// Whether `start` and `end` bound a range, and why not.
pub open spec fn checked_bounds(start: u32, end: u32) -> Result<(u32, u32), NewMappingRangeError> {
    if start == 0 {
        Err(NewMappingRangeError::RootId)
    } else if end < start {
        Err(NewMappingRangeError::EndLessThanStart { start, end })
    } else {
        Ok((start, end))
    }
}

/// The bounds that the text `s` spells: an ID, which is then both bounds,
/// or two IDs with a hyphen between them. No bounds where one of them is no
/// number.
pub open spec fn spelled_bounds(s: Seq<char>) -> Option<(u32, u32)> {
    if !s.contains('-') {
        match parsed_number(s) {
            Some(id) => Some((id, id)),
            None => None,
        }
    } else {
        match (parsed_number(before(s, '-')), parsed_number(after(s, '-'))) {
            (Some(start), Some(end)) => Some((start, end)),
            _ => None,
        }
    }
}

/// The cause under which the error of making a range is filed when the
/// range was read from text.
pub open spec fn cause_of(e: NewMappingRangeError) -> RangeError {
    match e {
        NewMappingRangeError::RootId => RangeError::ReservedId,
        NewMappingRangeError::EndLessThanStart { .. } => RangeError::EndBeforeStart,
    }
}

/// The range that the text `s` spells, by its bounds; or the cause for
/// which it spells none, and the words for that cause.
pub open spec fn parsed_range(s: Seq<char>) -> Result<(u32, u32), (RangeError, Seq<char>)> {
    match spelled_bounds(s) {
        None => Err((RangeError::NotANumber, RangeError::NotANumber.text())),
        Some((start, end)) => match checked_bounds(start, end) {
            Ok(bounds) => Ok(bounds),
            Err(e) => Err((cause_of(e), e.text())),
        },
    }
}

impl MappingRange {
    #[verifier::type_invariant]
    spec fn inv(self) -> bool {
        1 <= self.start <= self.end
    }

    /// The first ID of the range.
    pub closed spec fn first(self) -> u32 {
        self.start
    }

    /// The last ID of the range.
    pub closed spec fn last(self) -> u32 {
        self.end
    }

    /// Returns a range with the given start and end (inclusive) bounds,
    /// where `start` is greater than 0 and `end` is not less than `start`.
    pub fn new(start: u32, end: u32) -> (r: Result<MappingRange, NewMappingRangeError>)
        ensures
            match r {
                Ok(range) => checked_bounds(start, end) == Ok::<
                    (u32, u32),
                    NewMappingRangeError,
                >((range.first(), range.last())),
                Err(e) => checked_bounds(start, end) == Err::<(u32, u32), NewMappingRangeError>(e),
            },
    {
        if start == 0 {
            Err(NewMappingRangeError::RootId)
        } else if end < start {
            Err(NewMappingRangeError::EndLessThanStart { start, end })
        } else {
            Ok(MappingRange { start, end })
        }
    }

    /// Returns a range with both bounds set to the same `id`, which is
    /// greater than 0.
    pub fn new_single(id: u32) -> (r: Result<MappingRange, NewMappingRangeError>)
        ensures
            match r {
                Ok(range) => id != 0 && range.first() == id && range.last() == id,
                Err(e) => id == 0 && e == NewMappingRangeError::RootId,
            },
    {
        MappingRange::new(id, id)
    }

    /// The first ID of the range.
    pub fn start(&self) -> (r: u32)
        ensures
            r == self.first(),
            1 <= r <= self.last(),
    {
        proof {
            use_type_invariant(self);
        }
        self.start
    }

    /// The last ID of the range.
    pub fn end(&self) -> (r: u32)
        ensures
            r == self.last(),
            1 <= self.first() <= r,
    {
        proof {
            use_type_invariant(self);
        }
        self.end
    }

    /// How many IDs the range holds.
    pub fn len(&self) -> (r: u32)
        ensures
            r == self.last() - self.first() + 1,
    {
        proof {
            use_type_invariant(self);
        }
        self.end - self.start + 1
    }

    /// Reads a range from text of the form `ID` or `START-END`.
    ///
    /// An error holds the cause and, as its message, the words for the
    /// cause followed by the text.
    pub fn from_str(s: &str) -> (r: Result<MappingRange, ParseMappingRangeError>)
        ensures
            match r {
                Ok(range) => parsed_range(s@) == Ok::<(u32, u32), (RangeError, Seq<char>)>(
                    (range.first(), range.last()),
                ),
                Err(e) => parsed_range(s@) matches Err((cause, words)) && e.cause == cause
                    && e.message@ == about(words, s@),
            },
    {
        let v = chars_of(s);
        let n: usize = v.len();
        let dash: usize = find(&v, 0, n, '-');
        proof {
            assert(v@.subrange(0, n as int) == v@);
            lemma_first_at(v@, '-');
        }
        let bounds = if dash == n {
            match parse_number(&v, 0, n) {
                Some(id) => Some((id, id)),
                None => None,
            }
        } else {
            match (parse_number(&v, 0, dash), parse_number(&v, dash + 1, n)) {
                (Some(start), Some(end)) => Some((start, end)),
                _ => None,
            }
        };
        assert(bounds == spelled_bounds(s@));
        match bounds {
            None => {
                let cause = RangeError::NotANumber;
                Err(ParseMappingRangeError { message: message_about(cause.describe(), s), cause })
            },
            Some((start, end)) => match MappingRange::new(start, end) {
                Ok(range) => Ok(range),
                Err(e) => {
                    let cause = match e {
                        NewMappingRangeError::RootId => RangeError::ReservedId,
                        NewMappingRangeError::EndLessThanStart { .. } => RangeError::EndBeforeStart,
                    };
                    Err(ParseMappingRangeError { message: message_about(e.to_string(), s), cause })
                },
            },
        }
    }
}

impl std::str::FromStr for MappingRange {
    type Err = ParseMappingRangeError;

    /// Reads a range as `MappingRange::from_str` does.
    fn from_str(s: &str) -> (r: Result<Self, Self::Err>)
        ensures
            match r {
                Ok(range) => parsed_range(s@) == Ok::<(u32, u32), (RangeError, Seq<char>)>(
                    (range.first(), range.last()),
                ),
                Err(e) => parsed_range(s@) matches Err((cause, words)) && e.cause == cause
                    && e.message@ == about(words, s@),
            },
    {
        MappingRange::from_str(s)
    }
}

} // verus!
