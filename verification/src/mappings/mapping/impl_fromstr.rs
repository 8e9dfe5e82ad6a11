//! Reading a mapping from text such as `1000-1005:1100`.

use vstd::prelude::*;

use super::mapping_range::parse_mapping_range_error::{about, message_about};
use super::mapping_range::RangeError;
use super::parse_mapping_error::{MappingError, ParseMappingError};
use super::Mapping;
use crate::text::{after, before, chars_of, find, lemma_first_at, parse_number, parsed_number};

verus! {

/// One side of a mapping as it is written: the first ID, and the last one
/// where the text gives it.
pub struct Span {
    pub start: u32,
    pub end: Option<u32>,
}

impl Span {
    /// How many IDs the side holds: one where only the first is written.
    pub open spec fn len(self) -> int {
        match self.end {
            Some(end) => end - self.start + 1,
            None => 1,
        }
    }
}

/// The side of a mapping that the text `s` spells: an ID, or two IDs with a
/// hyphen between them, the second greater than the first.
pub open spec fn parsed_span(s: Seq<char>) -> Result<Span, RangeError> {
    if !s.contains('-') {
        match parsed_number(s) {
            Some(start) => Ok(Span { start, end: None }),
            None => Err(RangeError::NotANumber),
        }
    } else {
        match (parsed_number(before(s, '-')), parsed_number(after(s, '-'))) {
            (Some(start), Some(end)) => if end > start {
                Ok(Span { start, end: Some(end) })
            } else {
                Err(RangeError::EndBeforeStart)
            },
            _ => Err(RangeError::NotANumber),
        }
    }
}

/// The mapping of `count` IDs from `ct_start` to `host_start`, where the
/// last ID of both blocks is an ID and `count` is a `u32`.
pub open spec fn block(ct_start: u32, host_start: u32, count: int) -> Result<
    Mapping,
    MappingError,
> {
    if count <= u32::MAX && ct_start + count - 1 <= u32::MAX && host_start + count - 1
        <= u32::MAX {
        Ok(Mapping { ct_start, host_start, count: count as u32 })
    } else {
        Err(MappingError::OutOfRange)
    }
}

/// The mapping that the text `s` spells.
///
/// Without a colon, `s` is one range, and each of its IDs is mapped to
/// itself. With one colon, the container range stands before it and the host
/// range behind it; a host range written as one ID begins there and holds as
/// many IDs as the container range; one written with both bounds must hold
/// as many. With more colons `s` spells no mapping.
pub open spec fn parsed_mapping(s: Seq<char>) -> Result<Mapping, MappingError> {
    if !s.contains(':') {
        match parsed_span(s) {
            Ok(range) => block(range.start, range.start, range.len()),
            Err(e) => Err(MappingError::Range(e)),
        }
    } else if after(s, ':').contains(':') {
        Err(MappingError::InvalidFormat)
    } else {
        match parsed_span(before(s, ':')) {
            Err(e) => Err(MappingError::Range(e)),
            Ok(ct) => match parsed_span(after(s, ':')) {
                Err(e) => Err(MappingError::Range(e)),
                Ok(host) => if host.end is Some && host.len() != ct.len() {
                    Err(
                        MappingError::LengthMismatch {
                            container_len: ct.len() as u64,
                            host_len: host.len() as u64,
                        },
                    )
                } else {
                    block(ct.start, host.start, ct.len())
                },
            },
        }
    }
}

/// Reads one side of a mapping from the part of `v` between `from` and `to`.
fn parse_span(v: &Vec<char>, from: usize, to: usize) -> (r: Result<Span, RangeError>)
    requires
        from <= to <= v@.len(),
    ensures
        r == parsed_span(v@.subrange(from as int, to as int)),
{
    let ghost part = v@.subrange(from as int, to as int);
    let dash: usize = find(v, from, to, '-');
    proof {
        lemma_first_at(part, '-');
        assert(v@.subrange(from as int, to as int).subrange(0, dash as int) == v@.subrange(
            from as int,
            from + dash,
        ));
    }
    if dash == to - from {
        match parse_number(v, from, to) {
            Some(start) => Ok(Span { start, end: None }),
            None => Err(RangeError::NotANumber),
        }
    } else {
        proof {
            assert(part.subrange(dash + 1, part.len() as int) == v@.subrange(
                from + dash + 1,
                to as int,
            ));
        }
        let first = parse_number(v, from, from + dash);
        let last = parse_number(v, from + dash + 1, to);
        match (first, last) {
            (Some(start), Some(end)) => if end > start {
                Ok(Span { start, end: Some(end) })
            } else {
                Err(RangeError::EndBeforeStart)
            },
            _ => Err(RangeError::NotANumber),
        }
    }
}

/// How many IDs a side of a mapping holds.
fn span_len(range: &Span) -> (n: u64)
    requires
        range.end matches Some(end) ==> end > range.start,
    ensures
        n == range.len(),
        1 <= n,
{
    match range.end {
        Some(end) => (end - range.start) as u64 + 1,
        None => 1,
    }
}

/// The mapping of `count` IDs from `ct_start` to `host_start`.
fn make_block(ct_start: u32, host_start: u32, count: u64) -> (r: Result<Mapping, MappingError>)
    requires
        1 <= count <= u32::MAX + 1,
    ensures
        r == block(ct_start, host_start, count as int),
{
    if count <= u32::MAX as u64 && ct_start as u64 + count - 1 <= u32::MAX as u64
        && host_start as u64 + count - 1 <= u32::MAX as u64 {
        Ok(Mapping { ct_start, host_start, count: count as u32 })
    } else {
        Err(MappingError::OutOfRange)
    }
}

/// Reads a mapping from the characters of its text.
fn parse_chars(v: &Vec<char>) -> (r: Result<Mapping, MappingError>)
    ensures
        r == parsed_mapping(v@),
{
    let n: usize = v.len();
    let colon: usize = find(v, 0, n, ':');
    proof {
        assert(v@.subrange(0, n as int) == v@);
        lemma_first_at(v@, ':');
    }
    if colon == n {
        match parse_span(v, 0, n) {
            Ok(range) => make_block(range.start, range.start, span_len(&range)),
            Err(e) => Err(MappingError::Range(e)),
        }
    } else {
        let second: usize = find(v, colon + 1, n, ':');
        proof {
            lemma_first_at(after(v@, ':'), ':');
        }
        if second < n - colon - 1 {
            return Err(MappingError::InvalidFormat);
        }
        let ct = match parse_span(v, 0, colon) {
            Ok(ct) => ct,
            Err(e) => {
                return Err(MappingError::Range(e));
            },
        };
        let host = match parse_span(v, colon + 1, n) {
            Ok(host) => host,
            Err(e) => {
                return Err(MappingError::Range(e));
            },
        };
        let count: u64 = span_len(&ct);
        let host_len: u64 = span_len(&host);
        if host.end.is_some() && host_len != count {
            Err(MappingError::LengthMismatch { container_len: count, host_len })
        } else {
            make_block(ct.start, host.start, count)
        }
    }
}

impl Mapping {
    /// Reads a mapping from text of the form
    /// `CT_START[-CT_END][:HOST_START[-HOST_END]]`, all bounds inclusive.
    ///
    /// An error holds the cause and, as its message, the words for the
    /// cause followed by the text.
    pub fn from_str(s: &str) -> (r: Result<Mapping, ParseMappingError>)
        ensures
            match r {
                Ok(m) => parsed_mapping(s@) == Ok::<Mapping, MappingError>(m) && m.in_range(),
                Err(e) => parsed_mapping(s@) == Err::<Mapping, MappingError>(e.cause)
                    && e.message@ == about(e.cause.text(), s@),
            },
    {
        let v = chars_of(s);
        match parse_chars(&v) {
            Ok(m) => Ok(m),
            Err(cause) => Err(
                ParseMappingError { message: message_about(cause.describe(), s), cause },
            ),
        }
    }
}

impl std::str::FromStr for Mapping {
    type Err = ParseMappingError;

    /// Reads a mapping as `Mapping::from_str` does.
    fn from_str(s: &str) -> (r: Result<Self, Self::Err>)
        ensures
            match r {
                Ok(m) => parsed_mapping(s@) == Ok::<Mapping, MappingError>(m) && m.in_range(),
                Err(e) => parsed_mapping(s@) == Err::<Mapping, MappingError>(e.cause)
                    && e.message@ == about(e.cause.text(), s@),
            },
    {
        Mapping::from_str(s)
    }
}

} // verus!
