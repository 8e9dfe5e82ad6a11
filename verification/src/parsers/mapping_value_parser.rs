//! Reading a mapping from the value of a command-line argument.

use vstd::prelude::*;

use crate::mapping::{parsed_ranges, Mapping, MappingType, ParseMappingError};
use crate::mappings::mapping::mapping_range::parse_mapping_range_error::about;
use crate::mappings::mapping::MappingError;
use crate::text::chars_of;

verus! {

/// The type of the mappings that the argument named `id` takes: user IDs
/// for `uid`, group IDs for `gid`, none for any other name.
pub open spec fn type_named(id: Seq<char>) -> Option<MappingType> {
    if id == seq!['u', 'i', 'd'] {
        Some(MappingType::Uid)
    } else if id == seq!['g', 'i', 'd'] {
        Some(MappingType::Gid)
    } else {
        None
    }
}

/// The type of the mappings that a value stands for: that of the argument
/// it was given to, or both where it was given to none.
pub open spec fn type_for(arg_id: Option<Seq<char>>) -> Option<MappingType> {
    match arg_id {
        Some(id) => type_named(id),
        None => Some(MappingType::Both),
    }
}

/// Why the value of an argument gives no mapping.
#[derive(Debug, Clone, PartialEq, Eq)]
pub enum ValueError {
    /// The argument is neither `uid` nor `gid`; its name is kept.
    InvalidArg(String),
    /// The value spells no mapping.
    InvalidValue(ParseMappingError),
}

/// Reads mappings from the values of the arguments `uid` and `gid`, and
/// from values that belong to no argument.
#[derive(Debug, Clone, Copy, PartialEq, Eq, Structural)]
pub struct MappingValueParser;

impl MappingValueParser {
    /// The type of the mappings that the argument named `id` takes.
    pub fn mapping_type(id: &str) -> (r: Option<MappingType>)
        ensures
            r == type_named(id@),
    {
        let v = chars_of(id);
        if v.len() != 3 {
            return None;
        }
        if v[1] == 'i' && v[2] == 'd' {
            if v[0] == 'u' {
                assert(v@ =~= seq!['u', 'i', 'd']);
                return Some(MappingType::Uid);
            }
            if v[0] == 'g' {
                assert(v@ =~= seq!['g', 'i', 'd']);
                return Some(MappingType::Gid);
            }
        }
        None
    }

    /// Reads the mapping that `value` spells, of the type that the argument
    /// named `arg_id` takes. The name is looked at first: with a name other
    /// than `uid` and `gid` the value is not read.
    pub fn parse_value(&self, arg_id: Option<&str>, value: &str) -> (r: Result<
        Mapping,
        ValueError,
    >)
        ensures
            match r {
                Ok(m) => {
                    &&& type_for(
                        match arg_id {
                            Some(id) => Some(id@),
                            None => None,
                        },
                    ) == Some(m.mapping_type)
                    &&& parsed_ranges(value@) == Ok::<((u32, u32), (u32, u32)), MappingError>(
                        (
                            (m.container_range.first(), m.container_range.last()),
                            (m.host_range.first(), m.host_range.last()),
                        ),
                    )
                    &&& m.wf()
                },
                Err(ValueError::InvalidArg(name)) => {
                    &&& arg_id matches Some(id)
                    &&& type_named(id@) is None
                    &&& name@ == id@
                },
                Err(ValueError::InvalidValue(e)) => {
                    &&& type_for(
                        match arg_id {
                            Some(id) => Some(id@),
                            None => None,
                        },
                    ) is Some
                    &&& parsed_ranges(value@) == Err::<((u32, u32), (u32, u32)), MappingError>(
                        e.cause,
                    )
                    &&& e.message@ == about(e.cause.text(), value@)
                },
            },
    {
        let mapping_type = match arg_id {
            Some(id) => match MappingValueParser::mapping_type(id) {
                Some(t) => t,
                None => {
                    return Err(ValueError::InvalidArg(id.to_owned()));
                },
            },
            None => MappingType::Both,
        };
        match Mapping::from_str_with_type(value, mapping_type) {
            Ok(m) => Ok(m),
            Err(e) => Err(ValueError::InvalidValue(e)),
        }
    }
}

} // verus!
