use std::str::FromStr;

use idmap::mapping::{blocks_for, Mapping, MappingType};
use idmap::mappings::mapping::mapping_range::{MappingRange, RangeError};
use idmap::mappings::mapping::MappingError;
use idmap::mappings::Mapping as Block;

fn range(start: u32, end: u32) -> MappingRange {
    MappingRange::new(start, end).unwrap()
}

#[test]
fn parse_ranged_mapping() {
    assert_eq!(
        Mapping::from_str("1000-1005:1100-1105").unwrap(),
        Mapping {
            host_range: range(1100, 1105),
            container_range: range(1000, 1005),
            mapping_type: MappingType::Both
        }
    )
}

#[test]
fn mapping_parse_single_mapping() {
    assert_eq!(
        Mapping::from_str("1005:1010").unwrap(),
        Mapping {
            host_range: range(1010, 1010),
            container_range: range(1005, 1005),
            mapping_type: MappingType::Both
        }
    )
}

#[test]
fn parse_ranged_common_mapping() {
    assert_eq!(
        Mapping::from_str("1000-1005").unwrap(),
        Mapping {
            host_range: range(1000, 1005),
            container_range: range(1000, 1005),
            mapping_type: MappingType::Both
        }
    )
}

#[test]
fn parse_single_common_mapping() {
    assert_eq!(
        Mapping::from_str("1005").unwrap(),
        Mapping {
            host_range: range(1005, 1005),
            container_range: range(1005, 1005),
            mapping_type: MappingType::Both
        }
    )
}

#[test]
fn parse_with_type_keeps_the_type_and_derives_the_host_end() {
    for mapping_type in [MappingType::Uid, MappingType::Gid, MappingType::Both] {
        let m = Mapping::from_str_with_type("1000-1005:1100", mapping_type).unwrap();
        assert_eq!(
            m,
            Mapping {
                host_range: range(1100, 1105),
                container_range: range(1000, 1005),
                mapping_type
            }
        );
        assert!(m.is_valid());
        assert_eq!(
            m.block(),
            Block {
                ct_start: 1000,
                host_start: 1100,
                count: 6
            }
        );
    }
}

#[test]
fn parse_with_type_rejects_root() {
    for text in ["0", "0-5", "0:7", "7:0", "1-3:0"] {
        let err = Mapping::from_str_with_type(text, MappingType::Uid).unwrap_err();
        assert_eq!(
            err.cause,
            MappingError::Range(RangeError::ReservedId),
            "{}",
            text
        );
        assert_eq!(err.message, format!("cannot map root id `0`: `{}`", text));
    }
}

#[test]
fn parse_with_type_passes_on_the_errors_of_the_text() {
    let cases = [
        ("1:2:3", MappingError::InvalidFormat),
        ("x", MappingError::Range(RangeError::NotANumber)),
        ("5-5", MappingError::Range(RangeError::EndBeforeStart)),
        (
            "1-2:1-3",
            MappingError::LengthMismatch {
                container_len: 2,
                host_len: 3,
            },
        ),
        ("1-4294967295:2", MappingError::OutOfRange),
        ("0-4294967295", MappingError::OutOfRange),
    ];
    for (text, cause) in cases {
        let err = Mapping::from_str_with_type(text, MappingType::Gid).unwrap_err();
        assert_eq!(err.cause, cause, "{}", text);
    }
}

#[test]
fn mapping_with_unequal_ranges_is_not_valid() {
    let m = Mapping {
        host_range: range(1, 5),
        container_range: range(1, 6),
        mapping_type: MappingType::Both,
    };
    assert!(!m.is_valid());
    let at_the_edge = Mapping {
        host_range: range(4294967295, 4294967295),
        container_range: range(1, 1),
        mapping_type: MappingType::Both,
    };
    assert!(at_the_edge.is_valid());
    assert_eq!(
        at_the_edge.block(),
        Block {
            ct_start: 1,
            host_start: 4294967295,
            count: 1
        }
    );
}

#[test]
fn parse_with_type_accepts_ranges_that_end_at_the_largest_id() {
    assert_eq!(
        Mapping::from_str_with_type("4294967295", MappingType::Uid).unwrap(),
        Mapping {
            host_range: range(4294967295, 4294967295),
            container_range: range(4294967295, 4294967295),
            mapping_type: MappingType::Uid
        }
    );
    assert_eq!(
        Mapping::from_str_with_type("1-4294967295", MappingType::Gid).unwrap(),
        Mapping {
            host_range: range(1, 4294967295),
            container_range: range(1, 4294967295),
            mapping_type: MappingType::Gid
        }
    );
    assert_eq!(
        Mapping::from_str_with_type("5-6:4294967294", MappingType::Both).unwrap(),
        Mapping {
            host_range: range(4294967294, 4294967295),
            container_range: range(5, 6),
            mapping_type: MappingType::Both
        }
    );
}

#[test]
fn blocks_are_grouped_by_type_in_order() {
    let list = vec![
        Mapping::from_str_with_type("1:11", MappingType::Uid).unwrap(),
        Mapping::from_str_with_type("2:12", MappingType::Gid).unwrap(),
        Mapping::from_str_with_type("3-4:13", MappingType::Both).unwrap(),
        Mapping::from_str_with_type("5:15", MappingType::Uid).unwrap(),
    ];
    let block = |ct_start, host_start, count| Block {
        ct_start,
        host_start,
        count,
    };
    assert_eq!(
        blocks_for(&list, MappingType::Uid),
        vec![block(1, 11, 1), block(3, 13, 2), block(5, 15, 1)]
    );
    assert_eq!(
        blocks_for(&list, MappingType::Gid),
        vec![block(2, 12, 1), block(3, 13, 2)]
    );
    assert_eq!(blocks_for(&list, MappingType::Both), vec![block(3, 13, 2)]);
    assert!(MappingType::Both.serves(MappingType::Uid));
    assert!(!MappingType::Uid.serves(MappingType::Gid));
    assert!(!MappingType::Uid.serves(MappingType::Both));
}

#[test]
fn parse_through_the_trait_reads_the_same_mapping() {
    assert_eq!(
        "1000-1005:1100".parse::<Mapping>().unwrap(),
        Mapping::from_str_with_type("1000-1005:1100", MappingType::Both).unwrap()
    );
    assert_eq!(
        <Mapping as FromStr>::from_str("0").unwrap_err().cause,
        MappingError::Range(RangeError::ReservedId)
    );
}
