use idmap::mappings::mapping::mapping_range::RangeError;
use idmap::mappings::mapping::MappingError;
use idmap::mappings::Mapping;

#[test]
fn parse_ranged() {
    assert_eq!(
        "1000-1005:1100".parse::<Mapping>().unwrap(),
        Mapping {
            ct_start: 1000,
            host_start: 1100,
            count: 6
        }
    )
}

#[test]
fn parse_single() {
    assert_eq!(
        "1005:1010".parse::<Mapping>().unwrap(),
        Mapping {
            ct_start: 1005,
            host_start: 1010,
            count: 1
        }
    )
}

#[test]
fn parse_ranged_common() {
    assert_eq!(
        "1000-1005".parse::<Mapping>().unwrap(),
        Mapping {
            ct_start: 1000,
            host_start: 1000,
            count: 6
        }
    )
}

#[test]
fn parse_single_common() {
    assert_eq!(
        "1005".parse::<Mapping>().unwrap(),
        Mapping {
            ct_start: 1005,
            host_start: 1005,
            count: 1
        }
    )
}

#[test]
fn parse_both_sides_ranged() {
    assert_eq!(
        Mapping::from_str("1000-1005:1100-1105").unwrap(),
        Mapping {
            ct_start: 1000,
            host_start: 1100,
            count: 6
        }
    )
}

#[test]
fn parse_accepts_root_and_plus_sign_and_leading_zeros() {
    assert_eq!(
        Mapping::from_str("0-9:+100").unwrap(),
        Mapping {
            ct_start: 0,
            host_start: 100,
            count: 10
        }
    );
    assert_eq!(
        Mapping::from_str("007").unwrap(),
        Mapping {
            ct_start: 7,
            host_start: 7,
            count: 1
        }
    );
}

#[test]
fn parse_rejects_length_mismatch() {
    let err = Mapping::from_str("1000-1005:1100-1104").unwrap_err();
    assert_eq!(
        err.cause,
        MappingError::LengthMismatch {
            container_len: 6,
            host_len: 5
        }
    );
    assert_eq!(
        err.message,
        "container range holds 6 ids but host range holds 5: `1000-1005:1100-1104`"
    );
    let single_ct = Mapping::from_str("1000:1100-1104").unwrap_err();
    assert_eq!(
        single_ct.cause,
        MappingError::LengthMismatch {
            container_len: 1,
            host_len: 5
        }
    );
}

#[test]
fn parse_rejects_more_than_one_colon() {
    let err = Mapping::from_str("1:2:3").unwrap_err();
    assert_eq!(err.cause, MappingError::InvalidFormat);
    assert_eq!(err.message, "mapping is invalid: `1:2:3`");
    assert_eq!(err.to_string(), "mapping is invalid: `1:2:3`");
}

#[test]
fn parse_rejects_what_is_no_number() {
    for text in ["", "abc", "12a", "1-2-3", "-5", "5-", ":", "1:", ":1", "+", "4294967296", "1 "] {
        let err = Mapping::from_str(text).unwrap_err();
        assert_eq!(
            err.cause,
            MappingError::Range(RangeError::NotANumber),
            "{}",
            text
        );
        assert_eq!(err.message, format!("id is not a number: `{}`", text));
    }
}

#[test]
fn parse_rejects_end_that_is_not_past_start() {
    for text in ["5-5", "6-5", "1:9-3"] {
        let err = Mapping::from_str(text).unwrap_err();
        assert_eq!(
            err.cause,
            MappingError::Range(RangeError::EndBeforeStart),
            "{}",
            text
        );
        assert_eq!(
            err.message,
            format!(
                "start of id range is greater than or equal to its end: `{}`",
                text
            )
        );
    }
}

#[test]
fn parse_accepts_blocks_that_end_at_the_largest_id() {
    let cases = [
        ("4294967295", (4294967295, 4294967295, 1)),
        ("5:4294967295", (5, 4294967295, 1)),
        ("4294967295:5", (4294967295, 5, 1)),
        ("1-4294967295:1", (1, 1, 4294967295)),
        ("2-4294967295:1", (2, 1, 4294967294)),
        ("1-4294967295", (1, 1, 4294967295)),
        ("0-9:4294967286", (0, 4294967286, 10)),
        ("0-4294967294", (0, 0, 4294967295)),
        ("4294967294-4294967295:4294967294-4294967295", (4294967294, 4294967294, 2)),
    ];
    for (text, (ct_start, host_start, count)) in cases {
        let m = Mapping::from_str(text).unwrap();
        assert_eq!(
            m,
            Mapping {
                ct_start,
                host_start,
                count
            },
            "{}",
            text
        );
        assert!(m.is_in_range());
    }
}

#[test]
fn parse_rejects_what_no_block_can_hold() {
    for text in [
        "0-4294967295",
        "0-9:4294967290",
        "0-9:4294967287",
        "1-4294967295:2",
        "1-4294967295:5",
    ] {
        let err = Mapping::from_str(text).unwrap_err();
        assert_eq!(err.cause, MappingError::OutOfRange, "{}", text);
        assert_eq!(
            err.message,
            format!("mapping exceeds the id space: `{}`", text)
        );
    }
}

#[test]
fn parsed_blocks_are_in_range() {
    for text in ["1000-1005:1100", "0", "0-4294967294", "7:9", "4294967295"] {
        assert!(Mapping::from_str(text).unwrap().is_in_range());
    }
    for text in ["1000-1005:1100", "0", "0-4294967294", "7:9"] {
        assert!(Mapping::from_str(text).unwrap().is_valid());
    }
    for text in ["4294967295", "5:4294967295", "1-4294967295:1"] {
        assert!(!Mapping::from_str(text).unwrap().is_valid());
    }
    let block = |ct_start, host_start, count| Mapping {
        ct_start,
        host_start,
        count,
    };
    assert!(!block(1, 1, 0).is_valid());
    assert!(!block(1, 1, 0).is_in_range());
    assert!(!block(4294967295, 1, 1).is_valid());
    assert!(block(4294967295, 1, 1).is_in_range());
    assert!(!block(4294967295, 1, 2).is_in_range());
    assert!(!block(1, 4294967290, 6).is_valid());
    assert!(block(1, 4294967290, 6).is_in_range());
    assert!(!block(1, 4294967290, 7).is_in_range());
}

#[test]
fn ct_end_is_the_id_after_the_block() {
    let m = Mapping {
        ct_start: 1000,
        host_start: 1100,
        count: 6,
    };
    assert_eq!(m.ct_end(), 1006);
}

#[test]
fn format_writes_range_and_host_start() {
    let cases = [
        ((1000, 1100, 6), "1000-1005:1100"),
        ((1005, 1010, 1), "1005:1010"),
        ((1000, 1000, 6), "1000-1005"),
        ((1005, 1005, 1), "1005"),
        ((0, 1000000, 65536), "0-65535:1000000"),
        ((0, 0, 4294967295), "0-4294967294"),
        ((4294967295, 4294967295, 1), "4294967295"),
        ((5, 4294967295, 1), "5:4294967295"),
        ((1, 1, 4294967295), "1-4294967295"),
        ((2, 1, 4294967294), "2-4294967295:1"),
    ];
    for ((ct_start, host_start, count), text) in cases {
        let m = Mapping {
            ct_start,
            host_start,
            count,
        };
        assert_eq!(m.to_string(), text);
    }
}

#[test]
fn format_then_parse_gives_the_mapping_back() {
    let starts = [
        0u32, 1, 9, 10, 99, 100, 65535, 1000000, 4294967293, 4294967294, 4294967295,
    ];
    let counts = [1u32, 2, 3, 10, 65536, 4294967294, 4294967295];
    let mut tried = 0;
    for ct_start in starts {
        for host_start in starts {
            for count in counts {
                let m = Mapping {
                    ct_start,
                    host_start,
                    count,
                };
                if m.is_in_range() {
                    assert_eq!(Mapping::from_str(&m.to_string()).unwrap(), m);
                    tried += 1;
                }
            }
        }
    }
    assert!(tried > 100);
    for m in [
        Mapping {
            ct_start: 4294967295,
            host_start: 4294967295,
            count: 1,
        },
        Mapping {
            ct_start: 5,
            host_start: 4294967295,
            count: 1,
        },
        Mapping {
            ct_start: 1,
            host_start: 1,
            count: 4294967295,
        },
        Mapping {
            ct_start: 2,
            host_start: 1,
            count: 4294967294,
        },
    ] {
        assert_eq!(Mapping::from_str(&m.to_string()), Ok(m));
    }
}
