use idmap::mappings::mapping::mapping_range::{MappingRange, NewMappingRangeError, RangeError};

#[test]
fn new_range_keeps_its_bounds() {
    let r = MappingRange::new(1000, 1005).unwrap();
    assert_eq!(r.start(), 1000);
    assert_eq!(r.end(), 1005);
    assert_eq!(r.len(), 6);
    let whole = MappingRange::new(1, 4294967295).unwrap();
    assert_eq!(whole.len(), 4294967295);
}

#[test]
fn new_single_range_holds_one_id() {
    let r = MappingRange::new_single(7).unwrap();
    assert_eq!(r.start(), 7);
    assert_eq!(r.end(), 7);
    assert_eq!(r.len(), 1);
    assert_eq!(r, MappingRange::new(7, 7).unwrap());
}

#[test]
fn new_range_rejects_root() {
    assert_eq!(MappingRange::new(0, 5), Err(NewMappingRangeError::RootId));
    assert_eq!(MappingRange::new(0, 0), Err(NewMappingRangeError::RootId));
    assert_eq!(
        MappingRange::new_single(0),
        Err(NewMappingRangeError::RootId)
    );
    assert_eq!(
        NewMappingRangeError::RootId.to_string(),
        "Cannot map root id `0`"
    );
}

#[test]
fn new_range_rejects_end_before_start() {
    let err = MappingRange::new(5, 4).unwrap_err();
    assert_eq!(
        err,
        NewMappingRangeError::EndLessThanStart { start: 5, end: 4 }
    );
    assert_eq!(
        err.to_string(),
        "Mapping range end `4` cannot be less than its start `5`"
    );
}

#[test]
fn range_is_read_from_text() {
    assert_eq!(
        MappingRange::from_str("1000-1005").unwrap(),
        MappingRange::new(1000, 1005).unwrap()
    );
    assert_eq!(
        MappingRange::from_str("1005").unwrap(),
        MappingRange::new_single(1005).unwrap()
    );
    assert_eq!(
        MappingRange::from_str("5-5").unwrap(),
        MappingRange::new_single(5).unwrap()
    );
    assert_eq!(
        MappingRange::from_str("4294967295").unwrap(),
        MappingRange::new_single(4294967295).unwrap()
    );
}

#[test]
fn range_text_errors_name_their_cause() {
    let root = MappingRange::from_str("0-5").unwrap_err();
    assert_eq!(root.cause, RangeError::ReservedId);
    assert_eq!(root.message, "Cannot map root id `0`: `0-5`");
    assert_eq!(root.to_string(), "Cannot map root id `0`: `0-5`");

    let backwards = MappingRange::from_str("6-5").unwrap_err();
    assert_eq!(backwards.cause, RangeError::EndBeforeStart);
    assert_eq!(
        backwards.message,
        "Mapping range end `5` cannot be less than its start `6`: `6-5`"
    );

    for text in ["", "a", "1-2-3", "1-", "-1", "4294967296", "1:2"] {
        let err = MappingRange::from_str(text).unwrap_err();
        assert_eq!(err.cause, RangeError::NotANumber, "{}", text);
        assert_eq!(err.message, format!("id is not a number: `{}`", text));
    }
}

#[test]
fn range_errors_describe_themselves() {
    assert_eq!(RangeError::NotANumber.describe(), "id is not a number");
    assert_eq!(
        RangeError::EndBeforeStart.describe(),
        "start of id range is greater than or equal to its end"
    );
    assert_eq!(RangeError::ReservedId.describe(), "cannot map root id `0`");
}

#[test]
fn range_is_read_through_the_trait() {
    assert_eq!(
        "1000-1005".parse::<MappingRange>().unwrap(),
        MappingRange::new(1000, 1005).unwrap()
    );
    assert_eq!(
        "0".parse::<MappingRange>().unwrap_err().cause,
        RangeError::ReservedId
    );
}
