use idmap::mappings::{Mapping, Mappings, MergeError};

fn block(ct_start: u32, host_start: u32, count: u32) -> Mapping {
    Mapping {
        ct_start,
        host_start,
        count,
    }
}

fn table(texts: &[&str]) -> Mappings {
    Mappings::from(
        texts
            .iter()
            .map(|s| s.parse().unwrap())
            .collect::<Vec<Mapping>>(),
    )
}

#[test]
fn merge() {
    assert_eq!(
        table(["1000", "1005-1010:1105-1110", "1010:1110", "1011:1111"].as_slice()),
        table(["1000", "1005-1011:1105-1111"].as_slice())
    );
    assert_eq!(
        table(["1000-1100", "800-1000:800-1000"].as_slice()).into_vec(),
        vec!["800-1100".parse::<Mapping>().unwrap()],
    );
}

#[test]
fn merge_gives_the_joined_blocks() {
    assert_eq!(
        table(&["1000", "1005-1010:1105-1110", "1010:1110", "1011:1111"]).into_vec(),
        vec![block(1000, 1000, 1), block(1005, 1105, 7)]
    );
    assert_eq!(
        table(&["1000-1100", "800-1000:800-1000"]).into_vec(),
        vec![block(800, 800, 301)]
    );
}

#[test]
fn merge_of_nothing_is_empty() {
    let t = Mappings::from(Vec::new());
    assert!(t.is_empty());
    assert_eq!(t.len(), 0);
    assert_eq!(t.to_string(), "");
    assert_eq!(t.validate(), Ok(()));
}

#[test]
fn merge_orders_by_container_start() {
    let t = table(&["30:130", "10:210", "20:320"]);
    assert_eq!(
        t.as_slice(),
        &[block(10, 210, 1), block(20, 320, 1), block(30, 130, 1)]
    );
    assert_eq!(t.len(), 3);
    assert!(!t.is_empty());
    assert_eq!(t.to_string(), "10:210, 20:320, 30:130");
}

#[test]
fn merge_joins_blocks_that_touch_with_the_same_offset() {
    assert_eq!(
        table(&["10-19:110", "20-29:120"]).into_vec(),
        vec![block(10, 110, 20)]
    );
    assert_eq!(
        table(&["20-29:120", "10-19:110"]).into_vec(),
        vec![block(10, 110, 20)]
    );
    assert_eq!(
        table(&["10-29:110", "15-20:115"]).into_vec(),
        vec![block(10, 110, 20)]
    );
    assert_eq!(
        table(&["10-19", "10-19"]).into_vec(),
        vec![block(10, 10, 10)]
    );
}

#[test]
fn merge_keeps_apart_what_has_a_gap_or_another_offset() {
    assert_eq!(
        table(&["10-19:110", "21-29:121"]).into_vec(),
        vec![block(10, 110, 10), block(21, 121, 9)]
    );
    assert_eq!(
        table(&["10-19:110", "20-29:121"]).into_vec(),
        vec![block(10, 110, 10), block(20, 121, 10)]
    );
    assert_eq!(
        table(&["10-19:110", "15-24:215"]).into_vec(),
        vec![block(10, 110, 10), block(15, 215, 10)]
    );
    assert_eq!(
        table(&["10-19:110", "20-29:100"]).into_vec(),
        vec![block(10, 110, 10), block(20, 100, 10)]
    );
}

#[test]
fn merge_keeps_the_order_of_equal_starts() {
    assert_eq!(
        table(&["10:200", "5", "10:100"]).into_vec(),
        vec![block(5, 5, 1), block(10, 200, 1), block(10, 100, 1)]
    );
    assert_eq!(
        table(&["10:100", "5", "10:200"]).into_vec(),
        vec![block(5, 5, 1), block(10, 100, 1), block(10, 200, 1)]
    );
}

#[test]
fn merge_of_a_merged_table_changes_nothing() {
    let inputs: [&[&str]; 5] = [
        &["1000", "1005-1010:1105-1110", "1010:1110", "1011:1111"],
        &["1000-1100", "800-1000:800-1000"],
        &["10-19:110", "15-24:215", "12:500", "10:200"],
        &["30:130", "10:210", "20:320"],
        &[],
    ];
    for texts in inputs {
        let once = table(texts).into_vec();
        let twice = Mappings::from(once.clone()).into_vec();
        assert_eq!(once, twice);
        let with_other_name = Mappings::merge_overlapping(once.clone()).into_vec();
        assert_eq!(once, with_other_name);
    }
}

#[test]
fn validate_accepts_a_table_without_conflicts() {
    assert_eq!(table(&["10-19:110", "20-29:200", "5:7"]).validate(), Ok(()));
    assert_eq!(
        Mappings::try_merge(vec![block(10, 110, 10), block(20, 120, 10)])
            .unwrap()
            .into_vec(),
        vec![block(10, 110, 20)]
    );
}

#[test]
fn validate_names_the_first_pair_in_conflict() {
    let container = table(&["10-19:110", "15-24:215", "30:130"]);
    assert_eq!(
        container.validate(),
        Err(MergeError::ConflictingMapping {
            first: block(10, 110, 10),
            second: block(15, 215, 10)
        })
    );
    let host = table(&["10-19:110", "30-39:115", "50:110"]);
    assert_eq!(
        host.validate(),
        Err(MergeError::ConflictingMapping {
            first: block(10, 110, 10),
            second: block(30, 115, 10)
        })
    );
    let later = table(&["1:1", "10-19:110", "40:300", "50:119"]);
    assert_eq!(
        later.validate(),
        Err(MergeError::ConflictingMapping {
            first: block(10, 110, 10),
            second: block(50, 119, 1)
        })
    );
    assert_eq!(
        Mappings::try_merge(vec![block(15, 215, 10), block(10, 110, 10)]),
        Err(MergeError::ConflictingMapping {
            first: block(10, 110, 10),
            second: block(15, 215, 10)
        })
    );
}

#[test]
fn try_merge_names_the_first_mapping_that_is_not_valid() {
    assert_eq!(
        Mappings::try_merge(vec![block(1, 1, 1), block(5, 5, 0), block(4294967295, 1, 1)]),
        Err(MergeError::InvalidMapping {
            mapping: block(5, 5, 0)
        })
    );
    assert_eq!(
        Mappings::try_merge(vec![block(10, 110, 10), block(15, 215, 10), block(7, 4294967295, 1)]),
        Err(MergeError::InvalidMapping {
            mapping: block(7, 4294967295, 1)
        })
    );
    assert_eq!(Mappings::try_merge(vec![]).unwrap().into_vec(), vec![]);
}

#[test]
fn table_can_be_cloned() {
    let t = table(&["30:130", "10:210"]);
    assert_eq!(t.clone(), t);
    assert_eq!(t.clone().into_vec(), vec![block(10, 210, 1), block(30, 130, 1)]);
}

#[test]
fn merge_of_mappings_that_agree_leaves_no_conflict() {
    let inputs: [&[&str]; 4] = [
        &["1000", "1005-1010:1105-1110", "1010:1110", "1011:1111"],
        &["10-29:110", "15-20:115", "25-40:125", "41:141", "0-5:500"],
        &["20-29:120", "10-19:110", "12-25:112", "50:7", "51:8"],
        &["5", "5", "6", "4-8"],
    ];
    for texts in inputs {
        assert_eq!(table(texts).validate(), Ok(()));
    }
    assert_eq!(
        table(&["20-29:120", "10-19:110", "12-25:112", "50:7", "51:8"]).into_vec(),
        vec![block(10, 110, 20), block(50, 7, 2)]
    );
}

#[test]
fn try_merge_refuses_a_block_that_ends_at_the_largest_id() {
    let last: Mapping = "4294967295".parse().unwrap();
    assert_eq!(
        Mappings::try_merge(vec![block(1, 1, 1), last]),
        Err(MergeError::InvalidMapping { mapping: last })
    );
}

#[test]
fn merge_does_not_depend_on_the_order_given() {
    let texts = ["20-29:120", "10-19:110", "12-25:112", "50:7", "51:8", "0-3:900"];
    let expected = vec![block(0, 900, 4), block(10, 110, 20), block(50, 7, 2)];
    let n = texts.len();
    for rotation in 0..n {
        let mut list: Vec<&str> = texts.iter().cycle().skip(rotation).take(n).cloned().collect();
        assert_eq!(table(&list).into_vec(), expected);
        list.reverse();
        assert_eq!(table(&list).into_vec(), expected);
        list.swap(0, n / 2);
        assert_eq!(table(&list).into_vec(), expected);
    }
}
