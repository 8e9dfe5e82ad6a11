use idmap::mappings::{FillError, Mapping, Mappings};

fn block(ct_start: u32, host_start: u32, count: u32) -> Mapping {
    Mapping {
        ct_start,
        host_start,
        count,
    }
}

fn filled(blocks: Vec<Mapping>, cursor: u32, ct_last: u32) -> (Vec<Mapping>, u32) {
    let (table, cursor) = Mappings::from(blocks)
        .with_missing(cursor, ct_last)
        .unwrap();
    (table.into_vec(), cursor)
}

#[test]
fn with_missing_on_an_empty_table_covers_the_whole_space() {
    assert_eq!(
        filled(vec![], 1000000, 65535),
        (vec![block(0, 1000000, 65536)], 1065536)
    );
    assert_eq!(
        filled(vec![], 1000000, 65535).0[0].to_string(),
        "0-65535:1000000"
    );
}

#[test]
fn with_missing_fills_before_and_after_one_mapping() {
    assert_eq!(
        filled(vec![block(10, 1000, 10)], 1000000, 65535),
        (
            vec![
                block(0, 1000000, 10),
                block(10, 1000, 10),
                block(20, 1000020, 65516)
            ],
            1065536
        )
    );
}

#[test]
fn with_missing_fills_between_mappings() {
    assert_eq!(
        filled(vec![block(0, 500, 5), block(8, 700, 2), block(10, 900, 5)], 100000, 19),
        (
            vec![
                block(0, 500, 5),
                block(5, 100005, 3),
                block(8, 700, 2),
                block(10, 900, 5),
                block(15, 100015, 5)
            ],
            100020
        )
    );
}

#[test]
fn with_missing_adds_nothing_to_a_full_cover() {
    assert_eq!(
        filled(vec![block(0, 5000, 65536)], 1000000, 65535),
        (vec![block(0, 5000, 65536)], 1065536)
    );
    assert_eq!(
        filled(vec![block(0, 5000, 10), block(10, 7000, 10)], 100, 19),
        (vec![block(0, 5000, 10), block(10, 7000, 10)], 120)
    );
}

#[test]
fn with_missing_covers_the_last_id_of_the_space() {
    assert_eq!(
        filled(vec![block(0, 5000, 65535)], 1000000, 65535),
        (vec![block(0, 5000, 65535), block(65535, 1065535, 1)], 1065536)
    );
    assert_eq!(filled(vec![], 7, 0), (vec![block(0, 7, 1)], 8));
}

#[test]
fn with_missing_keeps_mappings_beyond_the_ceiling() {
    assert_eq!(
        filled(vec![block(10, 1000, 10)], 100, 15),
        (vec![block(0, 100, 10), block(10, 1000, 10)], 120)
    );
    assert_eq!(
        filled(vec![block(30, 1000, 10)], 100, 15),
        (vec![block(0, 100, 30), block(30, 1000, 10)], 140)
    );
}

#[test]
fn with_missing_keeps_overlapping_mappings_as_they_are() {
    assert_eq!(
        filled(vec![block(0, 500, 10), block(5, 900, 2), block(9, 700, 1)], 100, 11),
        (
            vec![
                block(0, 500, 10),
                block(5, 900, 2),
                block(7, 112, 2),
                block(9, 700, 1),
                block(10, 115, 2)
            ],
            117
        )
    );
}

#[test]
fn with_missing_covers_each_id_once() {
    let (table, _) = filled(
        vec![block(3, 50, 4), block(7, 90, 1), block(12, 10, 3)],
        1000,
        19,
    );
    for id in 0u32..=25 {
        let hits = table
            .iter()
            .filter(|m| m.ct_start <= id && id < m.ct_start + m.count)
            .count();
        assert_eq!(hits, if id <= 19 { 1 } else { 0 }, "{}", id);
    }
    for pair in table.windows(2) {
        assert!(pair[0].ct_start < pair[1].ct_start);
        assert_eq!(pair[0].ct_end(), pair[1].ct_start);
    }
}

#[test]
fn with_missing_draws_fills_from_the_pool_in_order() {
    let given = vec![block(3, 50, 4), block(7, 90, 1), block(12, 10, 3)];
    let (table, cursor) = filled(given.clone(), 1000, 19);
    let fills: Vec<Mapping> = table
        .iter()
        .filter(|m| !given.contains(m))
        .cloned()
        .collect();
    assert_eq!(
        fills,
        vec![block(0, 1000, 3), block(8, 1008, 4), block(15, 1015, 5)]
    );
    for pair in fills.windows(2) {
        assert!(pair[0].host_start + pair[0].count <= pair[1].host_start);
    }
    assert!(fills.iter().all(|m| m.host_start >= 1000));
    assert_eq!(cursor, 1020);
    let kept: Vec<Mapping> = table.iter().filter(|m| given.contains(m)).cloned().collect();
    assert_eq!(kept, given);
}

#[test]
fn with_missing_rejects_the_largest_ceiling() {
    assert_eq!(
        Mappings::from(vec![]).with_missing(0, 4294967295).err(),
        Some(FillError::CeilingOutOfRange)
    );
}

#[test]
fn with_missing_reports_an_exhausted_pool() {
    assert_eq!(
        Mappings::from(vec![]).with_missing(4294967000, 65535).err(),
        Some(FillError::HostIdsExhausted)
    );
    assert_eq!(
        Mappings::from(vec![block(10, 1000, 10)])
            .with_missing(4294967280, 15)
            .err(),
        Some(FillError::HostIdsExhausted)
    );
    assert_eq!(
        Mappings::from(vec![block(0, 1000, 10)])
            .with_missing(4294967290, 5)
            .err(),
        Some(FillError::HostIdsExhausted)
    );
    assert_eq!(
        filled(vec![], 4294967285, 9),
        (vec![block(0, 4294967285, 10)], 4294967295)
    );
    assert_eq!(
        filled(vec![], 0, 4294967294),
        (vec![block(0, 0, 4294967295)], 4294967295)
    );
}
