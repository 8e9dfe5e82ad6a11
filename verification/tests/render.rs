use idmap::mapping::MappingType;
use idmap::mappings::{Mapping, Mappings};
use idmap::render::{idmap_line, idmap_lines, subid_line, subid_lines, DEFAULT_BLOCK};

fn block(ct_start: u32, host_start: u32, count: u32) -> Mapping {
    Mapping {
        ct_start,
        host_start,
        count,
    }
}

#[test]
fn idmap_line_names_kind_starts_and_count() {
    assert_eq!(
        idmap_line(MappingType::Uid, &block(0, 100000, 1000)),
        "lxc.idmap = u 0 100000 1000"
    );
    assert_eq!(
        idmap_line(MappingType::Gid, &block(1000, 1000, 1)),
        "lxc.idmap = g 1000 1000 1"
    );
    assert_eq!(
        idmap_line(MappingType::Both, &block(10, 4294967290, 4)),
        "lxc.idmap = b 10 4294967290 4"
    );
}

#[test]
fn subid_line_names_owner_start_and_count() {
    assert_eq!(subid_line(1000, 100000, 65536), "1000:100000:65536");
    assert_eq!(subid_line(0, 0, 0), "0:0:0");
    assert_eq!(DEFAULT_BLOCK, 65536);
}

#[test]
fn lines_of_a_completed_table() {
    let (table, _) = Mappings::from(vec![block(1000, 1000, 1), block(1005, 50, 2)])
        .with_missing(100000, 65535)
        .unwrap();
    assert_eq!(
        idmap_lines(MappingType::Uid, &table),
        vec![
            "lxc.idmap = u 0 100000 1000",
            "lxc.idmap = u 1000 1000 1",
            "lxc.idmap = u 1001 101001 4",
            "lxc.idmap = u 1005 50 2",
            "lxc.idmap = u 1007 101007 64529",
        ]
    );
    assert_eq!(
        subid_lines(1234, 100000, &table),
        vec!["1234:100000:65536", "1234:1000:1", "1234:50:2"]
    );
}

#[test]
fn lines_of_an_empty_table() {
    let table = Mappings::from(vec![]);
    assert_eq!(idmap_lines(MappingType::Gid, &table), Vec::<String>::new());
    assert_eq!(subid_lines(7, 100000, &table), vec!["7:100000:65536"]);
}

#[test]
fn grants_leave_out_host_ids_at_or_above_the_pool() {
    let table = Mappings::from(vec![
        block(1, 99999, 1),
        block(3, 100000, 1),
        block(5, 200000, 1),
    ]);
    assert_eq!(
        subid_lines(1, 100000, &table),
        vec!["1:100000:65536", "1:99999:1"]
    );
}
