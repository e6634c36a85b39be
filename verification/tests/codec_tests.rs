use subnet_garden::block::IpBlock;
use subnet_garden::codec::from_entries;
use subnet_garden::codec::to_entries;
use subnet_garden::codec::DecodeError;
use subnet_garden::memory::MemorySpace;

fn b4(a: u8, b: u8, c: u8, d: u8, p: u8) -> IpBlock {
    IpBlock::v4(a, b, c, d, p).unwrap()
}

fn test_cidr4() -> IpBlock {
    b4(10, 20, 0, 0, 16)
}

fn entry(k: &str, v: &str) -> (String, String) {
    (String::from(k), String::from(v))
}

#[test]
fn serialize_success() {
    let mut space = MemorySpace::new(test_cidr4());
    space.allocate(4, Some("a-name")).unwrap();
    space.allocate(4, Some("b-name")).unwrap();
    space.allocate(4, None).unwrap();

    let mut map = serde_json::Map::new();
    for (k, v) in to_entries(&space) {
        map.insert(k, serde_json::Value::String(v));
    }
    let json = serde_json::to_string(&serde_json::Value::Object(map)).unwrap();
    assert_eq!(
        json,
        "{\
        \"10.20.0.32/28\":\"10.20.0.32/28\",\
        \"a-name\":\"10.20.0.0/28\",\
        \"b-name\":\"10.20.0.16/28\"\
        }"
    );
}

#[test]
fn entries_are_sorted_by_key() {
    let mut space = MemorySpace::new(test_cidr4());
    space.allocate(4, Some("zebra")).unwrap();
    space.allocate(4, Some("alpha")).unwrap();
    space.allocate(4, None).unwrap();
    let entries = to_entries(&space);
    assert_eq!(entries.len(), 3);
    assert_eq!(entries[0], entry("10.20.0.32/28", "10.20.0.32/28"));
    assert_eq!(entries[1], entry("alpha", "10.20.0.16/28"));
    assert_eq!(entries[2], entry("zebra", "10.20.0.0/28"));
}

#[test]
fn round_trip() {
    let mut space = MemorySpace::new(test_cidr4());
    space.allocate(4, Some("a-name")).unwrap();
    space.allocate(6, None).unwrap();
    space.claim(&b4(10, 20, 128, 0, 24), Some("claimed")).unwrap();
    let entries = to_entries(&space);
    let rebuilt = from_entries(test_cidr4(), &entries).unwrap();
    assert_eq!(rebuilt.records(), space.records());
    assert_eq!(rebuilt.find_by_name("a-name"), space.find_by_name("a-name"));
    assert_eq!(rebuilt.find_by_name("claimed"), space.find_by_name("claimed"));
}

#[test]
fn rebuild_order_does_not_matter() {
    let mut space = MemorySpace::new(test_cidr4());
    space.allocate(4, Some("a-name")).unwrap();
    space.allocate(6, None).unwrap();
    space.allocate(8, Some("wide")).unwrap();
    let mut entries = to_entries(&space);
    entries.reverse();
    let rebuilt = from_entries(test_cidr4(), &entries).unwrap();
    assert_eq!(rebuilt.records(), space.records());
}

#[test]
fn rebuild_unparsable_block() {
    let entries = vec![entry("a-name", "not-a-cidr")];
    let result = from_entries(test_cidr4(), &entries);
    assert_eq!(result.err(), Some(DecodeError::UnparsableBlock));
}

#[test]
fn rebuild_duplicate_key() {
    let entries = vec![
        entry("a-name", "10.20.0.0/28"),
        entry("a-name", "10.20.0.16/28"),
    ];
    let result = from_entries(test_cidr4(), &entries);
    assert_eq!(result.err(), Some(DecodeError::DuplicateName));
}

#[test]
fn rebuild_overlapping_blocks() {
    let entries = vec![
        entry("a-name", "10.20.0.0/24"),
        entry("b-name", "10.20.0.16/28"),
    ];
    let result = from_entries(test_cidr4(), &entries);
    assert_eq!(result.err(), Some(DecodeError::NoSpaceAvailable));
}

#[test]
fn rebuild_block_out_of_range() {
    let entries = vec![entry("a-name", "10.30.0.0/24")];
    let result = from_entries(test_cidr4(), &entries);
    assert_eq!(result.err(), Some(DecodeError::NoSpaceAvailable));
}

#[test]
fn rebuild_parses_blocks() {
    // an unnamed persisted entry comes back as an unnamed allocation at
    // exactly the written block
    let entries = vec![entry("10.20.0.0/24", "10.20.0.0/24")];
    let rebuilt = from_entries(test_cidr4(), &entries).unwrap();
    let records = rebuilt.records();
    assert_eq!(records.len(), 1);
    assert_eq!(records[0].cidr, b4(10, 20, 0, 0, 24));
    assert_eq!(records[0].name, None);
}

#[test]
fn rebuild_names_entries() {
    let entries = vec![entry("a-name", "10.20.0.0/24")];
    let rebuilt = from_entries(test_cidr4(), &entries).unwrap();
    let records = rebuilt.records();
    assert_eq!(records.len(), 1);
    assert_eq!(records[0].cidr, b4(10, 20, 0, 0, 24));
    assert_eq!(records[0].name.clone().unwrap(), "a-name");
}

#[test]
fn round_trip_v6() {
    let base = IpBlock::v6(&[1, 2, 3, 4, 10, 20, 0, 0], 112).unwrap();
    let mut space = MemorySpace::new(base);
    space.allocate(4, Some("a-name")).unwrap();
    space.allocate(4, None).unwrap();
    let entries = to_entries(&space);
    let rebuilt = from_entries(base, &entries).unwrap();
    assert_eq!(rebuilt.records(), space.records());
}
