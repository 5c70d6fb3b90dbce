use blockdev::device::{first_listed_device, Device, ListError, SysfsFiles};
use blockdev::num::IntErrorKind;
use blockdev::partition::{MissingPartition, Partition, PartitionTable, PartitionType};

fn dev(name: &str, maj_min: Option<&str>, children: Option<Vec<Device>>) -> Device {
    Device {
        name: name.to_string(),
        serial: None,
        model: None,
        partlabel: None,
        parttype: None,
        partuuid: None,
        children,
        size: 1048576,
        maj_min: maj_min.map(|s| s.to_string()),
        start: None,
        label: None,
        fstype: None,
        path: None,
    }
}

fn files(entries: &[(&str, &str)]) -> SysfsFiles {
    SysfsFiles {
        files: entries
            .iter()
            .map(|(p, c)| (p.to_string(), c.to_string()))
            .collect(),
    }
}

#[test]
fn device_path_falls_back_to_dev() {
    let mut d = dev("vda", None, None);
    assert_eq!(d.path(), "/dev/vda");
    d.path = Some("/dev/disk/x".to_string());
    assert_eq!(d.path(), "/dev/disk/x");
}

#[test]
fn children_presence() {
    assert!(!dev("vda", None, None).has_children());
    assert!(!dev("vda", None, Some(vec![])).has_children());
    assert!(dev("vda", None, Some(vec![dev("vda1", None, None)])).has_children());
}

#[test]
fn sysfs_start_path_from_maj_min() {
    assert_eq!(
        dev("vda1", Some("252:1"), None).sysfs_start_path(),
        Some("/sys/dev/block/252:1/start".to_string())
    );
    assert_eq!(dev("vda", None, None).sysfs_start_path(), None);
}

#[test]
fn backfill_fills_whole_tree() {
    let mut d = dev(
        "vda",
        Some("252:0"),
        Some(vec![
            dev("vda1", Some("252:1"), None),
            dev("vda2", Some("252:2"), None),
        ]),
    );
    let f = files(&[
        ("/sys/dev/block/252:1/start", "2048\n"),
        ("/sys/dev/block/252:2/start", " 4096 "),
    ]);
    assert_eq!(d.backfill_missing(&f), Ok(()));
    assert_eq!(d.start, None);
    let kids = d.children.as_ref().unwrap();
    assert_eq!(kids[0].start, Some(2048));
    assert_eq!(kids[1].start, Some(4096));
    assert_eq!(kids[0].name, "vda1");
}

#[test]
fn backfill_stops_at_first_bad_value() {
    let mut d = dev(
        "vda",
        Some("252:0"),
        Some(vec![
            dev("vda1", Some("252:1"), None),
            dev("vda2", Some("252:2"), None),
            dev("vda3", Some("252:3"), None),
        ]),
    );
    let f = files(&[
        ("/sys/dev/block/252:1/start", "2048"),
        ("/sys/dev/block/252:2/start", "x"),
        ("/sys/dev/block/252:3/start", "9"),
    ]);
    assert_eq!(d.backfill_missing(&f), Err(IntErrorKind::InvalidDigit));
    let kids = d.children.as_ref().unwrap();
    assert_eq!(kids[0].start, Some(2048));
    assert_eq!(kids[1].start, None);
    assert_eq!(kids[2].start, None);
}

#[test]
fn first_listed_device_cases() {
    assert_eq!(
        first_listed_device(vec![], &files(&[])).err(),
        Some(ListError::NoDevice)
    );
    let f = files(&[("/sys/dev/block/8:0/start", "17")]);
    let d = first_listed_device(vec![dev("sda", Some("8:0"), None), dev("sdb", None, None)], &f)
        .ok()
        .unwrap();
    assert_eq!(d.name, "sda");
    assert_eq!(d.start, Some(17));
    let f = files(&[("/sys/dev/block/8:16/start", "")]);
    assert_eq!(
        first_listed_device(vec![dev("sda", None, None), dev("sdb", Some("8:16"), None)], &f).err(),
        Some(ListError::Backfill(IntErrorKind::Empty))
    );
}

fn part(node: &str, start: u64) -> Partition {
    Partition {
        node: node.to_string(),
        start,
        size: 100,
        parttype: "0FC63DAF-8483-4772-8E79-3D69D8477DE4".to_string(),
        uuid: None,
        name: None,
    }
}

fn table() -> PartitionTable {
    PartitionTable {
        label: PartitionType::Gpt,
        id: "id".to_string(),
        device: "/dev/vda".to_string(),
        partitions: vec![part("/dev/vda1", 2048), part("/dev/vda2", 4096), part("/dev/vda2", 9)],
    }
}

#[test]
fn find_by_node() {
    let t = table();
    assert_eq!(t.find("/dev/vda2").unwrap().start, 4096);
    assert_eq!(t.find("/dev/vda1").unwrap().start, 2048);
    assert!(t.find("/dev/vda9").is_none());
    assert_eq!(t.label, PartitionType::Gpt);
}

#[test]
fn find_by_number() {
    let t = table();
    assert_eq!(t.find_partno(1).ok().unwrap().node, "/dev/vda1");
    assert_eq!(t.find_partno(3).ok().unwrap().start, 9);
    assert_eq!(t.find_partno(4).err(), Some(MissingPartition { partno: 4 }));
}

#[test]
fn missing_partition_message() {
    assert_eq!(
        MissingPartition { partno: 12 }.message(),
        "Missing partition for index 12"
    );
}

#[test]
fn backfill_keeps_start_already_given() {
    let mut child = dev("vda1", Some("252:1"), None);
    child.start = Some(34);
    let mut d = dev("vda", None, Some(vec![child, dev("vda2", Some("252:2"), None)]));
    let f = files(&[
        ("/sys/dev/block/252:1/start", "not a number"),
        ("/sys/dev/block/252:2/start", "4096"),
    ]);
    assert_eq!(d.backfill_missing(&f), Ok(()));
    let kids = d.children.as_ref().unwrap();
    assert_eq!(kids[0].start, Some(34));
    assert_eq!(kids[1].start, Some(4096));
}
