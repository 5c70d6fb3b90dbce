use blockdev::lsblk::{parent_devices_from_lsblk, split_lsblk_line, HierarchyError, MissingField};
use regex::Regex;

fn oracle(line: &str) -> Vec<(String, String)> {
    let re = Regex::new(r#"([A-Z-_]+)="([^"]+)""#).unwrap();
    re.captures_iter(line)
        .map(|c| (c[1].to_string(), c[2].to_string()))
        .collect()
}

#[test]
fn split_agrees_with_regex() {
    let cases = [
        r#"NAME="/dev/sda" TYPE="disk""#,
        r#"NAME="" TYPE="disk""#,
        r#"name="x" TYPE="part""#,
        r#"MAJ-MIN_X="8:0" TYPE="disk""#,
        r#"NAME="/dev/sd"a" TYPE="x""#,
        r#"xNAME="a"b"#,
        r#"NAME="a"TYPE="b""#,
        r#"NAME=x TYPE="lvm""#,
        r#"NAME="unterminated"#,
        r#"A="1" A="2""#,
        r#"NAME="é ü" TYPE="loop""#,
        "",
        r#"="x" NAME=="y" NAME="z""#,
    ];
    for c in cases {
        let got = split_lsblk_line(c).pairs;
        assert_eq!(got, oracle(c), "input {c:?}");
    }
}

#[test]
fn later_field_wins() {
    let f = split_lsblk_line(r#"A="1" B="x" A="2""#);
    assert_eq!(f.get("A").map(|s| s.as_str()), Some("2"));
    assert_eq!(f.get("B").map(|s| s.as_str()), Some("x"));
    assert_eq!(f.get("C"), None);
}

#[test]
fn printed_pairs_roundtrip() {
    let pairs = vec![
        ("NAME".to_string(), "/dev/vda".to_string()),
        ("TYPE".to_string(), "disk".to_string()),
        ("MAJ-MIN".to_string(), "252:0".to_string()),
        ("NAME".to_string(), "a b=c".to_string()),
    ];
    let line = pairs
        .iter()
        .map(|(k, v)| format!("{k}=\"{v}\""))
        .collect::<Vec<_>>()
        .join(" ");
    assert_eq!(split_lsblk_line(&line).pairs, pairs);
}

#[test]
fn parents_skip_self_and_partitions() {
    let out = "NAME=\"/dev/sda2\" TYPE=\"part\"\nNAME=\"/dev/sda\" TYPE=\"disk\"\n";
    assert_eq!(
        parent_devices_from_lsblk("/dev/sda2", out),
        Ok(vec!["/dev/sda".to_string()])
    );
}

#[test]
fn parents_stop_at_multipath() {
    let out = [
        "NAME=\"/dev/mapper/root\" TYPE=\"lvm\"",
        "NAME=\"/dev/loop0\" TYPE=\"loop\"",
        "NAME=\"/dev/mapper/mpatha\" TYPE=\"mpath\"",
        "NAME=\"/dev/sdb\" TYPE=\"disk\"",
        "NAME=\"/dev/sdc\" TYPE=\"disk\"",
    ]
    .join("\n");
    let out = out.as_str();
    assert_eq!(
        parent_devices_from_lsblk("/dev/mapper/root", out),
        Ok(vec![
            "/dev/loop0".to_string(),
            "/dev/mapper/mpatha".to_string()
        ])
    );
}

#[test]
fn parents_of_lone_device() {
    assert_eq!(
        parent_devices_from_lsblk("/dev/vda", "NAME=\"/dev/vda\" TYPE=\"disk\"\n"),
        Ok(vec![])
    );
    assert_eq!(parent_devices_from_lsblk("/dev/vda", ""), Ok(vec![]));
}

#[test]
fn parents_missing_fields() {
    let e = parent_devices_from_lsblk("/dev/x", "self\nTYPE=\"disk\"\n").unwrap_err();
    assert_eq!(
        e,
        HierarchyError {
            device: "/dev/x".to_string(),
            missing: MissingField::Name
        }
    );
    assert_eq!(e.message(), "device in hierarchy of /dev/x missing NAME");
    let e = parent_devices_from_lsblk("/dev/x", "self\r\nNAME=\"/dev/y\"\r\n").unwrap_err();
    assert_eq!(e.missing, MissingField::Type);
    assert_eq!(e.message(), "device in hierarchy of /dev/x missing TYPE");
}
