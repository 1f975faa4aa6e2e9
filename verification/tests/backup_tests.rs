use rustic::backup::{
    latest_snapshot, map_entry, parse_polynomial, snapshot_covers, EntryError, EntryKind, Stat,
};
use rustic::id::Id;
use rustic::snapshot::SnapshotFile;
use rustic::tree::{NodeType, Timestamp};

#[test]
fn polynomial_is_read_from_hex_digits() {
    assert_eq!(parse_polynomial("3da3358b4dc173"), Some(0x3DA3358B4DC173));
    assert_eq!(parse_polynomial("3DA3358B4DC173"), Some(0x3DA3358B4DC173));
    assert_eq!(parse_polynomial("0"), Some(0));
    assert_eq!(parse_polynomial("000f"), Some(15));
    assert_eq!(parse_polynomial("ffffffffffffffff"), Some(u64::MAX));
}

#[test]
fn other_text_is_no_polynomial() {
    assert_eq!(parse_polynomial(""), None);
    assert_eq!(parse_polynomial("10000000000000000"), None);
    assert_eq!(parse_polynomial("0x12"), None);
    assert_eq!(parse_polynomial("12g"), None);
    assert_eq!(parse_polynomial(" 12"), None);
    assert_eq!(parse_polynomial("-1"), None);
    assert_eq!(parse_polynomial("é"), None);
}

fn snap(n: u8, secs: i64, nanos: u32, paths: &[&str]) -> SnapshotFile {
    SnapshotFile {
        id: Id::new([n; 32]),
        time: Timestamp { secs, nanos },
        parent: None,
        tree: Id::new([0; 32]),
        paths: paths.iter().map(|p| p.to_string()).collect(),
        hostname: String::new(),
        username: None,
        tags: vec![],
        label: None,
        original: None,
    }
}

#[test]
fn parent_is_the_latest_backup_of_the_path() {
    let snaps = vec![
        snap(1, 10, 0, &["/a"]),
        snap(2, 30, 5, &["/b", "/a"]),
        snap(3, 30, 6, &["/b"]),
        snap(4, 30, 5, &["/a"]),
        snap(5, 20, 9, &["/a"]),
        snap(6, -5, 0, &["/c"]),
    ];
    assert_eq!(latest_snapshot(&snaps, &"/a".to_string()), Some(1));
    assert_eq!(latest_snapshot(&snaps, &"/b".to_string()), Some(2));
    assert_eq!(latest_snapshot(&snaps, &"/c".to_string()), Some(5));
    assert_eq!(latest_snapshot(&snaps, &"/d".to_string()), None);
    assert_eq!(latest_snapshot(&snaps, &"/".to_string()), None);
    assert_eq!(latest_snapshot(&vec![], &"/a".to_string()), None);
    assert!(snapshot_covers(&snaps[1], &"/a".to_string()));
    assert!(!snapshot_covers(&snaps[2], &"/a".to_string()));
}

fn stat() -> Stat {
    Stat {
        size: 12,
        modified: Some(Timestamp { secs: 100, nanos: 1 }),
        accessed: Some(Timestamp { secs: 200, nanos: 2 }),
        ctime: 300,
        ctime_nsec: 3,
        mode: 0o100644,
        uid: 1000,
        gid: 100,
        user: Some(b"me".to_vec()),
        group: Some(b"us".to_vec()),
        inode: 5,
        device_id: 6,
        links: 2,
    }
}

#[test]
fn access_time_is_the_modification_time_unless_asked_for() {
    let (node, read) = map_entry(b"f".to_vec(), EntryKind::File, stat(), false).unwrap();
    assert!(read);
    assert_eq!(node.meta.mtime, Some(Timestamp { secs: 100, nanos: 1 }));
    assert_eq!(node.meta.atime, Some(Timestamp { secs: 100, nanos: 1 }));
    let (node, _) = map_entry(b"f".to_vec(), EntryKind::File, stat(), true).unwrap();
    assert_eq!(node.meta.atime, Some(Timestamp { secs: 200, nanos: 2 }));
    let mut unknown = stat();
    unknown.modified = None;
    let (node, _) = map_entry(b"f".to_vec(), EntryKind::File, unknown, false).unwrap();
    assert_eq!(node.meta.atime, None);
}

#[test]
fn entry_carries_its_metadata() {
    let (node, read) = map_entry(b"f".to_vec(), EntryKind::File, stat(), true).unwrap();
    assert!(read);
    assert_eq!(node.name, b"f".to_vec());
    assert_eq!(node.node_type, NodeType::File);
    assert_eq!(node.meta.size, 12);
    assert_eq!(node.meta.ctime, Some(Timestamp { secs: 300, nanos: 3 }));
    assert_eq!(node.meta.mode, 0o100644);
    assert_eq!((node.meta.uid, node.meta.gid), (1000, 100));
    assert_eq!(node.meta.user, Some(b"me".to_vec()));
    assert_eq!(node.meta.group, Some(b"us".to_vec()));
    assert_eq!((node.meta.inode, node.meta.device_id, node.meta.links), (5, 6, 2));
    assert_eq!(node.content, None);
    assert_eq!(node.subtree, None);
    assert_eq!(node.linktarget, None);
}

#[test]
fn only_files_are_read() {
    let (d, read) = map_entry(b"d".to_vec(), EntryKind::Dir, stat(), false).unwrap();
    assert_eq!(d.node_type, NodeType::Dir);
    assert!(!read);
    let (l, read) =
        map_entry(b"l".to_vec(), EntryKind::Symlink(b"../t".to_vec()), stat(), false).unwrap();
    assert_eq!(l.node_type, NodeType::Symlink);
    assert_eq!(l.linktarget, Some(b"../t".to_vec()));
    assert!(!read);
}

#[test]
fn change_time_must_fit() {
    let mut s = stat();
    s.ctime_nsec = -1;
    assert_eq!(map_entry(vec![], EntryKind::File, s, false).err(), Some(EntryError::BadChangeTime));
    let mut s = stat();
    s.ctime_nsec = u32::MAX as i64 + 1;
    assert_eq!(map_entry(vec![], EntryKind::File, s, false).err(), Some(EntryError::BadChangeTime));
    let mut s = stat();
    s.ctime_nsec = u32::MAX as i64;
    s.ctime = -7;
    let (node, _) = map_entry(vec![], EntryKind::File, s, false).unwrap();
    assert_eq!(node.meta.ctime, Some(Timestamp { secs: -7, nanos: u32::MAX }));
}
