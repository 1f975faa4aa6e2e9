use rustic::blob::BlobType;
use rustic::hasher::hash;
use rustic::id::Id;
use rustic::packer::Plain;
use rustic::snapshot::SnapshotFile;
use rustic::tree::Timestamp;
use rustic::writer::{Write, Writer};

fn snap(n: u8) -> SnapshotFile {
    SnapshotFile {
        id: Id::new([n; 32]),
        time: Timestamp { secs: n as i64, nanos: 0 },
        parent: None,
        tree: Id::new([9; 32]),
        paths: vec![],
        hostname: "h".to_string(),
        username: None,
        tags: vec![],
        label: None,
        original: None,
    }
}

fn kinds(writes: &[Write]) -> String {
    writes
        .iter()
        .map(|w| match w {
            Write::Pack(_) => 'P',
            Write::Index(_) => 'I',
            Write::Snapshot(..) => 'S',
        })
        .collect()
}

#[test]
fn packs_are_written_as_they_fill_up() {
    let mut writer = Writer::new(Plain, Plain, 10, 3);
    assert!(writer.add(BlobType::Data, &[1; 6], hash(&[1; 6])).unwrap().is_empty());
    assert!(writer.has(BlobType::Data, &hash(&[1; 6])));
    assert!(!writer.has(BlobType::Tree, &hash(&[1; 6])));
    // the same blob again: dropped
    assert!(writer.add(BlobType::Data, &[1; 6], hash(&[1; 6])).unwrap().is_empty());
    let writes = writer.add(BlobType::Data, &[2; 6], hash(&[2; 6])).unwrap();
    assert_eq!(kinds(&writes), "P");
    match &writes[0] {
        Write::Pack(pack) => {
            assert_eq!(pack.payload_len, 12);
            assert_eq!(pack.index.blobs.len(), 2);
            assert_eq!(pack.id, hash(&pack.bytes[12..pack.bytes.len() - 4]));
        }
        other => panic!("{other:?}"),
    }
    // known from the pack that was written
    assert!(writer.has(BlobType::Data, &hash(&[1; 6])));
    assert!(writer.add(BlobType::Data, &[1; 6], hash(&[1; 6])).unwrap().is_empty());
    // the third blob of the run makes the index due
    let writes = writer.add(BlobType::Tree, &[3; 20], hash(&[3; 20])).unwrap();
    assert_eq!(kinds(&writes), "PI");
    match &writes[1] {
        Write::Index(file) => {
            assert_eq!(file.packs.len(), 2);
            assert_eq!(file.packs[0].blobs.len(), 2);
            assert_eq!(file.packs[1].blobs[0].tpe, BlobType::Tree);
        }
        other => panic!("{other:?}"),
    }
}

#[test]
fn snapshots_are_written_last() {
    let mut writer = Writer::new(Plain, Plain, 1000, 1000);
    assert!(writer.add(BlobType::Data, b"d", hash(b"d")).unwrap().is_empty());
    assert!(writer.add(BlobType::Tree, b"t", hash(b"t")).unwrap().is_empty());
    let snaps = vec![snap(1), snap(2)];
    let writes = writer.finalize(&snaps).unwrap();
    assert_eq!(kinds(&writes), "PPISS");
    match (&writes[0], &writes[1]) {
        (Write::Pack(data), Write::Pack(trees)) => {
            assert_eq!(data.index.blobs[0].tpe, BlobType::Data);
            assert_eq!(trees.index.blobs[0].tpe, BlobType::Tree);
        }
        other => panic!("{other:?}"),
    }
    for (write, snap) in writes[3..].iter().zip(&snaps) {
        match write {
            Write::Snapshot(id, bytes) => {
                assert_eq!((bytes.clone(), *id), snap.serialize());
                assert_eq!(*id, hash(bytes));
            }
            other => panic!("{other:?}"),
        }
    }
}

#[test]
fn run_without_blobs_writes_only_its_snapshots() {
    let writer = Writer::new(Plain, Plain, 1000, 1000);
    assert_eq!(kinds(&writer.finalize(&vec![snap(1)]).unwrap()), "S");
    let writer = Writer::new(Plain, Plain, 1000, 1000);
    assert!(writer.finalize(&vec![]).unwrap().is_empty());
    let mut writer = Writer::new(Plain, Plain, 1, 1);
    assert_eq!(kinds(&writer.add(BlobType::Data, b"d", hash(b"d")).unwrap()), "PI");
    assert_eq!(kinds(&writer.finalize(&vec![]).unwrap()), "");
}

#[test]
fn every_pack_of_the_run_is_described_in_an_index() {
    // four blobs make an index file: the first pack waits for the second
    let mut writer = Writer::new(Plain, Plain, 10, 4);
    assert!(writer.add(BlobType::Data, &[1; 5], hash(&[1; 5])).unwrap().is_empty());
    let first = writer.add(BlobType::Data, &[2; 5], hash(&[2; 5])).unwrap();
    assert_eq!(kinds(&first), "P");
    assert!(writer.add(BlobType::Tree, &[3; 5], hash(&[3; 5])).unwrap().is_empty());
    assert!(writer.add(BlobType::Data, &[4; 5], hash(&[4; 5])).unwrap().is_empty());
    let last = writer.finalize(&vec![]).unwrap();
    assert_eq!(kinds(&last), "PPI");
    let described: Vec<Id> = match &last[2] {
        Write::Index(file) => {
            assert!(file.packs_to_delete.is_empty());
            file.packs.iter().map(|p| p.id).collect()
        }
        other => panic!("{other:?}"),
    };
    let written: Vec<Id> = first
        .iter()
        .chain(&last)
        .filter_map(|w| match w {
            Write::Pack(pack) => Some(pack.id),
            _ => None,
        })
        .collect();
    assert_eq!(described, written);
    // the data pack comes before the tree pack
    match (&last[0], &last[1]) {
        (Write::Pack(data), Write::Pack(trees)) => {
            assert_eq!(data.index.blobs[0].id, hash(&[4; 5]));
            assert_eq!(trees.index.blobs[0].id, hash(&[3; 5]));
        }
        other => panic!("{other:?}"),
    }
}

#[test]
fn adding_to_one_packer_leaves_the_other() {
    let mut writer = Writer::new(Plain, Plain, 10, 1000);
    assert!(writer.add(BlobType::Tree, &[7; 4], hash(&[7; 4])).unwrap().is_empty());
    // data blobs fill and seal the data pack; the tree blob stays where it is
    assert!(writer.add(BlobType::Data, &[1; 6], hash(&[1; 6])).unwrap().is_empty());
    let writes = writer.add(BlobType::Data, &[2; 6], hash(&[2; 6])).unwrap();
    assert_eq!(kinds(&writes), "P");
    match &writes[0] {
        Write::Pack(pack) => {
            assert_eq!(pack.index.blobs.len(), 2);
            assert!(pack.index.blobs.iter().all(|b| b.tpe == BlobType::Data));
        }
        other => panic!("{other:?}"),
    }
    // the index knows the blobs of the sealed pack, and no others
    assert!(writer.has(BlobType::Data, &hash(&[1; 6])));
    assert!(writer.has(BlobType::Data, &hash(&[2; 6])));
    assert!(!writer.has(BlobType::Tree, &hash(&[1; 6])));
    assert!(writer.has(BlobType::Tree, &hash(&[7; 4])));
    assert!(!writer.has(BlobType::Data, &hash(&[7; 4])));
    let writes = writer.finalize(&vec![]).unwrap();
    assert_eq!(kinds(&writes), "PI");
    match &writes[0] {
        Write::Pack(pack) => {
            assert_eq!(pack.index.blobs.len(), 1);
            assert_eq!(pack.index.blobs[0].id, hash(&[7; 4]));
            assert_eq!(pack.index.blobs[0].tpe, BlobType::Tree);
        }
        other => panic!("{other:?}"),
    }
}

#[test]
fn stored_blob_is_packed_as_it_is_handed_over() {
    let mut writer = Writer::new(Plain, Plain, 10, 1000);
    let a = hash(b"plain a");
    let b = hash(b"plain b");
    assert!(writer.add_stored(BlobType::Data, b"plain a", a, vec![9; 4]).unwrap().is_empty());
    assert!(writer.has(BlobType::Data, &a));
    assert!(!writer.has(BlobType::Tree, &a));
    // held in the open pack: dropped, whatever is handed over
    assert!(writer.add_stored(BlobType::Data, b"plain a", a, vec![1; 50]).unwrap().is_empty());
    // the other kind has a pack of its own
    assert!(writer.add_stored(BlobType::Tree, b"plain a", a, vec![5; 3]).unwrap().is_empty());
    // the target is reached: the pack holds what was handed over
    let writes = writer.add_stored(BlobType::Data, b"plain b", b, vec![7; 6]).unwrap();
    assert_eq!(kinds(&writes), "P");
    match &writes[0] {
        Write::Pack(pack) => {
            assert_eq!(pack.payload_len, 10);
            assert_eq!(&pack.bytes[..10], &[9, 9, 9, 9, 7, 7, 7, 7, 7, 7]);
            assert_eq!(pack.index.blobs.len(), 2);
            assert_eq!(pack.index.blobs[0].id, a);
            assert_eq!(pack.index.blobs[1].id, b);
            assert_eq!(pack.index.blobs[1].offset, 4);
            assert_eq!(pack.index.blobs[1].data_length(), 7);
        }
        other => panic!("{other:?}"),
    }
    // packed: known to the run, and dropped when it comes again
    assert!(writer.has(BlobType::Data, &a));
    assert!(writer.add_stored(BlobType::Data, b"plain a", a, vec![9; 4]).unwrap().is_empty());
    let writes = writer.finalize(&vec![]).unwrap();
    assert_eq!(kinds(&writes), "PI");
    match &writes[0] {
        Write::Pack(pack) => {
            assert_eq!(pack.index.blobs.len(), 1);
            assert_eq!(pack.index.blobs[0].tpe, BlobType::Tree);
            assert_eq!(&pack.bytes[..3], &[5, 5, 5]);
        }
        other => panic!("{other:?}"),
    }
}
