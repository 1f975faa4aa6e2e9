use rustic::blob::{BlobType, IndexBlob, IndexFile, IndexPack};
use rustic::copy::{
    copy, copy_tree, relevant_snapshots, same_backup, BlobsToCopy, CopyError, CopyPlan,
};
use rustic::id::Id;
use rustic::idmap::{IdMap, IdSet};
use rustic::index::IndexBackend;
use rustic::snapshot::SnapshotFile;
use rustic::tree::{Metadata, Node, Timestamp, Tree};

fn id(n: u8) -> Id {
    Id::new([n; 32])
}

fn snap(n: u8, tree: Id) -> SnapshotFile {
    SnapshotFile {
        id: id(n),
        time: Timestamp { secs: n as i64, nanos: 0 },
        parent: None,
        tree,
        paths: vec!["/p".to_string()],
        hostname: "h".to_string(),
        username: None,
        tags: vec!["t".to_string()],
        label: None,
        original: None,
    }
}

fn meta() -> Metadata {
    Metadata::new(0, None, None, None, 0, 0, 0, None, None, 0, 0, 0)
}

fn file(name: &[u8], content: Vec<Id>) -> Node {
    let mut n = Node::new_file(name.to_vec(), meta());
    n.content = Some(content);
    n
}

fn dir(name: &[u8], subtree: Option<Id>) -> Node {
    let mut n = Node::new_dir(name.to_vec(), meta());
    n.subtree = subtree;
    n
}

fn tree_of(nodes: Vec<Node>) -> Tree {
    let mut tree = Tree::new();
    for node in nodes {
        tree.add(node);
    }
    tree
}

fn index_of(blobs: Vec<(BlobType, Id)>) -> IndexBackend {
    let mut file = IndexFile::new();
    let blobs = blobs
        .into_iter()
        .map(|(tpe, id)| IndexBlob { id, tpe, offset: 0, length: 40, uncompressed_length: None })
        .collect();
    file.add(IndexPack { id: id(0xee), blobs, size: None }, false);
    IndexBackend::new(&vec![file])
}

#[test]
fn backups_are_the_same_but_for_their_names() {
    let a = snap(1, id(9));
    let mut b = snap(1, id(9));
    b.id = id(2);
    b.parent = Some(id(3));
    assert!(same_backup(&a, &b));
    for change in 0..8 {
        let mut c = snap(1, id(9));
        match change {
            0 => c.time.nanos = 1,
            1 => c.tree = id(8),
            2 => c.paths.push("/q".to_string()),
            3 => c.hostname = "other".to_string(),
            4 => c.username = Some(String::new()),
            5 => c.tags = vec!["T".to_string()],
            6 => c.label = Some("l".to_string()),
            _ => c.original = Some(id(1)),
        }
        assert!(!same_backup(&a, &c), "{change}");
    }
}

#[test]
fn snapshots_that_the_destination_has_are_not_copied() {
    let snaps = vec![snap(1, id(9)), snap(2, id(9)), snap(3, id(9))];
    let mut there = snap(2, id(9));
    there.id = id(0x77);
    there.parent = Some(id(0x78));
    let (to_copy, status) = relevant_snapshots(&snaps, &vec![there, snap(4, id(9))]);
    assert_eq!(status, vec![(id(1), true), (id(2), false), (id(3), true)]);
    assert_eq!(to_copy.len(), 2);
    assert_eq!(to_copy[0], snap(1, id(9)).clear_ids());
    assert_eq!(to_copy[1].time.secs, 3);
    assert!(to_copy.iter().all(|s| s.id.is_null() && s.parent.is_none()));
}

#[test]
fn walk_notes_what_the_destination_lacks() {
    let leaf = tree_of(vec![file(b"a", vec![id(1), id(2), id(1)]), file(b"b", vec![id(3)])]);
    let leaf_id = leaf.serialize().1;
    let root = tree_of(vec![
        dir(b"d", Some(leaf_id)),
        dir(b"e", Some(leaf_id)),
        dir(b"none", None),
        file(b"c", vec![id(4)]),
        Node::new_symlink(b"l".to_vec(), b"c".to_vec(), meta()),
    ]);
    let root_id = root.serialize().1;
    let mut src = IdMap::new();
    src.insert(leaf_id, leaf);
    src.insert(root_id, root);
    let dest = index_of(vec![(BlobType::Data, id(2)), (BlobType::Tree, id(4))]);

    let plan = copy(&vec![snap(1, root_id)], &src, &vec![], &dest, false, 10).unwrap();
    match plan {
        CopyPlan::Copy(snaps, blobs) => {
            assert_eq!(snaps, vec![snap(1, root_id).clear_ids()]);
            // every meeting of a tree is noted, every tree walked once
            assert_eq!(blobs.trees, vec![root_id, leaf_id, leaf_id]);
            assert_eq!(blobs.data, vec![id(1), id(1), id(3), id(4)]);
        }
        other => panic!("{other:?}"),
    }
}

#[test]
fn destination_with_everything_needs_no_blob() {
    let root = tree_of(vec![file(b"c", vec![id(4)])]);
    let root_id = root.serialize().1;
    let mut src = IdMap::new();
    src.insert(root_id, root);
    let dest = index_of(vec![(BlobType::Data, id(4)), (BlobType::Tree, root_id)]);
    match copy(&vec![snap(1, root_id)], &src, &vec![], &dest, false, 10).unwrap() {
        CopyPlan::Copy(snaps, blobs) => {
            assert_eq!(snaps.len(), 1);
            assert!(blobs.trees.is_empty());
            assert!(blobs.data.is_empty());
        }
        other => panic!("{other:?}"),
    }
}

#[test]
fn dry_run_only_counts() {
    let src = IdMap::new();
    let dest = IndexBackend::empty();
    let snaps = vec![snap(1, id(9)), snap(2, id(9))];
    assert!(matches!(
        copy(&snaps, &src, &vec![snap(2, id(9))], &dest, true, 10),
        Ok(CopyPlan::WouldCopy(1))
    ));
    assert!(matches!(copy(&vec![], &src, &vec![], &dest, true, 10), Ok(CopyPlan::WouldCopy(0))));
    assert!(matches!(copy(&vec![], &src, &vec![], &dest, false, 10), Ok(CopyPlan::Nothing)));
    assert!(matches!(
        copy(&snaps, &src, &vec![snap(2, id(9)), snap(1, id(9))], &dest, false, 10),
        Ok(CopyPlan::Nothing)
    ));
}

#[test]
fn tree_that_does_not_load_stops_the_copy() {
    let root = tree_of(vec![dir(b"d", Some(id(0x55)))]);
    let root_id = root.serialize().1;
    let mut src = IdMap::new();
    src.insert(root_id, root);
    let dest = IndexBackend::empty();
    assert!(matches!(
        copy(&vec![snap(1, root_id)], &src, &vec![], &dest, false, 10),
        Err(CopyError::TreeMissing)
    ));
    assert!(matches!(
        copy(&vec![snap(1, id(1))], &IdMap::new(), &vec![], &dest, false, 10),
        Err(CopyError::TreeMissing)
    ));
}

#[test]
fn nesting_beyond_the_limit_stops_the_copy() {
    let leaf = tree_of(vec![]);
    let leaf_id = leaf.serialize().1;
    let root = tree_of(vec![dir(b"d", Some(leaf_id))]);
    let root_id = root.serialize().1;
    let mut src = IdMap::new();
    src.insert(leaf_id, leaf);
    src.insert(root_id, root);
    let dest = IndexBackend::empty();
    let walk = |depth: usize| {
        let mut out = BlobsToCopy { data: vec![], trees: vec![] };
        let mut visited = IdSet::new();
        copy_tree(&src, &dest, root_id, &mut out, &mut visited, depth).map(|_| out.trees)
    };
    assert_eq!(walk(0), Err(CopyError::TooDeep));
    assert_eq!(walk(1), Err(CopyError::TooDeep));
    assert_eq!(walk(2), Ok(vec![leaf_id]));
}
