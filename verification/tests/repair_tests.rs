use rustic::blob::{BlobType, IndexBlob, IndexFile, IndexPack};
use rustic::hasher::hash;
use rustic::id::Id;
use rustic::idmap::{IdMap, IdSet};
use rustic::index::IndexBackend;
use rustic::repair::{
    repair_file, repair_snaps, repair_tree, Changed, IndexedBackend, RepairError, SnapOpts,
};
use rustic::snapshot::SnapshotFile;
use rustic::tree::{Metadata, Node, Timestamp, Tree};

fn meta(size: u64) -> Metadata {
    Metadata::new(size, None, None, None, 0o644, 0, 0, None, None, 0, 0, 1)
}

fn id(n: u8) -> Id {
    Id::new([n; 32])
}

fn data_blob(n: u8, length: u32) -> IndexBlob {
    IndexBlob { id: id(n), tpe: BlobType::Data, offset: 0, length, uncompressed_length: None }
}

fn index_of(blobs: Vec<IndexBlob>) -> IndexBackend {
    let mut file = IndexFile::new();
    file.add(IndexPack { id: id(0xee), blobs, size: None }, false);
    IndexBackend::new(&vec![file])
}

fn file(name: &[u8], content: Vec<Id>, size: u64) -> Node {
    let mut node = Node::new_file(name.to_vec(), meta(size));
    node.content = Some(content);
    node
}

fn dir(name: &[u8], subtree: Option<Id>) -> Node {
    let mut node = Node::new_dir(name.to_vec(), meta(0));
    node.subtree = subtree;
    node
}

fn tree_of(nodes: Vec<Node>) -> Tree {
    let mut tree = Tree::new();
    for node in nodes {
        tree.add(node);
    }
    tree
}

fn store(trees: Vec<Tree>) -> (IdMap<Tree>, Vec<Id>) {
    let mut map = IdMap::new();
    let mut ids = Vec::new();
    for tree in trees {
        let (_, id) = tree.serialize();
        ids.push(id);
        map.insert(id, tree);
    }
    (map, ids)
}

struct Run {
    saved: Vec<(Vec<u8>, Id)>,
    replaced: IdMap<(Changed, Id)>,
    seen: IdSet,
}

fn run() -> Run {
    Run { saved: Vec::new(), replaced: IdMap::new(), seen: IdSet::new() }
}

fn repair(
    be: &IndexedBackend,
    run: &mut Run,
    id: Option<Id>,
    dry_run: bool,
    depth: usize,
) -> Result<(Changed, Id), RepairError> {
    repair_tree(
        be,
        &mut run.saved,
        id,
        &mut run.replaced,
        &mut run.seen,
        dry_run,
        b".repaired",
        depth,
    )
}

fn empty_id() -> Id {
    Tree::new().serialize().1
}

#[test]
fn file_with_all_blobs_is_unchanged() {
    // plaintext lengths are the stored lengths less the 32 bytes of the codec
    let index = index_of(vec![data_blob(1, 42), data_blob(2, 132)]);
    let mut node = file(b"x", vec![id(1), id(2)], 110);
    assert!(!repair_file(&index, &mut node, b".repaired"));
    assert_eq!(node, file(b"x", vec![id(1), id(2)], 110));
}

#[test]
fn file_with_wrong_size_gets_the_size_of_its_blobs() {
    let index = index_of(vec![data_blob(1, 42), data_blob(2, 132)]);
    let mut node = file(b"x", vec![id(1), id(2)], 7);
    assert!(repair_file(&index, &mut node, b".repaired"));
    assert_eq!(node, file(b"x", vec![id(1), id(2)], 110));
}

#[test]
fn file_with_missing_blob_is_renamed_and_shrunk() {
    let index = index_of(vec![data_blob(1, 42)]);
    let mut node = file(b"x", vec![id(1), id(2), id(1)], 110);
    assert!(repair_file(&index, &mut node, b".repaired"));
    assert_eq!(node, file(b"x.repaired", vec![id(1), id(1)], 20));
}

#[test]
fn compressed_blob_counts_its_uncompressed_length() {
    let mut blob = data_blob(1, 10);
    blob.uncompressed_length = Some(1000);
    let index = index_of(vec![blob]);
    let mut node = file(b"x", vec![id(1)], 1000);
    assert!(!repair_file(&index, &mut node, b".r"));
    assert_eq!(node.meta.size, 1000);
}

#[test]
fn file_without_content_list_is_empty() {
    let index = index_of(vec![]);
    let mut node = Node::new_file(b"x".to_vec(), meta(0));
    assert!(!repair_file(&index, &mut node, b".r"));
    assert_eq!(node.content, Some(Vec::new()));
    assert_eq!(node.name, b"x".to_vec());
}

#[test]
fn tree_blobs_do_not_count_as_data() {
    let mut blob = data_blob(1, 42);
    blob.tpe = BlobType::Tree;
    let index = index_of(vec![blob]);
    let mut node = file(b"x", vec![id(1)], 10);
    assert!(repair_file(&index, &mut node, b".r"));
    assert_eq!(node, file(b"x.r", vec![], 0));
}

#[test]
fn damaged_file_is_renamed_in_a_new_snapshot() {
    // the pack with the only chunk of `x` is gone
    let index = index_of(vec![]);
    let root = tree_of(vec![file(b"x", vec![id(1)], 5)]);
    let (trees, ids) = store(vec![root]);
    let be = IndexedBackend { index, trees };
    let snap = SnapshotFile {
        id: id(0x51),
        time: Timestamp { secs: 10, nanos: 0 },
        parent: None,
        tree: ids[0],
        paths: vec!["/data".to_string()],
        hostname: "host".to_string(),
        username: None,
        tags: vec!["daily".to_string()],
        label: None,
        original: None,
    };
    let opts = SnapOpts {
        delete: true,
        suffix: b".repaired".to_vec(),
        tag: vec!["repaired".to_string()],
    };
    let plan = repair_snaps(&be, &vec![snap.clone()], &opts, false, 64).unwrap();

    let fixed = tree_of(vec![file(b"x.repaired", vec![], 0)]);
    let (fixed_bytes, fixed_id) = fixed.serialize();
    assert_eq!(plan.trees, vec![(fixed_bytes, fixed_id)]);
    assert_eq!(plan.snapshots.len(), 1);
    let new = &plan.snapshots[0];
    assert_eq!(new.tree, fixed_id);
    assert_eq!(new.original, Some(id(0x51)));
    assert_eq!(new.tags, vec!["repaired".to_string()]);
    assert_eq!(new.paths, snap.paths);
    assert_eq!(new.time, snap.time);
    assert_eq!(new.id, new.serialize().1);
    assert_ne!(new.id, snap.id);
    assert_eq!(plan.marked, vec![id(0x51)]);
    assert_eq!(plan.remove, vec![id(0x51)]);
}

#[test]
fn lost_subtree_is_replaced_by_the_empty_tree() {
    let index = index_of(vec![data_blob(1, 42)]);
    let lost = id(0x77);
    let root = tree_of(vec![dir(b"dead", Some(lost)), file(b"ok", vec![id(1)], 10)]);
    let (trees, ids) = store(vec![root]);
    let be = IndexedBackend { index, trees };
    let mut r = run();
    let (changed, new_root) = repair(&be, &mut r, Some(ids[0]), false, 64).unwrap();
    assert_eq!(changed, Changed::SubTree);

    let fixed = tree_of(vec![dir(b"dead.repaired", Some(empty_id())), file(b"ok", vec![id(1)], 10)]);
    assert_eq!(new_root, fixed.serialize().1);
    let saved_ids: Vec<Id> = r.saved.iter().map(|s| s.1).collect();
    assert_eq!(saved_ids, vec![empty_id(), new_root]);
    assert_eq!(r.saved[0].0, Tree::new().serialize().0);
    assert_eq!(r.saved[1].0, fixed.serialize().0);
    assert_eq!(r.replaced.get(&lost), Some(&(Changed::This, empty_id())));
    assert_eq!(r.replaced.get(&ids[0]), Some(&(Changed::SubTree, new_root)));
    assert!(!r.seen.contains(&ids[0]));
}

#[test]
fn damage_propagates_to_the_root() {
    let index = index_of(vec![]);
    let leaf = tree_of(vec![file(b"x", vec![id(1)], 5)]);
    let leaf_id = leaf.serialize().1;
    let mid = tree_of(vec![dir(b"inner", Some(leaf_id))]);
    let mid_id = mid.serialize().1;
    let root = tree_of(vec![dir(b"outer", Some(mid_id))]);
    let (trees, ids) = store(vec![leaf, mid, root]);
    let be = IndexedBackend { index, trees };
    let mut r = run();
    let (changed, new_root) = repair(&be, &mut r, Some(ids[2]), false, 64).unwrap();
    assert_eq!(changed, Changed::SubTree);
    let new_leaf = tree_of(vec![file(b"x.repaired", vec![], 0)]);
    let new_mid = tree_of(vec![dir(b"inner", Some(new_leaf.serialize().1))]);
    let new_top = tree_of(vec![dir(b"outer", Some(new_mid.serialize().1))]);
    assert_eq!(new_root, new_top.serialize().1);
    assert_eq!(r.saved.len(), 3);
}

#[test]
fn intact_tree_keeps_its_identifier() {
    let index = index_of(vec![data_blob(1, 42)]);
    let leaf = tree_of(vec![file(b"x", vec![id(1)], 10)]);
    let leaf_id = leaf.serialize().1;
    let mut other = Node::new_symlink(b"l".to_vec(), b"x".to_vec(), meta(0));
    other.content = Some(vec![id(9)]);
    let root = tree_of(vec![dir(b"d", Some(leaf_id)), other]);
    let (trees, ids) = store(vec![leaf, root]);
    let be = IndexedBackend { index, trees };
    let mut r = run();
    assert_eq!(repair(&be, &mut r, Some(ids[1]), false, 64), Ok((Changed::Intact, ids[1])));
    assert!(r.saved.is_empty());
    assert!(r.seen.contains(&ids[1]));
    assert!(r.seen.contains(&leaf_id));
    assert!(r.replaced.get(&ids[1]).is_none());
}

#[test]
fn missing_root_is_lost() {
    let be = IndexedBackend { index: index_of(vec![]), trees: IdMap::new() };
    let mut r = run();
    assert_eq!(repair(&be, &mut r, Some(id(5)), false, 64), Ok((Changed::This, empty_id())));
    assert_eq!(r.saved.len(), 1);
    let mut r = run();
    assert_eq!(repair(&be, &mut r, None, false, 64), Ok((Changed::This, empty_id())));
    assert_eq!(r.saved, vec![(Tree::new().serialize().0, empty_id())]);
}

#[test]
fn rewritten_tree_that_the_catalog_has_is_not_saved() {
    let mut file_index = IndexFile::new();
    let blob = IndexBlob {
        id: empty_id(),
        tpe: BlobType::Tree,
        offset: 0,
        length: 44,
        uncompressed_length: None,
    };
    file_index.add(IndexPack { id: id(0xee), blobs: vec![blob], size: None }, false);
    let be = IndexedBackend { index: IndexBackend::new(&vec![file_index]), trees: IdMap::new() };
    let mut r = run();
    assert_eq!(repair(&be, &mut r, Some(id(5)), false, 64), Ok((Changed::This, empty_id())));
    assert!(r.saved.is_empty());
}

#[test]
fn dry_run_saves_nothing() {
    let index = index_of(vec![]);
    let root = tree_of(vec![file(b"x", vec![id(1)], 5)]);
    let (trees, ids) = store(vec![root]);
    let be = IndexedBackend { index, trees };
    let mut r = run();
    let (changed, _) = repair(&be, &mut r, Some(ids[0]), true, 64).unwrap();
    assert_eq!(changed, Changed::SubTree);
    assert!(r.saved.is_empty());
}

#[test]
fn shared_subtree_is_repaired_once() {
    let index = index_of(vec![]);
    let leaf = tree_of(vec![file(b"x", vec![id(1)], 5)]);
    let leaf_id = leaf.serialize().1;
    let root = tree_of(vec![dir(b"a", Some(leaf_id)), dir(b"b", Some(leaf_id))]);
    let (trees, ids) = store(vec![leaf, root]);
    let be = IndexedBackend { index, trees };
    let mut r = run();
    let (changed, new_root) = repair(&be, &mut r, Some(ids[1]), false, 64).unwrap();
    assert_eq!(changed, Changed::SubTree);
    let new_leaf = tree_of(vec![file(b"x.repaired", vec![], 0)]).serialize().1;
    let fixed = tree_of(vec![dir(b"a", Some(new_leaf)), dir(b"b", Some(new_leaf))]);
    assert_eq!(new_root, fixed.serialize().1);
    // the leaf is saved once, then the root
    assert_eq!(r.saved.iter().map(|s| s.1).collect::<Vec<_>>(), vec![new_leaf, new_root]);
    // a second call answers from the notes
    assert_eq!(repair(&be, &mut r, Some(ids[1]), false, 64), Ok((Changed::SubTree, new_root)));
    assert_eq!(r.saved.len(), 2);
}

#[test]
fn nesting_beyond_the_limit_is_an_error() {
    let index = index_of(vec![]);
    let leaf = tree_of(vec![]);
    let leaf_id = leaf.serialize().1;
    let mid = tree_of(vec![dir(b"m", Some(leaf_id))]);
    let mid_id = mid.serialize().1;
    let root = tree_of(vec![dir(b"r", Some(mid_id))]);
    let (trees, ids) = store(vec![leaf, mid, root]);
    let be = IndexedBackend { index, trees };
    assert_eq!(repair(&be, &mut run(), Some(ids[2]), false, 0), Err(RepairError::TooDeep));
    assert_eq!(repair(&be, &mut run(), Some(ids[2]), false, 2), Err(RepairError::TooDeep));
    assert_eq!(
        repair(&be, &mut run(), Some(ids[2]), false, 3),
        Ok((Changed::Intact, ids[2]))
    );
}

#[test]
fn repaired_repository_needs_no_repair() {
    let damaged = || {
        let leaf = tree_of(vec![file(b"x", vec![id(1), id(2)], 99)]);
        let leaf_id = leaf.serialize().1;
        let root = tree_of(vec![
            dir(b"gone", Some(id(0x70))),
            dir(b"sub", Some(leaf_id)),
            file(b"fine", vec![id(1)], 10),
        ]);
        store(vec![leaf, root])
    };
    let (trees, ids) = damaged();
    let be = IndexedBackend { index: index_of(vec![data_blob(1, 42)]), trees };
    let mut first = run();
    let (changed, new_root) = repair(&be, &mut first, Some(ids[1]), false, 64).unwrap();
    assert_eq!(changed, Changed::SubTree);

    // the rewritten trees are stored: here, they are written out by hand
    let new_leaf = tree_of(vec![file(b"x.repaired", vec![id(1)], 10)]);
    let new_leaf_id = new_leaf.serialize().1;
    // the nodes of a rewritten tree are put in the order of their names
    let new_top = tree_of(vec![
        file(b"fine", vec![id(1)], 10),
        dir(b"gone.repaired", Some(empty_id())),
        dir(b"sub", Some(new_leaf_id)),
    ]);
    assert_eq!(new_top.serialize().1, new_root);
    let (mut trees, _) = damaged();
    for tree in [Tree::new(), new_leaf, new_top] {
        let (bytes, tree_id) = tree.serialize();
        assert!(first.saved.contains(&(bytes, tree_id)));
        trees.insert(tree_id, tree);
    }
    let be = IndexedBackend { index: index_of(vec![data_blob(1, 42)]), trees };
    let mut second = run();
    assert_eq!(
        repair(&be, &mut second, Some(new_root), false, 64),
        Ok((Changed::Intact, new_root))
    );
    assert!(second.saved.is_empty());
}

#[test]
fn snapshots_are_marked_by_what_repair_finds() {
    let index = index_of(vec![data_blob(1, 42)]);
    let good = tree_of(vec![file(b"x", vec![id(1)], 10)]);
    let bad = tree_of(vec![file(b"y", vec![id(2)], 10)]);
    let (trees, ids) = store(vec![good, bad]);
    let be = IndexedBackend { index, trees };
    let snap = |n: u8, tree: Id, original: Option<Id>| SnapshotFile {
        id: id(n),
        time: Timestamp { secs: n as i64, nanos: 0 },
        parent: Some(id(0xaa)),
        tree,
        paths: vec![],
        hostname: "h".to_string(),
        username: Some("u".to_string()),
        tags: vec![],
        label: Some("l".to_string()),
        original,
    };
    let snaps = vec![
        snap(1, ids[0], None),
        snap(2, id(0x99), None),
        snap(3, ids[1], Some(id(0x42))),
        snap(4, ids[1], None),
    ];
    let opts = SnapOpts { delete: false, suffix: b".bad".to_vec(), tag: vec!["t".to_string()] };
    let plan = repair_snaps(&be, &snaps, &opts, false, 64).unwrap();
    assert_eq!(plan.marked, vec![id(2), id(3), id(4)]);
    assert!(plan.remove.is_empty());
    assert_eq!(plan.snapshots.len(), 2);
    assert_eq!(plan.snapshots[0].original, Some(id(0x42)));
    assert_eq!(plan.snapshots[1].original, Some(id(4)));
    assert_eq!(plan.snapshots[0].tree, plan.snapshots[1].tree);
    assert_eq!(plan.snapshots[0].parent, Some(id(0xaa)));
    assert_eq!(plan.snapshots[0].label, Some("l".to_string()));
    let fixed = tree_of(vec![file(b"y.bad", vec![], 0)]);
    assert_eq!(plan.snapshots[0].tree, fixed.serialize().1);
    // the lost root is replaced by the empty tree, the damaged one rewritten once
    assert_eq!(
        plan.trees.iter().map(|t| t.1).collect::<Vec<_>>(),
        vec![empty_id(), fixed.serialize().1]
    );
    for (bytes, tree_id) in &plan.trees {
        assert_eq!(hash(bytes), *tree_id);
    }

    let dry = repair_snaps(&be, &snaps, &SnapOpts { delete: true, ..opts }, true, 64).unwrap();
    assert_eq!(dry.marked, vec![id(2), id(3), id(4)]);
    assert!(dry.remove.is_empty());
    assert!(dry.snapshots.is_empty());
    assert!(dry.trees.is_empty());
}

#[test]
fn too_deep_snapshot_stops_the_repair() {
    let index = index_of(vec![]);
    let leaf = tree_of(vec![]);
    let leaf_id = leaf.serialize().1;
    let root = tree_of(vec![dir(b"d", Some(leaf_id))]);
    let (trees, ids) = store(vec![leaf, root]);
    let be = IndexedBackend { index, trees };
    let snap = SnapshotFile {
        id: id(1),
        time: Timestamp { secs: 0, nanos: 0 },
        parent: None,
        tree: ids[1],
        paths: vec![],
        hostname: String::new(),
        username: None,
        tags: vec![],
        label: None,
        original: None,
    };
    let opts = SnapOpts { delete: false, suffix: vec![], tag: vec![] };
    assert!(matches!(
        repair_snaps(&be, &vec![snap.clone()], &opts, false, 1),
        Err(RepairError::TooDeep)
    ));
    assert!(repair_snaps(&be, &vec![snap], &opts, false, 2).is_ok());
}

#[test]
fn rewritten_tree_is_stored_in_name_order() {
    // `a` has lost its chunk and is renamed behind `a.b`
    let index = index_of(vec![data_blob(2, 35)]);
    let root = tree_of(vec![file(b"a", vec![id(1)], 5), file(b"a.b", vec![id(2)], 3)]);
    assert!(root.is_sorted());
    let (trees, ids) = store(vec![root]);
    let be = IndexedBackend { index, trees };
    let mut r = run();
    let outcome = repair_tree(
        &be,
        &mut r.saved,
        Some(ids[0]),
        &mut r.replaced,
        &mut r.seen,
        false,
        b".r",
        64,
    );
    let fixed = tree_of(vec![file(b"a.b", vec![id(2)], 3), file(b"a.r", vec![], 0)]);
    assert!(fixed.is_sorted());
    let (fixed_bytes, fixed_id) = fixed.serialize();
    assert_eq!(outcome, Ok((Changed::SubTree, fixed_id)));
    assert_eq!(r.saved, vec![(fixed_bytes, fixed_id)]);
    // in the order in which the nodes were found, the tree would not be sorted
    let unsorted = tree_of(vec![file(b"a.r", vec![], 0), file(b"a.b", vec![id(2)], 3)]);
    assert!(!unsorted.is_sorted());
    assert_ne!(unsorted.serialize().1, fixed_id);
}

#[test]
fn renamed_directory_is_stored_in_name_order() {
    // the tree of `d` is lost; `d.x` comes behind `d.a`
    let index = index_of(vec![data_blob(2, 35)]);
    let root = tree_of(vec![dir(b"d", Some(id(9))), file(b"d.a", vec![id(2)], 3)]);
    let (trees, ids) = store(vec![root]);
    let be = IndexedBackend { index, trees };
    let mut r = run();
    let outcome = repair_tree(
        &be,
        &mut r.saved,
        Some(ids[0]),
        &mut r.replaced,
        &mut r.seen,
        false,
        b".x",
        64,
    );
    let fixed = tree_of(vec![file(b"d.a", vec![id(2)], 3), dir(b"d.x", Some(empty_id()))]);
    let (fixed_bytes, fixed_id) = fixed.serialize();
    assert_eq!(outcome, Ok((Changed::SubTree, fixed_id)));
    assert_eq!(r.saved.len(), 2);
    assert_eq!(r.saved[0].1, empty_id());
    assert_eq!(r.saved[1], (fixed_bytes, fixed_id));
}

#[test]
fn noted_tree_is_answered_from_the_notes() {
    let index = index_of(vec![data_blob(2, 35)]);
    let damaged = tree_of(vec![file(b"x", vec![id(1)], 5)]);
    let intact = tree_of(vec![file(b"y", vec![id(2)], 3)]);
    let (trees, ids) = store(vec![damaged, intact]);
    let be = IndexedBackend { index, trees };
    let mut r = run();

    let first = repair(&be, &mut r, Some(ids[0]), false, 64).unwrap();
    assert_eq!(first.0, Changed::SubTree);
    assert_eq!(r.replaced.get(&ids[0]), Some(&first));
    assert!(!r.seen.contains(&ids[0]));
    assert_eq!(r.saved.len(), 1);
    assert_eq!(r.saved[0].1, first.1);
    let saved = r.saved.clone();
    // again, at any depth that is not none: the same answer, and nothing new
    assert_eq!(repair(&be, &mut r, Some(ids[0]), false, 1), Ok(first));
    assert_eq!(r.saved, saved);
    assert!(r.replaced.get(&ids[1]).is_none());
    assert!(!r.seen.contains(&ids[0]));

    assert_eq!(repair(&be, &mut r, Some(ids[1]), false, 64), Ok((Changed::Intact, ids[1])));
    assert!(r.seen.contains(&ids[1]));
    assert!(r.replaced.get(&ids[1]).is_none());
    assert_eq!(r.saved, saved);
    assert_eq!(repair(&be, &mut r, Some(ids[1]), false, 1), Ok((Changed::Intact, ids[1])));
    assert_eq!(r.saved, saved);
    // without depth nothing is answered
    assert_eq!(repair(&be, &mut r, Some(ids[1]), false, 0), Err(RepairError::TooDeep));
}

#[test]
fn lost_tree_is_noted_and_stored_once() {
    let be = IndexedBackend { index: index_of(vec![]), trees: IdMap::new() };
    let mut r = run();
    assert_eq!(repair(&be, &mut r, Some(id(7)), false, 64), Ok((Changed::This, empty_id())));
    assert_eq!(r.replaced.get(&id(7)), Some(&(Changed::This, empty_id())));
    assert_eq!(r.saved.len(), 1);
    assert_eq!(r.saved[0], Tree::new().serialize());
    assert_eq!(repair(&be, &mut r, Some(id(7)), false, 64), Ok((Changed::This, empty_id())));
    assert_eq!(r.saved.len(), 1);
}

#[test]
fn intact_snapshots_leave_nothing_to_store() {
    let index = index_of(vec![data_blob(2, 35)]);
    let sub = tree_of(vec![file(b"y", vec![id(2)], 3)]);
    let sub_id = sub.serialize().1;
    let root = tree_of(vec![dir(b"d", Some(sub_id))]);
    let (trees, ids) = store(vec![sub, root]);
    let be = IndexedBackend { index, trees };
    let snap = |n: u8, tree: Id| SnapshotFile {
        id: id(n),
        time: Timestamp { secs: 10, nanos: 0 },
        parent: None,
        tree,
        paths: vec!["/data".to_string()],
        hostname: "host".to_string(),
        username: None,
        tags: vec![],
        label: None,
        original: None,
    };
    let opts = SnapOpts { delete: true, suffix: b".r".to_vec(), tag: vec![] };
    let plan = repair_snaps(&be, &vec![snap(1, ids[1]), snap(2, ids[0])], &opts, false, 64).unwrap();
    assert!(plan.trees.is_empty());
    assert!(plan.snapshots.is_empty());
    assert!(plan.marked.is_empty());
    assert!(plan.remove.is_empty());
    // a damaged one beside them: stored, but not in a dry run
    let snaps = vec![snap(1, ids[1]), snap(3, id(0x77))];
    let plan = repair_snaps(&be, &snaps, &opts, false, 64).unwrap();
    assert_eq!(plan.trees, vec![Tree::new().serialize()]);
    assert_eq!(plan.marked, vec![id(3)]);
    let plan = repair_snaps(&be, &snaps, &opts, true, 64).unwrap();
    assert!(plan.trees.is_empty());
    assert_eq!(plan.marked, vec![id(3)]);
    assert!(plan.remove.is_empty());
}

#[test]
fn renamed_node_may_get_the_name_of_another() {
    // `a` has lost its chunk and becomes `a.r`, which is there already
    let index = index_of(vec![data_blob(2, 35)]);
    let root = tree_of(vec![file(b"a", vec![id(1)], 5), file(b"a.r", vec![id(2)], 3)]);
    let (trees, ids) = store(vec![root]);
    let be = IndexedBackend { index, trees };
    let mut r = run();
    let outcome = repair_tree(
        &be,
        &mut r.saved,
        Some(ids[0]),
        &mut r.replaced,
        &mut r.seen,
        false,
        b".r",
        64,
    );
    // both nodes are kept, in the order they came in
    let fixed = tree_of(vec![file(b"a.r", vec![], 0), file(b"a.r", vec![id(2)], 3)]);
    let (fixed_bytes, fixed_id) = fixed.serialize();
    assert_eq!(outcome, Ok((Changed::SubTree, fixed_id)));
    assert_eq!(r.saved, vec![(fixed_bytes, fixed_id)]);
    assert!(!fixed.is_sorted());
    assert_eq!(fixed.sorted().nodes, fixed.nodes);
}
