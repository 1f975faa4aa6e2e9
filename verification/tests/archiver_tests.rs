use rustic::archiver::{ArchiveError, Archiver, NewBlob};
use rustic::blob::{BlobType, IndexBlob, IndexFile, IndexPack};
use rustic::chunker::Chunker;
use rustic::hasher::hash;
use rustic::id::Id;
use rustic::idmap::IdMap;
use rustic::index::IndexBackend;
use rustic::tree::{Metadata, Node, Timestamp, Tree};

const POLY: u64 = 0x3DA3358B4DC173;

fn meta(size: u64, mtime: i64) -> Metadata {
    Metadata::new(
        size,
        Some(Timestamp { secs: mtime, nanos: 0 }),
        None,
        None,
        0o644,
        0,
        0,
        None,
        None,
        0,
        0,
        1,
    )
}

fn file(name: &[u8], size: u64, mtime: i64) -> Node {
    Node::new_file(name.to_vec(), meta(size, mtime))
}

fn dir(name: &[u8]) -> Node {
    Node::new_dir(name.to_vec(), meta(0, 0))
}

fn tree_of(nodes: Vec<Node>) -> Tree {
    let mut tree = Tree::new();
    for node in nodes {
        tree.add(node);
    }
    tree
}

fn index_with(blobs: &[NewBlob]) -> IndexBackend {
    let mut file = IndexFile::new();
    let blobs = blobs
        .iter()
        .map(|b| IndexBlob {
            id: b.id,
            tpe: b.tpe,
            offset: 0,
            length: b.data.len() as u32,
            uncompressed_length: None,
        })
        .collect();
    file.add(IndexPack { id: Id::new([0xee; 32]), blobs, size: None }, false);
    IndexBackend::new(&vec![file])
}

fn noise(len: usize, seed: u64) -> Vec<u8> {
    let mut state = seed | 1;
    (0..len)
        .map(|_| {
            state ^= state << 13;
            state ^= state >> 7;
            state ^= state << 17;
            (state >> 24) as u8
        })
        .collect()
}

/// Archives `etc/passwd`, `home/` and `notes`, with a small chunker.
fn backup(index: &IndexBackend) -> (Id, Vec<NewBlob>) {
    let chunker = Chunker::with_sizes(POLY, 64, 512, 5).unwrap();
    let none = IdMap::new();
    let mut archiver = Archiver::new(None);
    archiver.begin_entry(index, 0).unwrap();
    archiver.add_dir(&none, dir(b"etc")).unwrap();
    archiver.begin_entry(index, 1).unwrap();
    archiver.add_file(index, &chunker, file(b"passwd", 0, 1), &noise(3000, 1)).unwrap();
    archiver.begin_entry(index, 0).unwrap();
    archiver.add_dir(&none, dir(b"home")).unwrap();
    archiver.begin_entry(index, 0).unwrap();
    archiver.add_file(index, &chunker, file(b"notes", 0, 2), &noise(700, 2)).unwrap();
    let root = archiver.finalize(index);
    (root, archiver.take_blobs())
}

#[test]
fn empty_file_gives_one_tree_and_no_data() {
    let index = IndexBackend::empty();
    let chunker = Chunker::new(POLY);
    let mut archiver = Archiver::new(None);
    assert_eq!(archiver.begin_entry(&index, 0), Ok(()));
    archiver.add_file(&index, &chunker, file(b"a.txt", 0, 5), &[]).unwrap();
    let root = archiver.finalize(&index);
    let blobs = archiver.take_blobs();
    assert_eq!(blobs.len(), 1);
    assert_eq!(blobs[0].tpe, BlobType::Tree);
    assert_eq!(blobs[0].id, root);
    let mut expected = file(b"a.txt", 0, 5);
    expected.content = Some(Vec::new());
    let (bytes, id) = tree_of(vec![expected]).serialize();
    assert_eq!(blobs[0].data, bytes);
    assert_eq!(root, id);
    assert!(archiver.take_blobs().is_empty());
}

#[test]
fn identical_files_share_their_blobs() {
    let index = IndexBackend::empty();
    let chunker = Chunker::new(POLY);
    let data = vec![0x41u8; 3 * 1024 * 1024];
    let mut archiver = Archiver::new(None);
    archiver.add_file(&index, &chunker, file(b"x", 0, 1), &data).unwrap();
    let first = archiver.take_blobs();
    archiver.add_file(&index, &chunker, file(b"y", 0, 1), &data).unwrap();
    assert!(archiver.take_blobs().is_empty());
    let root = archiver.finalize(&index);
    let trees = archiver.take_blobs();
    assert!(!first.is_empty());
    assert!(first.iter().all(|b| b.tpe == BlobType::Data && hash(&b.data) == b.id));
    assert_eq!(first.iter().map(|b| b.data.len()).sum::<usize>(), data.len());
    let content: Vec<Id> = first.iter().map(|b| b.id).collect();
    let node = |name: &[u8]| {
        let mut n = file(name, data.len() as u64, 1);
        n.content = Some(content.clone());
        n
    };
    assert_eq!(root, tree_of(vec![node(b"x"), node(b"y")]).serialize().1);
    assert_eq!(trees.len(), 1);
}

#[test]
fn file_is_cut_into_chunks_that_are_named_by_their_hash() {
    let index = IndexBackend::empty();
    let chunker = Chunker::with_sizes(POLY, 64, 512, 5).unwrap();
    let data = noise(5000, 3);
    let mut archiver = Archiver::new(None);
    archiver.add_file(&index, &chunker, file(b"f", 1, 1), &data).unwrap();
    let blobs = archiver.take_blobs();
    let parts = chunker.chunks(&data);
    assert_eq!(blobs.len(), parts.len());
    for (blob, part) in blobs.iter().zip(&parts) {
        assert_eq!(blob.data, *part);
        assert_eq!(blob.id, hash(part));
    }
    let root = archiver.finalize(&index);
    let mut node = file(b"f", 5000, 1);
    node.content = Some(parts.iter().map(|p| hash(p)).collect());
    assert_eq!(root, tree_of(vec![node]).serialize().1);
}

#[test]
fn directories_become_trees_when_the_walk_leaves_them() {
    let index = IndexBackend::empty();
    let (root, blobs) = backup(&index);
    let chunker = Chunker::with_sizes(POLY, 64, 512, 5).unwrap();
    let content = |data: &[u8]| -> Vec<Id> { chunker.chunks(data).iter().map(|p| hash(p)).collect() };
    let mut passwd = file(b"passwd", 3000, 1);
    passwd.content = Some(content(&noise(3000, 1)));
    let etc_tree = tree_of(vec![passwd]);
    let mut etc = dir(b"etc");
    etc.subtree = Some(etc_tree.serialize().1);
    let mut home = dir(b"home");
    home.subtree = Some(Tree::new().serialize().1);
    let mut notes = file(b"notes", 700, 2);
    notes.content = Some(content(&noise(700, 2)));
    let root_tree = tree_of(vec![etc, home, notes]);
    assert_eq!(root, root_tree.serialize().1);
    let trees: Vec<Id> = blobs.iter().filter(|b| b.tpe == BlobType::Tree).map(|b| b.id).collect();
    assert_eq!(trees, vec![etc_tree.serialize().1, Tree::new().serialize().1, root]);
    assert!(blobs.iter().all(|b| hash(&b.data) == b.id));
}

#[test]
fn second_backup_hands_out_nothing() {
    let (root, blobs) = backup(&IndexBackend::empty());
    assert!(!blobs.is_empty());
    let (again, new) = backup(&index_with(&blobs));
    assert_eq!(again, root);
    assert!(new.is_empty());
}

#[test]
fn unchanged_file_takes_its_content_from_the_parent() {
    let index = IndexBackend::empty();
    let chunker = Chunker::with_sizes(POLY, 64, 512, 5).unwrap();
    let data = noise(2000, 8);
    let mut first = Archiver::new(None);
    first.add_file(&index, &chunker, file(b"a", 2000, 10), &data).unwrap();
    first.add_dir(&IdMap::new(), dir(b"d")).unwrap();
    first.add_file(&index, &chunker, file(b"g", 100, 20), &noise(100, 9)).unwrap();
    let root = first.finalize(&index);
    let blobs = first.take_blobs();
    let mut parent_trees = IdMap::new();
    for blob in blobs.iter().filter(|b| b.tpe == BlobType::Tree) {
        // the trees of the parent, as they were archived
        let tree = if blob.id == root {
            let mut f = file(b"a", 2000, 10);
            f.content = Some(chunker.chunks(&data).iter().map(|p| hash(p)).collect());
            let mut d = dir(b"d");
            d.subtree = blobs.iter().find(|b| b.tpe == BlobType::Tree && b.id != root).map(|b| b.id);
            tree_of(vec![f, d])
        } else {
            let mut g = file(b"g", 100, 20);
            g.content = Some(chunker.chunks(&noise(100, 9)).iter().map(|p| hash(p)).collect());
            tree_of(vec![g])
        };
        assert_eq!(tree.serialize().1, blob.id);
        parent_trees.insert(blob.id, tree);
    }

    let index = index_with(&blobs);
    let mut second = Archiver::new(Some(root));
    // same size and modification time: not read
    let f = file(b"a", 2000, 10);
    let content = second.reusable(&parent_trees, &f).unwrap();
    assert_eq!(content, chunker.chunks(&data).iter().map(|p| hash(p)).collect::<Vec<_>>());
    second.add_reused(f, content).unwrap();
    // another modification time, another size, another name: read
    assert!(second.reusable(&parent_trees, &file(b"a", 2000, 11)).is_none());
    assert!(second.reusable(&parent_trees, &file(b"a", 2001, 10)).is_none());
    assert!(second.reusable(&parent_trees, &file(b"g", 100, 20)).is_none());
    assert!(second.reusable(&parent_trees, &dir(b"d")).is_none());
    // the parent goes along into the directory
    second.add_dir(&parent_trees, dir(b"d")).unwrap();
    let g = file(b"g", 100, 20);
    let content = second.reusable(&parent_trees, &g).unwrap();
    assert!(second.reusable(&parent_trees, &file(b"a", 2000, 10)).is_none());
    second.add_reused(g, content).unwrap();
    assert_eq!(second.finalize(&index), root);
    assert!(second.take_blobs().is_empty());

    // without parent, nothing is taken over
    let lone = Archiver::new(None);
    assert!(lone.reusable(&parent_trees, &file(b"a", 2000, 10)).is_none());
    let lost = Archiver::new(Some(Id::new([1; 32])));
    assert!(lost.reusable(&parent_trees, &file(b"a", 2000, 10)).is_none());
}

#[test]
fn entry_below_a_directory_that_was_not_entered_is_refused() {
    let index = IndexBackend::empty();
    let mut archiver = Archiver::new(None);
    assert_eq!(archiver.depth(), 1);
    assert_eq!(archiver.begin_entry(&index, 1), Err(ArchiveError::BadWalk));
    archiver.add_dir(&IdMap::new(), dir(b"a")).unwrap();
    archiver.add_dir(&IdMap::new(), dir(b"b")).unwrap();
    assert_eq!(archiver.depth(), 3);
    assert_eq!(archiver.begin_entry(&index, 3), Err(ArchiveError::BadWalk));
    assert_eq!(archiver.depth(), 3);
    assert_eq!(archiver.begin_entry(&index, 2), Ok(()));
    assert_eq!(archiver.depth(), 3);
    assert_eq!(archiver.begin_entry(&index, 0), Ok(()));
    assert_eq!(archiver.depth(), 1);
}

#[test]
fn snapshot_names_the_root_tree() {
    let index = IndexBackend::empty();
    let mut archiver = Archiver::new(None);
    archiver.add_other(Node::new_symlink(b"l".to_vec(), b"t".to_vec(), meta(0, 0))).unwrap();
    let snap = archiver.finalize_snapshot(
        &index,
        Timestamp { secs: 1700000000, nanos: 5 },
        Some(Id::new([7; 32])),
        vec!["/data".to_string()],
        "host".to_string(),
        Some("user".to_string()),
        vec!["a".to_string(), "b".to_string()],
    );
    let root = tree_of(vec![Node::new_symlink(b"l".to_vec(), b"t".to_vec(), meta(0, 0))]);
    assert_eq!(snap.tree, root.serialize().1);
    assert_eq!(snap.parent, Some(Id::new([7; 32])));
    assert_eq!(snap.hostname, "host");
    assert_eq!(snap.label, None);
    assert_eq!(snap.original, None);
    let (bytes, id) = snap.serialize();
    assert_eq!(snap.id, id);
    assert_eq!(id, hash(&bytes));
    let expected = format!(
        "{{\"time\":\"2023-11-14T22:13:20.000000005Z\",\"parent\":\"{}\",\"tree\":\"{}\",\"paths\":[\"/data\"],\
         \"hostname\":\"host\",\"username\":\"user\",\"tags\":[\"a\",\"b\"],\"label\":null,\
         \"original\":null}}",
        "07".repeat(32),
        snap.tree.to_hex()
    );
    assert_eq!(String::from_utf8(bytes).unwrap(), expected);
    assert_eq!(archiver.take_blobs().len(), 1);
}

#[test]
fn entries_out_of_order_are_refused() {
    let index = IndexBackend::empty();
    let chunker = Chunker::with_sizes(POLY, 64, 512, 5).unwrap();
    let none = IdMap::new();
    let mut archiver = Archiver::new(None);
    assert!(archiver.accepts_name(b"anything"));
    archiver.add_file(&index, &chunker, file(b"m", 0, 0), b"data").unwrap();
    let blobs = archiver.take_blobs();
    assert_eq!(blobs.len(), 1);
    assert!(!archiver.accepts_name(b"m"));
    assert!(!archiver.accepts_name(b"a"));
    assert!(archiver.accepts_name(b"ma"));
    // the same name again, and names before it: refused, and nothing is handed out
    assert_eq!(
        archiver.add_file(&index, &chunker, file(b"m", 0, 0), b"other"),
        Err(ArchiveError::OutOfOrder)
    );
    assert_eq!(archiver.add_dir(&none, dir(b"a")), Err(ArchiveError::OutOfOrder));
    assert_eq!(archiver.add_other(file(b"", 0, 0)), Err(ArchiveError::OutOfOrder));
    assert_eq!(archiver.add_reused(file(b"l", 0, 0), vec![]), Err(ArchiveError::OutOfOrder));
    assert!(archiver.take_blobs().is_empty());
    assert_eq!(archiver.depth(), 1);
    // a directory begins anew
    archiver.add_dir(&none, dir(b"n")).unwrap();
    archiver.add_other(file(b"a", 0, 0)).unwrap();
    // behind the directory, its name counts
    archiver.begin_entry(&index, 0).unwrap();
    assert_eq!(archiver.add_other(file(b"n", 0, 0)), Err(ArchiveError::OutOfOrder));
    archiver.add_other(file(b"o", 0, 0)).unwrap();
    let root = archiver.finalize(&index);
    let mut m = file(b"m", 4, 0);
    m.content = Some(vec![hash(b"data")]);
    let mut n = dir(b"n");
    n.subtree = Some(tree_of(vec![file(b"a", 0, 0)]).serialize().1);
    let expected = tree_of(vec![m, n, file(b"o", 0, 0)]);
    assert!(expected.is_sorted());
    assert_eq!(root, expected.serialize().1);
}

/// One entry of a walk with a parent: a file that the parent has
/// unchanged is not read.
fn entry(
    archiver: &mut Archiver,
    index: &IndexBackend,
    parent_trees: &IdMap<Tree>,
    depth: usize,
    node: Node,
    data: Option<&[u8]>,
) -> bool {
    let chunker = Chunker::with_sizes(POLY, 64, 512, 5).unwrap();
    archiver.begin_entry(index, depth).unwrap();
    match data {
        None => {
            archiver.add_dir(parent_trees, node).unwrap();
            false
        }
        Some(data) => match archiver.reusable(parent_trees, &node) {
            Some(content) => {
                archiver.add_reused(node, content).unwrap();
                true
            }
            None => {
                archiver.add_file(index, &chunker, node, data).unwrap();
                false
            }
        },
    }
}

#[test]
fn second_backup_with_the_first_as_parent_hands_out_nothing() {
    // `passwd` is listed with the size it has, `notes` with another
    let walk = |archiver: &mut Archiver, index: &IndexBackend, trees: &IdMap<Tree>| -> Vec<bool> {
        vec![
            entry(archiver, index, trees, 0, dir(b"etc"), None),
            entry(archiver, index, trees, 1, file(b"passwd", 3000, 1), Some(&noise(3000, 1))),
            entry(archiver, index, trees, 0, dir(b"home"), None),
            entry(archiver, index, trees, 0, file(b"notes", 0, 2), Some(&noise(700, 2))),
        ]
    };
    let index = IndexBackend::empty();
    let mut first = Archiver::new(None);
    assert_eq!(walk(&mut first, &index, &IdMap::new()), vec![false; 4]);
    let root = first.finalize(&index);
    let blobs = first.take_blobs();
    assert_eq!(blobs.iter().filter(|b| b.tpe == BlobType::Tree).count(), 3);

    // the trees of the first run, under their identifiers
    let chunker = Chunker::with_sizes(POLY, 64, 512, 5).unwrap();
    let content = |data: &[u8]| -> Vec<Id> { chunker.chunks(data).iter().map(|p| hash(p)).collect() };
    let mut passwd = file(b"passwd", 3000, 1);
    passwd.content = Some(content(&noise(3000, 1)));
    let etc_tree = tree_of(vec![passwd]);
    let mut etc = dir(b"etc");
    etc.subtree = Some(etc_tree.serialize().1);
    let mut home = dir(b"home");
    home.subtree = Some(Tree::new().serialize().1);
    let mut notes = file(b"notes", 700, 2);
    notes.content = Some(content(&noise(700, 2)));
    let root_tree = tree_of(vec![etc, home, notes]);
    assert_eq!(root_tree.serialize().1, root);
    let mut parent_trees = IdMap::new();
    for tree in [etc_tree, Tree::new(), root_tree] {
        parent_trees.insert(tree.serialize().1, tree);
    }

    let index = index_with(&blobs);
    let mut second = Archiver::new(Some(root));
    // `passwd` takes its content over; `notes`, whose size is not the listed one, is read
    assert_eq!(walk(&mut second, &index, &parent_trees), vec![false, true, false, false]);
    assert_eq!(second.finalize(&index), root);
    assert!(second.take_blobs().is_empty());

    // with a parent whose trees are not there, every file is read, to the same end
    let mut third = Archiver::new(Some(root));
    assert_eq!(walk(&mut third, &index, &IdMap::new()), vec![false; 4]);
    assert_eq!(third.finalize(&index), root);
    assert!(third.take_blobs().is_empty());
}
