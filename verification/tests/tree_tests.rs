use rustic::hasher::hash;
use rustic::id::Id;
use rustic::tree::{is_name_before, Metadata, Node, NodeType, Timestamp, Tree};

fn meta(size: u64) -> Metadata {
    Metadata::new(
        size,
        Some(Timestamp { secs: 1, nanos: 2 }),
        None,
        None,
        420,
        1000,
        1000,
        Some(b"me".to_vec()),
        None,
        7,
        8,
        1,
    )
}

#[test]
fn empty_tree_serializes_to_the_bare_record() {
    let (bytes, id) = Tree::new().serialize();
    assert_eq!(String::from_utf8(bytes.clone()).unwrap(), "{\"nodes\":[]}");
    assert_eq!(id, hash(&bytes));
}

#[test]
fn file_node_serializes_with_every_field() {
    let mut node = Node::new_file(b"a.txt".to_vec(), meta(0));
    node.content = Some(Vec::new());
    let mut tree = Tree::new();
    tree.add(node);
    let (bytes, id) = tree.serialize();
    let expected = "{\"nodes\":[{\"name\":\"a.txt\",\"type\":\"file\",\"mode\":420,\
        \"mtime\":\"1970-01-01T00:00:01.000000002Z\",\"atime\":null,\"ctime\":null,\"uid\":1000,\"gid\":1000,\
        \"user\":\"me\",\"group\":null,\"inode\":7,\"device_id\":8,\"size\":0,\"links\":1,\
        \"linktarget\":null,\"content\":[],\"subtree\":null}]}";
    assert_eq!(String::from_utf8(bytes.clone()).unwrap(), expected);
    assert_eq!(id, hash(expected.as_bytes()));
}

#[test]
fn nodes_are_separated_by_commas_and_keep_their_order() {
    let mut tree = Tree::new();
    let mut dir = Node::new_dir(b"d".to_vec(), meta(0));
    dir.subtree = Some(Id::new([0x11; 32]));
    tree.add(dir);
    let mut file = Node::new_file(b"f".to_vec(), meta(5));
    file.content = Some(vec![Id::new([0x22; 32]), Id::new([0x33; 32])]);
    tree.add(file);
    tree.add(Node::new_symlink(b"l".to_vec(), b"f".to_vec(), meta(0)));
    let text = String::from_utf8(tree.serialize().0).unwrap();
    let d = text.find("\"name\":\"d\"").unwrap();
    let f = text.find("\"name\":\"f\"").unwrap();
    let l = text.find("\"name\":\"l\"").unwrap();
    assert!(d < f && f < l);
    assert!(text.contains(&format!("\"subtree\":\"{}\"", "11".repeat(32))));
    assert!(text.contains(&format!(
        "\"content\":[\"{}\",\"{}\"]",
        "22".repeat(32),
        "33".repeat(32)
    )));
    assert!(text.contains("\"type\":\"symlink\""));
    assert!(text.contains("\"linktarget\":\"f\""));
    assert!(text.contains("},{"));
    assert!(text.starts_with("{\"nodes\":[{"));
    assert!(text.ends_with("}]}"));
}

#[test]
fn names_are_escaped() {
    let mut tree = Tree::new();
    tree.add(Node::new_file(vec![b'a', b'"', b'\\', 0x01, 0xff, b' ', 0x7f], meta(0)));
    let text = String::from_utf8(tree.serialize().0).unwrap();
    assert!(text.contains("\"name\":\"a\\\"\\\\\\u0001\\u00ff \\u007f\""));
}

#[test]
fn times_before_the_epoch_and_far_from_it_are_written() {
    let mut m = meta(0);
    m.mtime = Some(Timestamp { secs: -12, nanos: 999_999_999 });
    m.ctime = Some(Timestamp { secs: i64::MIN, nanos: 0 });
    m.atime = Some(Timestamp { secs: i64::MAX, nanos: 0 });
    let mut tree = Tree::new();
    tree.add(Node::new_file(b"t".to_vec(), m));
    let text = String::from_utf8(tree.serialize().0).unwrap();
    assert!(text.contains("\"mtime\":\"1969-12-31T23:59:48.999999999Z\""));
    // the calendar does not reach that far: written as a time that is not there
    assert!(text.contains("\"ctime\":null"));
    assert!(text.contains("\"atime\":null"));
}

#[test]
fn years_of_five_digits_are_written_with_a_sign() {
    let mut m = meta(0);
    m.mtime = Some(Timestamp { secs: 253_402_300_800, nanos: 0 });
    m.ctime = Some(Timestamp { secs: -62_167_219_201, nanos: 0 });
    let mut tree = Tree::new();
    tree.add(Node::new_file(b"t".to_vec(), m));
    let text = String::from_utf8(tree.serialize().0).unwrap();
    assert!(text.contains("\"mtime\":\"+10000-01-01T00:00:00.000000000Z\""));
    assert!(text.contains("\"ctime\":\"-0001-12-31T23:59:59.000000000Z\""));
}

fn named(names: &[&[u8]]) -> Tree {
    let mut t = Tree::new();
    for (i, name) in names.iter().enumerate() {
        t.add(Node::new_file(name.to_vec(), meta(i as u64)));
    }
    t
}

fn names_of(tree: &Tree) -> Vec<Vec<u8>> {
    tree.nodes.iter().map(|n| n.name.clone()).collect()
}

#[test]
fn sorted_puts_the_nodes_in_name_order() {
    let tree = named(&[b"b", b"a.r", b"c", b"a.b", b"a"]);
    let sorted = tree.sorted();
    assert_eq!(
        names_of(&sorted),
        vec![b"a".to_vec(), b"a.b".to_vec(), b"a.r".to_vec(), b"b".to_vec(), b"c".to_vec()]
    );
    assert!(sorted.is_sorted());
    // the nodes are the same nodes
    assert_eq!(sorted.nodes[0], tree.nodes[4]);
    assert_eq!(sorted.nodes[4], tree.nodes[2]);
    // the tree itself is left as it was
    assert_eq!(names_of(&tree)[0], b"b".to_vec());
}

#[test]
fn sorted_leaves_an_ordered_tree_as_it_is() {
    let tree = named(&[b"a", b"a.txt", b"b"]);
    assert_eq!(tree.sorted().nodes, tree.nodes);
    assert_eq!(tree.sorted().serialize(), tree.serialize());
    assert!(named(&[]).sorted().nodes.is_empty());
}

#[test]
fn sorted_keeps_nodes_of_one_name_in_their_order() {
    let tree = named(&[b"x", b"a", b"x", b"a"]);
    let sorted = tree.sorted();
    assert_eq!(
        names_of(&sorted),
        vec![b"a".to_vec(), b"a".to_vec(), b"x".to_vec(), b"x".to_vec()]
    );
    let sizes: Vec<u64> = sorted.nodes.iter().map(|n| n.meta.size).collect();
    assert_eq!(sizes, vec![1, 3, 0, 2]);
    // two nodes of one name: in order, but not sorted strictly
    assert!(!sorted.is_sorted());
}

#[test]
fn all_node_types_have_a_name() {
    for (tpe, name) in [
        (NodeType::File, "file"),
        (NodeType::Dir, "dir"),
        (NodeType::Symlink, "symlink"),
        (NodeType::Dev, "dev"),
        (NodeType::Chardev, "chardev"),
        (NodeType::Fifo, "fifo"),
        (NodeType::Socket, "socket"),
    ] {
        let mut node = Node::new_file(b"n".to_vec(), meta(0));
        node.node_type = tpe;
        let mut tree = Tree::new();
        tree.add(node);
        let text = String::from_utf8(tree.serialize().0).unwrap();
        assert!(text.contains(&format!("\"type\":\"{name}\"")), "{text}");
    }
}

#[test]
fn largest_numbers_are_written_in_full() {
    let m = Metadata::new(
        u64::MAX,
        None,
        None,
        None,
        u32::MAX,
        0,
        10,
        None,
        None,
        u64::MAX,
        0,
        9,
    );
    let mut tree = Tree::new();
    tree.add(Node::new_file(b"m".to_vec(), m));
    let text = String::from_utf8(tree.serialize().0).unwrap();
    assert!(text.contains("\"size\":18446744073709551615"));
    assert!(text.contains("\"mode\":4294967295"));
    assert!(text.contains("\"uid\":0,\"gid\":10"));
    assert!(text.contains("\"links\":9"));
}

#[test]
fn same_tree_serializes_to_the_same_bytes() {
    let build = || {
        let mut tree = Tree::new();
        let mut file = Node::new_file(b"f".to_vec(), meta(3));
        file.content = Some(vec![Id::new([9; 32])]);
        tree.add(file);
        tree.add(Node::new_dir(b"d".to_vec(), meta(0)));
        tree
    };
    let (a, id_a) = build().serialize();
    let (b, id_b) = build().serialize();
    assert_eq!(a, b);
    assert_eq!(id_a, id_b);
    let copy = build().clone();
    assert_eq!(copy.serialize().0, a);
}

#[test]
fn different_trees_get_different_identifiers() {
    let mut a = Tree::new();
    a.add(Node::new_file(b"a".to_vec(), meta(0)));
    let mut b = Tree::new();
    b.add(Node::new_file(b"b".to_vec(), meta(0)));
    assert_ne!(a.serialize().1, b.serialize().1);
    assert_ne!(a.serialize().1, Tree::new().serialize().1);
}

#[test]
fn find_gives_the_first_node_of_a_name() {
    let mut tree = Tree::new();
    tree.add(Node::new_file(b"a".to_vec(), meta(1)));
    tree.add(Node::new_file(b"b".to_vec(), meta(2)));
    tree.add(Node::new_file(b"b".to_vec(), meta(3)));
    assert_eq!(tree.find(b"b").unwrap().meta.size, 2);
    assert_eq!(tree.find(b"a").unwrap().meta.size, 1);
    assert!(tree.find(b"c").is_none());
    assert!(tree.find(b"").is_none());
    assert!(Tree::new().find(b"a").is_none());
}

#[test]
fn node_clone_keeps_every_field() {
    let mut node = Node::new_symlink(b"l".to_vec(), b"target".to_vec(), meta(4));
    node.content = Some(vec![Id::new([1; 32])]);
    node.subtree = Some(Id::new([2; 32]));
    assert_eq!(node.clone(), node);
}

#[test]
fn names_are_ordered_byte_by_byte() {
    assert!(is_name_before(b"a", b"b"));
    assert!(is_name_before(b"", b"a"));
    assert!(is_name_before(b"a", b"aa"));
    assert!(is_name_before(b"Z", b"a"));
    assert!(is_name_before(b"a\x7f", b"a\x80"));
    assert!(is_name_before(b"x", b"x.repaired"));
    assert!(!is_name_before(b"a", b"a"));
    assert!(!is_name_before(b"", b""));
    assert!(!is_name_before(b"b", b"a"));
    assert!(!is_name_before(b"aa", b"a"));
    assert!(!is_name_before(b"ab", b"aa"));
}

#[test]
fn sorted_trees_are_told_from_others() {
    let tree = |names: &[&[u8]]| {
        let mut t = Tree::new();
        for name in names {
            t.add(Node::new_file(name.to_vec(), meta(0)));
        }
        t
    };
    assert!(tree(&[]).is_sorted());
    assert!(tree(&[b"only"]).is_sorted());
    assert!(tree(&[b"a", b"b", b"c"]).is_sorted());
    assert!(tree(&[b"a", b"a.txt", b"b"]).is_sorted());
    assert!(!tree(&[b"a", b"a"]).is_sorted());
    assert!(!tree(&[b"a", b"c", b"b"]).is_sorted());
    assert!(!tree(&[b"b", b"a", b"c"]).is_sorted());
}
