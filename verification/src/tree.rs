//! Directory trees: nodes, their metadata, and the deterministic text form
//! under which a tree is stored and named.

use vstd::prelude::*;
use vstd::slice::slice_to_vec;
use crate::hasher::{content_id, hash};
use crate::id::Id;
use crate::text::same_bytes;
use crate::time::{push_time_json, time_json};
use crate::wire::{decimal, lit, push_decimal, push_lit, push_quoted, push_quoted_id, quoted, quoted_id};

verus! {

/// What kind of filesystem entry a node stands for.
#[derive(Clone, Copy, Debug, PartialEq, Eq, Structural, Hash)]
pub enum NodeType {
    File,
    Dir,
    Symlink,
    Dev,
    Chardev,
    Fifo,
    Socket,
}

/// A point in time: seconds since the epoch and nanoseconds within the
/// second.
#[derive(Clone, Copy, Debug, PartialEq, Eq, Structural, Hash)]
pub struct Timestamp {
    pub secs: i64,
    pub nanos: u32,
}

/// POSIX metadata of a node.
#[derive(Debug, PartialEq, Eq)]
pub struct Metadata {
    pub size: u64,
    pub mtime: Option<Timestamp>,
    pub atime: Option<Timestamp>,
    pub ctime: Option<Timestamp>,
    pub mode: u32,
    pub uid: u32,
    pub gid: u32,
    pub user: Option<Vec<u8>>,
    pub group: Option<Vec<u8>>,
    pub inode: u64,
    pub device_id: u64,
    pub links: u64,
}

/// The mathematical value of a [`Metadata`].
pub ghost struct MetadataView {
    pub size: u64,
    pub mtime: Option<Timestamp>,
    pub atime: Option<Timestamp>,
    pub ctime: Option<Timestamp>,
    pub mode: u32,
    pub uid: u32,
    pub gid: u32,
    pub user: Option<Seq<u8>>,
    pub group: Option<Seq<u8>>,
    pub inode: u64,
    pub device_id: u64,
    pub links: u64,
}

/// The view of an optional byte string.
pub open spec fn opt_bytes(v: Option<Vec<u8>>) -> Option<Seq<u8>> {
    match v {
        Some(b) => Some(b@),
        None => None,
    }
}

/// The view of an optional list of identifiers.
pub open spec fn opt_ids(v: Option<Vec<Id>>) -> Option<Seq<Id>> {
    match v {
        Some(ids) => Some(ids@),
        None => None,
    }
}

impl View for Metadata {
    type V = MetadataView;

    open spec fn view(&self) -> MetadataView {
        MetadataView {
            size: self.size,
            mtime: self.mtime,
            atime: self.atime,
            ctime: self.ctime,
            mode: self.mode,
            uid: self.uid,
            gid: self.gid,
            user: opt_bytes(self.user),
            group: opt_bytes(self.group),
            inode: self.inode,
            device_id: self.device_id,
            links: self.links,
        }
    }
}

/// A copy of an optional byte string.
pub fn copy_opt_bytes(v: &Option<Vec<u8>>) -> (r: Option<Vec<u8>>)
    ensures
        opt_bytes(r) == opt_bytes(*v),
{
    match v {
        Some(b) => Some(slice_to_vec(b.as_slice())),
        None => None,
    }
}

impl Clone for Metadata {
    fn clone(&self) -> (r: Metadata)
        ensures
            r@ == self@,
    {
        Metadata {
            size: self.size,
            mtime: self.mtime,
            atime: self.atime,
            ctime: self.ctime,
            mode: self.mode,
            uid: self.uid,
            gid: self.gid,
            user: copy_opt_bytes(&self.user),
            group: copy_opt_bytes(&self.group),
            inode: self.inode,
            device_id: self.device_id,
            links: self.links,
        }
    }
}

impl Metadata {
    /// Metadata with the given fields.
    pub fn new(
        size: u64,
        mtime: Option<Timestamp>,
        atime: Option<Timestamp>,
        ctime: Option<Timestamp>,
        mode: u32,
        uid: u32,
        gid: u32,
        user: Option<Vec<u8>>,
        group: Option<Vec<u8>>,
        inode: u64,
        device_id: u64,
        links: u64,
    ) -> (meta: Metadata)
        ensures
            meta == (Metadata {
                size,
                mtime,
                atime,
                ctime,
                mode,
                uid,
                gid,
                user,
                group,
                inode,
                device_id,
                links,
            }),
    {
        Metadata { size, mtime, atime, ctime, mode, uid, gid, user, group, inode, device_id, links }
    }
}

/// One entry of a directory.
#[derive(Debug, PartialEq, Eq)]
pub struct Node {
    pub name: Vec<u8>,
    pub node_type: NodeType,
    pub meta: Metadata,
    pub content: Option<Vec<Id>>,
    pub subtree: Option<Id>,
    pub linktarget: Option<Vec<u8>>,
}

/// The mathematical value of a [`Node`].
pub ghost struct NodeView {
    pub name: Seq<u8>,
    pub node_type: NodeType,
    pub meta: MetadataView,
    pub content: Option<Seq<Id>>,
    pub subtree: Option<Id>,
    pub linktarget: Option<Seq<u8>>,
}

impl View for Node {
    type V = NodeView;

    open spec fn view(&self) -> NodeView {
        NodeView {
            name: self.name@,
            node_type: self.node_type,
            meta: self.meta@,
            content: opt_ids(self.content),
            subtree: self.subtree,
            linktarget: opt_bytes(self.linktarget),
        }
    }
}

impl Clone for Node {
    fn clone(&self) -> (r: Node)
        ensures
            r@ == self@,
    {
        Node {
            name: slice_to_vec(self.name.as_slice()),
            node_type: self.node_type,
            meta: self.meta.clone(),
            content: match &self.content {
                Some(ids) => Some(slice_to_vec(ids.as_slice())),
                None => None,
            },
            subtree: self.subtree,
            linktarget: copy_opt_bytes(&self.linktarget),
        }
    }
}

impl Node {
    /// A regular file without content yet.
    pub fn new_file(name: Vec<u8>, meta: Metadata) -> (node: Node)
        ensures
            node@ == (NodeView {
                name: name@,
                node_type: NodeType::File,
                meta: meta@,
                content: None,
                subtree: None,
                linktarget: None,
            }),
    {
        Node {
            name,
            node_type: NodeType::File,
            meta,
            content: None,
            subtree: None,
            linktarget: None,
        }
    }

    /// A directory without subtree yet.
    pub fn new_dir(name: Vec<u8>, meta: Metadata) -> (node: Node)
        ensures
            node@ == (NodeView {
                name: name@,
                node_type: NodeType::Dir,
                meta: meta@,
                content: None,
                subtree: None,
                linktarget: None,
            }),
    {
        Node {
            name,
            node_type: NodeType::Dir,
            meta,
            content: None,
            subtree: None,
            linktarget: None,
        }
    }

    /// A symbolic link to `target`.
    pub fn new_symlink(name: Vec<u8>, target: Vec<u8>, meta: Metadata) -> (node: Node)
        ensures
            node@ == (NodeView {
                name: name@,
                node_type: NodeType::Symlink,
                meta: meta@,
                content: None,
                subtree: None,
                linktarget: Some(target@),
            }),
    {
        Node {
            name,
            node_type: NodeType::Symlink,
            meta,
            content: None,
            subtree: None,
            linktarget: Some(target),
        }
    }
}

/// The views of a list of nodes.
pub open spec fn node_views(nodes: Seq<Node>) -> Seq<NodeView> {
    Seq::new(nodes.len(), |i: int| nodes[i]@)
}

/// A directory listing: its nodes in order.
#[derive(Debug, PartialEq, Eq)]
pub struct Tree {
    pub nodes: Vec<Node>,
}

impl View for Tree {
    type V = Seq<NodeView>;

    open spec fn view(&self) -> Seq<NodeView> {
        node_views(self.nodes@)
    }
}

/// The name under which a node type is written.
pub open spec fn kind_name(t: NodeType) -> Seq<u8> {
    match t {
        NodeType::File => lit("\"file\""),
        NodeType::Dir => lit("\"dir\""),
        NodeType::Symlink => lit("\"symlink\""),
        NodeType::Dev => lit("\"dev\""),
        NodeType::Chardev => lit("\"chardev\""),
        NodeType::Fifo => lit("\"fifo\""),
        NodeType::Socket => lit("\"socket\""),
    }
}

/// `acc` followed by an optional time: `null`, or the time between double
/// quotes as RFC 3339 writes it.
pub open spec fn time_onto(acc: Seq<u8>, t: Option<Timestamp>) -> Seq<u8> {
    acc + time_json(t)
}

/// `acc` followed by an optional string: `null`, or the quoted string.
pub open spec fn opt_quoted_onto(acc: Seq<u8>, s: Option<Seq<u8>>) -> Seq<u8> {
    match s {
        None => acc + lit("null"),
        Some(s) => acc + quoted(s),
    }
}

/// `acc` followed by the quoted identifiers, separated by commas.
pub open spec fn ids_onto(acc: Seq<u8>, ids: Seq<Id>) -> Seq<u8>
    decreases ids.len(),
{
    if ids.len() == 0 {
        acc
    } else if ids.len() == 1 {
        acc + quoted_id(ids.last())
    } else {
        ids_onto(acc, ids.drop_last()) + lit(",") + quoted_id(ids.last())
    }
}

/// `acc` followed by an optional list of identifiers: `null`, or the list
/// in square brackets.
pub open spec fn content_onto(acc: Seq<u8>, content: Option<Seq<Id>>) -> Seq<u8> {
    match content {
        None => acc + lit("null"),
        Some(ids) => ids_onto(acc + lit("["), ids) + lit("]"),
    }
}

/// `acc` followed by an optional identifier: `null`, or the quoted
/// identifier.
pub open spec fn opt_id_onto(acc: Seq<u8>, id: Option<Id>) -> Seq<u8> {
    match id {
        None => acc + lit("null"),
        Some(id) => acc + quoted_id(id),
    }
}

/// `acc` followed by the record of the metadata fields.
pub open spec fn meta_onto(acc: Seq<u8>, m: MetadataView) -> Seq<u8> {
    let a = acc + lit(",\"mode\":") + decimal(m.mode as nat);
    let a = time_onto(a + lit(",\"mtime\":"), m.mtime);
    let a = time_onto(a + lit(",\"atime\":"), m.atime);
    let a = time_onto(a + lit(",\"ctime\":"), m.ctime);
    let a = a + lit(",\"uid\":") + decimal(m.uid as nat) + lit(",\"gid\":") + decimal(
        m.gid as nat,
    );
    let a = opt_quoted_onto(a + lit(",\"user\":"), m.user);
    let a = opt_quoted_onto(a + lit(",\"group\":"), m.group);
    a + lit(",\"inode\":") + decimal(m.inode as nat) + lit(",\"device_id\":") + decimal(
        m.device_id as nat,
    ) + lit(",\"size\":") + decimal(m.size as nat) + lit(",\"links\":") + decimal(m.links as nat)
}

/// `acc` followed by the record of one node: every field under its key, in
/// a fixed order, absent values as `null`.
pub open spec fn node_onto(acc: Seq<u8>, n: NodeView) -> Seq<u8> {
    let a = acc + lit("{\"name\":") + quoted(n.name) + lit(",\"type\":") + kind_name(n.node_type);
    let a = meta_onto(a, n.meta);
    let a = opt_quoted_onto(a + lit(",\"linktarget\":"), n.linktarget);
    let a = content_onto(a + lit(",\"content\":"), n.content);
    opt_id_onto(a + lit(",\"subtree\":"), n.subtree) + lit("}")
}

/// `acc` followed by the records of the nodes, separated by commas.
pub open spec fn nodes_onto(acc: Seq<u8>, nodes: Seq<NodeView>) -> Seq<u8>
    decreases nodes.len(),
{
    if nodes.len() == 0 {
        acc
    } else if nodes.len() == 1 {
        node_onto(acc, nodes.last())
    } else {
        node_onto(nodes_onto(acc, nodes.drop_last()) + lit(","), nodes.last())
    }
}

/// The stored form of a tree: one record with the single key `nodes`, whose
/// value is the list of node records in order.
pub open spec fn serialize_tree(nodes: Seq<NodeView>) -> Seq<u8> {
    nodes_onto(lit("{\"nodes\":["), nodes) + lit("]}")
}

/// Trees with the same nodes have the same stored form, byte for byte.
pub proof fn lemma_serialize_deterministic(a: Tree, b: Tree)
    requires
        a@ == b@,
    ensures
        serialize_tree(a@) == serialize_tree(b@),
        tree_id(a@) == tree_id(b@),
{
}

/// The identifier of a tree: the hash of its stored form.
pub open spec fn tree_id(nodes: Seq<NodeView>) -> Id {
    content_id(serialize_tree(nodes))
}

fn push_time(out: &mut Vec<u8>, t: &Option<Timestamp>)
    ensures
        final(out)@ == time_onto(old(out)@, *t),
{
    push_time_json(out, t);
}

fn push_opt_quoted(out: &mut Vec<u8>, s: &Option<Vec<u8>>)
    ensures
        final(out)@ == opt_quoted_onto(old(out)@, opt_bytes(*s)),
{
    match s {
        None => push_lit(out, "null"),
        Some(s) => push_quoted(out, s.as_slice()),
    }
}

fn push_ids(out: &mut Vec<u8>, ids: &Vec<Id>)
    ensures
        final(out)@ == ids_onto(old(out)@, ids@),
{
    let mut i: usize = 0;
    assert(ids@.subrange(0, 0) =~= Seq::<Id>::empty());
    while i < ids.len()
        invariant
            0 <= i <= ids@.len(),
            out@ == ids_onto(old(out)@, ids@.subrange(0, i as int)),
        decreases ids@.len() - i,
    {
        if i > 0 {
            push_lit(out, ",");
        }
        push_quoted_id(out, &ids[i]);
        proof {
            let next = ids@.subrange(0, i + 1);
            assert(next.drop_last() =~= ids@.subrange(0, i as int));
            assert(next.last() == ids@[i as int]);
        }
        i += 1;
    }
    assert(ids@.subrange(0, i as int) =~= ids@);
}

fn push_content(out: &mut Vec<u8>, content: &Option<Vec<Id>>)
    ensures
        final(out)@ == content_onto(old(out)@, opt_ids(*content)),
{
    match content {
        None => push_lit(out, "null"),
        Some(ids) => {
            push_lit(out, "[");
            push_ids(out, ids);
            push_lit(out, "]");
        },
    }
}

fn push_opt_id(out: &mut Vec<u8>, id: &Option<Id>)
    ensures
        final(out)@ == opt_id_onto(old(out)@, *id),
{
    match id {
        None => push_lit(out, "null"),
        Some(id) => push_quoted_id(out, id),
    }
}

fn push_kind(out: &mut Vec<u8>, t: NodeType)
    ensures
        final(out)@ == old(out)@ + kind_name(t),
{
    match t {
        NodeType::File => push_lit(out, "\"file\""),
        NodeType::Dir => push_lit(out, "\"dir\""),
        NodeType::Symlink => push_lit(out, "\"symlink\""),
        NodeType::Dev => push_lit(out, "\"dev\""),
        NodeType::Chardev => push_lit(out, "\"chardev\""),
        NodeType::Fifo => push_lit(out, "\"fifo\""),
        NodeType::Socket => push_lit(out, "\"socket\""),
    }
}

fn push_meta(out: &mut Vec<u8>, m: &Metadata)
    ensures
        final(out)@ == meta_onto(old(out)@, m@),
{
    push_lit(out, ",\"mode\":");
    push_decimal(out, m.mode as u64);
    push_lit(out, ",\"mtime\":");
    push_time(out, &m.mtime);
    push_lit(out, ",\"atime\":");
    push_time(out, &m.atime);
    push_lit(out, ",\"ctime\":");
    push_time(out, &m.ctime);
    push_lit(out, ",\"uid\":");
    push_decimal(out, m.uid as u64);
    push_lit(out, ",\"gid\":");
    push_decimal(out, m.gid as u64);
    push_lit(out, ",\"user\":");
    push_opt_quoted(out, &m.user);
    push_lit(out, ",\"group\":");
    push_opt_quoted(out, &m.group);
    push_lit(out, ",\"inode\":");
    push_decimal(out, m.inode);
    push_lit(out, ",\"device_id\":");
    push_decimal(out, m.device_id);
    push_lit(out, ",\"size\":");
    push_decimal(out, m.size);
    push_lit(out, ",\"links\":");
    push_decimal(out, m.links);
}

fn push_node(out: &mut Vec<u8>, n: &Node)
    ensures
        final(out)@ == node_onto(old(out)@, n@),
{
    push_lit(out, "{\"name\":");
    push_quoted(out, n.name.as_slice());
    push_lit(out, ",\"type\":");
    push_kind(out, n.node_type);
    push_meta(out, &n.meta);
    push_lit(out, ",\"linktarget\":");
    push_opt_quoted(out, &n.linktarget);
    push_lit(out, ",\"content\":");
    push_content(out, &n.content);
    push_lit(out, ",\"subtree\":");
    push_opt_id(out, &n.subtree);
    push_lit(out, "}");
}

/// Whether the byte string `a` comes before `b`: at the first place where
/// they differ, `a` has the smaller byte, or `a` ends there and `b` does
/// not.
pub open spec fn name_before(a: Seq<u8>, b: Seq<u8>) -> bool
    decreases a.len(),
{
    if b.len() == 0 {
        false
    } else if a.len() == 0 {
        true
    } else if a[0] != b[0] {
        a[0] < b[0]
    } else {
        name_before(a.drop_first(), b.drop_first())
    }
}

/// Whether the node at `i` comes before the node behind it.
pub open spec fn in_order(nodes: Seq<NodeView>, i: int) -> bool {
    name_before(nodes[i].name, nodes[i + 1].name)
}

/// Whether the nodes are sorted by name, no name twice.
pub open spec fn sorted_by_name(nodes: Seq<NodeView>) -> bool {
    forall|i: int| 0 <= i < nodes.len() - 1 ==> #[trigger] in_order(nodes, i)
}

/// Whether no node comes behind a node whose name comes behind its own:
/// the nodes are in the order of their names, and nodes of one name may
/// follow one another.
pub open spec fn name_order(nodes: Seq<NodeView>) -> bool {
    forall|i: int, j: int|
        0 <= i < j < nodes.len() ==> !name_before(
            (#[trigger] nodes[j]).name,
            (#[trigger] nodes[i]).name,
        )
}

/// Where a node of the name `name` is put among nodes in name order:
/// behind the last node whose name does not come behind `name`.
pub open spec fn insert_place(nodes: Seq<NodeView>, name: Seq<u8>) -> int
    decreases nodes.len(),
{
    if nodes.len() > 0 && name_before(name, nodes.last().name) {
        insert_place(nodes.drop_last(), name)
    } else {
        nodes.len() as int
    }
}

/// The nodes put in the order of their names; nodes of one name keep the
/// order they came in.
pub open spec fn sorted_nodes(nodes: Seq<NodeView>) -> Seq<NodeView>
    decreases nodes.len(),
{
    if nodes.len() == 0 {
        nodes
    } else {
        let before = sorted_nodes(nodes.drop_last());
        before.insert(insert_place(before, nodes.last().name), nodes.last())
    }
}

/// Of two names, one does not come before the other where the other comes
/// before it.
pub proof fn lemma_name_asymmetric(a: Seq<u8>, b: Seq<u8>)
    requires
        name_before(a, b),
    ensures
        !name_before(b, a),
    decreases a.len(),
{
    if a.len() > 0 && b.len() > 0 && a[0] == b[0] {
        lemma_name_asymmetric(a.drop_first(), b.drop_first());
    }
}

/// A name that comes before a second comes before every third that does
/// not come before the second.
pub proof fn lemma_name_transitive(a: Seq<u8>, b: Seq<u8>, c: Seq<u8>)
    requires
        name_before(a, b),
        !name_before(c, b),
    ensures
        name_before(a, c),
    decreases a.len(),
{
    if a.len() > 0 && b.len() > 0 && c.len() > 0 && a[0] == b[0] && c[0] == b[0] {
        lemma_name_transitive(a.drop_first(), b.drop_first(), c.drop_first());
    }
}

/// Of two names that differ, one comes before the other.
pub proof fn lemma_name_total(a: Seq<u8>, b: Seq<u8>)
    requires
        a != b,
    ensures
        name_before(a, b) || name_before(b, a),
    decreases a.len(),
{
    if a.len() > 0 && b.len() > 0 && a[0] == b[0] {
        assert(a.drop_first() != b.drop_first()) by {
            if a.drop_first() == b.drop_first() {
                assert(a =~= seq![a[0]] + a.drop_first());
                assert(b =~= seq![b[0]] + b.drop_first());
            }
        }
        lemma_name_total(a.drop_first(), b.drop_first());
    } else if a.len() == 0 && b.len() == 0 {
        assert(a =~= b);
    }
}

/// Nodes in name order of which no two have the same name are sorted by
/// name.
pub proof fn lemma_order_sorted(nodes: Seq<NodeView>)
    requires
        name_order(nodes),
        forall|i: int, j: int|
            0 <= i < j < nodes.len() ==> (#[trigger] nodes[i]).name != (#[trigger] nodes[j]).name,
    ensures
        sorted_by_name(nodes),
{
    assert forall|i: int| 0 <= i < nodes.len() - 1 implies #[trigger] in_order(nodes, i) by {
        assert(!name_before(nodes[i + 1].name, nodes[i].name));
        assert(nodes[i].name != nodes[i + 1].name);
        lemma_name_total(nodes[i].name, nodes[i + 1].name);
    }
}

/// The place of a node lies among the nodes: every node from there on
/// comes behind the name, and the node before does not.
pub proof fn lemma_insert_place(nodes: Seq<NodeView>, name: Seq<u8>)
    ensures
        0 <= insert_place(nodes, name) <= nodes.len(),
        forall|i: int|
            insert_place(nodes, name) <= i < nodes.len() ==> name_before(
                name,
                (#[trigger] nodes[i]).name,
            ),
        insert_place(nodes, name) > 0 ==> !name_before(
            name,
            nodes[insert_place(nodes, name) - 1].name,
        ),
    decreases nodes.len(),
{
    if nodes.len() > 0 && name_before(name, nodes.last().name) {
        lemma_insert_place(nodes.drop_last(), name);
        let k = insert_place(nodes.drop_last(), name);
        assert forall|i: int| k <= i < nodes.len() implies name_before(
            name,
            (#[trigger] nodes[i]).name,
        ) by {
            if i < nodes.len() - 1 {
                assert(nodes.drop_last()[i] == nodes[i]);
            }
        }
        if k > 0 {
            assert(nodes.drop_last()[k - 1] == nodes[k - 1]);
        }
    }
}

/// Nodes in name order stay so with one more node at its place.
pub proof fn lemma_insert_ordered(nodes: Seq<NodeView>, node: NodeView)
    requires
        name_order(nodes),
    ensures
        name_order(nodes.insert(insert_place(nodes, node.name), node)),
{
    let k = insert_place(nodes, node.name);
    let all = nodes.insert(k, node);
    lemma_insert_place(nodes, node.name);
    assert forall|i: int, j: int| 0 <= i < j < all.len() implies !name_before(
        (#[trigger] all[j]).name,
        (#[trigger] all[i]).name,
    ) by {
        let a = if i < k { i } else { i - 1 };
        let b = if j < k { j } else { j - 1 };
        if i == k {
            // the node itself, and one behind its place
            assert(all[j] == nodes[b]);
            assert(name_before(node.name, nodes[b].name));
            lemma_name_asymmetric(node.name, nodes[b].name);
        } else if j == k {
            // one before its place, and the node itself
            assert(all[i] == nodes[a]);
            assert(!name_before(node.name, nodes[k - 1].name));
            if name_before(node.name, nodes[a].name) {
                if a < k - 1 {
                    assert(!name_before(nodes[k - 1].name, nodes[a].name));
                    lemma_name_transitive(node.name, nodes[a].name, nodes[k - 1].name);
                }
            }
        } else {
            assert(all[i] == nodes[a]);
            assert(all[j] == nodes[b]);
        }
    }
}

/// Whether `node` is one of `nodes`.
pub open spec fn has_node(nodes: Seq<NodeView>, node: NodeView) -> bool {
    exists|j: int| 0 <= j < nodes.len() && #[trigger] nodes[j] == node
}

/// With one more node put in, the nodes are those that were there and the
/// one put in.
pub proof fn lemma_insert_has(nodes: Seq<NodeView>, k: int, node: NodeView, x: NodeView)
    requires
        0 <= k <= nodes.len(),
    ensures
        has_node(nodes.insert(k, node), x) <==> has_node(nodes, x) || x == node,
{
    let all = nodes.insert(k, node);
    if has_node(all, x) {
        let j = choose|j: int| 0 <= j < all.len() && #[trigger] all[j] == x;
        if j < k {
            assert(nodes[j] == x);
        } else if j > k {
            assert(nodes[j - 1] == x);
        }
    }
    if has_node(nodes, x) {
        let j = choose|j: int| 0 <= j < nodes.len() && #[trigger] nodes[j] == x;
        if j < k {
            assert(all[j] == x);
        } else {
            assert(all[j + 1] == x);
        }
    }
    if x == node {
        assert(all[k] == x);
    }
}

/// The nodes put in order are in name order, and as many as before.
pub proof fn lemma_sorted_nodes(nodes: Seq<NodeView>)
    ensures
        name_order(sorted_nodes(nodes)),
        sorted_nodes(nodes).len() == nodes.len(),
    decreases nodes.len(),
{
    if nodes.len() > 0 {
        let before = sorted_nodes(nodes.drop_last());
        lemma_sorted_nodes(nodes.drop_last());
        lemma_insert_place(before, nodes.last().name);
        lemma_insert_ordered(before, nodes.last());
    }
}

/// The nodes put in order are the same nodes: each of them is one of those
/// given, and each given one is among them.
pub proof fn lemma_sorted_has(nodes: Seq<NodeView>, x: NodeView)
    ensures
        has_node(sorted_nodes(nodes), x) <==> has_node(nodes, x),
    decreases nodes.len(),
{
    if nodes.len() > 0 {
        let rest = nodes.drop_last();
        let before = sorted_nodes(rest);
        lemma_sorted_has(rest, x);
        lemma_insert_place(before, nodes.last().name);
        lemma_insert_has(before, insert_place(before, nodes.last().name), nodes.last(), x);
        if has_node(rest, x) {
            let j = choose|j: int| 0 <= j < rest.len() && #[trigger] rest[j] == x;
            assert(nodes[j] == x);
        }
        if has_node(nodes, x) {
            let j = choose|j: int| 0 <= j < nodes.len() && #[trigger] nodes[j] == x;
            if j < nodes.len() - 1 {
                assert(rest[j] == x);
            }
        }
        if x == nodes.last() {
            assert(nodes[nodes.len() - 1] == x);
        }
    }
}

/// Whether no two of the nodes have the same name.
pub open spec fn distinct_names(nodes: Seq<NodeView>) -> bool {
    forall|i: int, j: int|
        0 <= i < j < nodes.len() ==> (#[trigger] nodes[i]).name != (#[trigger] nodes[j]).name
}

/// In nodes that are sorted by name, a node comes before every node
/// behind it, and no two nodes have the same name.
pub proof fn lemma_sorted_apart(nodes: Seq<NodeView>, i: int, j: int)
    requires
        sorted_by_name(nodes),
        0 <= i < j < nodes.len(),
    ensures
        name_before(nodes[i].name, nodes[j].name),
        nodes[i].name != nodes[j].name,
    decreases j - i,
{
    assert(in_order(nodes, j - 1));
    if i < j - 1 {
        lemma_sorted_apart(nodes, i, j - 1);
        lemma_name_asymmetric(nodes[j - 1].name, nodes[j].name);
        lemma_name_transitive(nodes[i].name, nodes[j - 1].name, nodes[j].name);
    }
    lemma_name_asymmetric(nodes[i].name, nodes[j].name);
}

/// Nodes of which no two have the same name are still such when they are
/// put in order, and are then sorted by name.
pub proof fn lemma_sorted_distinct(nodes: Seq<NodeView>)
    requires
        distinct_names(nodes),
    ensures
        distinct_names(sorted_nodes(nodes)),
        sorted_by_name(sorted_nodes(nodes)),
    decreases nodes.len(),
{
    if nodes.len() > 0 {
        let rest = nodes.drop_last();
        let node = nodes.last();
        let before = sorted_nodes(rest);
        assert forall|i: int, j: int| 0 <= i < j < rest.len() implies (#[trigger] rest[i]).name != (
        #[trigger] rest[j]).name by {
            assert(rest[i] == nodes[i] && rest[j] == nodes[j]);
        }
        lemma_sorted_distinct(rest);
        lemma_insert_place(before, node.name);
        let k = insert_place(before, node.name);
        let all = before.insert(k, node);
        assert forall|i: int| 0 <= i < before.len() implies (#[trigger] before[i]).name
            != node.name by {
            assert(has_node(before, before[i]));
            lemma_sorted_has(rest, before[i]);
            let j = choose|j: int| 0 <= j < rest.len() && #[trigger] rest[j] == before[i];
            assert(nodes[j] == rest[j]);
            assert(nodes[j].name != nodes[nodes.len() - 1].name);
        }
        assert forall|i: int, j: int| 0 <= i < j < all.len() implies (#[trigger] all[i]).name != (
        #[trigger] all[j]).name by {
            let a = if i < k {
                i
            } else {
                i - 1
            };
            let b = if j < k {
                j
            } else {
                j - 1
            };
            if i != k && j != k {
                assert(all[i] == before[a] && all[j] == before[b]);
                assert(before[a].name != before[b].name);
            } else if i == k {
                assert(all[j] == before[b]);
            } else {
                assert(all[i] == before[a]);
            }
        }
    }
    lemma_sorted_nodes(nodes);
    lemma_order_sorted(sorted_nodes(nodes));
}

/// Nodes that are in name order are left as they are.
pub proof fn lemma_sorted_stays(nodes: Seq<NodeView>)
    requires
        name_order(nodes),
    ensures
        sorted_nodes(nodes) == nodes,
    decreases nodes.len(),
{
    if nodes.len() > 0 {
        let rest = nodes.drop_last();
        assert(name_order(rest)) by {
            assert forall|i: int, j: int| 0 <= i < j < rest.len() implies !name_before(
                (#[trigger] rest[j]).name,
                (#[trigger] rest[i]).name,
            ) by {
                assert(rest[i] == nodes[i] && rest[j] == nodes[j]);
            }
        }
        lemma_sorted_stays(rest);
        lemma_insert_place(rest, nodes.last().name);
        let k = insert_place(rest, nodes.last().name);
        if k < rest.len() {
            assert(name_before(nodes.last().name, rest[k].name));
            assert(rest[k] == nodes[k]);
            assert(!name_before(nodes[nodes.len() - 1].name, nodes[k].name));
        }
        assert(rest.insert(k, nodes.last()) =~= nodes);
    }
}

/// Whether the byte string `a` comes before `b`.
pub fn is_name_before(a: &[u8], b: &[u8]) -> (r: bool)
    ensures
        r == name_before(a@, b@),
{
    let mut i: usize = 0;
    assert(a@.subrange(0, a@.len() as int) =~= a@);
    assert(b@.subrange(0, b@.len() as int) =~= b@);
    while i < a.len() && i < b.len()
        invariant
            0 <= i <= a@.len(),
            i <= b@.len(),
            name_before(a@, b@) == name_before(
                a@.subrange(i as int, a@.len() as int),
                b@.subrange(i as int, b@.len() as int),
            ),
        decreases a@.len() - i,
    {
        let ghost x = a@.subrange(i as int, a@.len() as int);
        let ghost y = b@.subrange(i as int, b@.len() as int);
        assert(x[0] == a@[i as int] && y[0] == b@[i as int]);
        assert(x.drop_first() =~= a@.subrange(i + 1, a@.len() as int));
        assert(y.drop_first() =~= b@.subrange(i + 1, b@.len() as int));
        if a[i] != b[i] {
            return a[i] < b[i];
        }
        i += 1;
    }
    i < b.len()
}

/// The first node of `nodes` with the name `name`.
pub open spec fn find_spec(nodes: Seq<NodeView>, name: Seq<u8>) -> Option<NodeView>
    decreases nodes.len(),
{
    if nodes.len() == 0 {
        None
    } else if nodes.first().name == name {
        Some(nodes.first())
    } else {
        find_spec(nodes.drop_first(), name)
    }
}

impl Clone for Tree {
    fn clone(&self) -> (r: Tree)
        ensures
            r@ == self@,
    {
        let mut nodes: Vec<Node> = Vec::new();
        let mut i: usize = 0;
        while i < self.nodes.len()
            invariant
                0 <= i <= self.nodes@.len(),
                nodes@.len() == i,
                forall|j: int| 0 <= j < i ==> (#[trigger] nodes@[j])@ == self.nodes@[j]@,
            decreases self.nodes@.len() - i,
        {
            nodes.push(self.nodes[i].clone());
            i += 1;
        }
        let r = Tree { nodes };
        assert(r@ =~= self@);
        r
    }
}

impl Tree {
    /// The empty tree.
    pub fn new() -> (tree: Tree)
        ensures
            tree@ == Seq::<NodeView>::empty(),
    {
        let tree = Tree { nodes: Vec::new() };
        assert(tree@ =~= Seq::<NodeView>::empty());
        tree
    }

    /// Appends a node to the listing.
    pub fn add(&mut self, node: Node)
        ensures
            final(self)@ == old(self)@.push(node@),
    {
        self.nodes.push(node);
        assert(self@ =~= old(self)@.push(node@));
    }

    /// The first node with the name `name`.
    pub fn find(&self, name: &[u8]) -> (r: Option<&Node>)
        ensures
            match r {
                Some(n) => find_spec(self@, name@) == Some(n@),
                None => find_spec(self@, name@).is_none(),
            },
    {
        let mut i: usize = 0;
        assert(self@.subrange(0, self@.len() as int) =~= self@);
        while i < self.nodes.len()
            invariant
                0 <= i <= self.nodes@.len(),
                find_spec(self@, name@) == find_spec(
                    self@.subrange(i as int, self@.len() as int),
                    name@,
                ),
            decreases self.nodes@.len() - i,
        {
            let ghost rest = self@.subrange(i as int, self@.len() as int);
            assert(rest.first() == self.nodes@[i as int]@);
            assert(rest.drop_first() =~= self@.subrange(i + 1, self@.len() as int));
            if same_bytes(self.nodes[i].name.as_slice(), name) {
                return Some(&self.nodes[i]);
            }
            i += 1;
        }
        assert(self@.subrange(i as int, self@.len() as int) =~= Seq::<NodeView>::empty());
        None
    }

    /// The tree with its nodes in the order of their names; nodes of one
    /// name keep the order they have.
    pub fn sorted(&self) -> (r: Tree)
        ensures
            r@ == sorted_nodes(self@),
    {
        let mut out: Vec<Node> = Vec::new();
        let mut i: usize = 0;
        assert(self@.subrange(0, 0) =~= Seq::<NodeView>::empty());
        assert(node_views(out@) =~= Seq::<NodeView>::empty());
        while i < self.nodes.len()
            invariant
                0 <= i <= self.nodes@.len(),
                node_views(out@) == sorted_nodes(self@.subrange(0, i as int)),
            decreases self.nodes@.len() - i,
        {
            let node = self.nodes[i].clone();
            let ghost had = node_views(out@);
            let mut k: usize = out.len();
            assert(had.subrange(0, k as int) =~= had);
            while k > 0 && is_name_before(node.name.as_slice(), out[k - 1].name.as_slice())
                invariant
                    0 <= k <= out@.len(),
                    had == node_views(out@),
                    insert_place(had, node@.name) == insert_place(had.subrange(0, k as int), node@.name),
                decreases k,
            {
                proof {
                    let part = had.subrange(0, k as int);
                    assert(part.last() == out@[k - 1]@);
                    assert(part.drop_last() =~= had.subrange(0, k - 1));
                }
                k -= 1;
            }
            proof {
                let part = had.subrange(0, k as int);
                if k > 0 {
                    assert(part.last() == out@[k - 1]@);
                }
                assert(insert_place(part, node@.name) == k);
                let next = self@.subrange(0, i + 1);
                assert(next.drop_last() =~= self@.subrange(0, i as int));
                assert(next.last() == node@);
            }
            out.insert(k, node);
            assert(node_views(out@) =~= had.insert(k as int, node@));
            i += 1;
        }
        assert(self@.subrange(0, i as int) =~= self@);
        Tree { nodes: out }
    }

    /// Whether the nodes are sorted by name, no name twice.
    pub fn is_sorted(&self) -> (r: bool)
        ensures
            r == sorted_by_name(self@),
    {
        if self.nodes.len() < 2 {
            return true;
        }
        let mut i: usize = 0;
        while i < self.nodes.len() - 1
            invariant
                self.nodes@.len() >= 2,
                0 <= i <= self.nodes@.len() - 1,
                forall|k: int| 0 <= k < i ==> #[trigger] in_order(self@, k),
            decreases self.nodes@.len() - i,
        {
            if !is_name_before(self.nodes[i].name.as_slice(), self.nodes[i + 1].name.as_slice()) {
                assert(!in_order(self@, i as int));
                return false;
            }
            assert(in_order(self@, i as int));
            i += 1;
        }
        true
    }

    /// The stored form of the tree and the identifier under which it is
    /// stored.
    pub fn serialize(&self) -> (r: (Vec<u8>, Id))
        ensures
            r.0@ == serialize_tree(self@),
            r.1 == tree_id(self@),
    {
        let mut out: Vec<u8> = Vec::new();
        push_lit(&mut out, "{\"nodes\":[");
        assert(out@ =~= lit("{\"nodes\":["));
        let ghost start = out@;
        let mut i: usize = 0;
        assert(self@.subrange(0, 0) =~= Seq::<NodeView>::empty());
        while i < self.nodes.len()
            invariant
                0 <= i <= self.nodes@.len(),
                out@ == nodes_onto(start, self@.subrange(0, i as int)),
            decreases self.nodes@.len() - i,
        {
            if i > 0 {
                push_lit(&mut out, ",");
            }
            push_node(&mut out, &self.nodes[i]);
            proof {
                let next = self@.subrange(0, i + 1);
                assert(next.drop_last() =~= self@.subrange(0, i as int));
                assert(next.last() == self.nodes@[i as int]@);
            }
            i += 1;
        }
        assert(self@.subrange(0, i as int) =~= self@);
        push_lit(&mut out, "]}");
        let id = hash(out.as_slice());
        (out, id)
    }
}

} // verus!
