//! Repair of damaged trees: a depth-first walk that drops what the blob
//! catalog no longer holds and rewrites every tree above the damage.

use vstd::prelude::*;
use crate::id::Id;
use crate::idmap::{IdMap, IdSet};
use crate::index::{IndexBackend, IndexEntry};
use crate::blob::clip64;
use crate::hasher::content_id;
use crate::tree::{
    lemma_order_sorted, lemma_sorted_apart, lemma_sorted_distinct, lemma_sorted_nodes,
    name_order, serialize_tree, sorted_by_name, sorted_nodes, tree_id, MetadataView, Node,
    NodeType, NodeView, Tree,
};
use crate::wire::push_bytes;
use crate::snapshot::{
    copy_texts, snapshot_id, snapshot_views, texts, SnapshotFile, SnapshotView,
};

verus! {

/// What repair found of a tree.
#[derive(Clone, Copy, Debug, PartialEq, Eq, Structural)]
pub enum Changed {
    /// The tree itself is lost.
    This,
    /// Something below the tree was repaired, so the tree was rewritten.
    SubTree,
    /// The tree is intact.
    Intact,
}

/// Why a repair stopped.
#[derive(Clone, Copy, Debug, PartialEq, Eq, Structural)]
pub enum RepairError {
    /// The trees nest deeper than the limit given.
    TooDeep,
}

/// What repair reads: the blob catalog, and the trees that still load,
/// each under its identifier.
pub struct IndexedBackend {
    pub index: IndexBackend,
    pub trees: IdMap<Tree>,
}

/// The repository as repair sees it.
pub ghost struct Repo {
    /// The trees that load.
    pub trees: Map<Id, Seq<NodeView>>,
    /// The data blobs that the catalog holds.
    pub data: Map<Id, IndexEntry>,
    /// What is appended to the name of a damaged node.
    pub suffix: Seq<u8>,
}

impl IndexedBackend {
    /// The repository as a repair with the given suffix sees it.
    pub open spec fn repo(&self, suffix: Seq<u8>) -> Repo {
        Repo {
            trees: Map::new(|id: Id| self.trees@.contains_key(id), |id: Id| self.trees@[id]@),
            data: self.index.data(),
            suffix,
        }
    }
}

/// The identifiers of `content` whose blobs the catalog holds, in order.
pub open spec fn kept(content: Seq<Id>, data: Map<Id, IndexEntry>) -> Seq<Id>
    decreases content.len(),
{
    if content.len() == 0 {
        Seq::empty()
    } else if data.contains_key(content.last()) {
        kept(content.drop_last(), data).push(content.last())
    } else {
        kept(content.drop_last(), data)
    }
}

/// Plaintext bytes of the blobs of `content` that the catalog holds.
pub open spec fn kept_bytes(content: Seq<Id>, data: Map<Id, IndexEntry>) -> nat
    decreases content.len(),
{
    if content.len() == 0 {
        0
    } else if data.contains_key(content.last()) {
        kept_bytes(content.drop_last(), data) + data[content.last()].spec_data_length() as nat
    } else {
        kept_bytes(content.drop_last(), data)
    }
}

/// A file node after repair, and whether it differs from before.
///
/// The content keeps the blobs that the catalog holds, and the size is
/// their plaintext total (capped at the largest `u64`). Where a blob is
/// missing, the name gets the suffix.
pub open spec fn repair_file_spec(repo: Repo, node: NodeView) -> (NodeView, bool) {
    let content = match node.content {
        Some(c) => c,
        None => Seq::empty(),
    };
    let stay = kept(content, repo.data);
    let missing = stay.len() < content.len();
    let size = clip64(kept_bytes(content, repo.data) as int);
    (
        NodeView {
            name: if missing {
                node.name + repo.suffix
            } else {
                node.name
            },
            content: Some(stay),
            meta: MetadataView { size, ..node.meta },
            ..node
        },
        missing || size != node.meta.size,
    )
}

/// The outcome of repairing the tree `id`, where trees nest less than
/// `fuel` deep; `None` where they nest deeper.
///
/// A tree that does not load, or a missing identifier, is replaced by the
/// empty tree. A tree with a repaired node is rewritten: its nodes are put
/// in the order of their names, which a new name may have broken, and the
/// tree gets the identifier of its new stored form. An intact tree keeps
/// its identifier.
#[verifier::opaque]
pub open spec fn repair_tree_spec(repo: Repo, id: Option<Id>, fuel: nat) -> Option<(Changed, Id)>
    decreases fuel, 0nat, 0nat,
{
    if fuel == 0 {
        None
    } else if id.is_some() && repo.trees.contains_key(id.unwrap()) {
        let nodes = repair_nodes_spec(repo, repo.trees[id.unwrap()], (fuel - 1) as nat);
        if nodes.is_none() {
            None
        } else if nodes.unwrap().1 {
            Some((Changed::SubTree, tree_id(sorted_nodes(nodes.unwrap().0))))
        } else {
            Some((Changed::Intact, id.unwrap()))
        }
    } else {
        Some((Changed::This, tree_id(Seq::empty())))
    }
}

/// The nodes of a tree after repair, and whether any of them changed.
#[verifier::opaque]
pub open spec fn repair_nodes_spec(repo: Repo, nodes: Seq<NodeView>, fuel: nat) -> Option<
    (Seq<NodeView>, bool),
>
    decreases fuel, 2nat, nodes.len(),
{
    if nodes.len() == 0 {
        Some((Seq::empty(), false))
    } else {
        let done = repair_nodes_spec(repo, nodes.drop_last(), fuel);
        let node = repair_node_spec(repo, nodes.last(), fuel);
        if done.is_some() && node.is_some() {
            Some((done.unwrap().0.push(node.unwrap().0), done.unwrap().1 || node.unwrap().1))
        } else {
            None
        }
    }
}

/// What becomes of a directory node, given what became of its tree: where
/// the tree is lost, the node gets the suffix and points to the empty
/// tree; where the tree was rewritten, the node points to the new tree.
pub open spec fn dir_after(repo: Repo, node: NodeView, outcome: (Changed, Id)) -> (NodeView, bool) {
    match outcome.0 {
        Changed::Intact => (node, false),
        Changed::This => (
            NodeView { subtree: Some(outcome.1), name: node.name + repo.suffix, ..node },
            true,
        ),
        Changed::SubTree => (NodeView { subtree: Some(outcome.1), ..node }, true),
    }
}

/// One node after repair, and whether it changed.
///
/// Files are repaired by [`repair_file_spec`], directories as their tree
/// is, by [`dir_after`]. Nodes that are neither pass through.
#[verifier::opaque]
pub open spec fn repair_node_spec(repo: Repo, node: NodeView, fuel: nat) -> Option<
    (NodeView, bool),
>
    decreases fuel, 1nat, 0nat,
{
    if node.node_type == NodeType::File {
        Some(repair_file_spec(repo, node))
    } else if node.node_type == NodeType::Dir {
        let tree = repair_tree_spec(repo, node.subtree, fuel);
        if tree.is_none() {
            None
        } else {
            Some(dir_after(repo, node, tree.unwrap()))
        }
    } else {
        Some((node, false))
    }
}

/// Whether repair rewrites the tree `id` as the nodes `nodes`: a node of
/// the tree has changed, and `nodes` are the repaired nodes in the order of
/// their names.
#[verifier::opaque]
pub open spec fn rewrites_as(repo: Repo, id: Id, nodes: Seq<NodeView>) -> bool {
    exists|fuel: nat|
        repo.trees.contains_key(id) && #[trigger] repair_nodes_spec(repo, repo.trees[id], fuel)
            == Some((unsorted_of(repo, id, fuel), true)) && nodes == sorted_nodes(
            unsorted_of(repo, id, fuel),
        )
}

/// The repaired nodes of the tree `id`, in the order in which the tree had
/// them.
pub open spec fn unsorted_of(repo: Repo, id: Id, fuel: nat) -> Seq<NodeView> {
    repair_nodes_spec(repo, repo.trees[id], fuel).unwrap().0
}

/// A rewritten tree has its nodes in the order of their names, and is
/// sorted by name where no two of its nodes have the same name. Two nodes
/// come to the same name only where a damaged node, with the suffix, is
/// named as another node of its tree.
pub proof fn lemma_rewritten_in_order(repo: Repo, id: Id, nodes: Seq<NodeView>)
    requires
        rewrites_as(repo, id, nodes),
    ensures
        repairs_to(repo, Some(id), (Changed::SubTree, tree_id(nodes))),
        name_order(nodes),
        (forall|i: int, j: int|
            0 <= i < j < nodes.len() ==> (#[trigger] nodes[i]).name != (#[trigger] nodes[j]).name)
            ==> sorted_by_name(nodes),
{
    reveal(rewrites_as);
    let fuel = choose|fuel: nat|
        repo.trees.contains_key(id) && #[trigger] repair_nodes_spec(repo, repo.trees[id], fuel)
            == Some((unsorted_of(repo, id, fuel), true)) && nodes == sorted_nodes(
            unsorted_of(repo, id, fuel),
        );
    lemma_tree_done(repo, id, fuel, unsorted_of(repo, id, fuel), true);
    lemma_sorted_nodes(unsorted_of(repo, id, fuel));
    if forall|i: int, j: int|
        0 <= i < j < nodes.len() ==> (#[trigger] nodes[i]).name != (#[trigger] nodes[j]).name {
        lemma_order_sorted(nodes);
    }
}

/// Whether no node of `nodes` gets, with the suffix, the name of another
/// node of `nodes`.
pub open spec fn no_clash(nodes: Seq<NodeView>, suffix: Seq<u8>) -> bool {
    forall|i: int, j: int|
        0 <= i < nodes.len() && 0 <= j < nodes.len() && i != j ==> (#[trigger] nodes[i]).name
            + suffix != (#[trigger] nodes[j]).name
}

/// Whether `name` is the name `before`, or `before` with the suffix.
pub open spec fn renamed(before: Seq<u8>, name: Seq<u8>, suffix: Seq<u8>) -> bool {
    name == before || name == before + suffix
}

/// A repaired node has the name that it had, or that name with the
/// suffix.
proof fn lemma_repaired_name(repo: Repo, node: NodeView, fuel: nat)
    requires
        repair_node_spec(repo, node, fuel).is_some(),
    ensures
        renamed(node.name, repair_node_spec(repo, node, fuel).unwrap().0.name, repo.suffix),
{
    reveal_with_fuel(repair_tree_spec, 2);
    reveal_with_fuel(repair_nodes_spec, 2);
    reveal_with_fuel(repair_node_spec, 2);
}

/// Repaired nodes are as many as before, and each has the name that it
/// had, or that name with the suffix.
proof fn lemma_repaired_names(repo: Repo, nodes: Seq<NodeView>, fuel: nat)
    requires
        repair_nodes_spec(repo, nodes, fuel).is_some(),
    ensures
        repair_nodes_spec(repo, nodes, fuel).unwrap().0.len() == nodes.len(),
        forall|i: int|
            0 <= i < nodes.len() ==> renamed(
                nodes[i].name,
                (#[trigger] repair_nodes_spec(repo, nodes, fuel).unwrap().0[i]).name,
                repo.suffix,
            ),
    decreases nodes.len(),
{
    reveal_with_fuel(repair_tree_spec, 2);
    reveal_with_fuel(repair_nodes_spec, 2);
    reveal_with_fuel(repair_node_spec, 2);
    if nodes.len() > 0 {
        let rest = nodes.drop_last();
        lemma_repaired_names(repo, rest, fuel);
        lemma_repaired_name(repo, nodes.last(), fuel);
        let done = repair_nodes_spec(repo, rest, fuel).unwrap().0;
        let out = repair_nodes_spec(repo, nodes, fuel).unwrap().0;
        assert(out == done.push(repair_node_spec(repo, nodes.last(), fuel).unwrap().0));
        assert forall|i: int| 0 <= i < nodes.len() implies renamed(
            nodes[i].name,
            (#[trigger] out[i]).name,
            repo.suffix,
        ) by {
            if i < rest.len() {
                assert(out[i] == done[i]);
                assert(rest[i] == nodes[i]);
            }
        }
    }
}

/// Two names that are the same with the suffix are the same.
proof fn lemma_suffix_apart(a: Seq<u8>, b: Seq<u8>, suffix: Seq<u8>)
    requires
        a + suffix == b + suffix,
    ensures
        a == b,
{
    assert((a + suffix).len() == a.len() + suffix.len());
    assert((b + suffix).len() == b.len() + suffix.len());
    assert((a + suffix).subrange(0, a.len() as int) =~= a);
    assert((b + suffix).subrange(0, b.len() as int) =~= b);
}

/// A rewritten tree is sorted by name, where the tree was sorted by name
/// and no node of it gets, with the suffix, the name of another.
pub proof fn lemma_rewritten_sorted(repo: Repo, id: Id, nodes: Seq<NodeView>)
    requires
        rewrites_as(repo, id, nodes),
        sorted_by_name(repo.trees[id]),
        no_clash(repo.trees[id], repo.suffix),
    ensures
        sorted_by_name(nodes),
        nodes.len() == repo.trees[id].len(),
{
    reveal(rewrites_as);
    let fuel = choose|fuel: nat|
        repo.trees.contains_key(id) && #[trigger] repair_nodes_spec(repo, repo.trees[id], fuel)
            == Some((unsorted_of(repo, id, fuel), true)) && nodes == sorted_nodes(
            unsorted_of(repo, id, fuel),
        );
    let given = repo.trees[id];
    let out = unsorted_of(repo, id, fuel);
    lemma_repaired_names(repo, given, fuel);
    assert forall|i: int, j: int| 0 <= i < j < out.len() implies (#[trigger] out[i]).name != (
    #[trigger] out[j]).name by {
        lemma_sorted_apart(given, i, j);
        assert(renamed(given[i].name, out[i].name, repo.suffix));
        assert(renamed(given[j].name, out[j].name, repo.suffix));
        assert(given[i].name + repo.suffix != given[j].name);
        assert(given[j].name + repo.suffix != given[i].name);
        if out[i].name == out[j].name {
            if out[i].name == given[i].name + repo.suffix && out[j].name == given[j].name
                + repo.suffix {
                lemma_suffix_apart(given[i].name, given[j].name, repo.suffix);
            }
        }
    }
    lemma_sorted_distinct(out);
    lemma_sorted_nodes(out);
}

/// Whether repairing the tree `id` comes to `outcome`, however deep the
/// trees nest.
pub open spec fn repairs_to(repo: Repo, id: Option<Id>, outcome: (Changed, Id)) -> bool {
    exists|fuel: nat| repair_tree_spec(repo, id, fuel) == Some(outcome)
}

/// A repair that ends with some fuel ends the same way with more.
pub proof fn lemma_more_fuel_tree(repo: Repo, id: Option<Id>, f: nat, g: nat)
    requires
        f <= g,
        repair_tree_spec(repo, id, f).is_some(),
    ensures
        repair_tree_spec(repo, id, g) == repair_tree_spec(repo, id, f),
    decreases f, 0nat, 0nat,
{
    reveal_with_fuel(repair_tree_spec, 2);
    reveal_with_fuel(repair_nodes_spec, 2);
    reveal_with_fuel(repair_node_spec, 2);
    match id {
        Some(i) => {
            if repo.trees.contains_key(i) {
                lemma_more_fuel_nodes(repo, repo.trees[i], (f - 1) as nat, (g - 1) as nat);
            }
        },
        None => {},
    }
}

/// As [`lemma_more_fuel_tree`], for the nodes of a tree.
pub proof fn lemma_more_fuel_nodes(repo: Repo, nodes: Seq<NodeView>, f: nat, g: nat)
    requires
        f <= g,
        repair_nodes_spec(repo, nodes, f).is_some(),
    ensures
        repair_nodes_spec(repo, nodes, g) == repair_nodes_spec(repo, nodes, f),
    decreases f, 2nat, nodes.len(),
{
    reveal_with_fuel(repair_tree_spec, 2);
    reveal_with_fuel(repair_nodes_spec, 2);
    reveal_with_fuel(repair_node_spec, 2);
    if nodes.len() > 0 {
        lemma_more_fuel_nodes(repo, nodes.drop_last(), f, g);
        lemma_more_fuel_node(repo, nodes.last(), f, g);
    }
}

/// As [`lemma_more_fuel_tree`], for one node.
pub proof fn lemma_more_fuel_node(repo: Repo, node: NodeView, f: nat, g: nat)
    requires
        f <= g,
        repair_node_spec(repo, node, f).is_some(),
    ensures
        repair_node_spec(repo, node, g) == repair_node_spec(repo, node, f),
    decreases f, 1nat, 0nat,
{
    reveal_with_fuel(repair_tree_spec, 2);
    reveal_with_fuel(repair_nodes_spec, 2);
    reveal_with_fuel(repair_node_spec, 2);
    if node.node_type == NodeType::Dir {
        lemma_more_fuel_tree(repo, node.subtree, f, g);
    }
}

/// A tree has one outcome of repair.
pub proof fn lemma_repair_deterministic(
    repo: Repo,
    id: Option<Id>,
    a: (Changed, Id),
    b: (Changed, Id),
)
    requires
        repairs_to(repo, id, a),
        repairs_to(repo, id, b),
    ensures
        a == b,
{
    let f = choose|fuel: nat| repair_tree_spec(repo, id, fuel) == Some(a);
    let g = choose|fuel: nat| repair_tree_spec(repo, id, fuel) == Some(b);
    if f <= g {
        lemma_more_fuel_tree(repo, id, f, g);
    } else {
        lemma_more_fuel_tree(repo, id, g, f);
    }
}

/// Where the nodes of a tree can be repaired, each of them can.
proof fn lemma_nodes_each(repo: Repo, nodes: Seq<NodeView>, fuel: nat, i: int)
    requires
        repair_nodes_spec(repo, nodes, fuel).is_some(),
        0 <= i < nodes.len(),
    ensures
        repair_node_spec(repo, nodes[i], fuel).is_some(),
    decreases nodes.len(),
{
    reveal_with_fuel(repair_tree_spec, 2);
    reveal_with_fuel(repair_nodes_spec, 2);
    reveal_with_fuel(repair_node_spec, 2);
    if i < nodes.len() - 1 {
        lemma_nodes_each(repo, nodes.drop_last(), fuel, i);
    }
}

/// Repairs a file node in place; whether it changed.
pub fn repair_file(index: &IndexBackend, node: &mut Node, suffix: &[u8]) -> (changed: bool)
    ensures
        (final(node)@, changed) == repair_file_spec(
            Repo { trees: Map::empty(), data: index.data(), suffix: suffix@ },
            old(node)@,
        ),
{
    let ghost data = index.data();
    let mut taken: Option<Vec<Id>> = None;
    std::mem::swap(&mut taken, &mut node.content);
    let content: Vec<Id> = match taken {
        Some(c) => c,
        None => Vec::new(),
    };
    let mut stay: Vec<Id> = Vec::new();
    let mut size: u64 = 0;
    let mut missing = false;
    let mut i: usize = 0;
    assert(content@.subrange(0, 0) =~= Seq::<Id>::empty());
    while i < content.len()
        invariant
            0 <= i <= content@.len(),
            data == index.data(),
            stay@ == kept(content@.subrange(0, i as int), data),
            stay@.len() <= i,
            missing == (stay@.len() < i),
            size == clip64(kept_bytes(content@.subrange(0, i as int), data) as int),
        decreases content@.len() - i,
    {
        let blob = content[i];
        proof {
            let next = content@.subrange(0, i + 1);
            assert(next.drop_last() =~= content@.subrange(0, i as int));
            assert(next.last() == blob);
        }
        match index.get_data(&blob) {
            Some(entry) => {
                stay.push(blob);
                size = size.saturating_add(entry.data_length() as u64);
            },
            None => {
                missing = true;
            },
        }
        i += 1;
    }
    assert(content@.subrange(0, i as int) =~= content@);
    if missing {
        push_bytes(&mut node.name, suffix);
    }
    let changed = missing || size != node.meta.size;
    node.content = Some(stay);
    node.meta.size = size;
    changed
}

/// Whether the tree blob `id` will be there after the repair: the run is a
/// dry one, or the catalog holds the blob, or it is among those to store.
pub open spec fn durable(
    known: Map<Id, IndexEntry>,
    dry_run: bool,
    saved: Seq<(Vec<u8>, Id)>,
    id: Id,
) -> bool {
    dry_run || known.contains_key(id) || exists|i: int|
        0 <= i < saved.len() && (#[trigger] saved[i]).1 == id
}

/// Whether `blob` is the stored form of a tree under its identifier, the
/// nodes of the tree in the order of their names.
pub open spec fn is_tree_blob(blob: (Vec<u8>, Id)) -> bool {
    exists|nodes: Seq<NodeView>|
        blob.0@ == #[trigger] serialize_tree(nodes) && blob.1 == tree_id(nodes) && name_order(
            nodes,
        )
}

/// Whether a rewritten tree of the identifier `id` is stored by a repair:
/// the run is no dry one, and the catalog lacks the tree.
pub open spec fn is_stored(known: Map<Id, IndexEntry>, dry_run: bool, id: Id) -> bool {
    !dry_run && !known.contains_key(id)
}

/// Whether every blob that came to `saved` behind the first `from` is the
/// stored form of a tree that the catalog lacks.
pub open spec fn all_new(known: Map<Id, IndexEntry>, saved: Seq<(Vec<u8>, Id)>, from: int) -> bool {
    forall|i: int|
        from <= i < saved.len() ==> !known.contains_key((#[trigger] saved[i]).1) && is_tree_blob(
            saved[i],
        )
}

/// Whether `blob` is the stored form of what repair rewrites the tree `id`
/// as.
#[verifier::opaque]
pub open spec fn stored_as(repo: Repo, id: Id, blob: (Vec<u8>, Id)) -> bool {
    exists|nodes: Seq<NodeView>| #[trigger]
        rewrites_as(repo, id, nodes) && blob.0@ == serialize_tree(nodes) && blob.1 == tree_id(
            nodes,
        )
}

/// The stored form of what a tree is rewritten as is stored as that.
proof fn lemma_stored_as(repo: Repo, id: Id, nodes: Seq<NodeView>, blob: (Vec<u8>, Id))
    requires
        rewrites_as(repo, id, nodes),
        blob.0@ == serialize_tree(nodes),
        blob.1 == tree_id(nodes),
    ensures
        stored_as(repo, id, blob),
{
    reveal(stored_as);
}

/// Notes that hold nothing are right.
pub proof fn lemma_empty_notes(repo: Repo, known: Map<Id, IndexEntry>, dry_run: bool)
    ensures
        memo_ok(repo, known, dry_run, Map::empty(), Set::empty(), Seq::empty()),
{
    reveal(memo_ok);
}

/// What is stored for a rewritten tree is the stored form of nodes in the
/// order of their names, under the identifier that the repair gives the
/// tree.
pub proof fn lemma_stored_in_order(repo: Repo, id: Id, blob: (Vec<u8>, Id))
    requires
        stored_as(repo, id, blob),
    ensures
        repairs_to(repo, Some(id), (Changed::SubTree, blob.1)),
        exists|nodes: Seq<NodeView>|
            name_order(nodes) && blob.0@ == #[trigger] serialize_tree(nodes) && blob.1 == tree_id(
                nodes,
            ),
{
    reveal(stored_as);
    let nodes = choose|nodes: Seq<NodeView>| #[trigger]
        rewrites_as(repo, id, nodes) && blob.0@ == serialize_tree(nodes) && blob.1 == tree_id(
            nodes,
        );
    lemma_rewritten_in_order(repo, id, nodes);
    assert(blob.0@ == serialize_tree(nodes));
}

/// What is stored for a rewritten tree is the stored form of nodes that
/// are sorted by name, where the tree was sorted by name and no node of
/// it gets, with the suffix, the name of another.
pub proof fn lemma_stored_sorted(repo: Repo, id: Id, blob: (Vec<u8>, Id))
    requires
        stored_as(repo, id, blob),
        sorted_by_name(repo.trees[id]),
        no_clash(repo.trees[id], repo.suffix),
    ensures
        exists|nodes: Seq<NodeView>|
            sorted_by_name(nodes) && blob.0@ == #[trigger] serialize_tree(nodes) && blob.1
                == tree_id(nodes),
{
    reveal(stored_as);
    let nodes = choose|nodes: Seq<NodeView>| #[trigger]
        rewrites_as(repo, id, nodes) && blob.0@ == serialize_tree(nodes) && blob.1 == tree_id(
            nodes,
        );
    lemma_rewritten_sorted(repo, id, nodes);
    assert(blob.0@ == serialize_tree(nodes));
}

/// Notes that are right hold a tree in one place only: a tree that is
/// noted as rewritten or lost is not noted as intact.
pub proof fn lemma_noted_once(
    repo: Repo,
    known: Map<Id, IndexEntry>,
    dry_run: bool,
    replaced: Map<Id, (Changed, Id)>,
    seen: Set<Id>,
    saved: Seq<(Vec<u8>, Id)>,
    id: Id,
)
    requires
        memo_ok(repo, known, dry_run, replaced, seen, saved),
    ensures
        !(seen.contains(id) && replaced.contains_key(id)),
{
    lemma_memo_read(repo, known, dry_run, replaced, seen, saved, id);
    if seen.contains(id) && replaced.contains_key(id) {
        lemma_repair_deterministic(repo, Some(id), (Changed::Intact, id), replaced[id]);
    }
}

/// Whether the tree `id` is lost: there is no identifier, or no tree that
/// loads under it.
pub open spec fn is_lost(trees: Map<Id, Tree>, id: Option<Id>) -> bool {
    id.is_none() || !trees.contains_key(id.unwrap())
}

/// Whether an earlier walk has noted what became of the tree `id`.
pub open spec fn noted(replaced: Map<Id, (Changed, Id)>, seen: Set<Id>, id: Option<Id>) -> bool {
    id.is_some() && (seen.contains(id.unwrap()) || replaced.contains_key(id.unwrap()))
}

/// What the notes say became of the tree `id`.
pub open spec fn noted_as(replaced: Map<Id, (Changed, Id)>, seen: Set<Id>, id: Id) -> (Changed, Id) {
    if seen.contains(id) {
        (Changed::Intact, id)
    } else {
        replaced[id]
    }
}

/// Blobs that are new to the catalog, followed by more such blobs, are all
/// new to it.
proof fn lemma_all_new(
    known: Map<Id, IndexEntry>,
    b_old: Seq<(Vec<u8>, Id)>,
    b_mid: Seq<(Vec<u8>, Id)>,
    b_new: Seq<(Vec<u8>, Id)>,
)
    requires
        b_old.is_prefix_of(b_mid),
        b_mid.is_prefix_of(b_new),
        all_new(known, b_mid, b_old.len() as int),
        all_new(known, b_new, b_mid.len() as int),
    ensures
        all_new(known, b_new, b_old.len() as int),
{
    assert forall|i: int| b_old.len() <= i < b_new.len() implies !known.contains_key(
        (#[trigger] b_new[i]).1,
    ) && is_tree_blob(b_new[i]) by {
        if i < b_mid.len() {
            assert(b_new[i] == b_mid[i]);
        }
    }
}

/// Whether what a repair has noted so far is right: every tree noted as
/// intact is, every tree noted as replaced has that outcome and its new
/// tree will be there, and every blob to store is the stored form of a
/// tree, named by its content.
#[verifier::opaque]
pub open spec fn memo_ok(
    repo: Repo,
    known: Map<Id, IndexEntry>,
    dry_run: bool,
    replaced: Map<Id, (Changed, Id)>,
    seen: Set<Id>,
    saved: Seq<(Vec<u8>, Id)>,
) -> bool {
    &&& forall|id: Id| #[trigger]
        seen.contains(id) ==> repairs_to(repo, Some(id), (Changed::Intact, id))
    &&& forall|id: Id| #[trigger]
        replaced.contains_key(id) ==> {
            &&& repairs_to(repo, Some(id), replaced[id])
            &&& replaced[id].0 != Changed::Intact
            &&& durable(known, dry_run, saved, replaced[id].1)
        }
    &&& forall|i: int|
        0 <= i < saved.len() ==> (#[trigger] saved[i]).1 == content_id(saved[i].0@)
            && is_tree_blob(saved[i])
}

/// Stores a rewritten tree unless the catalog holds it or the run is a dry
/// one; the identifier of the tree.
fn save_tree(be: &IndexedBackend, saved: &mut Vec<(Vec<u8>, Id)>, tree: &Tree, dry_run: bool) -> (id:
    Id)
    requires
        name_order(tree@),
    ensures
        id == tree_id(tree@),
        durable(be.index.trees(), dry_run, final(saved)@, id),
        is_stored(be.index.trees(), dry_run, id) ==> final(saved)@ == old(saved)@.push(
            final(saved)@.last(),
        ) && final(saved)@.last().1 == id && final(saved)@.last().0@ == serialize_tree(tree@)
            && is_tree_blob(final(saved)@.last()),
        !is_stored(be.index.trees(), dry_run, id) ==> final(saved)@ == old(saved)@,
{
    let (chunk, id) = tree.serialize();
    if !be.index.has_tree(&id) && !dry_run {
        saved.push((chunk, id));
        assert(saved@[saved@.len() - 1].1 == id);
        assert(saved@.last().0@ == serialize_tree(tree@));
    }
    id
}

/// What was noted stays right when one more blob is to be stored.
proof fn lemma_memo_grows(
    repo: Repo,
    known: Map<Id, IndexEntry>,
    dry_run: bool,
    replaced: Map<Id, (Changed, Id)>,
    seen: Set<Id>,
    saved: Seq<(Vec<u8>, Id)>,
    more: Seq<(Vec<u8>, Id)>,
)
    requires
        memo_ok(repo, known, dry_run, replaced, seen, saved),
        more == saved || (more == saved.push(more.last()) && more.last().1 == content_id(
            more.last().0@,
        ) && is_tree_blob(more.last())),
    ensures
        memo_ok(repo, known, dry_run, replaced, seen, more),
        forall|id: Id|
            durable(known, dry_run, saved, id) ==> durable(known, dry_run, more, id),
{
    reveal(memo_ok);
    assert forall|id: Id| durable(known, dry_run, saved, id) implies durable(
        known,
        dry_run,
        more,
        id,
    ) by {
        if !dry_run && !known.contains_key(id) {
            let i = choose|i: int| 0 <= i < saved.len() && (#[trigger] saved[i]).1 == id;
            assert(more[i].1 == id);
        }
    }
    assert forall|id: Id| #[trigger] replaced.contains_key(id) implies durable(
        known,
        dry_run,
        more,
        replaced[id].1,
    ) by {
        assert(durable(known, dry_run, saved, replaced[id].1));
    }
}

/// What was noted stays right when a tree found intact is noted.
proof fn lemma_memo_seen(
    repo: Repo,
    known: Map<Id, IndexEntry>,
    dry_run: bool,
    replaced: Map<Id, (Changed, Id)>,
    seen: Set<Id>,
    saved: Seq<(Vec<u8>, Id)>,
    id: Id,
)
    requires
        memo_ok(repo, known, dry_run, replaced, seen, saved),
        repairs_to(repo, Some(id), (Changed::Intact, id)),
    ensures
        memo_ok(repo, known, dry_run, replaced, seen.insert(id), saved),
{
    reveal(memo_ok);
}

/// What was noted stays right when a replaced tree is noted.
proof fn lemma_memo_replaced(
    repo: Repo,
    known: Map<Id, IndexEntry>,
    dry_run: bool,
    replaced: Map<Id, (Changed, Id)>,
    seen: Set<Id>,
    saved: Seq<(Vec<u8>, Id)>,
    id: Id,
    outcome: (Changed, Id),
)
    requires
        memo_ok(repo, known, dry_run, replaced, seen, saved),
        repairs_to(repo, Some(id), outcome),
        outcome.0 != Changed::Intact,
        durable(known, dry_run, saved, outcome.1),
    ensures
        memo_ok(repo, known, dry_run, replaced.insert(id, outcome), seen, saved),
{
    reveal(memo_ok);
}

/// What the notes say of a tree is right.
proof fn lemma_memo_read(
    repo: Repo,
    known: Map<Id, IndexEntry>,
    dry_run: bool,
    replaced: Map<Id, (Changed, Id)>,
    seen: Set<Id>,
    saved: Seq<(Vec<u8>, Id)>,
    id: Id,
)
    requires
        memo_ok(repo, known, dry_run, replaced, seen, saved),
    ensures
        seen.contains(id) ==> repairs_to(repo, Some(id), (Changed::Intact, id)),
        replaced.contains_key(id) ==> repairs_to(repo, Some(id), replaced[id]) && replaced[id].0
            != Changed::Intact && durable(known, dry_run, saved, replaced[id].1),
{
    reveal(memo_ok);
}

/// One more node repaired extends the repair of the nodes before it.
proof fn lemma_nodes_step(
    repo: Repo,
    nodes: Seq<NodeView>,
    i: int,
    fuel: nat,
    done: Seq<NodeView>,
    changed: bool,
    f: nat,
    node: NodeView,
    node_changed: bool,
) -> (g: nat)
    requires
        0 <= i < nodes.len(),
        repair_nodes_spec(repo, nodes.subrange(0, i), fuel) == Some((done, changed)),
        repair_node_spec(repo, nodes[i], f) == Some((node, node_changed)),
    ensures
        repair_nodes_spec(repo, nodes.subrange(0, i + 1), g) == Some(
            (done.push(node), changed || node_changed),
        ),
{
    reveal_with_fuel(repair_tree_spec, 2);
    reveal_with_fuel(repair_nodes_spec, 2);
    reveal_with_fuel(repair_node_spec, 2);
    let next = nodes.subrange(0, i + 1);
    assert(next.drop_last() =~= nodes.subrange(0, i));
    assert(next.last() == nodes[i]);
    if f > fuel {
        lemma_more_fuel_nodes(repo, nodes.subrange(0, i), fuel, f);
        f
    } else {
        lemma_more_fuel_node(repo, nodes[i], f, fuel);
        fuel
    }
}

/// Where one node of a tree cannot be repaired within the fuel, the tree
/// cannot.
proof fn lemma_tree_fails(repo: Repo, id: Id, fuel: nat, i: int)
    requires
        fuel > 0,
        repo.trees.contains_key(id),
        0 <= i < repo.trees[id].len(),
        repair_node_spec(repo, repo.trees[id][i], (fuel - 1) as nat).is_none(),
    ensures
        repair_tree_spec(repo, Some(id), fuel).is_none(),
{
    reveal_with_fuel(repair_tree_spec, 2);
    reveal_with_fuel(repair_nodes_spec, 2);
    reveal_with_fuel(repair_node_spec, 2);
    if repair_tree_spec(repo, Some(id), fuel).is_some() {
        lemma_nodes_each(repo, repo.trees[id], (fuel - 1) as nat, i);
    }
}

/// A tree that does not load, or a missing identifier, is replaced by the
/// empty tree.
proof fn lemma_tree_lost(repo: Repo, id: Option<Id>)
    requires
        match id {
            Some(id) => !repo.trees.contains_key(id),
            None => true,
        },
    ensures
        repairs_to(repo, id, (Changed::This, tree_id(Seq::empty()))),
{
    reveal_with_fuel(repair_tree_spec, 2);
    reveal_with_fuel(repair_nodes_spec, 2);
    reveal_with_fuel(repair_node_spec, 2);
    assert(repair_tree_spec(repo, id, 1) == Some((Changed::This, tree_id(Seq::empty()))));
}

/// A tree whose nodes are repaired is intact where none of them changed,
/// and rewritten where one did.
proof fn lemma_tree_done(repo: Repo, id: Id, fuel: nat, nodes: Seq<NodeView>, changed: bool)
    requires
        repo.trees.contains_key(id),
        repair_nodes_spec(repo, repo.trees[id], fuel) == Some((nodes, changed)),
    ensures
        changed ==> repairs_to(repo, Some(id), (Changed::SubTree, tree_id(sorted_nodes(nodes)))),
        changed ==> rewrites_as(repo, id, sorted_nodes(nodes)),
        !changed ==> repairs_to(repo, Some(id), (Changed::Intact, id)),
{
    reveal(rewrites_as);
    reveal_with_fuel(repair_tree_spec, 2);
    reveal_with_fuel(repair_nodes_spec, 2);
    reveal_with_fuel(repair_node_spec, 2);
    if changed {
        assert(unsorted_of(repo, id, fuel) == nodes);
        assert(repair_tree_spec(repo, Some(id), fuel + 1) == Some(
            (Changed::SubTree, tree_id(sorted_nodes(nodes))),
        ));
    } else {
        assert(repair_tree_spec(repo, Some(id), fuel + 1) == Some((Changed::Intact, id)));
    }
}

/// No tree is repaired without fuel.
proof fn lemma_tree_no_fuel(repo: Repo, id: Option<Id>)
    ensures
        repair_tree_spec(repo, id, 0).is_none(),
{
    reveal_with_fuel(repair_tree_spec, 2);
    reveal_with_fuel(repair_nodes_spec, 2);
    reveal_with_fuel(repair_node_spec, 2);
}

/// No node is there to repair in an empty tree.
proof fn lemma_nodes_none(repo: Repo)
    ensures
        repair_nodes_spec(repo, Seq::empty(), 0) == Some((Seq::<NodeView>::empty(), false)),
{
    reveal_with_fuel(repair_tree_spec, 2);
    reveal_with_fuel(repair_nodes_spec, 2);
    reveal_with_fuel(repair_node_spec, 2);
}

/// A node that is neither file nor directory passes through, and a file
/// is repaired by [`repair_file_spec`].
proof fn lemma_node_leaf(repo: Repo, node: NodeView)
    requires
        node.node_type != NodeType::Dir,
    ensures
        node.node_type == NodeType::File ==> node_repairs_to(
            repo,
            node,
            repair_file_spec(repo, node),
        ),
        node.node_type != NodeType::File ==> node_repairs_to(repo, node, (node, false)),
{
    reveal_with_fuel(repair_tree_spec, 2);
    reveal_with_fuel(repair_nodes_spec, 2);
    reveal_with_fuel(repair_node_spec, 2);
    if node.node_type == NodeType::File {
        assert(repair_node_spec(repo, node, 0) == Some(repair_file_spec(repo, node)));
    } else {
        assert(repair_node_spec(repo, node, 0) == Some((node, false)));
    }
}

/// A directory node is repaired as its tree is.
proof fn lemma_node_dir(repo: Repo, node: NodeView, outcome: (Changed, Id))
    requires
        node.node_type == NodeType::Dir,
        repairs_to(repo, node.subtree, outcome),
    ensures
        node_repairs_to(repo, node, dir_after(repo, node, outcome)),
{
    reveal_with_fuel(repair_tree_spec, 2);
    reveal_with_fuel(repair_nodes_spec, 2);
    reveal_with_fuel(repair_node_spec, 2);
    let f = choose|f: nat| repair_tree_spec(repo, node.subtree, f) == Some(outcome);
    assert(repair_node_spec(repo, node, f) == Some(dir_after(repo, node, outcome)));
}

/// A directory node whose tree cannot be repaired within the fuel cannot
/// be repaired within it.
proof fn lemma_node_dir_fails(repo: Repo, node: NodeView, fuel: nat)
    requires
        node.node_type == NodeType::Dir,
        repair_tree_spec(repo, node.subtree, fuel).is_none(),
    ensures
        repair_node_spec(repo, node, fuel).is_none(),
{
    reveal_with_fuel(repair_tree_spec, 2);
    reveal_with_fuel(repair_nodes_spec, 2);
    reveal_with_fuel(repair_node_spec, 2);
}

/// Notes that grow twice have grown.
proof fn lemma_grows(
    r_old: Map<Id, (Changed, Id)>,
    r_mid: Map<Id, (Changed, Id)>,
    r_new: Map<Id, (Changed, Id)>,
    s_old: Set<Id>,
    s_mid: Set<Id>,
    s_new: Set<Id>,
    b_old: Seq<(Vec<u8>, Id)>,
    b_mid: Seq<(Vec<u8>, Id)>,
    b_new: Seq<(Vec<u8>, Id)>,
)
    requires
        r_old.submap_of(r_mid),
        r_mid.submap_of(r_new),
        s_old.subset_of(s_mid),
        s_mid.subset_of(s_new),
        b_old.is_prefix_of(b_mid),
        b_mid.is_prefix_of(b_new),
    ensures
        r_old.submap_of(r_new),
        s_old.subset_of(s_new),
        b_old.is_prefix_of(b_new),
{
    assert forall|k: Id| #[trigger] r_old.dom().contains(k) implies r_new.dom().contains(k) && r_old[k]
        == r_new[k] by {
        assert(r_mid.dom().contains(k));
    }
}

/// Whether repairing `node` comes to `outcome`, however deep the trees
/// nest.
pub open spec fn node_repairs_to(repo: Repo, node: NodeView, outcome: (NodeView, bool)) -> bool {
    exists|fuel: nat| repair_node_spec(repo, node, fuel) == Some(outcome)
}

/// Repairs one node of a tree, and for a directory everything below it.
///
/// Returns the node as it is from now on, and whether it changed. What
/// holds of the notes and of `saved` is as for [`repair_tree`], and like
/// there it holds where the notes were right before: see [`memo_ok`].
pub fn repair_node(
    be: &IndexedBackend,
    saved: &mut Vec<(Vec<u8>, Id)>,
    node: Node,
    replaced: &mut IdMap<(Changed, Id)>,
    seen: &mut IdSet,
    dry_run: bool,
    suffix: &[u8],
    depth: usize,
) -> (r: Result<(Node, bool), RepairError>)
    ensures
        old(replaced)@.submap_of(final(replaced)@),
        old(seen)@.subset_of(final(seen)@),
        old(saved)@.is_prefix_of(final(saved)@),
        memo_ok(
            be.repo(suffix@),
            be.index.trees(),
            dry_run,
            old(replaced)@,
            old(seen)@,
            old(saved)@,
        ) ==> memo_ok(
            be.repo(suffix@),
            be.index.trees(),
            dry_run,
            final(replaced)@,
            final(seen)@,
            final(saved)@,
        ),
        memo_ok(
            be.repo(suffix@),
            be.index.trees(),
            dry_run,
            old(replaced)@,
            old(seen)@,
            old(saved)@,
        ) ==> match r {
            Ok(outcome) => node_repairs_to(be.repo(suffix@), node@, (outcome.0@, outcome.1)),
            Err(_) => repair_node_spec(be.repo(suffix@), node@, depth as nat).is_none(),
        },
        dry_run ==> final(saved)@ == old(saved)@,
        all_new(be.index.trees(), final(saved)@, old(saved)@.len() as int),
        r.is_ok() && !r.unwrap().1 ==> final(replaced)@ == old(replaced)@ && final(saved)@ == old(saved)@,
    decreases depth, 1nat,
{
    let ghost repo = be.repo(suffix@);
    let ghost ok = memo_ok(repo, be.index.trees(), dry_run, replaced@, seen@, saved@);
    let mut node = node;
    let ghost before = node@;
    match node.node_type {
        NodeType::File => {
            let changed = repair_file(&be.index, &mut node, suffix);
            proof {
                assert(repair_file_spec(repo, before) == repair_file_spec(
                    Repo { trees: Map::empty(), data: repo.data, suffix: repo.suffix },
                    before,
                ));
                lemma_node_leaf(repo, before);
            }
            Ok((node, changed))
        },
        NodeType::Dir => {
            match repair_tree(be, saved, node.subtree, replaced, seen, dry_run, suffix, depth) {
                Err(e) => {
                    proof {
                        if ok {
                            lemma_node_dir_fails(repo, before, depth as nat);
                        }
                    }
                    Err(e)
                },
                Ok((c, tree)) => {
                    let changed = match c {
                        Changed::Intact => false,
                        Changed::This => {
                            node.subtree = Some(tree);
                            push_bytes(&mut node.name, suffix);
                            true
                        },
                        Changed::SubTree => {
                            node.subtree = Some(tree);
                            true
                        },
                    };
                    proof {
                        if ok {
                            lemma_node_dir(repo, before, (c, tree));
                            assert((node@, changed) == dir_after(repo, before, (c, tree)));
                        }
                    }
                    Ok((node, changed))
                },
            }
        },
        _ => {
            proof {
                lemma_node_leaf(repo, before);
            }
            Ok((node, false))
        },
    }
}

/// Repairs the tree `id` and everything below it.
///
/// Returns what became of the tree and the identifier to use for it from
/// now on. Trees found intact are noted in `seen`, rewritten ones in
/// `replaced`, and neither is walked twice. The stored form of each
/// rewritten tree that the catalog lacks is appended to `saved`, unless the
/// run is a dry one. The walk gives up with `TooDeep` only where the trees
/// nest `depth` deep or deeper.
///
/// A tree that was noted before is answered from the notes, and nothing
/// changes. A tree found intact leaves `replaced` and `saved` as they
/// were. The nodes of a rewritten tree are stored in the order of their
/// names.
///
/// The outcome is that of [`repair_tree_spec`] where the notes were right
/// before, as they are when they are empty or come from earlier repairs
/// of the same repository: see [`memo_ok`].
#[verifier::rlimit(40)]
pub fn repair_tree(
    be: &IndexedBackend,
    saved: &mut Vec<(Vec<u8>, Id)>,
    id: Option<Id>,
    replaced: &mut IdMap<(Changed, Id)>,
    seen: &mut IdSet,
    dry_run: bool,
    suffix: &[u8],
    depth: usize,
) -> (r: Result<(Changed, Id), RepairError>)
    ensures
        old(replaced)@.submap_of(final(replaced)@),
        old(seen)@.subset_of(final(seen)@),
        old(saved)@.is_prefix_of(final(saved)@),
        memo_ok(
            be.repo(suffix@),
            be.index.trees(),
            dry_run,
            old(replaced)@,
            old(seen)@,
            old(saved)@,
        ) ==> memo_ok(
            be.repo(suffix@),
            be.index.trees(),
            dry_run,
            final(replaced)@,
            final(seen)@,
            final(saved)@,
        ),
        memo_ok(
            be.repo(suffix@),
            be.index.trees(),
            dry_run,
            old(replaced)@,
            old(seen)@,
            old(saved)@,
        ) ==> match r {
            Ok(outcome) => {
                &&& repairs_to(be.repo(suffix@), id, outcome)
                &&& outcome.0 != Changed::Intact ==> durable(
                    be.index.trees(),
                    dry_run,
                    final(saved)@,
                    outcome.1,
                )
                &&& outcome.0 == Changed::SubTree && !noted(old(replaced)@, old(seen)@, id)
                    && is_stored(be.index.trees(), dry_run, outcome.1) ==> stored_as(
                    be.repo(suffix@),
                    id.unwrap(),
                    final(saved)@.last(),
                )
            },
            Err(_) => repair_tree_spec(be.repo(suffix@), id, depth as nat).is_none(),
        },
        dry_run ==> final(saved)@ == old(saved)@,
        all_new(be.index.trees(), final(saved)@, old(saved)@.len() as int),
        depth > 0 && noted(old(replaced)@, old(seen)@, id) ==> {
            &&& r == Ok::<(Changed, Id), RepairError>(
                noted_as(old(replaced)@, old(seen)@, id.unwrap()),
            )
            &&& final(replaced)@ == old(replaced)@
            &&& final(seen)@ == old(seen)@
            &&& final(saved)@ == old(saved)@
        },
        r.is_ok() && r.unwrap().0 == Changed::Intact ==> final(replaced)@ == old(replaced)@
            && final(saved)@ == old(saved)@,
        depth > 0 && !noted(old(replaced)@, old(seen)@, id) && is_lost(be.trees@, id) ==> {
            let empty = tree_id(Seq::empty());
            &&& r == Ok::<(Changed, Id), RepairError>((Changed::This, empty))
            &&& final(seen)@ == old(seen)@
            &&& final(saved)@ == if is_stored(be.index.trees(), dry_run, empty) {
                old(saved)@.push(final(saved)@.last())
            } else {
                old(saved)@
            }
            &&& is_stored(be.index.trees(), dry_run, empty) ==> final(saved)@.last().1 == empty
                && final(saved)@.last().0@ == serialize_tree(Seq::empty())
        },
        r.is_ok() && !noted(old(replaced)@, old(seen)@, id) ==> {
            let outcome = r.unwrap();
            if outcome.0 == Changed::Intact {
                id == Some(outcome.1) && final(seen)@.contains(outcome.1)
            } else {
                &&& id.is_some() ==> final(replaced)@.contains_key(id.unwrap()) && final(replaced)@[id.unwrap()] == outcome
                &&& is_stored(be.index.trees(), dry_run, outcome.1) ==> final(saved)@.len() > 0
                    && final(saved)@.last().1 == outcome.1
            }
        },
    decreases depth, 0nat,
{
    let ghost repo = be.repo(suffix@);
    let ghost known = be.index.trees();
    let ghost ok = memo_ok(repo, known, dry_run, replaced@, seen@, saved@);
    if depth == 0 {
        proof {
            lemma_tree_no_fuel(repo, id);
        }
        return Err(RepairError::TooDeep);
    }
    let loaded: Option<&Tree> = match id {
        None => None,
        Some(id) => {
            proof {
                if ok {
                    lemma_memo_read(repo, known, dry_run, replaced@, seen@, saved@, id);
                }
            }
            if seen.contains(&id) {
                return Ok((Changed::Intact, id));
            }
            match replaced.get(&id) {
                Some(r) => {
                    return Ok(*r);
                },
                None => {},
            }
            be.trees.get(&id)
        },
    };
    let tree = match loaded {
        None => {
            // lost: the empty tree takes its place
            let empty = Tree::new();
            let ghost before = saved@;
            let new_id = save_tree(be, saved, &empty, dry_run);
            proof {
                lemma_all_new(known, old(saved)@, before, saved@);
                lemma_tree_lost(repo, id);
                if ok {
                    lemma_memo_grows(repo, known, dry_run, replaced@, seen@, before, saved@);
                }
            }
            if let Some(id) = id {
                proof {
                    if ok {
                        lemma_memo_replaced(
                            repo,
                            known,
                            dry_run,
                            replaced@,
                            seen@,
                            saved@,
                            id,
                            (Changed::This, new_id),
                        );
                    }
                }
                replaced.insert(id, (Changed::This, new_id));
            }
            return Ok((Changed::This, new_id));
        },
        Some(tree) => tree,
    };
    let this = id.unwrap();
    let ghost nodes = repo.trees[this];
    assert(nodes == tree@);
    let mut new_tree = Tree::new();
    let mut changed = false;
    let ghost mut fuel: nat = 0;
    let mut i: usize = 0;
    proof {
        lemma_nodes_none(repo);
        assert(nodes.subrange(0, 0) =~= Seq::<NodeView>::empty());
    }
    while i < tree.nodes.len()
        invariant
            0 <= i <= tree.nodes@.len(),
            depth > 0,
            repo == be.repo(suffix@),
            known == be.index.trees(),
            nodes == tree@,
            id == Some(this),
            repo.trees.contains_key(this) && repo.trees[this] == nodes,
            ok == memo_ok(repo, known, dry_run, old(replaced)@, old(seen)@, old(saved)@),
            ok ==> memo_ok(repo, known, dry_run, replaced@, seen@, saved@),
            old(replaced)@.submap_of(replaced@),
            old(seen)@.subset_of(seen@),
            old(saved)@.is_prefix_of(saved@),
            dry_run ==> saved@ == old(saved)@,
            all_new(known, saved@, old(saved)@.len() as int),
            !changed ==> replaced@ == old(replaced)@ && saved@ == old(saved)@,
            !noted(old(replaced)@, old(seen)@, id),
            ok ==> repair_nodes_spec(repo, nodes.subrange(0, i as int), fuel) == Some(
                (new_tree@, changed),
            ),
        decreases tree.nodes@.len() - i,
    {
        let node = tree.nodes[i].clone();
        assert(node@ == nodes[i as int]);
        let ghost r_old = replaced@;
        let ghost s_old = seen@;
        let ghost b_old = saved@;
        let step = repair_node(be, saved, node, replaced, seen, dry_run, suffix, depth - 1);
        proof {
            lemma_grows(old(replaced)@, r_old, replaced@, old(seen)@, s_old, seen@, old(saved)@, b_old, saved@);
            lemma_all_new(known, old(saved)@, b_old, saved@);
        }
        match step {
            Err(e) => {
                proof {
                    if ok {
                        assert(repair_node_spec(repo, nodes[i as int], (depth - 1) as nat).is_none());
                        lemma_tree_fails(repo, this, depth as nat, i as int);
                    }
                }
                return Err(e);
            },
            Ok((node_after, node_changed)) => {
                proof {
                    if ok {
                        let f = choose|f: nat|
                            repair_node_spec(repo, nodes[i as int], f) == Some(
                                (node_after@, node_changed),
                            );
                        fuel =
                        lemma_nodes_step(
                            repo,
                            nodes,
                            i as int,
                            fuel,
                            new_tree@,
                            changed,
                            f,
                            node_after@,
                            node_changed,
                        );
                    }
                }
                if node_changed {
                    changed = true;
                }
                new_tree.add(node_after);
            },
        }
        i += 1;
    }
    assert(nodes.subrange(0, i as int) =~= nodes);
    if !changed {
        proof {
            if ok {
                lemma_tree_done(repo, this, fuel, new_tree@, changed);
                lemma_memo_seen(repo, known, dry_run, replaced@, seen@, saved@, this);
            }
        }
        seen.insert(this);
        return Ok((Changed::Intact, this));
    }
    let ghost rewritten = new_tree@;
    let new_tree = new_tree.sorted();
    let ghost before = saved@;
    proof {
        lemma_sorted_nodes(rewritten);
    }
    let new_id = save_tree(be, saved, &new_tree, dry_run);
    proof {
        lemma_all_new(known, old(saved)@, before, saved@);
        if ok {
            lemma_memo_grows(repo, known, dry_run, replaced@, seen@, before, saved@);
            lemma_tree_done(repo, this, fuel, rewritten, changed);
            if is_stored(known, dry_run, new_id) {
                lemma_stored_as(repo, this, new_tree@, saved@.last());
            }
            lemma_memo_replaced(
                repo,
                known,
                dry_run,
                replaced@,
                seen@,
                saved@,
                this,
                (Changed::SubTree, new_id),
            );
        }
    }
    replaced.insert(this, (Changed::SubTree, new_id));
    Ok((Changed::SubTree, new_id))
}

/// How snapshots are repaired.
#[derive(Debug)]
pub struct SnapOpts {
    /// Whether snapshots that repair replaces or finds lost are removed.
    pub delete: bool,
    /// What is appended to the name of a damaged file or directory.
    pub suffix: Vec<u8>,
    /// The tags that a repaired snapshot gets.
    pub tag: Vec<String>,
}

/// What a repair of snapshots leaves to do.
#[derive(Debug)]
pub struct RepairedSnaps {
    /// The stored forms of the rewritten trees that the catalog lacks.
    pub trees: Vec<(Vec<u8>, Id)>,
    /// The snapshots to save, each in place of a damaged one.
    pub snapshots: Vec<SnapshotFile>,
    /// The snapshots that were replaced or found lost, in the order given.
    pub marked: Vec<Id>,
    /// The snapshots to remove.
    pub remove: Vec<Id>,
}

/// The outcome of repairing the tree `tree`, where there is one.
pub open spec fn outcome_of(repo: Repo, tree: Id) -> (Changed, Id) {
    choose|o: (Changed, Id)| repairs_to(repo, Some(tree), o)
}

/// The snapshot that takes the place of `s` when its tree is rewritten as
/// `tree`: it remembers which snapshot it came from first, carries the
/// given tags, and is named by its new stored form.
pub open spec fn rewritten(s: SnapshotView, tree: Id, tags: Seq<Seq<char>>) -> SnapshotView {
    let t = SnapshotView {
        original: if s.original.is_none() {
            Some(s.id)
        } else {
            s.original
        },
        tags,
        tree,
        ..s
    };
    SnapshotView { id: snapshot_id(t), ..t }
}

/// The snapshots that replace those of `snaps` whose tree is rewritten, in
/// order.
pub open spec fn new_snapshots(repo: Repo, snaps: Seq<SnapshotView>, tags: Seq<Seq<char>>) -> Seq<
    SnapshotView,
>
    decreases snaps.len(),
{
    if snaps.len() == 0 {
        Seq::empty()
    } else {
        let before = new_snapshots(repo, snaps.drop_last(), tags);
        let outcome = outcome_of(repo, snaps.last().tree);
        if outcome.0 == Changed::SubTree {
            before.push(rewritten(snaps.last(), outcome.1, tags))
        } else {
            before
        }
    }
}

/// The snapshots of `snaps` whose tree is lost or rewritten, in order.
pub open spec fn marked_snapshots(repo: Repo, snaps: Seq<SnapshotView>) -> Seq<Id>
    decreases snaps.len(),
{
    if snaps.len() == 0 {
        Seq::empty()
    } else {
        let before = marked_snapshots(repo, snaps.drop_last());
        if outcome_of(repo, snaps.last().tree).0 != Changed::Intact {
            before.push(snaps.last().id)
        } else {
            before
        }
    }
}

/// Whether the tree of each of the first `n` snapshots is intact.
pub open spec fn all_intact(repo: Repo, snaps: Seq<SnapshotView>, n: int) -> bool {
    forall|i: int| 0 <= i < n ==> outcome_of(repo, (#[trigger] snaps[i]).tree).0 == Changed::Intact
}

/// The snapshot that takes the place of `snap` when its tree is rewritten
/// as `tree`.
pub fn rewrite_snapshot(snap: &SnapshotFile, tree: Id, tags: &Vec<String>) -> (r: SnapshotFile)
    ensures
        r@ == rewritten(snap@, tree, texts(tags@)),
{
    let mut r = snap.clone();
    if r.original.is_none() {
        r.original = Some(r.id);
    }
    r.set_tags(copy_texts(tags));
    r.tree = tree;
    let (_bytes, id) = r.serialize();
    r.id = id;
    r
}

/// Repairs the trees of the given snapshots.
///
/// A snapshot whose tree is intact is left alone. One whose root tree is
/// lost is marked. One with damage below the root is marked too, and a
/// snapshot that points to the rewritten root takes its place. A dry run
/// saves nothing; snapshots are removed only where `opts.delete` asks for
/// it and the run is no dry one. The repair gives up only where the trees
/// of some snapshot nest `depth` deep or deeper.
pub fn repair_snaps(
    be: &IndexedBackend,
    snapshots: &Vec<SnapshotFile>,
    opts: &SnapOpts,
    dry_run: bool,
    depth: usize,
) -> (r: Result<RepairedSnaps, RepairError>)
    ensures
        match r {
            Ok(plan) => {
                let repo = be.repo(opts.suffix@);
                let snaps = snapshot_views(snapshots@);
                &&& forall|i: int|
                    0 <= i < snaps.len() ==> repairs_to(
                        repo,
                        Some((#[trigger] snaps[i]).tree),
                        outcome_of(repo, snaps[i].tree),
                    )
                &&& snapshot_views(plan.snapshots@) == if dry_run {
                    Seq::empty()
                } else {
                    new_snapshots(repo, snaps, texts(opts.tag@))
                }
                &&& plan.marked@ == marked_snapshots(repo, snaps)
                &&& plan.remove@ == if opts.delete && !dry_run {
                    plan.marked@
                } else {
                    Seq::empty()
                }
                &&& forall|i: int|
                    0 <= i < plan.trees@.len() ==> (#[trigger] plan.trees@[i]).1 == content_id(
                        plan.trees@[i].0@,
                    ) && is_tree_blob(plan.trees@[i])
                &&& forall|i: int|
                    0 <= i < plan.snapshots@.len() ==> durable(
                        be.index.trees(),
                        dry_run,
                        plan.trees@,
                        (#[trigger] plan.snapshots@[i]).tree,
                    )
                &&& all_new(be.index.trees(), plan.trees@, 0)
                &&& dry_run ==> plan.trees@.len() == 0
                &&& all_intact(repo, snaps, snaps.len() as int) ==> plan.trees@.len() == 0
            },
            Err(_) => exists|i: int|
                0 <= i < snapshots@.len() && repair_tree_spec(
                    be.repo(opts.suffix@),
                    Some((#[trigger] snapshots@[i]).tree),
                    depth as nat,
                ).is_none(),
        },
{
    let ghost repo = be.repo(opts.suffix@);
    let ghost known = be.index.trees();
    let ghost snaps = snapshot_views(snapshots@);
    let ghost tags = texts(opts.tag@);
    let mut replaced: IdMap<(Changed, Id)> = IdMap::new();
    let mut seen = IdSet::new();
    let mut trees: Vec<(Vec<u8>, Id)> = Vec::new();
    let mut new_snaps: Vec<SnapshotFile> = Vec::new();
    let mut marked: Vec<Id> = Vec::new();
    proof {
        reveal(memo_ok);
        assert(snaps.subrange(0, 0) =~= Seq::<SnapshotView>::empty());
        assert(snapshot_views(new_snaps@) =~= Seq::<SnapshotView>::empty());
    }
    let mut i: usize = 0;
    while i < snapshots.len()
        invariant
            0 <= i <= snapshots@.len(),
            repo == be.repo(opts.suffix@),
            known == be.index.trees(),
            snaps == snapshot_views(snapshots@),
            tags == texts(opts.tag@),
            memo_ok(repo, known, dry_run, replaced@, seen@, trees@),
            forall|j: int|
                0 <= j < i ==> repairs_to(
                    repo,
                    Some((#[trigger] snaps[j]).tree),
                    outcome_of(repo, snaps[j].tree),
                ),
            snapshot_views(new_snaps@) == if dry_run {
                Seq::empty()
            } else {
                new_snapshots(repo, snaps.subrange(0, i as int), tags)
            },
            marked@ == marked_snapshots(repo, snaps.subrange(0, i as int)),
            all_new(known, trees@, 0),
            dry_run ==> trees@.len() == 0,
            all_intact(repo, snaps, i as int) ==> trees@.len() == 0,
            forall|j: int|
                0 <= j < new_snaps@.len() ==> durable(
                    known,
                    dry_run,
                    trees@,
                    (#[trigger] new_snaps@[j]).tree,
                ),
        decreases snapshots@.len() - i,
    {
        let snap = &snapshots[i];
        let ghost before = trees@;
        let ghost next = snaps.subrange(0, i + 1);
        proof {
            assert(next.drop_last() =~= snaps.subrange(0, i as int));
            assert(next.last() == snap@);
        }
        let outcome = repair_tree(
            be,
            &mut trees,
            Some(snap.tree),
            &mut replaced,
            &mut seen,
            dry_run,
            opts.suffix.as_slice(),
            depth,
        );
        match outcome {
            Err(e) => {
                assert(snapshots@[i as int].tree == snap.tree);
                return Err(e);
            },
            Ok((c, tree)) => {
                proof {
                    lemma_repair_deterministic(
                        repo,
                        Some(snap.tree),
                        (c, tree),
                        outcome_of(repo, snap.tree),
                    );
                    lemma_all_new(known, Seq::empty(), before, trees@);
                    assert(snaps[i as int] == snap@);
                    assert forall|j: int| 0 <= j < new_snaps@.len() implies durable(
                        known,
                        dry_run,
                        trees@,
                        (#[trigger] new_snaps@[j]).tree,
                    ) by {
                        lemma_durable_grows(known, dry_run, before, trees@, new_snaps@[j].tree);
                    }
                }
                match c {
                    Changed::Intact => {},
                    Changed::This => {
                        marked.push(snap.id);
                    },
                    Changed::SubTree => {
                        if !dry_run {
                            let ghost had = snapshot_views(new_snaps@);
                            let fresh = rewrite_snapshot(snap, tree, &opts.tag);
                            new_snaps.push(fresh);
                            assert(snapshot_views(new_snaps@) =~= had.push(
                                rewritten(snap@, tree, tags),
                            ));
                        }
                        marked.push(snap.id);
                    },
                }
            },
        }
        i += 1;
    }
    proof {
        assert(snaps.subrange(0, i as int) =~= snaps);
        reveal(memo_ok);
    }
    let remove = if opts.delete && !dry_run {
        vstd::slice::slice_to_vec(marked.as_slice())
    } else {
        Vec::new()
    };
    Ok(RepairedSnaps { trees, snapshots: new_snaps, marked, remove })
}

/// A tree that will be there stays so when more blobs are to be stored.
proof fn lemma_durable_grows(
    known: Map<Id, IndexEntry>,
    dry_run: bool,
    saved: Seq<(Vec<u8>, Id)>,
    more: Seq<(Vec<u8>, Id)>,
    id: Id,
)
    requires
        saved.is_prefix_of(more),
        durable(known, dry_run, saved, id),
    ensures
        durable(known, dry_run, more, id),
{
    if !dry_run && !known.contains_key(id) {
        let i = choose|i: int| 0 <= i < saved.len() && (#[trigger] saved[i]).1 == id;
        assert(more[i] == saved[i]);
    }
}

} // verus!
