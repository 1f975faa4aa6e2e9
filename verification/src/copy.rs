//! Copying snapshots into another repository: which snapshots the
//! destination lacks, and which blobs it needs for them.

use vstd::prelude::*;
use crate::id::Id;
use crate::idmap::{IdMap, IdSet};
use crate::index::{IndexBackend, IndexEntry};
use crate::snapshot::{opt_text, snapshot_views, texts, SnapshotFile, SnapshotView};
use crate::tree::{Node, NodeType, NodeView, Tree};

verus! {

/// Whether two lists of strings hold the same strings in the same order.
pub fn same_texts(a: &Vec<String>, b: &Vec<String>) -> (r: bool)
    ensures
        r == (texts(a@) == texts(b@)),
{
    if a.len() != b.len() {
        assert(texts(a@).len() != texts(b@).len());
        return false;
    }
    let mut i: usize = 0;
    while i < a.len()
        invariant
            0 <= i <= a@.len(),
            a@.len() == b@.len(),
            forall|j: int| 0 <= j < i ==> (#[trigger] a@[j])@ == b@[j]@,
        decreases a@.len() - i,
    {
        if a[i] != b[i] {
            assert(texts(a@)[i as int] != texts(b@)[i as int]);
            return false;
        }
        i += 1;
    }
    assert(texts(a@) =~= texts(b@));
    true
}

/// Whether two optional strings are the same.
pub fn same_opt_text(a: &Option<String>, b: &Option<String>) -> (r: bool)
    ensures
        r == (opt_text(*a) == opt_text(*b)),
{
    match (a, b) {
        (None, None) => true,
        (Some(x), Some(y)) => *x == *y,
        _ => false,
    }
}

/// Whether two optional identifiers are the same.
pub fn same_opt_id(a: &Option<Id>, b: &Option<Id>) -> (r: bool)
    ensures
        r == (*a == *b),
{
    match (a, b) {
        (None, None) => true,
        (Some(x), Some(y)) => *x == *y,
        _ => false,
    }
}

/// Whether two snapshots are the same backup: they agree in everything but
/// their own identifier and their parent.
pub fn same_backup(a: &SnapshotFile, b: &SnapshotFile) -> (r: bool)
    ensures
        r == (SnapshotFile::spec_clear_ids(a@) == SnapshotFile::spec_clear_ids(b@)),
{
    a.time == b.time && a.tree == b.tree && same_texts(&a.paths, &b.paths) && a.hostname
        == b.hostname && same_opt_text(&a.username, &b.username) && same_texts(&a.tags, &b.tags)
        && same_opt_text(&a.label, &b.label) && same_opt_id(&a.original, &b.original)
}

/// Whether `dest` holds the backup `s`.
pub open spec fn exists_in(dest: Seq<SnapshotView>, s: SnapshotView) -> bool {
    exists|j: int|
        0 <= j < dest.len() && SnapshotFile::spec_clear_ids(#[trigger] dest[j])
            == SnapshotFile::spec_clear_ids(s)
}

/// The backups of `snaps` that `dest` lacks, in order, without what
/// names them in the source.
pub open spec fn relevant(snaps: Seq<SnapshotView>, dest: Seq<SnapshotView>) -> Seq<SnapshotView>
    decreases snaps.len(),
{
    if snaps.len() == 0 {
        Seq::empty()
    } else if exists_in(dest, snaps.last()) {
        relevant(snaps.drop_last(), dest)
    } else {
        relevant(snaps.drop_last(), dest).push(SnapshotFile::spec_clear_ids(snaps.last()))
    }
}

/// For each snapshot of `snaps`, its identifier and whether it is to be
/// copied.
pub open spec fn copy_status(snaps: Seq<SnapshotView>, dest: Seq<SnapshotView>) -> Seq<(Id, bool)> {
    Seq::new(snaps.len(), |i: int| (snaps[i].id, !exists_in(dest, snaps[i])))
}

/// Whether `dest` holds the backup `s`.
pub fn is_existing(dest: &Vec<SnapshotFile>, s: &SnapshotFile) -> (r: bool)
    ensures
        r == exists_in(snapshot_views(dest@), s@),
{
    let mut j: usize = 0;
    while j < dest.len()
        invariant
            0 <= j <= dest@.len(),
            forall|k: int|
                0 <= k < j ==> SnapshotFile::spec_clear_ids(#[trigger] snapshot_views(dest@)[k])
                    != SnapshotFile::spec_clear_ids(s@),
        decreases dest@.len() - j,
    {
        if same_backup(&dest[j], s) {
            assert(snapshot_views(dest@)[j as int] == dest@[j as int]@);
            return true;
        }
        assert(snapshot_views(dest@)[j as int] == dest@[j as int]@);
        j += 1;
    }
    false
}

/// Picks the snapshots that the destination lacks.
///
/// Returns them in order, each without its identifier and parent, and for
/// every snapshot given its identifier and whether it is to be copied.
pub fn relevant_snapshots(snaps: &Vec<SnapshotFile>, dest: &Vec<SnapshotFile>) -> (r: (
    Vec<SnapshotFile>,
    Vec<(Id, bool)>,
))
    ensures
        snapshot_views(r.0@) == relevant(snapshot_views(snaps@), snapshot_views(dest@)),
        r.1@ == copy_status(snapshot_views(snaps@), snapshot_views(dest@)),
{
    let ghost all = snapshot_views(snaps@);
    let ghost there = snapshot_views(dest@);
    let mut to_copy: Vec<SnapshotFile> = Vec::new();
    let mut status: Vec<(Id, bool)> = Vec::new();
    let mut i: usize = 0;
    assert(all.subrange(0, 0) =~= Seq::<SnapshotView>::empty());
    assert(snapshot_views(to_copy@) =~= Seq::<SnapshotView>::empty());
    while i < snaps.len()
        invariant
            0 <= i <= snaps@.len(),
            all == snapshot_views(snaps@),
            there == snapshot_views(dest@),
            snapshot_views(to_copy@) == relevant(all.subrange(0, i as int), there),
            status@ == copy_status(all, there).subrange(0, i as int),
        decreases snaps@.len() - i,
    {
        let sn = &snaps[i];
        let existing = is_existing(dest, sn);
        proof {
            let next = all.subrange(0, i + 1);
            assert(next.drop_last() =~= all.subrange(0, i as int));
            assert(next.last() == sn@);
        }
        status.push((sn.id, !existing));
        assert(status@ =~= copy_status(all, there).subrange(0, i + 1));
        if !existing {
            let ghost had = snapshot_views(to_copy@);
            to_copy.push(sn.clone().clear_ids());
            assert(snapshot_views(to_copy@) =~= had.push(SnapshotFile::spec_clear_ids(sn@)));
        }
        i += 1;
    }
    assert(all.subrange(0, i as int) =~= all);
    assert(copy_status(all, there).subrange(0, i as int) =~= copy_status(all, there));
    (to_copy, status)
}

/// Why the blobs to copy could not be found.
#[derive(Clone, Copy, Debug, PartialEq, Eq, Structural)]
pub enum CopyError {
    /// A tree of the source does not load.
    TreeMissing,
    /// The trees nest deeper than the limit given.
    TooDeep,
}

/// The blobs that the destination needs.
#[derive(Debug)]
pub struct BlobsToCopy {
    /// Data blobs, in the order in which the files name them.
    pub data: Vec<Id>,
    /// Tree blobs, in the order in which the walk meets them.
    pub trees: Vec<Id>,
}

/// The two repositories as the walk sees them.
pub ghost struct CopyEnv {
    /// The trees of the source that load.
    pub src: Map<Id, Seq<NodeView>>,
    /// The tree blobs that the destination holds.
    pub dest_trees: Map<Id, IndexEntry>,
    /// The data blobs that the destination holds.
    pub dest_data: Map<Id, IndexEntry>,
}

/// Where the walk through the trees of the source stands.
pub ghost struct CopyWalk {
    /// The data blobs to copy.
    pub data: Seq<Id>,
    /// The tree blobs to copy.
    pub trees: Seq<Id>,
    /// The trees that were walked.
    pub visited: Set<Id>,
}

/// `acc` followed by the identifiers of `content` that `there` lacks.
pub open spec fn missing_onto(acc: Seq<Id>, content: Seq<Id>, there: Map<Id, IndexEntry>) -> Seq<Id>
    decreases content.len(),
{
    if content.len() == 0 {
        acc
    } else if there.contains_key(content.last()) {
        missing_onto(acc, content.drop_last(), there)
    } else {
        missing_onto(acc, content.drop_last(), there).push(content.last())
    }
}

/// The walk after the tree `id` and everything below it. A tree that was
/// walked before is not walked again.
#[verifier::opaque]
pub open spec fn walk_tree(env: CopyEnv, id: Id, w: CopyWalk, fuel: nat) -> Result<
    CopyWalk,
    CopyError,
>
    decreases fuel, 0nat, 0nat,
{
    if w.visited.contains(id) {
        Ok(w)
    } else if fuel == 0 {
        Err(CopyError::TooDeep)
    } else if !env.src.contains_key(id) {
        Err(CopyError::TreeMissing)
    } else {
        walk_nodes(
            env,
            env.src[id],
            CopyWalk { visited: w.visited.insert(id), ..w },
            (fuel - 1) as nat,
        )
    }
}

/// The walk after the nodes of a tree, in order.
#[verifier::opaque]
pub open spec fn walk_nodes(env: CopyEnv, nodes: Seq<NodeView>, w: CopyWalk, fuel: nat) -> Result<
    CopyWalk,
    CopyError,
>
    decreases fuel, 2nat, nodes.len(),
{
    if nodes.len() == 0 {
        Ok(w)
    } else {
        let before = walk_nodes(env, nodes.drop_last(), w, fuel);
        if before.is_ok() {
            walk_node(env, nodes.last(), before.unwrap(), fuel)
        } else {
            before
        }
    }
}

/// The walk after one node: a file adds the data blobs that the
/// destination lacks; a directory adds its tree blob where the destination
/// lacks it, and is walked.
#[verifier::opaque]
pub open spec fn walk_node(env: CopyEnv, node: NodeView, w: CopyWalk, fuel: nat) -> Result<
    CopyWalk,
    CopyError,
>
    decreases fuel, 1nat, 0nat,
{
    if node.node_type == NodeType::File && node.content.is_some() {
        Ok(CopyWalk { data: missing_onto(w.data, node.content.unwrap(), env.dest_data), ..w })
    } else if node.node_type == NodeType::Dir && node.subtree.is_some() {
        walk_tree(env, node.subtree.unwrap(), root_noted(env, node.subtree.unwrap(), w), fuel)
    } else {
        Ok(w)
    }
}

/// The walk with the tree blob `id` noted where the destination lacks it.
pub open spec fn root_noted(env: CopyEnv, id: Id, w: CopyWalk) -> CopyWalk {
    if env.dest_trees.contains_key(id) {
        w
    } else {
        CopyWalk { trees: w.trees.push(id), ..w }
    }
}

/// The walk after the root trees `roots`, in order.
pub open spec fn walk_roots(env: CopyEnv, roots: Seq<Id>, w: CopyWalk, fuel: nat) -> Result<
    CopyWalk,
    CopyError,
>
    decreases roots.len(),
{
    if roots.len() == 0 {
        Ok(w)
    } else {
        let before = walk_roots(env, roots.drop_last(), w, fuel);
        if before.is_ok() {
            walk_tree(env, roots.last(), root_noted(env, roots.last(), before.unwrap()), fuel)
        } else {
            before
        }
    }
}

/// The two repositories as the walk sees them.
pub open spec fn copy_env(src: &IdMap<Tree>, dest: &IndexBackend) -> CopyEnv {
    CopyEnv {
        src: Map::new(|id: Id| src@.contains_key(id), |id: Id| src@[id]@),
        dest_trees: dest.trees(),
        dest_data: dest.data(),
    }
}

/// Whether the state of a walk is `w`.
pub open spec fn walk_is(out: BlobsToCopy, visited: IdSet, w: CopyWalk) -> bool {
    out.data@ == w.data && out.trees@ == w.trees && visited@ == w.visited
}

/// The state of a walk.
pub open spec fn walk_of(out: BlobsToCopy, visited: IdSet) -> CopyWalk {
    CopyWalk { data: out.data@, trees: out.trees@, visited: visited@ }
}

/// Notes the blobs that one node needs, and walks what is below it.
pub fn copy_node(
    src: &IdMap<Tree>,
    dest: &IndexBackend,
    node: &Node,
    out: &mut BlobsToCopy,
    visited: &mut IdSet,
    depth: usize,
) -> (r: Result<(), CopyError>)
    ensures
        match walk_node(copy_env(src, dest), node@, walk_of(*old(out), *old(visited)), depth as nat) {
            Ok(w) => r.is_ok() && walk_is(*final(out), *final(visited), w),
            Err(e) => r == Err::<(), CopyError>(e),
        },
    decreases depth, 1nat,
{
    proof {
        reveal_with_fuel(walk_tree, 2);
        reveal_with_fuel(walk_nodes, 2);
        reveal_with_fuel(walk_node, 2);
    }
    let ghost env = copy_env(src, dest);
    match node.node_type {
        NodeType::File => {
            match &node.content {
                Some(content) => {
                    let mut i: usize = 0;
                    let ghost start = out.data@;
                    assert(content@.subrange(0, 0) =~= Seq::<Id>::empty());
                    while i < content.len()
                        invariant
                            0 <= i <= content@.len(),
                            env.dest_data == dest.data(),
                            out.trees == old(out).trees,
                            out.data@ == missing_onto(
                                start,
                                content@.subrange(0, i as int),
                                env.dest_data,
                            ),
                        decreases content@.len() - i,
                    {
                        proof {
                            let next = content@.subrange(0, i + 1);
                            assert(next.drop_last() =~= content@.subrange(0, i as int));
                            assert(next.last() == content@[i as int]);
                        }
                        if !dest.has_data(&content[i]) {
                            out.data.push(content[i]);
                        }
                        i += 1;
                    }
                    assert(content@.subrange(0, i as int) =~= content@);
                    Ok(())
                },
                None => Ok(()),
            }
        },
        NodeType::Dir => {
            match node.subtree {
                Some(id) => {
                    if !dest.has_tree(&id) {
                        out.trees.push(id);
                    }
                    copy_tree(src, dest, id, out, visited, depth)
                },
                None => Ok(()),
            }
        },
        _ => Ok(()),
    }
}

/// Walks the tree `id` unless it was walked before, and notes the blobs
/// that it and everything below it need.
pub fn copy_tree(
    src: &IdMap<Tree>,
    dest: &IndexBackend,
    id: Id,
    out: &mut BlobsToCopy,
    visited: &mut IdSet,
    depth: usize,
) -> (r: Result<(), CopyError>)
    ensures
        match walk_tree(copy_env(src, dest), id, walk_of(*old(out), *old(visited)), depth as nat) {
            Ok(w) => r.is_ok() && walk_is(*final(out), *final(visited), w),
            Err(e) => r == Err::<(), CopyError>(e),
        },
    decreases depth, 0nat,
{
    proof {
        reveal_with_fuel(walk_tree, 2);
        reveal_with_fuel(walk_nodes, 2);
        reveal_with_fuel(walk_node, 2);
    }
    let ghost env = copy_env(src, dest);
    if visited.contains(&id) {
        return Ok(());
    }
    if depth == 0 {
        return Err(CopyError::TooDeep);
    }
    let tree = match src.get(&id) {
        Some(tree) => tree,
        None => {
            return Err(CopyError::TreeMissing);
        },
    };
    visited.insert(id);
    let ghost start = walk_of(*out, *visited);
    let ghost nodes = tree@;
    let ghost whole = walk_tree(env, id, walk_of(*old(out), *old(visited)), depth as nat);
    assert(nodes == env.src[id]);
    assert(whole == walk_nodes(env, nodes, start, (depth - 1) as nat));
    let mut i: usize = 0;
    proof {
        assert(nodes.subrange(0, 0) =~= Seq::<NodeView>::empty());
    }
    while i < tree.nodes.len()
        invariant
            0 <= i <= tree.nodes@.len(),
            depth > 0,
            nodes == tree@,
            env == copy_env(src, dest),
            whole == walk_tree(env, id, walk_of(*old(out), *old(visited)), depth as nat),
            whole == walk_nodes(env, nodes, start, (depth - 1) as nat),
            walk_nodes(env, nodes.subrange(0, i as int), start, (depth - 1) as nat) == Ok::<
                CopyWalk,
                CopyError,
            >(walk_of(*out, *visited)),
        decreases tree.nodes@.len() - i,
    {
        proof {
            reveal_with_fuel(walk_tree, 2);
            reveal_with_fuel(walk_nodes, 2);
            reveal_with_fuel(walk_node, 2);
            let next = nodes.subrange(0, i + 1);
            assert(next.drop_last() =~= nodes.subrange(0, i as int));
            assert(next.last() == tree.nodes@[i as int]@);
        }
        match copy_node(src, dest, &tree.nodes[i], out, visited, depth - 1) {
            Ok(()) => {},
            Err(e) => {
                proof {
                    lemma_walk_fails(env, nodes, start, (depth - 1) as nat, i as int);
                }
                return Err(e);
            },
        }
        i += 1;
    }
    assert(nodes.subrange(0, i as int) =~= nodes);
    Ok(())
}

/// A walk that fails after some of the nodes of a tree fails for the tree.
proof fn lemma_walk_fails(env: CopyEnv, nodes: Seq<NodeView>, w: CopyWalk, fuel: nat, i: int)
    requires
        0 <= i < nodes.len(),
        walk_nodes(env, nodes.subrange(0, i + 1), w, fuel).is_err(),
    ensures
        walk_nodes(env, nodes, w, fuel) == walk_nodes(env, nodes.subrange(0, i + 1), w, fuel),
    decreases nodes.len(),
{
    reveal_with_fuel(walk_tree, 2);
    reveal_with_fuel(walk_nodes, 2);
    reveal_with_fuel(walk_node, 2);
    if i + 1 < nodes.len() {
        assert(nodes.drop_last().subrange(0, i + 1) =~= nodes.subrange(0, i + 1));
        lemma_walk_fails(env, nodes.drop_last(), w, fuel, i);
    } else {
        assert(nodes.subrange(0, i + 1) =~= nodes);
    }
}

/// What copying snapshots comes to.
#[derive(Debug)]
pub enum CopyPlan {
    /// The run is a dry one: so many snapshots would be copied.
    WouldCopy(usize),
    /// The destination has every snapshot.
    Nothing,
    /// The snapshots to save in the destination, and the blobs that it
    /// needs for them.
    Copy(Vec<SnapshotFile>, BlobsToCopy),
}

/// The root trees of the snapshots, in order.
pub open spec fn root_trees(snaps: Seq<SnapshotView>) -> Seq<Id> {
    Seq::new(snaps.len(), |i: int| snaps[i].tree)
}

/// Plans the copy of snapshots into another repository.
///
/// The snapshots to copy are those that the destination lacks. For them,
/// the walk starts at each root tree in turn and notes every tree and data
/// blob that the destination lacks; a tree is walked once. A dry run only
/// counts the snapshots.
pub fn copy(
    snapshots: &Vec<SnapshotFile>,
    src: &IdMap<Tree>,
    dest_snapshots: &Vec<SnapshotFile>,
    dest: &IndexBackend,
    dry_run: bool,
    depth: usize,
) -> (r: Result<CopyPlan, CopyError>)
    ensures
        ({
            let picked = relevant(snapshot_views(snapshots@), snapshot_views(dest_snapshots@));
            let start = CopyWalk { data: Seq::empty(), trees: Seq::empty(), visited: Set::empty() };
            let walk = walk_roots(copy_env(src, dest), root_trees(picked), start, depth as nat);
            if dry_run {
                r matches Ok(CopyPlan::WouldCopy(n)) && n == picked.len()
            } else if picked.len() == 0 {
                r matches Ok(CopyPlan::Nothing)
            } else {
                match walk {
                    Ok(w) => r matches Ok(CopyPlan::Copy(snaps, blobs)) && snapshot_views(snaps@)
                        == picked && blobs.data@ == w.data && blobs.trees@ == w.trees,
                    Err(e) => r matches Err(f) && f == e,
                }
            }
        }),
{
    let (picked, _status) = relevant_snapshots(snapshots, dest_snapshots);
    assert(snapshot_views(picked@).len() == picked@.len());
    if dry_run {
        return Ok(CopyPlan::WouldCopy(picked.len()));
    }
    if picked.len() == 0 {
        return Ok(CopyPlan::Nothing);
    }
    let ghost env = copy_env(src, dest);
    let ghost roots = root_trees(snapshot_views(picked@));
    let ghost chosen = relevant(snapshot_views(snapshots@), snapshot_views(dest_snapshots@));
    let mut out = BlobsToCopy { data: Vec::new(), trees: Vec::new() };
    let mut visited = IdSet::new();
    let ghost start = walk_of(out, visited);
    let mut i: usize = 0;
    assert(roots.subrange(0, 0) =~= Seq::<Id>::empty());
    while i < picked.len()
        invariant
            0 <= i <= picked@.len(),
            !dry_run,
            picked@.len() > 0,
            env == copy_env(src, dest),
            chosen == relevant(snapshot_views(snapshots@), snapshot_views(dest_snapshots@)),
            chosen == snapshot_views(picked@),
            start == (CopyWalk { data: Seq::empty(), trees: Seq::empty(), visited: Set::empty() }),
            roots == root_trees(snapshot_views(picked@)),
            walk_roots(env, roots.subrange(0, i as int), start, depth as nat) == Ok::<
                CopyWalk,
                CopyError,
            >(walk_of(out, visited)),
        decreases picked@.len() - i,
    {
        let id = picked[i].tree;
        proof {
            let next = roots.subrange(0, i + 1);
            assert(next.drop_last() =~= roots.subrange(0, i as int));
            assert(next.last() == id);
        }
        if !dest.has_tree(&id) {
            out.trees.push(id);
        }
        match copy_tree(src, dest, id, &mut out, &mut visited, depth) {
            Ok(()) => {},
            Err(e) => {
                proof {
                    lemma_roots_fail(env, roots, start, depth as nat, i as int);
                }
                return Err(e);
            },
        }
        i += 1;
    }
    assert(roots.subrange(0, i as int) =~= roots);
    Ok(CopyPlan::Copy(picked, out))
}

/// A walk that fails after some of the roots fails for all of them.
proof fn lemma_roots_fail(env: CopyEnv, roots: Seq<Id>, w: CopyWalk, fuel: nat, i: int)
    requires
        0 <= i < roots.len(),
        walk_roots(env, roots.subrange(0, i + 1), w, fuel).is_err(),
    ensures
        walk_roots(env, roots, w, fuel) == walk_roots(env, roots.subrange(0, i + 1), w, fuel),
    decreases roots.len(),
{
    if i + 1 < roots.len() {
        assert(roots.drop_last().subrange(0, i + 1) =~= roots.subrange(0, i + 1));
        lemma_roots_fail(env, roots.drop_last(), w, fuel, i);
    } else {
        assert(roots.subrange(0, i + 1) =~= roots);
    }
}

} // verus!
