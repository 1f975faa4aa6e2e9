//! Repair is idempotent: once the trees that a repair has rewritten are
//! stored, a second repair finds every tree intact.

use vstd::prelude::*;
use crate::id::Id;
use crate::index::IndexEntry;
use crate::repair::{
    all_intact, kept, kept_bytes, lemma_more_fuel_node, lemma_more_fuel_nodes,
    lemma_repair_deterministic, marked_snapshots, new_snapshots, outcome_of, repair_file_spec,
    repair_node_spec, repair_nodes_spec, repair_tree_spec, repairs_to, Changed, Repo,
};
use crate::snapshot::SnapshotView;
use crate::tree::{
    has_node, lemma_sorted_has, sorted_nodes, tree_id, NodeType, NodeView,
};

verus! {

/// Whether the repository `s` has everything that `r` has: the same data
/// blobs, the same suffix, and every tree of `r` as it is in `r`.
pub open spec fn agrees(r: Repo, s: Repo) -> bool {
    &&& s.data == r.data
    &&& s.suffix == r.suffix
    &&& forall|k: Id| #[trigger]
        r.trees.contains_key(k) ==> s.trees.contains_key(k) && s.trees[k] == r.trees[k]
}

/// The trees that repairing the tree `id` writes, each with the
/// identifier under which it is stored.
pub open spec fn rewrites_tree(repo: Repo, id: Option<Id>, fuel: nat) -> Set<(Id, Seq<NodeView>)>
    decreases fuel, 0nat, 0nat,
{
    if fuel == 0 {
        Set::empty()
    } else if id.is_some() && repo.trees.contains_key(id.unwrap()) {
        let nodes = repo.trees[id.unwrap()];
        let after = repair_nodes_spec(repo, nodes, (fuel - 1) as nat);
        if after.is_none() {
            Set::empty()
        } else if after.unwrap().1 {
            rewrites_nodes(repo, nodes, (fuel - 1) as nat).insert(
                (tree_id(sorted_nodes(after.unwrap().0)), sorted_nodes(after.unwrap().0)),
            )
        } else {
            rewrites_nodes(repo, nodes, (fuel - 1) as nat)
        }
    } else {
        set![(tree_id(Seq::empty()), Seq::empty())]
    }
}

/// The trees that repairing the nodes of a tree writes.
pub open spec fn rewrites_nodes(repo: Repo, nodes: Seq<NodeView>, fuel: nat) -> Set<
    (Id, Seq<NodeView>),
>
    decreases fuel, 2nat, nodes.len(),
{
    if nodes.len() == 0 {
        Set::empty()
    } else {
        rewrites_nodes(repo, nodes.drop_last(), fuel) + rewrites_node(repo, nodes.last(), fuel)
    }
}

/// The trees that repairing one node writes.
pub open spec fn rewrites_node(repo: Repo, node: NodeView, fuel: nat) -> Set<(Id, Seq<NodeView>)>
    decreases fuel, 1nat, 0nat,
{
    if node.node_type == NodeType::Dir {
        rewrites_tree(repo, node.subtree, fuel)
    } else {
        Set::empty()
    }
}

/// Whether the repository `s` holds each of the trees `written` under its
/// identifier.
pub open spec fn stores(s: Repo, written: Set<(Id, Seq<NodeView>)>) -> bool {
    forall|k: Id, nodes: Seq<NodeView>| #[trigger]
        written.contains((k, nodes)) ==> s.trees.contains_key(k) && s.trees[k] == nodes
}

/// A repository that stores trees stores each part of them.
proof fn lemma_stores_part(s: Repo, all: Set<(Id, Seq<NodeView>)>, part: Set<(Id, Seq<NodeView>)>)
    requires
        stores(s, all),
        forall|p: (Id, Seq<NodeView>)| part.contains(p) ==> all.contains(p),
    ensures
        stores(s, part),
{
    assert forall|k: Id, nodes: Seq<NodeView>| #[trigger] part.contains((k, nodes)) implies s.trees.contains_key(
        k,
    ) && s.trees[k] == nodes by {
        assert(all.contains((k, nodes)));
    }
}

/// What repairing a tree writes, where the tree loads and its nodes can
/// be repaired: what repairing the nodes writes, and the rewritten tree
/// where a node has changed.
proof fn lemma_rewrites_loaded(r: Repo, id: Id, fuel: nat)
    requires
        fuel > 0,
        r.trees.contains_key(id),
        repair_nodes_spec(r, r.trees[id], (fuel - 1) as nat).is_some(),
    ensures
        ({
            let after = repair_nodes_spec(r, r.trees[id], (fuel - 1) as nat).unwrap();
            let below = rewrites_nodes(r, r.trees[id], (fuel - 1) as nat);
            &&& forall|p: (Id, Seq<NodeView>)|
                below.contains(p) ==> rewrites_tree(r, Some(id), fuel).contains(p)
            &&& after.1 ==> rewrites_tree(r, Some(id), fuel).contains(
                (tree_id(sorted_nodes(after.0)), sorted_nodes(after.0)),
            )
        }),
{
}

/// What repairing a lost tree writes: the empty tree.
proof fn lemma_rewrites_lost(r: Repo, id: Option<Id>, fuel: nat)
    requires
        fuel > 0,
        !(id.is_some() && r.trees.contains_key(id.unwrap())),
    ensures
        rewrites_tree(r, id, fuel).contains((tree_id(Seq::empty()), Seq::empty())),
{
}

/// What repairing the nodes of a tree writes holds what repairing all
/// but the last writes, and what repairing the last writes.
proof fn lemma_rewrites_last(r: Repo, nodes: Seq<NodeView>, fuel: nat)
    requires
        nodes.len() > 0,
    ensures
        forall|p: (Id, Seq<NodeView>)|
            rewrites_nodes(r, nodes.drop_last(), fuel).contains(p) ==> rewrites_nodes(
                r,
                nodes,
                fuel,
            ).contains(p),
        forall|p: (Id, Seq<NodeView>)|
            rewrites_node(r, nodes.last(), fuel).contains(p) ==> rewrites_nodes(
                r,
                nodes,
                fuel,
            ).contains(p),
{
}

/// Every identifier that repair keeps is in the catalog.
proof fn lemma_kept_present(content: Seq<Id>, data: Map<Id, IndexEntry>)
    ensures
        forall|i: int|
            0 <= i < kept(content, data).len() ==> data.contains_key(
                #[trigger] kept(content, data)[i],
            ),
        kept(content, data).len() <= content.len(),
    decreases content.len(),
{
    if content.len() > 0 {
        lemma_kept_present(content.drop_last(), data);
    }
}

/// Content whose blobs the catalog all holds is kept as it is.
proof fn lemma_kept_all(content: Seq<Id>, data: Map<Id, IndexEntry>)
    requires
        forall|i: int| 0 <= i < content.len() ==> data.contains_key(#[trigger] content[i]),
    ensures
        kept(content, data) == content,
    decreases content.len(),
{
    if content.len() > 0 {
        assert(data.contains_key(content[content.len() - 1]));
        assert forall|i: int| 0 <= i < content.drop_last().len() implies data.contains_key(
            #[trigger] content.drop_last()[i],
        ) by {
            assert(content.drop_last()[i] == content[i]);
        }
        lemma_kept_all(content.drop_last(), data);
        assert(content.drop_last().push(content.last()) =~= content);
    } else {
        assert(kept(content, data) =~= content);
    }
}

/// The blobs that repair keeps have the bytes that repair counts.
proof fn lemma_kept_bytes(content: Seq<Id>, data: Map<Id, IndexEntry>)
    ensures
        kept_bytes(kept(content, data), data) == kept_bytes(content, data),
    decreases content.len(),
{
    if content.len() > 0 {
        lemma_kept_bytes(content.drop_last(), data);
        if data.contains_key(content.last()) {
            let k = kept(content.drop_last(), data).push(content.last());
            assert(k.drop_last() =~= kept(content.drop_last(), data));
            assert(k.last() == content.last());
        }
    }
}

/// A repaired file needs no repair.
pub proof fn lemma_file_repaired(repo: Repo, node: NodeView)
    ensures
        repair_file_spec(repo, repair_file_spec(repo, node).0) == (
            repair_file_spec(repo, node).0,
            false,
        ),
{
    let content = match node.content {
        Some(c) => c,
        None => Seq::empty(),
    };
    let stay = kept(content, repo.data);
    lemma_kept_present(content, repo.data);
    lemma_kept_all(stay, repo.data);
    lemma_kept_bytes(content, repo.data);
    let once = repair_file_spec(repo, node).0;
    let twice = repair_file_spec(repo, once).0;
    assert(twice.meta == once.meta);
    assert(twice == once);
}

/// A tree that is intact stays intact in a repository that has
/// everything.
proof fn lemma_intact_tree(r: Repo, s: Repo, id: Option<Id>, fuel: nat)
    requires
        agrees(r, s),
        repair_tree_spec(r, id, fuel).is_some(),
        repair_tree_spec(r, id, fuel).unwrap().0 == Changed::Intact,
    ensures
        repair_tree_spec(s, id, fuel) == repair_tree_spec(r, id, fuel),
    decreases fuel, 0nat, 0nat,
{
    reveal_with_fuel(repair_tree_spec, 2);
    reveal_with_fuel(repair_nodes_spec, 2);
    reveal_with_fuel(repair_node_spec, 2);
    if fuel > 0 && id.is_some() && r.trees.contains_key(id.unwrap()) {
        lemma_intact_nodes(r, s, r.trees[id.unwrap()], (fuel - 1) as nat);
    }
}

/// As [`lemma_intact_tree`], for the nodes of a tree.
proof fn lemma_intact_nodes(r: Repo, s: Repo, nodes: Seq<NodeView>, fuel: nat)
    requires
        agrees(r, s),
        repair_nodes_spec(r, nodes, fuel).is_some(),
        !repair_nodes_spec(r, nodes, fuel).unwrap().1,
    ensures
        repair_nodes_spec(s, nodes, fuel) == repair_nodes_spec(r, nodes, fuel),
    decreases fuel, 2nat, nodes.len(),
{
    reveal_with_fuel(repair_tree_spec, 2);
    reveal_with_fuel(repair_nodes_spec, 2);
    reveal_with_fuel(repair_node_spec, 2);
    if nodes.len() > 0 {
        lemma_intact_nodes(r, s, nodes.drop_last(), fuel);
        lemma_intact_node(r, s, nodes.last(), fuel);
    }
}

/// As [`lemma_intact_tree`], for one node.
proof fn lemma_intact_node(r: Repo, s: Repo, node: NodeView, fuel: nat)
    requires
        agrees(r, s),
        repair_node_spec(r, node, fuel).is_some(),
        !repair_node_spec(r, node, fuel).unwrap().1,
    ensures
        repair_node_spec(s, node, fuel) == repair_node_spec(r, node, fuel),
    decreases fuel, 1nat, 0nat,
{
    reveal_with_fuel(repair_tree_spec, 2);
    reveal_with_fuel(repair_nodes_spec, 2);
    reveal_with_fuel(repair_node_spec, 2);
    if node.node_type == NodeType::Dir {
        lemma_intact_tree(r, s, node.subtree, fuel);
    }
}

/// Whether the nodes `nodes` need no repair in `s`.
pub open spec fn nodes_intact(s: Repo, nodes: Seq<NodeView>) -> bool {
    exists|fuel: nat| repair_nodes_spec(s, nodes, fuel) == Some((nodes, false))
}

/// Whether the node `node` needs no repair in `s`.
pub open spec fn node_intact(s: Repo, node: NodeView) -> bool {
    exists|fuel: nat| repair_node_spec(s, node, fuel) == Some((node, false))
}

/// Nodes that need no repair, followed by one that needs none, need none.
proof fn lemma_intact_push(s: Repo, done: Seq<NodeView>, node: NodeView)
    requires
        nodes_intact(s, done),
        node_intact(s, node),
    ensures
        nodes_intact(s, done.push(node)),
{
    reveal_with_fuel(repair_tree_spec, 2);
    reveal_with_fuel(repair_nodes_spec, 2);
    reveal_with_fuel(repair_node_spec, 2);
    let f = choose|fuel: nat| repair_nodes_spec(s, done, fuel) == Some((done, false));
    let g = choose|fuel: nat| repair_node_spec(s, node, fuel) == Some((node, false));
    let h = if f > g {
        f
    } else {
        g
    };
    lemma_more_fuel_nodes(s, done, f, h);
    lemma_more_fuel_node(s, node, g, h);
    let all = done.push(node);
    assert(all.drop_last() =~= done);
    assert(all.last() == node);
    assert(repair_nodes_spec(s, all, h) == Some((all, false)));
}

/// Each of the nodes that need no repair needs none.
proof fn lemma_intact_each(s: Repo, nodes: Seq<NodeView>, fuel: nat, i: int)
    requires
        repair_nodes_spec(s, nodes, fuel) == Some((nodes, false)),
        0 <= i < nodes.len(),
    ensures
        repair_node_spec(s, nodes[i], fuel) == Some((nodes[i], false)),
    decreases nodes.len(),
{
    reveal_with_fuel(repair_tree_spec, 2);
    reveal_with_fuel(repair_nodes_spec, 2);
    reveal_with_fuel(repair_node_spec, 2);
    let done = repair_nodes_spec(s, nodes.drop_last(), fuel).unwrap();
    let node = repair_node_spec(s, nodes.last(), fuel).unwrap();
    assert(done.0.push(node.0) == nodes);
    assert(done.0.push(node.0).last() == node.0);
    assert(done.0.push(node.0).drop_last() =~= done.0);
    if i < nodes.len() - 1 {
        lemma_intact_each(s, nodes.drop_last(), fuel, i);
    }
}

/// Nodes of which each needs no repair need none.
proof fn lemma_intact_all(s: Repo, nodes: Seq<NodeView>)
    requires
        forall|i: int| 0 <= i < nodes.len() ==> node_intact(s, #[trigger] nodes[i]),
    ensures
        nodes_intact(s, nodes),
    decreases nodes.len(),
{
    if nodes.len() == 0 {
        lemma_intact_empty(s);
        assert(nodes =~= Seq::empty());
    } else {
        let rest = nodes.drop_last();
        assert forall|i: int| 0 <= i < rest.len() implies node_intact(s, #[trigger] rest[i]) by {
            assert(rest[i] == nodes[i]);
        }
        lemma_intact_all(s, rest);
        assert(node_intact(s, nodes[nodes.len() - 1]));
        lemma_intact_push(s, rest, nodes.last());
        assert(rest.push(nodes.last()) =~= nodes);
    }
}

/// Nodes that need no repair need none when they are put in order.
proof fn lemma_intact_sorted(s: Repo, nodes: Seq<NodeView>)
    requires
        nodes_intact(s, nodes),
    ensures
        nodes_intact(s, sorted_nodes(nodes)),
{
    let f = choose|fuel: nat| repair_nodes_spec(s, nodes, fuel) == Some((nodes, false));
    let sorted = sorted_nodes(nodes);
    assert forall|i: int| 0 <= i < sorted.len() implies node_intact(s, #[trigger] sorted[i]) by {
        assert(has_node(sorted, sorted[i]));
        lemma_sorted_has(nodes, sorted[i]);
        let j = choose|j: int| 0 <= j < nodes.len() && #[trigger] nodes[j] == sorted[i];
        lemma_intact_each(s, nodes, f, j);
    }
    lemma_intact_all(s, sorted);
}

/// A tree whose nodes need no repair is intact.
proof fn lemma_intact_stored(s: Repo, id: Id, nodes: Seq<NodeView>)
    requires
        s.trees.contains_key(id),
        s.trees[id] == nodes,
        nodes_intact(s, nodes),
    ensures
        repairs_to(s, Some(id), (Changed::Intact, id)),
{
    reveal_with_fuel(repair_tree_spec, 2);
    reveal_with_fuel(repair_nodes_spec, 2);
    reveal_with_fuel(repair_node_spec, 2);
    let f = choose|fuel: nat| repair_nodes_spec(s, nodes, fuel) == Some((nodes, false));
    assert(repair_tree_spec(s, Some(id), f + 1) == Some((Changed::Intact, id)));
}

/// No node needs repair in an empty tree.
proof fn lemma_intact_empty(s: Repo)
    ensures
        nodes_intact(s, Seq::empty()),
{
    reveal_with_fuel(repair_tree_spec, 2);
    reveal_with_fuel(repair_nodes_spec, 2);
    reveal_with_fuel(repair_node_spec, 2);
    assert(repair_nodes_spec(s, Seq::empty(), 0) == Some((Seq::<NodeView>::empty(), false)));
}

/// What a repair has made of a tree needs no repair, once the trees that
/// the repair has written are stored.
pub proof fn lemma_repaired_tree(r: Repo, s: Repo, id: Option<Id>, fuel: nat)
    requires
        agrees(r, s),
        repair_tree_spec(r, id, fuel).is_some(),
        stores(s, rewrites_tree(r, id, fuel)),
    ensures
        repairs_to(
            s,
            Some(repair_tree_spec(r, id, fuel).unwrap().1),
            (Changed::Intact, repair_tree_spec(r, id, fuel).unwrap().1),
        ),
    decreases fuel, 0nat, 0nat,
{
    let outcome = repair_tree_spec(r, id, fuel).unwrap();
    lemma_tree_cases(r, id, fuel);
    if id.is_some() && r.trees.contains_key(id.unwrap()) {
        let nodes = r.trees[id.unwrap()];
        let after = repair_nodes_spec(r, nodes, (fuel - 1) as nat).unwrap();
        if after.1 {
            lemma_rewrites_loaded(r, id.unwrap(), fuel);
            lemma_stores_part(
                s,
                rewrites_tree(r, id, fuel),
                rewrites_nodes(r, nodes, (fuel - 1) as nat),
            );
            lemma_repaired_nodes(r, s, nodes, (fuel - 1) as nat);
            lemma_intact_sorted(s, after.0);
            lemma_intact_stored(s, tree_id(sorted_nodes(after.0)), sorted_nodes(after.0));
        } else {
            lemma_intact_tree(r, s, id, fuel);
        }
    } else {
        let empty = Seq::<NodeView>::empty();
        lemma_rewrites_lost(r, id, fuel);
        lemma_intact_empty(s);
        lemma_intact_stored(s, tree_id(empty), empty);
    }
}

/// How the repair of a tree comes to its outcome.
proof fn lemma_tree_cases(r: Repo, id: Option<Id>, fuel: nat)
    requires
        repair_tree_spec(r, id, fuel).is_some(),
    ensures
        fuel > 0,
        id.is_some() && r.trees.contains_key(id.unwrap()) ==> {
            let after = repair_nodes_spec(r, r.trees[id.unwrap()], (fuel - 1) as nat);
            &&& after.is_some()
            &&& repair_tree_spec(r, id, fuel).unwrap() == if after.unwrap().1 {
                (Changed::SubTree, tree_id(sorted_nodes(after.unwrap().0)))
            } else {
                (Changed::Intact, id.unwrap())
            }
        },
        !(id.is_some() && r.trees.contains_key(id.unwrap())) ==> repair_tree_spec(
            r,
            id,
            fuel,
        ).unwrap() == (Changed::This, tree_id(Seq::empty())),
{
    reveal_with_fuel(repair_tree_spec, 2);
    reveal_with_fuel(repair_nodes_spec, 2);
    reveal_with_fuel(repair_node_spec, 2);
}

/// How the repair of the nodes of a tree comes to its outcome.
proof fn lemma_nodes_cases(r: Repo, nodes: Seq<NodeView>, fuel: nat)
    requires
        repair_nodes_spec(r, nodes, fuel).is_some(),
        nodes.len() > 0,
    ensures
        repair_nodes_spec(r, nodes.drop_last(), fuel).is_some(),
        repair_node_spec(r, nodes.last(), fuel).is_some(),
        repair_nodes_spec(r, nodes, fuel).unwrap().0 == repair_nodes_spec(
            r,
            nodes.drop_last(),
            fuel,
        ).unwrap().0.push(repair_node_spec(r, nodes.last(), fuel).unwrap().0),
{
    reveal_with_fuel(repair_tree_spec, 2);
    reveal_with_fuel(repair_nodes_spec, 2);
    reveal_with_fuel(repair_node_spec, 2);
}

/// As [`lemma_repaired_tree`], for the nodes of a tree.
proof fn lemma_repaired_nodes(r: Repo, s: Repo, nodes: Seq<NodeView>, fuel: nat)
    requires
        agrees(r, s),
        repair_nodes_spec(r, nodes, fuel).is_some(),
        stores(s, rewrites_nodes(r, nodes, fuel)),
    ensures
        nodes_intact(s, repair_nodes_spec(r, nodes, fuel).unwrap().0),
    decreases fuel, 2nat, nodes.len(),
{
    if nodes.len() == 0 {
        reveal_with_fuel(repair_tree_spec, 2);
        reveal_with_fuel(repair_nodes_spec, 2);
        reveal_with_fuel(repair_node_spec, 2);
        lemma_intact_empty(s);
    } else {
        lemma_nodes_cases(r, nodes, fuel);
        let done = repair_nodes_spec(r, nodes.drop_last(), fuel).unwrap().0;
        let node = repair_node_spec(r, nodes.last(), fuel).unwrap().0;
        lemma_rewrites_last(r, nodes, fuel);
        lemma_stores_part(
            s,
            rewrites_nodes(r, nodes, fuel),
            rewrites_nodes(r, nodes.drop_last(), fuel),
        );
        lemma_stores_part(
            s,
            rewrites_nodes(r, nodes, fuel),
            rewrites_node(r, nodes.last(), fuel),
        );
        lemma_repaired_nodes(r, s, nodes.drop_last(), fuel);
        lemma_repaired_node(r, s, nodes.last(), fuel);
        lemma_intact_push(s, done, node);
    }
}

/// As [`lemma_repaired_tree`], for one node.
proof fn lemma_repaired_node(r: Repo, s: Repo, node: NodeView, fuel: nat)
    requires
        agrees(r, s),
        repair_node_spec(r, node, fuel).is_some(),
        stores(s, rewrites_node(r, node, fuel)),
    ensures
        node_intact(s, repair_node_spec(r, node, fuel).unwrap().0),
    decreases fuel, 1nat, 0nat,
{
    reveal_with_fuel(repair_tree_spec, 2);
    reveal_with_fuel(repair_nodes_spec, 2);
    reveal_with_fuel(repair_node_spec, 2);
    let after = repair_node_spec(r, node, fuel).unwrap().0;
    if node.node_type == NodeType::File {
        lemma_file_repaired(r, node);
        assert(repair_file_spec(s, after) == repair_file_spec(r, after));
        assert(repair_node_spec(s, after, 0) == Some((after, false)));
    } else if node.node_type == NodeType::Dir {
        let outcome = repair_tree_spec(r, node.subtree, fuel).unwrap();
        if outcome.0 == Changed::Intact {
            lemma_intact_tree(r, s, node.subtree, fuel);
            assert(repair_node_spec(s, after, fuel) == Some((after, false)));
        } else {
            lemma_repaired_tree(r, s, node.subtree, fuel);
            let g = choose|g: nat|
                repair_tree_spec(s, Some(outcome.1), g) == Some((Changed::Intact, outcome.1));
            assert(after.subtree == Some(outcome.1));
            assert(repair_node_spec(s, after, g) == Some((after, false)));
        }
    } else {
        assert(repair_node_spec(s, after, 0) == Some((after, false)));
    }
}

/// Repair is idempotent: where repairing the tree `id` in `r` comes to
/// `outcome`, and `s` is `r` with the trees stored that the repair has
/// written, each with its nodes in name order, repairing the tree of the
/// outcome in `s` finds it intact.
pub proof fn lemma_repair_idempotent(
    r: Repo,
    s: Repo,
    id: Option<Id>,
    outcome: (Changed, Id),
    fuel: nat,
)
    requires
        repair_tree_spec(r, id, fuel) == Some(outcome),
        agrees(r, s),
        stores(s, rewrites_tree(r, id, fuel)),
    ensures
        repairs_to(s, Some(outcome.1), (Changed::Intact, outcome.1)),
{
    lemma_repaired_tree(r, s, id, fuel);
}

/// Whether the tree `tree` of `r` can be repaired, and `s` stores the
/// trees that its repair writes.
pub open spec fn repaired_in(r: Repo, s: Repo, tree: Id) -> bool {
    exists|fuel: nat|
        (#[trigger] repair_tree_spec(r, Some(tree), fuel)).is_some() && stores(
            s,
            rewrites_tree(r, Some(tree), fuel),
        )
}

/// The tree that a repair has put in the place of a tree is intact, once
/// the trees that the repair has written are stored.
pub proof fn lemma_outcome_intact(r: Repo, s: Repo, tree: Id)
    requires
        agrees(r, s),
        repaired_in(r, s, tree),
    ensures
        repairs_to(r, Some(tree), outcome_of(r, tree)),
        outcome_of(s, outcome_of(r, tree).1) == (Changed::Intact, outcome_of(r, tree).1),
{
    let fuel = choose|fuel: nat|
        (#[trigger] repair_tree_spec(r, Some(tree), fuel)).is_some() && stores(
            s,
            rewrites_tree(r, Some(tree), fuel),
        );
    let outcome = repair_tree_spec(r, Some(tree), fuel).unwrap();
    assert(repairs_to(r, Some(tree), outcome));
    lemma_repair_deterministic(r, Some(tree), outcome, outcome_of(r, tree));
    lemma_repair_idempotent(r, s, Some(tree), outcome, fuel);
    let after = (Changed::Intact, outcome.1);
    lemma_repair_deterministic(s, Some(outcome.1), after, outcome_of(s, outcome.1));
}

/// Where the tree of every snapshot is intact, repair marks no snapshot
/// and puts none in the place of another.
pub proof fn lemma_intact_snapshots(repo: Repo, snaps: Seq<SnapshotView>, tags: Seq<Seq<char>>)
    requires
        all_intact(repo, snaps, snaps.len() as int),
    ensures
        marked_snapshots(repo, snaps) == Seq::<Id>::empty(),
        new_snapshots(repo, snaps, tags) == Seq::<SnapshotView>::empty(),
    decreases snaps.len(),
{
    if snaps.len() > 0 {
        let before = snaps.drop_last();
        assert forall|i: int| 0 <= i < before.len() implies outcome_of(
            repo,
            (#[trigger] before[i]).tree,
        ).0 == Changed::Intact by {
            assert(before[i] == snaps[i]);
        }
        lemma_intact_snapshots(repo, before, tags);
        assert(snaps.last() == snaps[snaps.len() - 1]);
    }
}

/// Repairing snapshots is idempotent: the snapshots that a repair has put
/// in the place of damaged ones are intact, once the trees that the repair
/// has written are stored. A second repair of them marks none, replaces
/// none and stores no tree.
pub proof fn lemma_repaired_snapshots(
    r: Repo,
    s: Repo,
    snaps: Seq<SnapshotView>,
    tags: Seq<Seq<char>>,
    again: Seq<Seq<char>>,
)
    requires
        agrees(r, s),
        forall|i: int| 0 <= i < snaps.len() ==> repaired_in(r, s, (#[trigger] snaps[i]).tree),
    ensures
        all_intact(
            s,
            new_snapshots(r, snaps, tags),
            new_snapshots(r, snaps, tags).len() as int,
        ),
        marked_snapshots(s, new_snapshots(r, snaps, tags)) == Seq::<Id>::empty(),
        new_snapshots(s, new_snapshots(r, snaps, tags), again) == Seq::<SnapshotView>::empty(),
    decreases snaps.len(),
{
    if snaps.len() > 0 {
        let before = snaps.drop_last();
        assert forall|i: int| 0 <= i < before.len() implies repaired_in(
            r,
            s,
            (#[trigger] before[i]).tree,
        ) by {
            assert(before[i] == snaps[i]);
        }
        lemma_repaired_snapshots(r, s, before, tags, again);
        assert(repaired_in(r, s, snaps[snaps.len() - 1].tree));
        lemma_outcome_intact(r, s, snaps.last().tree);
        let made = new_snapshots(r, snaps, tags);
        let had = new_snapshots(r, before, tags);
        assert forall|i: int| 0 <= i < made.len() implies outcome_of(s, (#[trigger] made[i]).tree).0
            == Changed::Intact by {
            if i < had.len() {
                assert(made[i] == had[i]);
            }
        }
    }
    lemma_intact_snapshots(s, new_snapshots(r, snaps, tags), again);
}

} // verus!
