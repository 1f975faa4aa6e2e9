//! A backup that takes an earlier snapshot as its parent: files that the
//! parent has with the same size and modification time are not read, and
//! their content is taken over. Where the parent is the snapshot of an
//! earlier backup of the same entries, the run comes to the same tree and
//! hands out no blob.

use vstd::prelude::*;
use crate::archiver::{
    accepts, after_close, after_close_to, after_dir, after_file, after_finish, after_other,
    after_step, after_steps, backup, backup_root, chunks_of, depth_of, emit_all, file_node,
    lemma_close_to_again, lemma_close_to_grows, lemma_close_to_ordered, lemma_dir_ordered,
    lemma_emit_again, lemma_file_again, lemma_file_ordered,
    lemma_finish_grows, lemma_other_ordered, lemma_step_grows, lemma_steps_grow, level_ok,
    mirrors, ordered, parent_node, quiet, reused, root_tree, start_view, with_new, within,
    ArchiveView, Known, NewBlobView, Step,
};
use crate::blob::BlobType;
use crate::chunker::ChunkRule;
use crate::id::Id;
use crate::tree::{
    find_spec, in_order, lemma_sorted_apart, serialize_tree, sorted_by_name, tree_id, NodeView,
};

verus! {

/// The run after one entry of a walk with a parent snapshot, whose trees
/// are `trees`. A file that the parent has unchanged takes its content
/// over; every other file is read. An entry that lies deeper than the walk
/// has gone is passed over.
pub open spec fn after_step_with(
    s: ArchiveView,
    known: Known,
    rule: ChunkRule,
    trees: Map<Id, Seq<NodeView>>,
    step: Step,
) -> ArchiveView {
    if depth_of(step) >= s.levels.len() {
        s
    } else {
        let t = after_close_to(s, known, depth_of(step));
        match step {
            Step::File { node, data, .. } => match reused(
                parent_node(trees, t.levels.last().parent, node.name),
                node,
            ) {
                Some(content) => after_other(t, NodeView { content: Some(content), ..node }),
                None => after_file(t, known, node, data, rule),
            },
            Step::Dir { node, .. } => after_dir(t, trees, node),
            Step::Other { node, .. } => after_other(t, node),
        }
    }
}

/// The run after the entries `steps` of a walk with a parent snapshot, in
/// order.
pub open spec fn after_steps_with(
    s: ArchiveView,
    known: Known,
    rule: ChunkRule,
    trees: Map<Id, Seq<NodeView>>,
    steps: Seq<Step>,
) -> ArchiveView
    decreases steps.len(),
{
    if steps.len() == 0 {
        s
    } else {
        after_steps_with(
            after_step_with(s, known, rule, trees, steps.first()),
            known,
            rule,
            trees,
            steps.drop_first(),
        )
    }
}

/// A whole backup with the parent snapshot whose root tree is `parent`:
/// the walk from the root through `steps`, and its end.
pub open spec fn backup_with(
    known: Known,
    rule: ChunkRule,
    trees: Map<Id, Seq<NodeView>>,
    parent: Option<Id>,
    steps: Seq<Step>,
) -> ArchiveView {
    after_finish(after_steps_with(start_view(parent), known, rule, trees, steps), known)
}

/// The root tree of a whole backup with a parent snapshot.
pub open spec fn backup_root_with(
    known: Known,
    rule: ChunkRule,
    trees: Map<Id, Seq<NodeView>>,
    parent: Option<Id>,
    steps: Seq<Step>,
) -> Id {
    root_tree(after_steps_with(start_view(parent), known, rule, trees, steps), known)
}

/// The entries that the directory `k` of the walk has when it is closed,
/// as the walk goes on through `rest` and ends.
pub open spec fn closing(s: ArchiveView, known: Known, rule: ChunkRule, rest: Seq<Step>, k: nat) -> Seq<
    NodeView,
>
    decreases rest.len(),
{
    if rest.len() == 0 || (depth_of(rest.first()) < s.levels.len() && depth_of(rest.first()) < k) {
        after_close_to(s, known, k).levels[k as int].children
    } else {
        closing(after_step(s, known, rule, rest.first()), known, rule, rest.drop_first(), k)
    }
}

/// The trees of the directories that the walk is in, as they are when
/// the directories are closed.
pub open spec fn dirs_at(s: ArchiveView, known: Known, rule: ChunkRule, rest: Seq<Step>) -> Set<
    Seq<NodeView>,
> {
    Set::new(
        |c: Seq<NodeView>|
            exists|k: nat| k < s.levels.len() && c == #[trigger] closing(s, known, rule, rest, k),
    )
}

/// The trees of the directories that the walk is in or comes to as it
/// goes on through `rest`, as they are when the directories are closed.
pub open spec fn dirs_of(s: ArchiveView, known: Known, rule: ChunkRule, rest: Seq<Step>) -> Set<
    Seq<NodeView>,
>
    decreases rest.len(),
{
    if rest.len() == 0 {
        dirs_at(s, known, rule, rest)
    } else {
        dirs_at(s, known, rule, rest) + dirs_of(
            after_step(s, known, rule, rest.first()),
            known,
            rule,
            rest.drop_first(),
        )
    }
}

/// Whether `trees` has each of the trees `dirs` right: what it holds
/// under the identifier of the tree is that tree.
pub open spec fn holds_right(trees: Map<Id, Seq<NodeView>>, dirs: Set<Seq<NodeView>>) -> bool {
    forall|c: Seq<NodeView>| #[trigger]
        dirs.contains(c) && trees.contains_key(tree_id(c)) ==> trees[tree_id(c)] == c
}

/// Closing the directories below `depth` leaves the directories above
/// `depth` as they are, and adds to the entries of the directory `depth`.
proof fn lemma_close_to_keeps(s: ArchiveView, known: Known, depth: nat)
    requires
        depth < s.levels.len(),
    ensures
        ({
            let t = after_close_to(s, known, depth);
            &&& t.levels.len() == depth + 1
            &&& forall|i: int| 0 <= i < depth ==> #[trigger] t.levels[i] == s.levels[i]
            &&& t.levels[depth as int].node == s.levels[depth as int].node
            &&& t.levels[depth as int].parent == s.levels[depth as int].parent
            &&& s.levels[depth as int].children.is_prefix_of(t.levels[depth as int].children)
            &&& depth + 1 == s.levels.len() ==> t == s
        }),
    decreases s.levels.len(),
{
    if !(s.levels.len() <= depth + 1 || s.levels.len() < 2) {
        let u = after_close(s, known);
        lemma_close_to_keeps(u, known, depth);
        let t = after_close_to(s, known, depth);
        assert forall|i: int| 0 <= i < depth implies #[trigger] t.levels[i] == s.levels[i] by {
            assert(t.levels[i] == u.levels[i]);
        }
    }
}

/// Closing the directories below `depth` is closing those below the next
/// one, and then that one.
proof fn lemma_close_to_last(s: ArchiveView, known: Known, depth: nat)
    requires
        depth + 1 < s.levels.len(),
    ensures
        after_close_to(s, known, depth) == after_close(
            after_close_to(s, known, depth + 1),
            known,
        ),
    decreases s.levels.len(),
{
    if s.levels.len() > depth + 2 {
        let u = after_close(s, known);
        lemma_close_to_last(u, known, depth);
    } else {
        let u = after_close(s, known);
        assert(after_close_to(s, known, depth + 1) == s);
        assert(after_close_to(u, known, depth) == u);
    }
}

/// Chunks that come up leave the walk where it is.
proof fn lemma_emit_all_stays(s: ArchiveView, known: Known, parts: Seq<Seq<u8>>)
    ensures
        emit_all(s, known, parts).levels == s.levels,
    decreases parts.len(),
{
    if parts.len() > 0 {
        lemma_emit_all_stays(s, known, parts.drop_last());
    }
}

/// An entry of the directory `depth` or of one below it leaves the
/// directory `k` open, where it is `depth` or above it, and adds to its
/// entries at most.
proof fn lemma_step_keeps(s: ArchiveView, known: Known, rule: ChunkRule, step: Step, k: nat)
    requires
        k < s.levels.len(),
        depth_of(step) >= s.levels.len() || depth_of(step) >= k,
    ensures
        ({
            let t = after_step(s, known, rule, step);
            let d = depth_of(step);
            &&& k < t.levels.len()
            &&& t.levels[k as int].node == s.levels[k as int].node
            &&& s.levels[k as int].children.is_prefix_of(t.levels[k as int].children)
            &&& d >= s.levels.len() || d > k ==> t.levels[k as int] == s.levels[k as int]
            &&& d < s.levels.len() ==> after_close_to(s, known, d).levels[k as int].children.is_prefix_of(
                t.levels[k as int].children,
            )
        }),
{
    let d = depth_of(step);
    if d < s.levels.len() {
        let u = after_close_to(s, known, d);
        lemma_close_to_keeps(s, known, d);
        match step {
            Step::File { node, data, .. } => {
                lemma_emit_all_stays(u, known, chunks_of(data, rule));
            },
            _ => {},
        }
    }
}

/// The entries that a directory has are the first of those that it has
/// when it is closed.
proof fn lemma_closing_prefix(s: ArchiveView, known: Known, rule: ChunkRule, rest: Seq<Step>, k: nat)
    requires
        k < s.levels.len(),
    ensures
        s.levels[k as int].children.is_prefix_of(closing(s, known, rule, rest, k)),
    decreases rest.len(),
{
    if rest.len() == 0 || (depth_of(rest.first()) < s.levels.len() && depth_of(rest.first()) < k) {
        lemma_close_to_keeps(s, known, k);
    } else {
        let t = after_step(s, known, rule, rest.first());
        lemma_step_keeps(s, known, rule, rest.first(), k);
        lemma_closing_prefix(t, known, rule, rest.drop_first(), k);
    }
}

/// The node that a directory gets in the directory above when it is
/// closed: its own, pointing to the tree of the entries `children`.
spec fn closed_node(node: NodeView, children: Seq<NodeView>) -> NodeView {
    NodeView { subtree: Some(tree_id(children)), ..node }
}

/// Closing one directory adds its node to the entries of the directory
/// above.
proof fn lemma_close_pushes(x: ArchiveView, known: Known)
    requires
        x.levels.len() >= 2,
    ensures
        ({
            let k = x.levels.len() - 2;
            let u = after_close(x, known);
            &&& u.levels.len() == k + 1
            &&& u.levels[k].children == x.levels[k].children.push(
                closed_node(x.levels[k + 1].node, x.levels[k + 1].children),
            )
        }),
{
}

/// Closing the directories below the directory `k` adds to its entries
/// the node of the directory that the walk has gone into from there.
proof fn lemma_close_to_pushes(s: ArchiveView, known: Known, k: nat)
    requires
        k + 1 < s.levels.len(),
    ensures
        after_close_to(s, known, k).levels[k as int].children == s.levels[k as int].children.push(
            closed_node(
                s.levels[k as int + 1].node,
                after_close_to(s, known, k + 1).levels[k as int + 1].children,
            ),
        ),
{
    let x = after_close_to(s, known, k + 1);
    lemma_close_to_keeps(s, known, k + 1);
    lemma_close_to_last(s, known, k);
    lemma_close_pushes(x, known);
    assert(x.levels[k as int] == s.levels[k as int]);
}

/// A directory that the walk has gone into from the directory `k` comes,
/// when it is closed, behind the entries that the directory `k` has: as
/// its node, which points to its tree as it is then.
proof fn lemma_closing_dir(s: ArchiveView, known: Known, rule: ChunkRule, rest: Seq<Step>, k: nat)
    requires
        k + 1 < s.levels.len(),
    ensures
        ({
            let c = closing(s, known, rule, rest, k);
            let n = s.levels[k as int].children.len() as int;
            &&& n < c.len()
            &&& c[n] == closed_node(
                s.levels[k as int + 1].node,
                closing(s, known, rule, rest, k + 1),
            )
        }),
    decreases rest.len(),
{
    let n = s.levels[k as int].children.len() as int;
    let c = closing(s, known, rule, rest, k);
    if rest.len() == 0 || (depth_of(rest.first()) < s.levels.len() && depth_of(rest.first()) < k) {
        lemma_close_to_pushes(s, known, k);
        assert(closing(s, known, rule, rest, k + 1) == after_close_to(s, known, k + 1).levels[k
            as int + 1].children);
    } else {
        let step = rest.first();
        let t = after_step(s, known, rule, step);
        lemma_step_keeps(s, known, rule, step, k);
        assert(c == closing(t, known, rule, rest.drop_first(), k));
        if depth_of(step) < s.levels.len() && depth_of(step) < k + 1 {
            lemma_close_to_pushes(s, known, k);
            let u = after_close_to(s, known, k);
            let closed = closed_node(
                s.levels[k as int + 1].node,
                after_close_to(s, known, k + 1).levels[k as int + 1].children,
            );
            assert(depth_of(step) == k);
            assert(u.levels[k as int].children[n] == closed);
            assert(u.levels[k as int].children.is_prefix_of(t.levels[k as int].children));
            assert(t.levels[k as int].children[n] == closed);
            lemma_closing_prefix(t, known, rule, rest.drop_first(), k);
            assert(c[n] == closed);
        } else {
            lemma_step_keeps(s, known, rule, step, k + 1);
            assert(t.levels[k as int] == s.levels[k as int]);
            lemma_closing_dir(t, known, rule, rest.drop_first(), k);
        }
    }
}

/// One entry of a walk leaves the run in order.
proof fn lemma_step_ordered(s: ArchiveView, known: Known, rule: ChunkRule, step: Step)
    requires
        ordered(s),
    ensures
        ordered(after_step(s, known, rule, step)),
{
    if depth_of(step) < s.levels.len() {
        let t = after_close_to(s, known, depth_of(step));
        lemma_close_to_ordered(s, known, depth_of(step));
        match step {
            Step::File { node, data, .. } => lemma_file_ordered(t, known, node, data, rule),
            Step::Dir { node, .. } => lemma_dir_ordered(t, Map::empty(), node),
            Step::Other { node, .. } => lemma_other_ordered(t, node),
        }
    }
}

/// In a run that is in order, a directory is sorted by name when it is
/// closed.
proof fn lemma_closing_sorted(s: ArchiveView, known: Known, rule: ChunkRule, rest: Seq<Step>, k: nat)
    requires
        ordered(s),
        k < s.levels.len(),
    ensures
        sorted_by_name(closing(s, known, rule, rest, k)),
    decreases rest.len(),
{
    if rest.len() == 0 || (depth_of(rest.first()) < s.levels.len() && depth_of(rest.first()) < k) {
        lemma_close_to_ordered(s, known, k);
        lemma_close_to_keeps(s, known, k);
        assert(level_ok(after_close_to(s, known, k).levels, k as int));
    } else {
        let t = after_step(s, known, rule, rest.first());
        lemma_step_keeps(s, known, rule, rest.first(), k);
        lemma_step_ordered(s, known, rule, rest.first());
        lemma_closing_sorted(t, known, rule, rest.drop_first(), k);
    }
}

/// In nodes that are sorted by name, the node of a name is found under
/// that name.
proof fn lemma_find_sorted(nodes: Seq<NodeView>, n: int)
    requires
        sorted_by_name(nodes),
        0 <= n < nodes.len(),
    ensures
        find_spec(nodes, nodes[n].name) == Some(nodes[n]),
    decreases nodes.len(),
{
    if n > 0 {
        lemma_sorted_apart(nodes, 0, n);
        let rest = nodes.drop_first();
        assert forall|i: int| 0 <= i < rest.len() - 1 implies #[trigger] in_order(rest, i) by {
            assert(in_order(nodes, i + 1));
        }
        assert(rest[n - 1] == nodes[n]);
        lemma_find_sorted(rest, n - 1);
    }
}

/// Whether what the parent snapshot has for the directory `k` of the
/// second walk, where it has the directory, is what the first walk makes
/// of it.
spec fn parent_right(
    one: ArchiveView,
    two: ArchiveView,
    known: Known,
    rule: ChunkRule,
    rest: Seq<Step>,
    trees: Map<Id, Seq<NodeView>>,
    k: nat,
) -> bool {
    match two.levels[k as int].parent {
        Some(id) => trees.contains_key(id) ==> trees[id] == closing(one, known, rule, rest, k),
        None => true,
    }
}

/// Whether the parent snapshot is right about every directory that the
/// second walk is in.
spec fn parents_right(
    one: ArchiveView,
    two: ArchiveView,
    known: Known,
    rule: ChunkRule,
    rest: Seq<Step>,
    trees: Map<Id, Seq<NodeView>>,
) -> bool {
    forall|k: nat|
        k < two.levels.len() ==> #[trigger] parent_right(one, two, known, rule, rest, trees, k)
}

/// The directories that stay open over an entry keep what the parent
/// snapshot has for them, and are closed with the same entries as before.
proof fn lemma_kept_right(
    one: ArchiveView,
    two: ArchiveView,
    next_one: ArchiveView,
    next_two: ArchiveView,
    known: Known,
    rule: ChunkRule,
    rest: Seq<Step>,
    trees: Map<Id, Seq<NodeView>>,
    k: nat,
)
    requires
        rest.len() > 0,
        next_one == after_step(one, known, rule, rest.first()),
        k < two.levels.len(),
        k < next_two.levels.len(),
        depth_of(rest.first()) >= one.levels.len() || depth_of(rest.first()) >= k,
        next_two.levels[k as int].parent == two.levels[k as int].parent,
        parent_right(one, two, known, rule, rest, trees, k),
    ensures
        parent_right(next_one, next_two, known, rule, rest.drop_first(), trees, k),
{
    assert(closing(one, known, rule, rest, k) == closing(
        next_one,
        known,
        rule,
        rest.drop_first(),
        k,
    ));
}

/// The first walk after an entry of the directory `d`, where the entry
/// has been accepted and has come to the node `made`: the node is the
/// last of the directory, and is there when the directory is closed.
proof fn lemma_made_stays(
    next_one: ArchiveView,
    known: Known,
    rule: ChunkRule,
    rest: Seq<Step>,
    d: nat,
    n: int,
    made: NodeView,
)
    requires
        d < next_one.levels.len(),
        0 <= n < next_one.levels[d as int].children.len(),
        next_one.levels[d as int].children[n] == made,
    ensures
        n < closing(next_one, known, rule, rest, d).len(),
        closing(next_one, known, rule, rest, d)[n] == made,
{
    lemma_closing_prefix(next_one, known, rule, rest, d);
}

/// Whether `trees` has the tree of the entries `c` under what the parent
/// snapshot has for a directory, where it has anything.
spec fn points_to(trees: Map<Id, Seq<NodeView>>, parent: Option<Id>, c: Seq<NodeView>) -> bool {
    match parent {
        Some(id) => trees.contains_key(id) ==> trees[id] == c,
        None => true,
    }
}

/// Whether `next` has the directories of `now` down to the directory `d`,
/// with what the parent snapshot has for them.
spec fn same_parents(now: ArchiveView, next: ArchiveView, d: nat) -> bool {
    &&& d < now.levels.len()
    &&& d < next.levels.len()
    &&& forall|k: int| 0 <= k <= d ==> (#[trigger] next.levels[k]).parent == now.levels[k].parent
}

/// A file of the second walk, in the directory `d`, whose entries are
/// `c` when it is closed: the file comes to the node that the first walk
/// has made of it, whether it is read or takes its content over.
proof fn lemma_file_with(
    t1: ArchiveView,
    t2: ArchiveView,
    known: Known,
    f: ArchiveView,
    rule: ChunkRule,
    trees: Map<Id, Seq<NodeView>>,
    node: NodeView,
    data: Seq<u8>,
    d: nat,
    c: Seq<NodeView>,
)
    requires
        mirrors(t1, t2),
        t1.levels.len() == d + 1,
        within(after_file(t1, known, node, data, rule), f),
        sorted_by_name(c),
        points_to(trees, t2.levels[d as int].parent, c),
        accepts(t1, node.name) ==> t1.levels[d as int].children.len() < c.len() && c[t1.levels[d
            as int].children.len() as int] == file_node(node, data, rule),
    ensures
        ({
            let o1 = after_file(t1, known, node, data, rule);
            let o2 = after_step_with(
                t2,
                with_new(known, f),
                rule,
                trees,
                Step::File { depth: d, node, data },
            );
            &&& mirrors(o1, o2)
            &&& quiet(t2, o2)
            &&& same_parents(t2, o2, d)
            &&& o2.levels.len() == d + 1
        }),
{
    let known2 = with_new(known, f);
    assert(after_close_to(t2, known2, d) == t2);
    assert(t2.levels.last() == t2.levels[d as int]);
    assert(t1.levels.last() == t1.levels[d as int]);
    if accepts(t1, node.name) {
        let made = file_node(node, data, rule);
        let n = t1.levels[d as int].children.len() as int;
        lemma_emit_all_stays(t1, known, chunks_of(data, rule));
        lemma_emit_all_stays(t2, known2, chunks_of(data, rule));
        let before = parent_node(trees, t2.levels.last().parent, node.name);
        match reused(before, node) {
            Some(content) => {
                lemma_find_sorted(c, n);
                assert(before == Some(made));
                assert(node.meta == made.meta);
                assert(NodeView { content: Some(content), ..node } == made);
            },
            None => {
                lemma_file_again(t1, t2, known, f, rule, node, data);
            },
        }
    }
}

/// A directory of the second walk, in the directory `d`, whose entries
/// are `c` when it is closed: what the parent snapshot has for the
/// directory is the tree `below` that the first walk makes of it.
proof fn lemma_dir_with(
    t1: ArchiveView,
    t2: ArchiveView,
    known: Known,
    f: ArchiveView,
    rule: ChunkRule,
    trees: Map<Id, Seq<NodeView>>,
    node: NodeView,
    d: nat,
    c: Seq<NodeView>,
    below: Seq<NodeView>,
)
    requires
        mirrors(t1, t2),
        t1.levels.len() == d + 1,
        sorted_by_name(c),
        points_to(trees, t2.levels[d as int].parent, c),
        accepts(t1, node.name) ==> t1.levels[d as int].children.len() < c.len() && c[t1.levels[d
            as int].children.len() as int] == closed_node(node, below),
        accepts(t1, node.name) && trees.contains_key(tree_id(below)) ==> trees[tree_id(below)]
            == below,
    ensures
        ({
            let o1 = after_dir(t1, Map::empty(), node);
            let o2 = after_step_with(
                t2,
                with_new(known, f),
                rule,
                trees,
                Step::Dir { depth: d, node },
            );
            &&& mirrors(o1, o2)
            &&& quiet(t2, o2)
            &&& same_parents(t2, o2, d)
            &&& if accepts(t1, node.name) {
                o2.levels.len() == d + 2 && points_to(trees, o2.levels[d as int + 1].parent, below)
            } else {
                o2.levels.len() == d + 1
            }
        }),
{
    let known2 = with_new(known, f);
    assert(after_close_to(t2, known2, d) == t2);
    assert(t2.levels.last() == t2.levels[d as int]);
    assert(t1.levels.last() == t1.levels[d as int]);
    if accepts(t1, node.name) {
        let n = t1.levels[d as int].children.len() as int;
        lemma_find_sorted(c, n);
    }
}

/// Any other entry of the second walk, in the directory `d`.
proof fn lemma_other_with(
    t1: ArchiveView,
    t2: ArchiveView,
    known: Known,
    f: ArchiveView,
    rule: ChunkRule,
    trees: Map<Id, Seq<NodeView>>,
    node: NodeView,
    d: nat,
)
    requires
        mirrors(t1, t2),
        t1.levels.len() == d + 1,
    ensures
        ({
            let o1 = after_other(t1, node);
            let o2 = after_step_with(
                t2,
                with_new(known, f),
                rule,
                trees,
                Step::Other { depth: d, node },
            );
            &&& mirrors(o1, o2)
            &&& quiet(t2, o2)
            &&& same_parents(t2, o2, d)
            &&& o2.levels.len() == d + 1
        }),
{
    let known2 = with_new(known, f);
    assert(after_close_to(t2, known2, d) == t2);
    assert(t2.levels.last() == t2.levels[d as int]);
    assert(t1.levels.last() == t1.levels[d as int]);
}

/// The run after an entry of the directory that the walk is in, in a walk
/// without parent snapshot.
spec fn op_after(t: ArchiveView, known: Known, rule: ChunkRule, step: Step) -> ArchiveView {
    match step {
        Step::File { node, data, .. } => after_file(t, known, node, data, rule),
        Step::Dir { node, .. } => after_dir(t, Map::empty(), node),
        Step::Other { node, .. } => after_other(t, node),
    }
}

/// Before an entry of the directory `d`, both walks close the
/// directories below it, and the second hands out nothing.
proof fn lemma_closed_with(
    one: ArchiveView,
    two: ArchiveView,
    known: Known,
    f: ArchiveView,
    rule: ChunkRule,
    trees: Map<Id, Seq<NodeView>>,
    step: Step,
)
    requires
        depth_of(step) < one.levels.len(),
        mirrors(one, two),
        within(after_step(one, known, rule, step), f),
    ensures
        ({
            let d = depth_of(step);
            let t1 = after_close_to(one, known, d);
            let t2 = after_close_to(two, with_new(known, f), d);
            &&& mirrors(t1, t2)
            &&& quiet(two, t2)
            &&& same_parents(two, t2, d)
            &&& t1.levels.len() == d + 1
            &&& after_step(one, known, rule, step) == op_after(t1, known, rule, step)
            &&& after_step_with(two, with_new(known, f), rule, trees, step) == after_step_with(
                t2,
                with_new(known, f),
                rule,
                trees,
                step,
            )
        }),
{
    let d = depth_of(step);
    let known2 = with_new(known, f);
    let t1 = after_close_to(one, known, d);
    let t2 = after_close_to(two, known2, d);
    lemma_close_to_keeps(one, known, d);
    lemma_close_to_keeps(two, known2, d);
    lemma_step_grows(t1, known, rule, step);
    assert(after_close_to(t1, known, d) == t1);
    assert(after_close_to(t2, known2, d) == t2);
    lemma_close_to_again(one, two, known, f, d);
}

/// A file that the first walk accepts is, as the node made of it, among
/// the entries of its directory when the directory is closed.
proof fn lemma_file_made(
    t1: ArchiveView,
    known: Known,
    rule: ChunkRule,
    node: NodeView,
    data: Seq<u8>,
    d: nat,
    later: Seq<Step>,
)
    requires
        t1.levels.len() == d + 1,
        accepts(t1, node.name),
    ensures
        ({
            let o1 = after_file(t1, known, node, data, rule);
            let n = t1.levels[d as int].children.len() as int;
            &&& n < closing(o1, known, rule, later, d).len()
            &&& closing(o1, known, rule, later, d)[n] == file_node(node, data, rule)
        }),
{
    let o1 = after_file(t1, known, node, data, rule);
    let n = t1.levels[d as int].children.len() as int;
    lemma_emit_all_stays(t1, known, chunks_of(data, rule));
    assert(t1.levels.last() == t1.levels[d as int]);
    assert(o1.levels[d as int].children == t1.levels[d as int].children.push(
        file_node(node, data, rule),
    ));
    lemma_made_stays(o1, known, rule, later, d, n, file_node(node, data, rule));
}

/// A directory that the first walk goes into is, as its node with the
/// tree that it has when it is closed, among the entries of the directory
/// above when that is closed.
proof fn lemma_dir_made(
    t1: ArchiveView,
    known: Known,
    rule: ChunkRule,
    node: NodeView,
    d: nat,
    later: Seq<Step>,
)
    requires
        t1.levels.len() == d + 1,
        accepts(t1, node.name),
    ensures
        ({
            let o1 = after_dir(t1, Map::empty(), node);
            let n = t1.levels[d as int].children.len() as int;
            let below = closing(o1, known, rule, later, d + 1);
            &&& n < closing(o1, known, rule, later, d).len()
            &&& closing(o1, known, rule, later, d)[n] == closed_node(node, below)
            &&& dirs_of(o1, known, rule, later).contains(below)
        }),
{
    let o1 = after_dir(t1, Map::empty(), node);
    let below = closing(o1, known, rule, later, d + 1);
    assert(t1.levels.last() == t1.levels[d as int]);
    assert(o1.levels.len() == d + 2);
    assert(o1.levels[d as int] == t1.levels[d as int]);
    assert(o1.levels[d as int + 1].node == node);
    lemma_closing_dir(o1, known, rule, later, d);
    assert(dirs_at(o1, known, rule, later).contains(below));
}

/// After an entry, the parent snapshot is right about every directory
/// that the second walk is in, where it was before and is right about the
/// directory that the walk has gone into.
proof fn lemma_parents_next(
    one: ArchiveView,
    two: ArchiveView,
    next_two: ArchiveView,
    known: Known,
    rule: ChunkRule,
    rest: Seq<Step>,
    trees: Map<Id, Seq<NodeView>>,
)
    requires
        rest.len() > 0,
        depth_of(rest.first()) < one.levels.len(),
        parents_right(one, two, known, rule, rest, trees),
        same_parents(two, next_two, depth_of(rest.first())),
        next_two.levels.len() <= depth_of(rest.first()) + 2,
        next_two.levels.len() == depth_of(rest.first()) + 2 ==> parent_right(
            after_step(one, known, rule, rest.first()),
            next_two,
            known,
            rule,
            rest.drop_first(),
            trees,
            depth_of(rest.first()) + 1,
        ),
    ensures
        parents_right(
            after_step(one, known, rule, rest.first()),
            next_two,
            known,
            rule,
            rest.drop_first(),
            trees,
        ),
{
    let next_one = after_step(one, known, rule, rest.first());
    let d = depth_of(rest.first());
    assert forall|k: nat| k < next_two.levels.len() implies #[trigger] parent_right(
        next_one,
        next_two,
        known,
        rule,
        rest.drop_first(),
        trees,
        k,
    ) by {
        if k <= d {
            assert(parent_right(one, two, known, rule, rest, trees, k));
            assert(next_two.levels[k as int].parent == two.levels[k as int].parent);
            lemma_kept_right(one, two, next_one, next_two, known, rule, rest, trees, k);
        }
    }
}

/// An entry that is passed over leaves the parent snapshot right.
proof fn lemma_parents_skip(
    one: ArchiveView,
    two: ArchiveView,
    known: Known,
    rule: ChunkRule,
    rest: Seq<Step>,
    trees: Map<Id, Seq<NodeView>>,
)
    requires
        rest.len() > 0,
        depth_of(rest.first()) >= one.levels.len(),
        parents_right(one, two, known, rule, rest, trees),
    ensures
        parents_right(one, two, known, rule, rest.drop_first(), trees),
{
    assert forall|k: nat| k < two.levels.len() implies #[trigger] parent_right(
        one,
        two,
        known,
        rule,
        rest.drop_first(),
        trees,
        k,
    ) by {
        assert(parent_right(one, two, known, rule, rest, trees, k));
        lemma_kept_right(one, two, one, two, known, rule, rest, trees, k);
    }
}

/// What is right about the trees of a walk is right about the trees of
/// the rest of the walk.
proof fn lemma_dirs_later(
    one: ArchiveView,
    known: Known,
    rule: ChunkRule,
    rest: Seq<Step>,
    trees: Map<Id, Seq<NodeView>>,
)
    requires
        rest.len() > 0,
        holds_right(trees, dirs_of(one, known, rule, rest)),
    ensures
        holds_right(
            trees,
            dirs_of(after_step(one, known, rule, rest.first()), known, rule, rest.drop_first()),
        ),
{
    let next_one = after_step(one, known, rule, rest.first());
    assert forall|c: Seq<NodeView>| #[trigger]
        dirs_of(next_one, known, rule, rest.drop_first()).contains(c) && trees.contains_key(
            tree_id(c),
        ) implies trees[tree_id(c)] == c by {
        assert(dirs_of(one, known, rule, rest).contains(c));
    }
}

/// Whether the second walk, at `two`, follows the first, at `one`, with
/// the entries `rest` to come: it is in the same directories with the same
/// entries, and the parent snapshot is right about them and about every
/// tree that the first walk makes from here on.
spec fn follows_first(
    one: ArchiveView,
    two: ArchiveView,
    known: Known,
    rule: ChunkRule,
    rest: Seq<Step>,
    trees: Map<Id, Seq<NodeView>>,
) -> bool {
    &&& mirrors(one, two)
    &&& ordered(one)
    &&& parents_right(one, two, known, rule, rest, trees)
    &&& holds_right(trees, dirs_of(one, known, rule, rest))
}

/// What holds of both walks when they have closed the directories below
/// the next entry, which is one of the directory `d`.
spec fn at_entry(
    one: ArchiveView,
    two: ArchiveView,
    t1: ArchiveView,
    t2: ArchiveView,
    known: Known,
    rule: ChunkRule,
    rest: Seq<Step>,
    trees: Map<Id, Seq<NodeView>>,
    d: nat,
) -> bool {
    let c = closing(one, known, rule, rest, d);
    let next_one = op_after(t1, known, rule, rest.first());
    &&& rest.len() > 0
    &&& d == depth_of(rest.first())
    &&& mirrors(t1, t2)
    &&& t1.levels.len() == d + 1
    &&& sorted_by_name(c)
    &&& c == closing(next_one, known, rule, rest.drop_first(), d)
    &&& points_to(trees, t2.levels[d as int].parent, c)
    &&& holds_right(trees, dirs_of(next_one, known, rule, rest.drop_first()))
}

/// What holds of the second walk after an entry of the directory `d`.
spec fn entry_done(
    t1: ArchiveView,
    t2: ArchiveView,
    o2: ArchiveView,
    known: Known,
    rule: ChunkRule,
    rest: Seq<Step>,
    trees: Map<Id, Seq<NodeView>>,
    d: nat,
) -> bool {
    let next_one = op_after(t1, known, rule, rest.first());
    &&& mirrors(next_one, o2)
    &&& quiet(t2, o2)
    &&& same_parents(t2, o2, d)
    &&& o2.levels.len() <= d + 2
    &&& o2.levels.len() == d + 2 ==> points_to(
        trees,
        o2.levels[d as int + 1].parent,
        closing(next_one, known, rule, rest.drop_first(), d + 1),
    )
}

/// A file of the second walk.
proof fn lemma_entry_file(
    one: ArchiveView,
    two: ArchiveView,
    t1: ArchiveView,
    t2: ArchiveView,
    known: Known,
    f: ArchiveView,
    rule: ChunkRule,
    trees: Map<Id, Seq<NodeView>>,
    rest: Seq<Step>,
    d: nat,
    node: NodeView,
    data: Seq<u8>,
)
    requires
        at_entry(one, two, t1, t2, known, rule, rest, trees, d),
        rest.first() == (Step::File { depth: d, node, data }),
        within(after_file(t1, known, node, data, rule), f),
    ensures
        entry_done(
            t1,
            t2,
            after_step_with(t2, with_new(known, f), rule, trees, rest.first()),
            known,
            rule,
            rest,
            trees,
            d,
        ),
{
    let c = closing(one, known, rule, rest, d);
    if accepts(t1, node.name) {
        lemma_file_made(t1, known, rule, node, data, d, rest.drop_first());
    }
    lemma_file_with(t1, t2, known, f, rule, trees, node, data, d, c);
}

/// A directory of the second walk.
proof fn lemma_entry_dir(
    one: ArchiveView,
    two: ArchiveView,
    t1: ArchiveView,
    t2: ArchiveView,
    known: Known,
    f: ArchiveView,
    rule: ChunkRule,
    trees: Map<Id, Seq<NodeView>>,
    rest: Seq<Step>,
    d: nat,
    node: NodeView,
)
    requires
        at_entry(one, two, t1, t2, known, rule, rest, trees, d),
        rest.first() == (Step::Dir { depth: d, node }),
    ensures
        entry_done(
            t1,
            t2,
            after_step_with(t2, with_new(known, f), rule, trees, rest.first()),
            known,
            rule,
            rest,
            trees,
            d,
        ),
{
    let c = closing(one, known, rule, rest, d);
    let next_one = after_dir(t1, Map::empty(), node);
    let below = closing(next_one, known, rule, rest.drop_first(), d + 1);
    if accepts(t1, node.name) {
        lemma_dir_made(t1, known, rule, node, d, rest.drop_first());
        lemma_dir_with(t1, t2, known, f, rule, trees, node, d, c, below);
    } else {
        lemma_dir_with(t1, t2, known, f, rule, trees, node, d, c, Seq::empty());
    }
}

/// Any other entry of the second walk.
proof fn lemma_entry_other(
    one: ArchiveView,
    two: ArchiveView,
    t1: ArchiveView,
    t2: ArchiveView,
    known: Known,
    f: ArchiveView,
    rule: ChunkRule,
    trees: Map<Id, Seq<NodeView>>,
    rest: Seq<Step>,
    d: nat,
    node: NodeView,
)
    requires
        at_entry(one, two, t1, t2, known, rule, rest, trees, d),
        rest.first() == (Step::Other { depth: d, node }),
    ensures
        entry_done(
            t1,
            t2,
            after_step_with(t2, with_new(known, f), rule, trees, rest.first()),
            known,
            rule,
            rest,
            trees,
            d,
        ),
{
    lemma_other_with(t1, t2, known, f, rule, trees, node, d);
}

/// Both walks are ready for the next entry when they have closed the
/// directories below it.
proof fn lemma_at_entry(
    one: ArchiveView,
    two: ArchiveView,
    known: Known,
    f: ArchiveView,
    rule: ChunkRule,
    trees: Map<Id, Seq<NodeView>>,
    rest: Seq<Step>,
)
    requires
        rest.len() > 0,
        depth_of(rest.first()) < one.levels.len(),
        follows_first(one, two, known, rule, rest, trees),
        within(after_step(one, known, rule, rest.first()), f),
    ensures
        ({
            let d = depth_of(rest.first());
            let t1 = after_close_to(one, known, d);
            let t2 = after_close_to(two, with_new(known, f), d);
            &&& at_entry(one, two, t1, t2, known, rule, rest, trees, d)
            &&& after_step(one, known, rule, rest.first()) == op_after(t1, known, rule, rest.first())
            &&& after_step_with(two, with_new(known, f), rule, trees, rest.first())
                == after_step_with(t2, with_new(known, f), rule, trees, rest.first())
            &&& quiet(two, t2)
            &&& same_parents(two, t2, d)
        }),
{
    let step = rest.first();
    let d = depth_of(step);
    let t2 = after_close_to(two, with_new(known, f), d);
    lemma_closed_with(one, two, known, f, rule, trees, step);
    lemma_dirs_later(one, known, rule, rest, trees);
    lemma_closing_sorted(one, known, rule, rest, d);
    assert(parent_right(one, two, known, rule, rest, trees, d));
}

/// One entry of the second walk: it comes to the same directories and
/// entries as the first walk, and hands out nothing.
proof fn lemma_step_with(
    one: ArchiveView,
    two: ArchiveView,
    known: Known,
    f: ArchiveView,
    rule: ChunkRule,
    trees: Map<Id, Seq<NodeView>>,
    rest: Seq<Step>,
)
    requires
        rest.len() > 0,
        follows_first(one, two, known, rule, rest, trees),
        within(after_step(one, known, rule, rest.first()), f),
    ensures
        follows_first(
            after_step(one, known, rule, rest.first()),
            after_step_with(two, with_new(known, f), rule, trees, rest.first()),
            known,
            rule,
            rest.drop_first(),
            trees,
        ),
        quiet(two, after_step_with(two, with_new(known, f), rule, trees, rest.first())),
{
    let step = rest.first();
    let d = depth_of(step);
    let known2 = with_new(known, f);
    let next_two = after_step_with(two, known2, rule, trees, step);
    lemma_step_ordered(one, known, rule, step);
    lemma_dirs_later(one, known, rule, rest, trees);
    if d >= one.levels.len() {
        lemma_parents_skip(one, two, known, rule, rest, trees);
    } else {
        let t1 = after_close_to(one, known, d);
        let t2 = after_close_to(two, known2, d);
        lemma_at_entry(one, two, known, f, rule, trees, rest);
        match step {
            Step::File { depth, node, data } => {
                lemma_entry_file(one, two, t1, t2, known, f, rule, trees, rest, d, node, data);
            },
            Step::Dir { depth, node } => {
                lemma_entry_dir(one, two, t1, t2, known, f, rule, trees, rest, d, node);
            },
            Step::Other { depth, node } => {
                lemma_entry_other(one, two, t1, t2, known, f, rule, trees, rest, d, node);
            },
        }
        lemma_step_done(one, two, t1, t2, next_two, known, rule, rest, trees, d);
    }
}

/// After an entry the second walk follows the first.
proof fn lemma_step_done(
    one: ArchiveView,
    two: ArchiveView,
    t1: ArchiveView,
    t2: ArchiveView,
    next_two: ArchiveView,
    known: Known,
    rule: ChunkRule,
    rest: Seq<Step>,
    trees: Map<Id, Seq<NodeView>>,
    d: nat,
)
    requires
        rest.len() > 0,
        d == depth_of(rest.first()),
        d < one.levels.len(),
        parents_right(one, two, known, rule, rest, trees),
        after_step(one, known, rule, rest.first()) == op_after(t1, known, rule, rest.first()),
        entry_done(t1, t2, next_two, known, rule, rest, trees, d),
        quiet(two, t2),
        same_parents(two, t2, d),
    ensures
        parents_right(
            after_step(one, known, rule, rest.first()),
            next_two,
            known,
            rule,
            rest.drop_first(),
            trees,
        ),
        quiet(two, next_two),
        mirrors(after_step(one, known, rule, rest.first()), next_two),
{
    let next_one = after_step(one, known, rule, rest.first());
    assert(same_parents(two, next_two, d));
    if next_two.levels.len() == d + 2 {
        assert(parent_right(next_one, next_two, known, rule, rest.drop_first(), trees, d + 1));
    }
    lemma_parents_next(one, two, next_two, known, rule, rest, trees);
}

/// The second walk through `rest` comes to the same directories and
/// entries as the first, and hands out nothing.
proof fn lemma_steps_with(
    one: ArchiveView,
    two: ArchiveView,
    known: Known,
    f: ArchiveView,
    rule: ChunkRule,
    trees: Map<Id, Seq<NodeView>>,
    rest: Seq<Step>,
)
    requires
        follows_first(one, two, known, rule, rest, trees),
        within(after_steps(one, known, rule, rest), f),
    ensures
        mirrors(
            after_steps(one, known, rule, rest),
            after_steps_with(two, with_new(known, f), rule, trees, rest),
        ),
        quiet(two, after_steps_with(two, with_new(known, f), rule, trees, rest)),
    decreases rest.len(),
{
    if rest.len() > 0 {
        let next_one = after_step(one, known, rule, rest.first());
        let next_two = after_step_with(two, with_new(known, f), rule, trees, rest.first());
        lemma_steps_grow(next_one, known, rule, rest.drop_first());
        lemma_step_with(one, two, known, f, rule, trees, rest);
        lemma_steps_with(next_one, next_two, known, f, rule, trees, rest.drop_first());
    }
}

/// The entries of the root when the walk has ended are those of the root
/// tree.
proof fn lemma_closing_root(s: ArchiveView, known: Known, rule: ChunkRule, rest: Seq<Step>)
    requires
        s.levels.len() > 0,
    ensures
        root_tree(after_steps(s, known, rule, rest), known) == tree_id(
            closing(s, known, rule, rest, 0),
        ),
    decreases rest.len(),
{
    if rest.len() > 0 {
        lemma_step_keeps(s, known, rule, rest.first(), 0);
        lemma_closing_root(after_step(s, known, rule, rest.first()), known, rule, rest.drop_first());
    } else {
        lemma_close_to_grows(s, known, 0);
    }
}

/// The trees of the directories of a whole backup without parent
/// snapshot, as the backup hands them out or finds them in the
/// repository.
pub open spec fn trees_of_backup(known: Known, rule: ChunkRule, steps: Seq<Step>) -> Set<
    Seq<NodeView>,
> {
    dirs_of(start_view(None), known, rule, steps)
}

/// The root tree of a backup is among the trees of its directories.
pub proof fn lemma_root_among_trees(known: Known, rule: ChunkRule, steps: Seq<Step>)
    ensures
        exists|c: Seq<NodeView>| #[trigger]
            trees_of_backup(known, rule, steps).contains(c) && tree_id(c) == backup_root(
                known,
                rule,
                steps,
            ),
{
    let start = start_view(None);
    lemma_closing_root(start, known, rule, steps);
    let top = closing(start, known, rule, steps, 0);
    assert(dirs_at(start, known, rule, steps).contains(top));
    assert(trees_of_backup(known, rule, steps).contains(top));
}

/// Archiving the same directory again with the first snapshot as parent,
/// once the blobs of the first run are stored, comes to the same root
/// tree and hands out no blob: whether a file is read again or takes its
/// content over from the parent. The trees `trees` of the parent snapshot
/// are those of the first run, as far as they are there.
pub proof fn lemma_second_backup_with_parent(
    known: Known,
    rule: ChunkRule,
    steps: Seq<Step>,
    trees: Map<Id, Seq<NodeView>>,
)
    requires
        holds_right(trees, trees_of_backup(known, rule, steps)),
    ensures
        ({
            let first = backup(known, rule, steps);
            let root = backup_root(known, rule, steps);
            let again = backup_with(with_new(known, first), rule, trees, Some(root), steps);
            &&& backup_root_with(with_new(known, first), rule, trees, Some(root), steps) == root
            &&& again.out == Seq::<NewBlobView>::empty()
            &&& again.new_data == Set::<Id>::empty()
            &&& again.new_trees == Set::<Id>::empty()
        }),
{
    let start = start_view(None);
    let root = backup_root(known, rule, steps);
    let start2 = start_view(Some(root));
    let walked = after_steps(start, known, rule, steps);
    let first = after_finish(walked, known);
    let known2 = with_new(known, first);
    let walked2 = after_steps_with(start2, known2, rule, trees, steps);
    lemma_finish_grows(walked, known);
    lemma_closing_root(start, known, rule, steps);
    let top = closing(start, known, rule, steps, 0);
    assert(dirs_at(start, known, rule, steps).contains(top));
    assert(dirs_of(start, known, rule, steps).contains(top));
    assert(parent_right(start, start2, known, rule, steps, trees, 0));
    assert(ordered(start)) by {
        assert forall|k: int| 0 <= k < start.levels.len() implies #[trigger] level_ok(
            start.levels,
            k,
        ) by {
            assert(start.levels[k].children.len() == 0);
        }
    }
    lemma_steps_with(start, start2, known, first, rule, trees, steps);
    let closed = after_close_to(walked, known, 0);
    let closed2 = after_close_to(walked2, known2, 0);
    lemma_close_to_grows(walked, known, 0);
    lemma_close_to_grows(walked2, known2, 0);
    lemma_close_to_again(walked, walked2, known, first, 0);
    if closed.levels.len() > 0 {
        lemma_emit_again(
            closed,
            closed2,
            known,
            first,
            BlobType::Tree,
            serialize_tree(closed.levels[0].children),
        );
    }
}

} // verus!
