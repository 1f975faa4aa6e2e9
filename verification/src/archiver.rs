//! The archiver: the entries of a filesystem walk become trees, and every
//! blob that the repository lacks is handed out to be stored.

use vstd::prelude::*;
use vstd::slice::{slice_subrange, slice_to_vec};
use crate::blob::BlobType;
use crate::chunker::{cut_at, is_chunking, lemma_chunking_unique, pieces, ChunkRule, Chunker};
use crate::hasher::{content_id, hash};
use crate::id::Id;
use crate::idmap::{IdMap, IdSet};
use crate::index::IndexBackend;
use crate::snapshot::{snapshot_id, texts, SnapshotFile, SnapshotView};
use crate::tree::{
    find_spec, in_order, is_name_before, name_before, opt_ids, serialize_tree, sorted_by_name,
    tree_id, MetadataView, Node, NodeType, NodeView, Timestamp, Tree,
};

verus! {

/// Why an entry could not be archived.
#[derive(Clone, Copy, Debug, PartialEq, Eq, Structural)]
pub enum ArchiveError {
    /// The entry lies deeper than one level below the directory that the
    /// walk is in.
    BadWalk,
    /// The name of the entry does not come behind the name of the entry
    /// before it in its directory.
    OutOfOrder,
}

/// A blob that the repository lacks.
#[derive(Debug)]
pub struct NewBlob {
    pub tpe: BlobType,
    pub id: Id,
    pub data: Vec<u8>,
}

/// The mathematical value of a [`NewBlob`].
pub ghost struct NewBlobView {
    pub tpe: BlobType,
    pub id: Id,
    pub data: Seq<u8>,
}

impl View for NewBlob {
    type V = NewBlobView;

    open spec fn view(&self) -> NewBlobView {
        NewBlobView { tpe: self.tpe, id: self.id, data: self.data@ }
    }
}

/// The views of a list of blobs.
pub open spec fn blob_views(blobs: Seq<NewBlob>) -> Seq<NewBlobView> {
    Seq::new(blobs.len(), |i: int| blobs[i]@)
}

/// A directory that the walk is in.
pub struct Level {
    node: Node,
    children: Tree,
    parent: Option<Id>,
}

/// The mathematical value of a [`Level`].
pub ghost struct LevelView {
    /// The node of the directory itself.
    pub node: NodeView,
    /// The nodes of its entries so far.
    pub children: Seq<NodeView>,
    /// The tree that the parent snapshot has for this directory.
    pub parent: Option<Id>,
}

impl View for Level {
    type V = LevelView;

    closed spec fn view(&self) -> LevelView {
        LevelView { node: self.node@, children: self.children@, parent: self.parent }
    }
}

/// The views of a list of levels.
pub open spec fn level_views(levels: Seq<Level>) -> Seq<LevelView> {
    Seq::new(levels.len(), |i: int| levels[i]@)
}

/// Where an archiving run stands.
pub ghost struct ArchiveView {
    /// The directories that the walk is in, the root first.
    pub levels: Seq<LevelView>,
    /// The data blobs handed out so far.
    pub new_data: Set<Id>,
    /// The tree blobs handed out so far.
    pub new_trees: Set<Id>,
    /// The blobs handed out and not yet taken.
    pub out: Seq<NewBlobView>,
}

/// The blobs that the repository holds when the run begins.
pub ghost struct Known {
    pub data: Set<Id>,
    pub trees: Set<Id>,
}

/// The run after the blob `data` of kind `tpe` came up: it is handed out
/// unless the repository holds it or the run has handed it out before.
pub open spec fn emit(s: ArchiveView, known: Known, tpe: BlobType, data: Seq<u8>) -> ArchiveView {
    let id = content_id(data);
    match tpe {
        BlobType::Data => if known.data.contains(id) || s.new_data.contains(id) {
            s
        } else {
            ArchiveView {
                new_data: s.new_data.insert(id),
                out: s.out.push(NewBlobView { tpe, id, data }),
                ..s
            }
        },
        BlobType::Tree => if known.trees.contains(id) || s.new_trees.contains(id) {
            s
        } else {
            ArchiveView {
                new_trees: s.new_trees.insert(id),
                out: s.out.push(NewBlobView { tpe, id, data }),
                ..s
            }
        },
    }
}

/// The run after the chunks `parts` of a file came up, in order.
pub open spec fn emit_all(s: ArchiveView, known: Known, parts: Seq<Seq<u8>>) -> ArchiveView
    decreases parts.len(),
{
    if parts.len() == 0 {
        s
    } else {
        emit(emit_all(s, known, parts.drop_last()), known, BlobType::Data, parts.last())
    }
}

/// The identifiers of the chunks `parts`, in order.
pub open spec fn ids_of(parts: Seq<Seq<u8>>) -> Seq<Id> {
    Seq::new(parts.len(), |i: int| content_id(parts[i]))
}

/// The run with `node` added to the directory that the walk is in.
pub open spec fn with_child(s: ArchiveView, node: NodeView) -> ArchiveView {
    if s.levels.len() == 0 {
        s
    } else {
        let top = s.levels.last();
        ArchiveView {
            levels: s.levels.drop_last().push(
                LevelView { children: top.children.push(node), ..top },
            ),
            ..s
        }
    }
}

/// Whether an entry of the name `name` may follow the entries `children`
/// of a directory: its name comes behind the name of the last of them.
pub open spec fn follows(children: Seq<NodeView>, name: Seq<u8>) -> bool {
    children.len() == 0 || name_before(children.last().name, name)
}

/// Whether an entry of the name `name` may follow in the directory that
/// the walk is in.
pub open spec fn accepts(s: ArchiveView, name: Seq<u8>) -> bool {
    s.levels.len() > 0 && follows(s.levels.last().children, name)
}

/// The chunks of a file.
pub open spec fn chunks_of(data: Seq<u8>, rule: ChunkRule) -> Seq<Seq<u8>> {
    pieces(data, choose|ends: Seq<usize>| is_chunking(data, ends, rule))
}

/// The node of a file with the bytes `data`: its content lists the chunks,
/// and its size is their total.
pub open spec fn file_node(node: NodeView, data: Seq<u8>, rule: ChunkRule) -> NodeView {
    NodeView {
        content: Some(ids_of(chunks_of(data, rule))),
        meta: MetadataView { size: data.len() as u64, ..node.meta },
        ..node
    }
}

/// The run after a file that was read: its chunks come up, and its node
/// is added to the directory that the walk is in. A file that comes out
/// of order is passed over.
pub open spec fn after_file(
    s: ArchiveView,
    known: Known,
    node: NodeView,
    data: Seq<u8>,
    rule: ChunkRule,
) -> ArchiveView {
    if accepts(s, node.name) {
        with_child(emit_all(s, known, chunks_of(data, rule)), file_node(node, data, rule))
    } else {
        s
    }
}

/// The run after an entry that is not read: its node is added to the
/// directory that the walk is in. An entry that comes out of order is
/// passed over.
pub open spec fn after_other(s: ArchiveView, node: NodeView) -> ArchiveView {
    if accepts(s, node.name) {
        with_child(s, node)
    } else {
        s
    }
}

/// The run after the directory that the walk is in is closed: its tree
/// comes up, and its node, which points to the tree, is added to the
/// directory above.
pub open spec fn after_close(s: ArchiveView, known: Known) -> ArchiveView {
    if s.levels.len() < 2 {
        s
    } else {
        let top = s.levels.last();
        let t = emit(s, known, BlobType::Tree, serialize_tree(top.children));
        with_child(
            ArchiveView { levels: s.levels.drop_last(), ..t },
            NodeView { subtree: Some(tree_id(top.children)), ..top.node },
        )
    }
}

/// The run after the directories below `depth` are closed, the deepest
/// first.
pub open spec fn after_close_to(s: ArchiveView, known: Known, depth: nat) -> ArchiveView
    decreases s.levels.len(),
{
    if s.levels.len() <= depth + 1 || s.levels.len() < 2 {
        s
    } else {
        after_close_to(after_close(s, known), known, depth)
    }
}

/// The node that the parent snapshot has under `name` in the tree
/// `parent`.
pub open spec fn parent_node(trees: Map<Id, Seq<NodeView>>, parent: Option<Id>, name: Seq<u8>) -> Option<
    NodeView,
> {
    match parent {
        Some(id) if trees.contains_key(id) => find_spec(trees[id], name),
        _ => None,
    }
}

/// The content that a file takes over from the parent snapshot: that of
/// the parent's file of the same name, where size and modification time
/// are the same. A file that takes its content over is not read.
pub open spec fn reused(before: Option<NodeView>, node: NodeView) -> Option<Seq<Id>> {
    match before {
        Some(p) => if p.node_type == NodeType::File && node.node_type == NodeType::File
            && p.meta.size == node.meta.size && p.meta.mtime == node.meta.mtime
            && p.content.is_some() {
            p.content
        } else {
            None
        },
        None => None,
    }
}

/// The tree that the parent snapshot has for the directory `node` of the
/// tree `parent`.
pub open spec fn parent_subtree(trees: Map<Id, Seq<NodeView>>, parent: Option<Id>, node: NodeView) -> Option<
    Id,
> {
    match parent_node(trees, parent, node.name) {
        Some(p) => if p.node_type == NodeType::Dir {
            p.subtree
        } else {
            None
        },
        None => None,
    }
}

/// The run after the walk has gone into the directory `node`. A
/// directory that comes out of order is passed over.
pub open spec fn after_dir(s: ArchiveView, trees: Map<Id, Seq<NodeView>>, node: NodeView) -> ArchiveView {
    if !accepts(s, node.name) {
        s
    } else {
        ArchiveView {
            levels: s.levels.push(
                LevelView {
                    node,
                    children: Seq::empty(),
                    parent: parent_subtree(trees, s.levels.last().parent, node),
                },
            ),
            ..s
        }
    }
}

/// The run after every open directory is closed and the root tree has
/// come up.
pub open spec fn after_finish(s: ArchiveView, known: Known) -> ArchiveView {
    let t = after_close_to(s, known, 0);
    if t.levels.len() == 0 {
        t
    } else {
        emit(t, known, BlobType::Tree, serialize_tree(t.levels[0].children))
    }
}

/// The root tree of the backup, once the walk has ended.
pub open spec fn root_tree(s: ArchiveView, known: Known) -> Id {
    let t = after_close_to(s, known, 0);
    if t.levels.len() == 0 {
        tree_id(Seq::empty())
    } else {
        tree_id(t.levels[0].children)
    }
}

/// The snapshot of a backup with the root tree `tree`.
pub open spec fn snapshot_of(
    tree: Id,
    time: Timestamp,
    parent: Option<Id>,
    paths: Seq<Seq<char>>,
    hostname: Seq<char>,
    username: Option<Seq<char>>,
    tags: Seq<Seq<char>>,
) -> SnapshotView {
    let s = SnapshotView {
        id: Id::zero(),
        time,
        parent,
        tree,
        paths,
        hostname,
        username,
        tags,
        label: None,
        original: None,
    };
    SnapshotView { id: snapshot_id(s), ..s }
}

/// Turns the entries of a filesystem walk into trees.
///
/// The entries come in the order of the walk, each with its depth below
/// the root of the backup. Files are cut into chunks, directories become
/// trees when the walk leaves them, and every blob that neither the
/// repository nor this run has is handed out to be stored.
pub struct Archiver {
    levels: Vec<Level>,
    new_data: IdSet,
    new_trees: IdSet,
    out: Vec<NewBlob>,
}

/// The trees of the parent snapshot that load.
pub open spec fn tree_views(trees: Map<Id, Tree>) -> Map<Id, Seq<NodeView>> {
    Map::new(|id: Id| trees.contains_key(id), |id: Id| trees[id]@)
}

/// The blobs that a catalog holds.
pub open spec fn known_of(index: &IndexBackend) -> Known {
    Known { data: index.data().dom(), trees: index.trees().dom() }
}

impl View for Archiver {
    type V = ArchiveView;

    closed spec fn view(&self) -> ArchiveView {
        ArchiveView {
            levels: level_views(self.levels@),
            new_data: self.new_data@,
            new_trees: self.new_trees@,
            out: blob_views(self.out@),
        }
    }
}

/// The node that stands for the root of a backup.
pub open spec fn root_node() -> NodeView {
    NodeView {
        name: Seq::empty(),
        node_type: NodeType::Dir,
        meta: MetadataView {
            size: 0,
            mtime: None,
            atime: None,
            ctime: None,
            mode: 0,
            uid: 0,
            gid: 0,
            user: None,
            group: None,
            inode: 0,
            device_id: 0,
            links: 0,
        },
        content: None,
        subtree: None,
        linktarget: None,
    }
}

/// A run that has not begun: the walk is in the root, and nothing was
/// handed out.
pub open spec fn start_view(parent: Option<Id>) -> ArchiveView {
    ArchiveView {
        levels: seq![LevelView { node: root_node(), children: Seq::empty(), parent }],
        new_data: Set::empty(),
        new_trees: Set::empty(),
        out: Seq::empty(),
    }
}

impl Archiver {
    /// An archiver at the root of a backup; `parent` is the root tree of
    /// the parent snapshot, if there is one.
    pub fn new(parent: Option<Id>) -> (r: Archiver)
        ensures
            r@ == start_view(parent),
    {
        let meta = crate::tree::Metadata::new(0, None, None, None, 0, 0, 0, None, None, 0, 0, 0);
        let root = Level { node: Node::new_dir(Vec::new(), meta), children: Tree::new(), parent };
        let mut levels: Vec<Level> = Vec::new();
        levels.push(root);
        let r = Archiver { levels, new_data: IdSet::new(), new_trees: IdSet::new(), out: Vec::new() };
        assert(r@.levels =~= start_view(parent).levels);
        assert(r@.out =~= start_view(parent).out);
        r
    }

    /// Takes the blobs handed out so far, to be stored.
    pub fn take_blobs(&mut self) -> (blobs: Vec<NewBlob>)
        ensures
            blob_views(blobs@) == old(self)@.out,
            final(self)@ == (ArchiveView { out: Seq::empty(), ..old(self)@ }),
    {
        let mut blobs: Vec<NewBlob> = Vec::new();
        std::mem::swap(&mut blobs, &mut self.out);
        assert(blob_views(self.out@) =~= Seq::<NewBlobView>::empty());
        blobs
    }

    /// Hands out the blob `data` of kind `tpe` unless the repository or
    /// the run has it; the identifier of the blob.
    fn emit(&mut self, index: &IndexBackend, tpe: BlobType, data: Vec<u8>) -> (id: Id)
        ensures
            id == content_id(data@),
            final(self)@ == emit(old(self)@, known_of(index), tpe, data@),
            final(self).levels == old(self).levels,
    {
        let id = hash(data.as_slice());
        let ghost before = blob_views(self.out@);
        match tpe {
            BlobType::Data => {
                if !index.has_data(&id) && !self.new_data.contains(&id) {
                    self.new_data.insert(id);
                    self.out.push(NewBlob { tpe, id, data });
                    assert(blob_views(self.out@) =~= before.push(
                        NewBlobView { tpe, id, data: data@ },
                    ));
                }
            },
            BlobType::Tree => {
                if !index.has_tree(&id) && !self.new_trees.contains(&id) {
                    self.new_trees.insert(id);
                    self.out.push(NewBlob { tpe, id, data });
                    assert(blob_views(self.out@) =~= before.push(
                        NewBlobView { tpe, id, data: data@ },
                    ));
                }
            },
        }
        id
    }

    /// Adds `node` to the directory that the walk is in.
    fn push_child(&mut self, node: Node)
        ensures
            final(self)@ == with_child(old(self)@, node@),
    {
        match self.levels.pop() {
            Some(top) => {
                let ghost below = level_views(self.levels@);
                let Level { node: dir, children, parent } = top;
                let mut children = children;
                children.add(node);
                self.levels.push(Level { node: dir, children, parent });
                assert(level_views(self.levels@) =~= old(self)@.levels.drop_last().push(
                    LevelView {
                        children: old(self)@.levels.last().children.push(node@),
                        ..old(self)@.levels.last()
                    },
                ));
            },
            None => {
                assert(level_views(self.levels@) =~= old(self)@.levels);
            },
        }
    }

    /// How many directories the walk is in, the root included.
    pub fn depth(&self) -> (n: usize)
        ensures
            n == self@.levels.len(),
    {
        self.levels.len()
    }

    /// Closes the directory that the walk is in, unless it is the root.
    fn close(&mut self, index: &IndexBackend)
        ensures
            final(self)@ == after_close(old(self)@, known_of(index)),
    {
        if self.levels.len() < 2 {
            return ;
        }
        let top = self.levels.pop().unwrap();
        let ghost below = level_views(self.levels@);
        assert(below =~= old(self)@.levels.drop_last());
        let Level { node, children, parent: _ } = top;
        let (bytes, id) = children.serialize();
        let emitted = self.emit(index, BlobType::Tree, bytes);
        let mut node = node;
        node.subtree = Some(id);
        self.push_child(node);
    }

    /// Closes the directories below `depth`, the deepest first.
    pub fn close_to(&mut self, index: &IndexBackend, depth: usize)
        ensures
            final(self)@ == after_close_to(old(self)@, known_of(index), depth as nat),
    {
        while self.levels.len() >= 2 && self.levels.len() - 1 > depth
            invariant
                after_close_to(self@, known_of(index), depth as nat) == after_close_to(
                    old(self)@,
                    known_of(index),
                    depth as nat,
                ),
            decreases self.levels@.len(),
        {
            let ghost before = self@;
            self.close(index);
            assert(self@.levels.len() == before.levels.len() - 1);
        }
    }

    /// Whether an entry of the name `name` may follow in the directory
    /// that the walk is in.
    pub fn accepts_name(&self, name: &[u8]) -> (r: bool)
        ensures
            r == accepts(self@, name@),
    {
        let n = self.levels.len();
        if n == 0 {
            return false;
        }
        assert(level_views(self.levels@)[n - 1] == self.levels@[n - 1]@);
        let children = &self.levels[n - 1].children.nodes;
        let k = children.len();
        if k == 0 {
            assert(self.levels@[n - 1]@.children.len() == 0);
            return true;
        }
        assert(self.levels@[n - 1]@.children.last() == children@[k - 1]@);
        is_name_before(children[k - 1].name.as_slice(), name)
    }

    /// Adds a file that was read: its chunks are handed out as far as they
    /// are new, and its node gets them as content and their total as size.
    /// A file whose name does not come behind the one before it is
    /// refused, and nothing changes.
    pub fn add_file(
        &mut self,
        index: &IndexBackend,
        chunker: &Chunker,
        node: Node,
        data: &[u8],
    ) -> (r: Result<(), ArchiveError>)
        ensures
            final(self)@ == after_file(old(self)@, known_of(index), node@, data@, chunker.rule()),
            r.is_ok() == accepts(old(self)@, node@.name),
            r.is_err() ==> r == Err::<(), ArchiveError>(ArchiveError::OutOfOrder),
    {
        if !self.accepts_name(node.name.as_slice()) {
            return Err(ArchiveError::OutOfOrder);
        }
        let ghost rule = chunker.rule();
        let ghost known = known_of(index);
        let ends = chunker.chunk_ends(data);
        proof {
            let chosen = choose|e: Seq<usize>| is_chunking(data@, e, rule);
            lemma_chunking_unique(data@, ends@, chosen, rule);
        }
        let ghost parts = pieces(data@, ends@);
        let mut content: Vec<Id> = Vec::new();
        let mut i: usize = 0;
        assert(parts.subrange(0, 0) =~= Seq::<Seq<u8>>::empty());
        while i < ends.len()
            invariant
                0 <= i <= ends@.len(),
                known == known_of(index),
                is_chunking(data@, ends@, rule),
                parts == pieces(data@, ends@),
                self@ == emit_all(old(self)@, known, parts.subrange(0, i as int)),
                content@ == ids_of(parts).subrange(0, i as int),
            decreases ends@.len() - i,
        {
            let start = if i == 0 {
                0
            } else {
                ends[i - 1]
            };
            proof {
                assert(cut_at(data@, ends@, i as int, rule));
                let next = parts.subrange(0, i + 1);
                assert(next.drop_last() =~= parts.subrange(0, i as int));
                assert(next.last() == data@.subrange(start as int, ends@[i as int] as int));
            }
            let chunk = slice_to_vec(slice_subrange(data, start, ends[i]));
            let id = self.emit(index, BlobType::Data, chunk);
            content.push(id);
            assert(content@ =~= ids_of(parts).subrange(0, i + 1));
            i += 1;
        }
        proof {
            assert(parts.subrange(0, i as int) =~= parts);
            assert(ids_of(parts).subrange(0, i as int) =~= ids_of(parts));
        }
        proof {
            lemma_emit_all_grows(old(self)@, known, parts);
        }
        let mut node = node;
        node.content = Some(content);
        node.meta.size = data.len() as u64;
        self.push_child(node);
        Ok(())
    }

    /// Adds a file that takes its content over from the parent snapshot.
    /// A file whose name does not come behind the one before it is
    /// refused, and nothing changes.
    pub fn add_reused(&mut self, node: Node, content: Vec<Id>) -> (r: Result<(), ArchiveError>)
        ensures
            final(self)@ == after_other(
                old(self)@,
                NodeView { content: Some(content@), ..node@ },
            ),
            r.is_ok() == accepts(old(self)@, node@.name),
            r.is_err() ==> r == Err::<(), ArchiveError>(ArchiveError::OutOfOrder),
    {
        if !self.accepts_name(node.name.as_slice()) {
            return Err(ArchiveError::OutOfOrder);
        }
        let mut node = node;
        node.content = Some(content);
        self.push_child(node);
        Ok(())
    }

    /// Adds an entry that is neither file nor directory. An entry whose
    /// name does not come behind the one before it is refused, and
    /// nothing changes.
    pub fn add_other(&mut self, node: Node) -> (r: Result<(), ArchiveError>)
        ensures
            final(self)@ == after_other(old(self)@, node@),
            r.is_ok() == accepts(old(self)@, node@.name),
            r.is_err() ==> r == Err::<(), ArchiveError>(ArchiveError::OutOfOrder),
    {
        if !self.accepts_name(node.name.as_slice()) {
            return Err(ArchiveError::OutOfOrder);
        }
        self.push_child(node);
        Ok(())
    }

    /// Goes into the directory `node`: its entries follow, and it is
    /// closed when an entry of a directory above it comes. A directory
    /// whose name does not come behind the entry before it is refused, and
    /// nothing changes.
    pub fn add_dir(&mut self, parent_trees: &IdMap<Tree>, node: Node) -> (r: Result<
        (),
        ArchiveError,
    >)
        ensures
            final(self)@ == after_dir(old(self)@, tree_views(parent_trees@), node@),
            r.is_ok() == accepts(old(self)@, node@.name),
            r.is_err() ==> r == Err::<(), ArchiveError>(ArchiveError::OutOfOrder),
    {
        if !self.accepts_name(node.name.as_slice()) {
            return Err(ArchiveError::OutOfOrder);
        }
        let n = self.levels.len();
        assert(level_views(self.levels@)[n - 1] == self.levels@[n - 1]@);
        let parent = match self.levels[n - 1].parent {
            Some(id) => match parent_trees.get(&id) {
                Some(tree) => match tree.find(node.name.as_slice()) {
                    Some(p) => if same_type(p.node_type, NodeType::Dir) {
                        p.subtree
                    } else {
                        None
                    },
                    None => None,
                },
                None => None,
            },
            None => None,
        };
        let ghost before = level_views(self.levels@);
        self.levels.push(Level { node, children: Tree::new(), parent });
        assert(level_views(self.levels@) =~= before.push(
            LevelView { node: node@, children: Seq::empty(), parent },
        ));
        Ok(())
    }

    /// Makes ready for an entry at `depth` below the root: the directories
    /// that the walk has left are closed. An entry directly in the root
    /// has depth 0. `BadWalk` comes, and nothing changes, where the entry
    /// lies deeper than the walk has gone.
    pub fn begin_entry(&mut self, index: &IndexBackend, depth: usize) -> (r: Result<
        (),
        ArchiveError,
    >)
        ensures
            match r {
                Ok(()) => depth < old(self)@.levels.len() && final(self)@ == after_close_to(
                    old(self)@,
                    known_of(index),
                    depth as nat,
                ),
                Err(e) => e == ArchiveError::BadWalk && depth >= old(self)@.levels.len()
                    && final(self)@ == old(self)@,
            },
    {
        if depth >= self.levels.len() {
            return Err(ArchiveError::BadWalk);
        }
        self.close_to(index, depth);
        Ok(())
    }

    /// Ends the walk: every open directory is closed, and the root tree
    /// is handed out unless the repository has it. Returns the identifier
    /// of the root tree.
    pub fn finalize(&mut self, index: &IndexBackend) -> (root: Id)
        ensures
            root == root_tree(old(self)@, known_of(index)),
            final(self)@ == after_finish(old(self)@, known_of(index)),
    {
        self.close_to(index, 0);
        if self.levels.len() == 0 {
            let (_bytes, id) = Tree::new().serialize();
            return id;
        }
        assert(level_views(self.levels@)[0] == self.levels@[0]@);
        let (bytes, _id) = self.levels[0].children.serialize();
        self.emit(index, BlobType::Tree, bytes)
    }

    /// Ends the walk and makes the snapshot of the backup: it points to
    /// the root tree and is named by its stored form.
    pub fn finalize_snapshot(
        &mut self,
        index: &IndexBackend,
        time: Timestamp,
        parent: Option<Id>,
        paths: Vec<String>,
        hostname: String,
        username: Option<String>,
        tags: Vec<String>,
    ) -> (snap: SnapshotFile)
        ensures
            final(self)@ == after_finish(old(self)@, known_of(index)),
            snap@ == snapshot_of(
                root_tree(old(self)@, known_of(index)),
                time,
                parent,
                texts(paths@),
                hostname@,
                crate::snapshot::opt_text(username),
                texts(tags@),
            ),
    {
        let tree = self.finalize(index);
        let mut snap = SnapshotFile {
            id: Id::default(),
            time,
            parent,
            tree,
            paths,
            hostname,
            username,
            tags,
            label: None,
            original: None,
        };
        let (_bytes, id) = snap.serialize();
        snap.id = id;
        snap
    }

    /// The content that the file `node` takes over from the parent
    /// snapshot, where it has not changed; such a file is not read.
    pub fn reusable(&self, parent_trees: &IdMap<Tree>, node: &Node) -> (r: Option<Vec<Id>>)
        ensures
            self@.levels.len() > 0 ==> opt_ids(r) == reused(
                parent_node(
                    tree_views(parent_trees@),
                    self@.levels.last().parent,
                    node@.name,
                ),
                node@,
            ),
            self@.levels.len() == 0 ==> r.is_none(),
    {
        let n = self.levels.len();
        if n == 0 {
            return None;
        }
        assert(level_views(self.levels@)[n - 1] == self.levels@[n - 1]@);
        let before = match self.levels[n - 1].parent {
            Some(id) => match parent_trees.get(&id) {
                Some(tree) => tree.find(node.name.as_slice()),
                None => None,
            },
            None => None,
        };
        match before {
            Some(p) => {
                if same_type(p.node_type, NodeType::File) && same_type(
                    node.node_type,
                    NodeType::File,
                ) && p.meta.size == node.meta.size && same_time(&p.meta.mtime, &node.meta.mtime) {
                    match &p.content {
                        Some(ids) => Some(slice_to_vec(ids.as_slice())),
                        None => None,
                    }
                } else {
                    None
                }
            },
            None => None,
        }
    }
}

/// Whether two node types are the same.
pub fn same_type(a: NodeType, b: NodeType) -> (r: bool)
    ensures
        r == (a == b),
{
    a == b
}

/// Whether two optional times are the same.
pub fn same_time(a: &Option<Timestamp>, b: &Option<Timestamp>) -> (r: bool)
    ensures
        r == (*a == *b),
{
    match (a, b) {
        (None, None) => true,
        (Some(x), Some(y)) => x.secs == y.secs && x.nanos == y.nanos,
        _ => false,
    }
}

/// One entry of a walk that reads every file.
pub ghost enum Step {
    /// A file at `depth` below the root, with its bytes.
    File { depth: nat, node: NodeView, data: Seq<u8> },
    /// A directory at `depth` below the root.
    Dir { depth: nat, node: NodeView },
    /// Any other entry at `depth` below the root.
    Other { depth: nat, node: NodeView },
}

/// How deep below the root an entry lies.
pub open spec fn depth_of(step: Step) -> nat {
    match step {
        Step::File { depth, .. } => depth,
        Step::Dir { depth, .. } => depth,
        Step::Other { depth, .. } => depth,
    }
}

/// The run after one entry of a walk without parent snapshot; an entry
/// that lies deeper than the walk has gone is passed over.
pub open spec fn after_step(s: ArchiveView, known: Known, rule: ChunkRule, step: Step) -> ArchiveView {
    if depth_of(step) >= s.levels.len() {
        s
    } else {
        let t = after_close_to(s, known, depth_of(step));
        match step {
            Step::File { node, data, .. } => after_file(t, known, node, data, rule),
            Step::Dir { node, .. } => after_dir(t, Map::empty(), node),
            Step::Other { node, .. } => after_other(t, node),
        }
    }
}

/// The run after the entries `steps`, in order.
pub open spec fn after_steps(s: ArchiveView, known: Known, rule: ChunkRule, steps: Seq<Step>) -> ArchiveView
    decreases steps.len(),
{
    if steps.len() == 0 {
        s
    } else {
        after_steps(after_step(s, known, rule, steps.first()), known, rule, steps.drop_first())
    }
}

/// A whole backup without parent snapshot: the walk from the root through
/// `steps`, and its end.
pub open spec fn backup(known: Known, rule: ChunkRule, steps: Seq<Step>) -> ArchiveView {
    after_finish(after_steps(start_view(None), known, rule, steps), known)
}

/// The root tree of a whole backup.
pub open spec fn backup_root(known: Known, rule: ChunkRule, steps: Seq<Step>) -> Id {
    root_tree(after_steps(start_view(None), known, rule, steps), known)
}

/// The repository after the blobs that a run handed out are stored.
pub open spec fn with_new(known: Known, s: ArchiveView) -> Known {
    Known { data: known.data + s.new_data, trees: known.trees + s.new_trees }
}

/// Whether what `s` has handed out is within `f`.
pub open spec fn within(s: ArchiveView, f: ArchiveView) -> bool {
    s.new_data.subset_of(f.new_data) && s.new_trees.subset_of(f.new_trees)
}

/// Whether `t` is in the same directories as `s`, with the same entries.
/// What the parent snapshot has for a directory is left aside.
pub open spec fn mirrors(s: ArchiveView, t: ArchiveView) -> bool {
    &&& t.levels.len() == s.levels.len()
    &&& forall|k: int|
        0 <= k < s.levels.len() ==> (#[trigger] t.levels[k]).node == s.levels[k].node
            && t.levels[k].children == s.levels[k].children
}

/// Whether `t` has handed out what `s` has, and no more.
pub open spec fn quiet(s: ArchiveView, t: ArchiveView) -> bool {
    t.out == s.out && t.new_data == s.new_data && t.new_trees == s.new_trees
}

proof fn lemma_emit_all_grows(s: ArchiveView, known: Known, parts: Seq<Seq<u8>>)
    ensures
        within(s, emit_all(s, known, parts)),
        emit_all(s, known, parts).levels == s.levels,
    decreases parts.len(),
{
    if parts.len() > 0 {
        lemma_emit_all_grows(s, known, parts.drop_last());
    }
}

proof fn lemma_close_grows(s: ArchiveView, known: Known)
    ensures
        within(s, after_close(s, known)),
        s.levels.len() >= 2 ==> after_close(s, known).levels.len() == s.levels.len() - 1,
{
}

pub(crate) proof fn lemma_close_to_grows(s: ArchiveView, known: Known, depth: nat)
    ensures
        within(s, after_close_to(s, known, depth)),
        after_close_to(s, known, depth).levels.len() <= s.levels.len(),
        after_close_to(s, known, depth).levels.len() > 0 <==> s.levels.len() > 0,
        depth < s.levels.len() ==> after_close_to(s, known, depth).levels.len() == depth + 1,
    decreases s.levels.len(),
{
    if !(s.levels.len() <= depth + 1 || s.levels.len() < 2) {
        lemma_close_grows(s, known);
        lemma_close_to_grows(after_close(s, known), known, depth);
    }
}

pub(crate) proof fn lemma_step_grows(s: ArchiveView, known: Known, rule: ChunkRule, step: Step)
    ensures
        within(s, after_step(s, known, rule, step)),
{
    if depth_of(step) < s.levels.len() {
        let t = after_close_to(s, known, depth_of(step));
        lemma_close_to_grows(s, known, depth_of(step));
        match step {
            Step::File { node, data, .. } => {
                if accepts(t, node.name) {
                    lemma_emit_all_grows(t, known, chunks_of(data, rule));
                }
            },
            _ => {},
        }
    }
}

pub(crate) proof fn lemma_steps_grow(s: ArchiveView, known: Known, rule: ChunkRule, steps: Seq<Step>)
    ensures
        within(s, after_steps(s, known, rule, steps)),
    decreases steps.len(),
{
    if steps.len() > 0 {
        lemma_step_grows(s, known, rule, steps.first());
        lemma_steps_grow(after_step(s, known, rule, steps.first()), known, rule, steps.drop_first());
    }
}

pub(crate) proof fn lemma_finish_grows(s: ArchiveView, known: Known)
    ensures
        within(s, after_finish(s, known)),
{
    lemma_close_to_grows(s, known, 0);
}

pub(crate) proof fn lemma_emit_again(
    one: ArchiveView,
    two: ArchiveView,
    known: Known,
    f: ArchiveView,
    tpe: BlobType,
    data: Seq<u8>,
)
    requires
        mirrors(one, two),
        within(emit(one, known, tpe, data), f),
    ensures
        emit(two, with_new(known, f), tpe, data) == two,
        mirrors(emit(one, known, tpe, data), two),
{
}

proof fn lemma_emit_all_again(
    one: ArchiveView,
    two: ArchiveView,
    known: Known,
    f: ArchiveView,
    parts: Seq<Seq<u8>>,
)
    requires
        mirrors(one, two),
        within(emit_all(one, known, parts), f),
    ensures
        emit_all(two, with_new(known, f), parts) == two,
        mirrors(emit_all(one, known, parts), two),
    decreases parts.len(),
{
    if parts.len() > 0 {
        let before = emit_all(one, known, parts.drop_last());
        assert(within(before, emit(before, known, BlobType::Data, parts.last())));
        lemma_emit_all_again(one, two, known, f, parts.drop_last());
        lemma_emit_again(before, two, known, f, BlobType::Data, parts.last());
    }
}

proof fn lemma_close_again(one: ArchiveView, two: ArchiveView, known: Known, f: ArchiveView)
    requires
        mirrors(one, two),
        within(after_close(one, known), f),
    ensures
        mirrors(after_close(one, known), after_close(two, with_new(known, f))),
        quiet(two, after_close(two, with_new(known, f))),
{
    if one.levels.len() >= 2 {
        let top = one.levels.last();
        lemma_emit_again(one, two, known, f, BlobType::Tree, serialize_tree(top.children));
    }
}

pub(crate) proof fn lemma_close_to_again(
    one: ArchiveView,
    two: ArchiveView,
    known: Known,
    f: ArchiveView,
    depth: nat,
)
    requires
        mirrors(one, two),
        within(after_close_to(one, known, depth), f),
    ensures
        mirrors(after_close_to(one, known, depth), after_close_to(two, with_new(known, f), depth)),
        quiet(two, after_close_to(two, with_new(known, f), depth)),
    decreases one.levels.len(),
{
    if !(one.levels.len() <= depth + 1 || one.levels.len() < 2) {
        lemma_close_grows(one, known);
        lemma_close_to_grows(after_close(one, known), known, depth);
        lemma_close_again(one, two, known, f);
        lemma_close_to_again(
            after_close(one, known),
            after_close(two, with_new(known, f)),
            known,
            f,
            depth,
        );
    }
}

pub(crate) proof fn lemma_file_again(
    one: ArchiveView,
    two: ArchiveView,
    known: Known,
    f: ArchiveView,
    rule: ChunkRule,
    node: NodeView,
    data: Seq<u8>,
)
    requires
        mirrors(one, two),
        within(after_file(one, known, node, data, rule), f),
    ensures
        mirrors(
            after_file(one, known, node, data, rule),
            after_file(two, with_new(known, f), node, data, rule),
        ),
        quiet(two, after_file(two, with_new(known, f), node, data, rule)),
{
    if accepts(one, node.name) {
        lemma_emit_all_grows(one, known, chunks_of(data, rule));
        lemma_emit_all_again(one, two, known, f, chunks_of(data, rule));
    }
}

proof fn lemma_step_again(
    one: ArchiveView,
    two: ArchiveView,
    known: Known,
    f: ArchiveView,
    rule: ChunkRule,
    step: Step,
)
    requires
        mirrors(one, two),
        within(after_step(one, known, rule, step), f),
    ensures
        mirrors(after_step(one, known, rule, step), after_step(two, with_new(known, f), rule, step)),
        quiet(two, after_step(two, with_new(known, f), rule, step)),
{
    if depth_of(step) < one.levels.len() {
        let d = depth_of(step);
        let next_one = after_close_to(one, known, d);
        let next_two = after_close_to(two, with_new(known, f), d);
        match step {
            Step::File { node, data, .. } => {
                if accepts(next_one, node.name) {
                    lemma_emit_all_grows(next_one, known, chunks_of(data, rule));
                }
                assert(within(next_one, after_file(next_one, known, node, data, rule)));
                lemma_close_to_again(one, two, known, f, d);
                lemma_file_again(next_one, next_two, known, f, rule, node, data);
            },
            Step::Dir { node, .. } => {
                lemma_close_to_again(one, two, known, f, d);
            },
            Step::Other { node, .. } => {
                lemma_close_to_again(one, two, known, f, d);
            },
        }
    }
}

proof fn lemma_steps_again(
    one: ArchiveView,
    two: ArchiveView,
    known: Known,
    f: ArchiveView,
    rule: ChunkRule,
    steps: Seq<Step>,
)
    requires
        mirrors(one, two),
        within(after_steps(one, known, rule, steps), f),
    ensures
        mirrors(
            after_steps(one, known, rule, steps),
            after_steps(two, with_new(known, f), rule, steps),
        ),
        quiet(two, after_steps(two, with_new(known, f), rule, steps)),
    decreases steps.len(),
{
    if steps.len() > 0 {
        let next_one = after_step(one, known, rule, steps.first());
        lemma_steps_grow(next_one, known, rule, steps.drop_first());
        lemma_step_again(one, two, known, f, rule, steps.first());
        lemma_steps_again(
            next_one,
            after_step(two, with_new(known, f), rule, steps.first()),
            known,
            f,
            rule,
            steps.drop_first(),
        );
    }
}

/// Archiving the same directory again, once the blobs of the first run are
/// stored, comes to the same root tree and hands out no blob.
pub proof fn lemma_second_backup(known: Known, rule: ChunkRule, steps: Seq<Step>)
    ensures
        ({
            let first = backup(known, rule, steps);
            let again = backup(with_new(known, first), rule, steps);
            &&& backup_root(with_new(known, first), rule, steps) == backup_root(known, rule, steps)
            &&& again.out == Seq::<NewBlobView>::empty()
            &&& again.new_data == Set::<Id>::empty()
            &&& again.new_trees == Set::<Id>::empty()
        }),
{
    let start = start_view(None);
    let walked = after_steps(start, known, rule, steps);
    let first = after_finish(walked, known);
    let known2 = with_new(known, first);
    let walked2 = after_steps(start, known2, rule, steps);
    lemma_finish_grows(walked, known);
    lemma_steps_again(start, start, known, first, rule, steps);
    let closed = after_close_to(walked, known, 0);
    let closed2 = after_close_to(walked2, known2, 0);
    lemma_close_to_grows(walked, known, 0);
    lemma_close_to_again(walked, walked2, known, first, 0);
    if closed.levels.len() > 0 {
        lemma_emit_again(
            closed,
            closed2,
            known,
            first,
            BlobType::Tree,
            serialize_tree(closed.levels[0].children),
        );
    }
}

/// Whether the entries of the directory `k` of the walk are sorted by
/// name, and the directory that the walk has gone into from there comes
/// behind them.
pub open spec fn level_ok(levels: Seq<LevelView>, k: int) -> bool {
    &&& sorted_by_name(levels[k].children)
    &&& k + 1 < levels.len() ==> follows(levels[k].children, levels[k + 1].node.name)
}

/// Whether a blob that is a tree is the stored form of nodes that are
/// sorted by name.
pub open spec fn sorted_blob(b: NewBlobView) -> bool {
    b.tpe == BlobType::Tree ==> exists|nodes: Seq<NodeView>|
        sorted_by_name(nodes) && b.data == #[trigger] serialize_tree(nodes)
}

/// Whether a run is in order: the entries of every directory that the walk
/// is in are sorted by name, and so are the nodes of every tree that was
/// handed out.
pub open spec fn ordered(s: ArchiveView) -> bool {
    &&& forall|k: int| 0 <= k < s.levels.len() ==> #[trigger] level_ok(s.levels, k)
    &&& forall|i: int| 0 <= i < s.out.len() ==> sorted_blob(#[trigger] s.out[i])
}

/// Sorted nodes stay sorted with a node behind them whose name comes
/// behind theirs.
pub proof fn lemma_sorted_push(children: Seq<NodeView>, node: NodeView)
    requires
        sorted_by_name(children),
        follows(children, node.name),
    ensures
        sorted_by_name(children.push(node)),
{
    let all = children.push(node);
    assert forall|i: int| 0 <= i < all.len() - 1 implies #[trigger] in_order(all, i) by {
        if i < children.len() - 1 {
            assert(in_order(children, i));
        }
    }
}

proof fn lemma_child_ordered(s: ArchiveView, node: NodeView)
    requires
        ordered(s),
        accepts(s, node.name),
    ensures
        ordered(with_child(s, node)),
{
    let t = with_child(s, node);
    let top = s.levels.len() - 1;
    assert(level_ok(s.levels, top));
    lemma_sorted_push(s.levels[top].children, node);
    assert forall|k: int| 0 <= k < t.levels.len() implies #[trigger] level_ok(t.levels, k) by {
        assert(level_ok(s.levels, k));
    }
}

proof fn lemma_emit_ordered(s: ArchiveView, known: Known, tpe: BlobType, data: Seq<u8>)
    requires
        ordered(s),
        sorted_blob(NewBlobView { tpe, id: content_id(data), data }),
    ensures
        ordered(emit(s, known, tpe, data)),
{
    let t = emit(s, known, tpe, data);
    assert forall|i: int| 0 <= i < t.out.len() implies sorted_blob(#[trigger] t.out[i]) by {
        if i < s.out.len() {
            assert(t.out[i] == s.out[i]);
        }
    }
    assert forall|k: int| 0 <= k < t.levels.len() implies #[trigger] level_ok(t.levels, k) by {
        assert(level_ok(s.levels, k));
    }
}

proof fn lemma_emit_all_ordered(s: ArchiveView, known: Known, parts: Seq<Seq<u8>>)
    requires
        ordered(s),
    ensures
        ordered(emit_all(s, known, parts)),
    decreases parts.len(),
{
    if parts.len() > 0 {
        lemma_emit_all_ordered(s, known, parts.drop_last());
        lemma_emit_ordered(
            emit_all(s, known, parts.drop_last()),
            known,
            BlobType::Data,
            parts.last(),
        );
    }
}

/// A file that is archived leaves the run in order.
pub proof fn lemma_file_ordered(
    s: ArchiveView,
    known: Known,
    node: NodeView,
    data: Seq<u8>,
    rule: ChunkRule,
)
    requires
        ordered(s),
    ensures
        ordered(after_file(s, known, node, data, rule)),
{
    if accepts(s, node.name) {
        let parts = chunks_of(data, rule);
        lemma_emit_all_ordered(s, known, parts);
        lemma_emit_all_grows(s, known, parts);
        lemma_child_ordered(emit_all(s, known, parts), file_node(node, data, rule));
    }
}

/// An entry that is not read leaves the run in order.
pub proof fn lemma_other_ordered(s: ArchiveView, node: NodeView)
    requires
        ordered(s),
    ensures
        ordered(after_other(s, node)),
{
    if accepts(s, node.name) {
        lemma_child_ordered(s, node);
    }
}

/// Going into a directory leaves the run in order.
pub proof fn lemma_dir_ordered(s: ArchiveView, trees: Map<Id, Seq<NodeView>>, node: NodeView)
    requires
        ordered(s),
    ensures
        ordered(after_dir(s, trees, node)),
{
    let t = after_dir(s, trees, node);
    if accepts(s, node.name) {
        assert forall|k: int| 0 <= k < t.levels.len() implies #[trigger] level_ok(t.levels, k) by {
            if k < s.levels.len() {
                assert(level_ok(s.levels, k));
                assert(t.levels[k] == s.levels[k]);
            } else {
                assert(t.levels[k].children.len() == 0);
            }
        }
    }
}

/// A run without the directory that the walk is in is in order, and the
/// node of that directory may follow in the directory above.
proof fn lemma_drop_ordered(t: ArchiveView)
    requires
        ordered(t),
        t.levels.len() >= 2,
    ensures
        ordered(ArchiveView { levels: t.levels.drop_last(), ..t }),
        accepts(ArchiveView { levels: t.levels.drop_last(), ..t }, t.levels.last().node.name),
{
    let u = ArchiveView { levels: t.levels.drop_last(), ..t };
    let n = t.levels.len() as int;
    assert(level_ok(t.levels, n - 2));
    assert forall|k: int| 0 <= k < u.levels.len() implies #[trigger] level_ok(u.levels, k) by {
        assert(level_ok(t.levels, k));
        assert(u.levels[k] == t.levels[k]);
        if k + 1 < u.levels.len() {
            assert(u.levels[k + 1] == t.levels[k + 1]);
        }
    }
    assert(u.levels.last() == t.levels[n - 2]);
}

/// The tree of the directory that the walk is in is sorted.
proof fn lemma_top_sorted(s: ArchiveView)
    requires
        ordered(s),
        s.levels.len() >= 1,
    ensures
        sorted_blob(
            NewBlobView {
                tpe: BlobType::Tree,
                id: content_id(serialize_tree(s.levels.last().children)),
                data: serialize_tree(s.levels.last().children),
            },
        ),
{
    let top = s.levels.last();
    assert(level_ok(s.levels, s.levels.len() - 1));
    assert(sorted_by_name(top.children));
}

/// Closing a directory leaves the run in order: its tree is sorted, and
/// its node comes behind the entries of the directory above.
pub proof fn lemma_close_ordered(s: ArchiveView, known: Known)
    requires
        ordered(s),
    ensures
        ordered(after_close(s, known)),
{
    if s.levels.len() >= 2 {
        let top = s.levels.last();
        let bytes = serialize_tree(top.children);
        lemma_top_sorted(s);
        lemma_emit_ordered(s, known, BlobType::Tree, bytes);
        let t = emit(s, known, BlobType::Tree, bytes);
        assert(t.levels == s.levels);
        lemma_drop_ordered(t);
        let u = ArchiveView { levels: s.levels.drop_last(), ..t };
        let node = NodeView { subtree: Some(tree_id(top.children)), ..top.node };
        lemma_child_ordered(u, node);
        assert(after_close(s, known) == with_child(u, node));
    }
}

/// Closing directories leaves the run in order.
pub proof fn lemma_close_to_ordered(s: ArchiveView, known: Known, depth: nat)
    requires
        ordered(s),
    ensures
        ordered(after_close_to(s, known, depth)),
    decreases s.levels.len(),
{
    if !(s.levels.len() <= depth + 1 || s.levels.len() < 2) {
        lemma_close_ordered(s, known);
        lemma_close_grows(s, known);
        lemma_close_to_ordered(after_close(s, known), known, depth);
    }
}

/// A whole backup is in order: every tree that it hands out has its
/// nodes sorted by name, whatever the order in which the entries come.
pub proof fn lemma_backup_ordered(known: Known, rule: ChunkRule, steps: Seq<Step>)
    ensures
        ordered(backup(known, rule, steps)),
{
    let start = start_view(None);
    assert(ordered(start)) by {
        assert forall|k: int| 0 <= k < start.levels.len() implies #[trigger] level_ok(
            start.levels,
            k,
        ) by {
            assert(start.levels[k].children.len() == 0);
        }
    }
    lemma_steps_ordered(start, known, rule, steps);
    let walked = after_steps(start, known, rule, steps);
    lemma_close_to_ordered(walked, known, 0);
    let closed = after_close_to(walked, known, 0);
    lemma_close_to_grows(walked, known, 0);
    if closed.levels.len() > 0 {
        assert(closed.levels.len() == 1);
        assert(closed.levels.last() == closed.levels[0]);
        lemma_top_sorted(closed);
        lemma_emit_ordered(closed, known, BlobType::Tree, serialize_tree(closed.levels[0].children));
    }
}

proof fn lemma_steps_ordered(s: ArchiveView, known: Known, rule: ChunkRule, steps: Seq<Step>)
    requires
        ordered(s),
    ensures
        ordered(after_steps(s, known, rule, steps)),
    decreases steps.len(),
{
    if steps.len() > 0 {
        let step = steps.first();
        if depth_of(step) < s.levels.len() {
            let t = after_close_to(s, known, depth_of(step));
            lemma_close_to_ordered(s, known, depth_of(step));
            match step {
                Step::File { node, data, .. } => lemma_file_ordered(t, known, node, data, rule),
                Step::Dir { node, .. } => lemma_dir_ordered(t, Map::empty(), node),
                Step::Other { node, .. } => lemma_other_ordered(t, node),
            }
        }
        lemma_steps_ordered(after_step(s, known, rule, step), known, rule, steps.drop_first());
    }
}

} // verus!
