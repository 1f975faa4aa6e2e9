//! Snapshots: the records that name the root tree of a backup.

use vstd::prelude::*;
use vstd::string::StringSliceAdditionalSpecFns;
use vstd::utf8::encode_utf8;
use crate::hasher::{content_id, hash};
use crate::id::Id;
use crate::tree::Timestamp;
use crate::time::{push_time_json, time_json};
use crate::wire::{lit, push_lit, push_quoted, push_quoted_id, quoted, quoted_id};

verus! {

/// One backup: when and where it was taken, and the tree it holds.
#[derive(Debug, PartialEq, Eq)]
pub struct SnapshotFile {
    /// The identifier of the stored record; it is no part of the record.
    pub id: Id,
    pub time: Timestamp,
    pub parent: Option<Id>,
    pub tree: Id,
    pub paths: Vec<String>,
    pub hostname: String,
    pub username: Option<String>,
    pub tags: Vec<String>,
    pub label: Option<String>,
    pub original: Option<Id>,
}

/// The mathematical value of a [`SnapshotFile`].
pub ghost struct SnapshotView {
    pub id: Id,
    pub time: Timestamp,
    pub parent: Option<Id>,
    pub tree: Id,
    pub paths: Seq<Seq<char>>,
    pub hostname: Seq<char>,
    pub username: Option<Seq<char>>,
    pub tags: Seq<Seq<char>>,
    pub label: Option<Seq<char>>,
    pub original: Option<Id>,
}

/// The views of a list of strings.
pub open spec fn texts(v: Seq<String>) -> Seq<Seq<char>> {
    Seq::new(v.len(), |i: int| v[i]@)
}

/// The view of an optional string.
pub open spec fn opt_text(v: Option<String>) -> Option<Seq<char>> {
    match v {
        Some(s) => Some(s@),
        None => None,
    }
}

impl View for SnapshotFile {
    type V = SnapshotView;

    open spec fn view(&self) -> SnapshotView {
        SnapshotView {
            id: self.id,
            time: self.time,
            parent: self.parent,
            tree: self.tree,
            paths: texts(self.paths@),
            hostname: self.hostname@,
            username: opt_text(self.username),
            tags: texts(self.tags@),
            label: opt_text(self.label),
            original: self.original,
        }
    }
}

/// The views of a list of snapshots.
pub open spec fn snapshot_views(v: Seq<SnapshotFile>) -> Seq<SnapshotView> {
    Seq::new(v.len(), |i: int| v[i]@)
}

/// A copy of a list of strings.
pub fn copy_texts(v: &Vec<String>) -> (r: Vec<String>)
    ensures
        texts(r@) == texts(v@),
{
    let mut r: Vec<String> = Vec::new();
    let mut i: usize = 0;
    while i < v.len()
        invariant
            0 <= i <= v@.len(),
            r@.len() == i,
            forall|j: int| 0 <= j < i ==> (#[trigger] r@[j])@ == v@[j]@,
        decreases v@.len() - i,
    {
        r.push(v[i].clone());
        i += 1;
    }
    assert(texts(r@) =~= texts(v@));
    r
}

/// A copy of an optional string.
pub fn copy_opt_text(v: &Option<String>) -> (r: Option<String>)
    ensures
        opt_text(r) == opt_text(*v),
{
    match v {
        Some(s) => Some(s.clone()),
        None => None,
    }
}

impl Clone for SnapshotFile {
    fn clone(&self) -> (r: SnapshotFile)
        ensures
            r@ == self@,
    {
        SnapshotFile {
            id: self.id,
            time: self.time,
            parent: self.parent,
            tree: self.tree,
            paths: copy_texts(&self.paths),
            hostname: self.hostname.clone(),
            username: copy_opt_text(&self.username),
            tags: copy_texts(&self.tags),
            label: copy_opt_text(&self.label),
            original: self.original,
        }
    }
}

/// `acc` followed by the quoted strings, separated by commas.
pub open spec fn texts_onto(acc: Seq<u8>, v: Seq<Seq<char>>) -> Seq<u8>
    decreases v.len(),
{
    if v.len() == 0 {
        acc
    } else if v.len() == 1 {
        acc + quoted(encode_utf8(v.last()))
    } else {
        texts_onto(acc, v.drop_last()) + lit(",") + quoted(encode_utf8(v.last()))
    }
}

/// `acc` followed by an optional string: `null`, or the quoted string.
pub open spec fn opt_text_onto(acc: Seq<u8>, s: Option<Seq<char>>) -> Seq<u8> {
    match s {
        None => acc + lit("null"),
        Some(s) => acc + quoted(encode_utf8(s)),
    }
}

/// `acc` followed by an optional identifier: `null`, or the quoted
/// identifier.
pub open spec fn opt_id_onto(acc: Seq<u8>, id: Option<Id>) -> Seq<u8> {
    match id {
        None => acc + lit("null"),
        Some(id) => acc + quoted_id(id),
    }
}

/// The stored form of a snapshot: one record with every field but the
/// identifier under its key, in a fixed order, absent values as `null`,
/// the time as RFC 3339 writes it.
pub open spec fn serialize_snapshot(s: SnapshotView) -> Seq<u8> {
    let a = lit("{\"time\":") + time_json(Some(s.time));
    let a = opt_id_onto(a + lit(",\"parent\":"), s.parent);
    let a = a + lit(",\"tree\":") + quoted_id(s.tree);
    let a = texts_onto(a + lit(",\"paths\":["), s.paths) + lit("]");
    let a = a + lit(",\"hostname\":") + quoted(encode_utf8(s.hostname));
    let a = opt_text_onto(a + lit(",\"username\":"), s.username);
    let a = texts_onto(a + lit(",\"tags\":["), s.tags) + lit("]");
    let a = opt_text_onto(a + lit(",\"label\":"), s.label);
    opt_id_onto(a + lit(",\"original\":"), s.original) + lit("}")
}

/// The identifier of a snapshot: the hash of its stored form.
pub open spec fn snapshot_id(s: SnapshotView) -> Id {
    content_id(serialize_snapshot(s))
}

fn push_texts(out: &mut Vec<u8>, v: &Vec<String>)
    ensures
        final(out)@ == texts_onto(old(out)@, texts(v@)),
{
    let mut i: usize = 0;
    assert(texts(v@).subrange(0, 0) =~= Seq::<Seq<char>>::empty());
    while i < v.len()
        invariant
            0 <= i <= v@.len(),
            out@ == texts_onto(old(out)@, texts(v@).subrange(0, i as int)),
        decreases v@.len() - i,
    {
        if i > 0 {
            push_lit(out, ",");
        }
        push_quoted(out, v[i].as_str().as_bytes());
        proof {
            let next = texts(v@).subrange(0, i + 1);
            assert(next.drop_last() =~= texts(v@).subrange(0, i as int));
            assert(next.last() == v@[i as int]@);
        }
        i += 1;
    }
    assert(texts(v@).subrange(0, i as int) =~= texts(v@));
}

fn push_opt_text(out: &mut Vec<u8>, s: &Option<String>)
    ensures
        final(out)@ == opt_text_onto(old(out)@, opt_text(*s)),
{
    match s {
        None => push_lit(out, "null"),
        Some(s) => push_quoted(out, s.as_str().as_bytes()),
    }
}

fn push_opt_id(out: &mut Vec<u8>, id: &Option<Id>)
    ensures
        final(out)@ == opt_id_onto(old(out)@, *id),
{
    match id {
        None => push_lit(out, "null"),
        Some(id) => push_quoted_id(out, id),
    }
}

impl SnapshotFile {
    /// The stored form of the snapshot and the identifier under which it
    /// is stored.
    pub fn serialize(&self) -> (r: (Vec<u8>, Id))
        ensures
            r.0@ == serialize_snapshot(self@),
            r.1 == snapshot_id(self@),
    {
        let mut out: Vec<u8> = Vec::new();
        push_lit(&mut out, "{\"time\":");
        assert(out@ =~= lit("{\"time\":"));
        push_time_json(&mut out, &Some(self.time));
        push_lit(&mut out, ",\"parent\":");
        push_opt_id(&mut out, &self.parent);
        push_lit(&mut out, ",\"tree\":");
        push_quoted_id(&mut out, &self.tree);
        push_lit(&mut out, ",\"paths\":[");
        push_texts(&mut out, &self.paths);
        push_lit(&mut out, "]");
        push_lit(&mut out, ",\"hostname\":");
        push_quoted(&mut out, self.hostname.as_str().as_bytes());
        push_lit(&mut out, ",\"username\":");
        push_opt_text(&mut out, &self.username);
        push_lit(&mut out, ",\"tags\":[");
        push_texts(&mut out, &self.tags);
        push_lit(&mut out, "]");
        push_lit(&mut out, ",\"label\":");
        push_opt_text(&mut out, &self.label);
        push_lit(&mut out, ",\"original\":");
        push_opt_id(&mut out, &self.original);
        push_lit(&mut out, "}");
        let id = hash(out.as_slice());
        (out, id)
    }

    /// Replaces the tags of the snapshot.
    pub fn set_tags(&mut self, tags: Vec<String>)
        ensures
            final(self)@ == (SnapshotView { tags: texts(tags@), ..old(self)@ }),
    {
        self.tags = tags;
    }

    /// The snapshot without what names it or its parent: the identifier
    /// zeroed and the parent dropped.
    pub open spec fn spec_clear_ids(s: SnapshotView) -> SnapshotView {
        SnapshotView { id: Id::zero(), parent: None, ..s }
    }

    /// Zeroes the identifier and drops the parent.
    pub fn clear_ids(self) -> (r: SnapshotFile)
        ensures
            r@ == SnapshotFile::spec_clear_ids(self@),
    {
        let mut r = self;
        r.id = Id::default();
        r.parent = None;
        r
    }
}

} // verus!
