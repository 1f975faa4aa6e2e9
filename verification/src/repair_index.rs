//! Repair of the index: what the index files say is held against the packs
//! that are there, and every pack that the two disagree on is read again.

use vstd::prelude::*;
use crate::blob::{header_size, BlobType, IndexBlob, IndexFile, IndexPack};
use crate::id::Id;
use crate::idmap::{ascending, lists, IdMap};
use crate::packer::{sealed, Codec, Packed, SealedPack};
use crate::packfile::{
    end_of, laid_out, lemma_parse_header, parse_entries, read_pack_header, PackError,
};

verus! {

/// A pack whose header is to be read again.
#[derive(Clone, Copy, Debug, PartialEq, Eq)]
pub struct PackToRead {
    pub id: Id,
    /// Whether the pack goes to the superseded list of the index.
    pub to_delete: bool,
    /// Bytes of the encoded header as the index had them, where it had the
    /// pack.
    pub size_hint: Option<u32>,
    /// Bytes of the pack file: the larger of what is there and what the
    /// index said.
    pub pack_size: u32,
}

/// What is to be done with an index file.
#[derive(Debug)]
pub enum IndexChange {
    /// Every pack of the file is there as described: the file stays.
    Unchanged,
    /// The file would be replaced or removed if the run were no dry one.
    WouldModify,
    /// The given file is saved and the old one removed.
    Replace(IndexFile),
    /// The old file is removed and nothing takes its place.
    Remove,
}

/// What is to be done with one pack of an index file.
pub enum PackVerdict {
    /// The pack is not there, or an earlier index entry has claimed it: the
    /// entry goes.
    Drop,
    /// The header of the pack is read again.
    Reread(PackToRead),
    /// The pack is there with the size that the index gives: the entry
    /// stays.
    Keep,
}

/// The larger of two sizes.
pub open spec fn larger(a: u32, b: u32) -> u32 {
    if a >= b {
        a
    } else {
        b
    }
}

/// What is to be done with the entry `p`, given the sizes of the packs that
/// are there and not yet claimed.
pub open spec fn verdict(packs: Map<Id, u32>, p: IndexPack, to_delete: bool, read_all: bool) -> PackVerdict {
    if !packs.contains_key(p.id) {
        PackVerdict::Drop
    } else if p.spec_pack_size() != packs[p.id] {
        PackVerdict::Reread(
            PackToRead {
                id: p.id,
                to_delete,
                size_hint: Some(header_size(p.blobs@)),
                pack_size: larger(packs[p.id], p.spec_pack_size()),
            },
        )
    } else if read_all {
        PackVerdict::Reread(
            PackToRead {
                id: p.id,
                to_delete,
                size_hint: Some(header_size(p.blobs@)),
                pack_size: p.spec_pack_size(),
            },
        )
    } else {
        PackVerdict::Keep
    }
}

/// Where the walk through the index entries stands.
pub ghost struct Reindex {
    /// The packs that are there and that no entry has claimed yet, with
    /// their sizes.
    pub packs: Map<Id, u32>,
    /// The packs whose header is to be read again.
    pub to_read: Seq<PackToRead>,
    /// The live entries of the current file that stay.
    pub live: Seq<IndexPack>,
    /// The superseded entries of the current file that stay.
    pub dead: Seq<IndexPack>,
    /// Whether an entry of the current file goes or is read again.
    pub changed: bool,
}

/// The walk after the entry `p`: the pack is claimed, and the entry stays,
/// goes, or is noted for another read.
pub open spec fn after_pack(s: Reindex, p: IndexPack, to_delete: bool, read_all: bool) -> Reindex {
    let packs = s.packs.remove(p.id);
    match verdict(s.packs, p, to_delete, read_all) {
        PackVerdict::Drop => Reindex { packs, changed: true, ..s },
        PackVerdict::Reread(r) => Reindex { packs, changed: true, to_read: s.to_read.push(r), ..s },
        PackVerdict::Keep => if to_delete {
            Reindex { packs, dead: s.dead.push(p), ..s }
        } else {
            Reindex { packs, live: s.live.push(p), ..s }
        },
    }
}

/// The walk after the entries `ps`, in order.
pub open spec fn after_packs(s: Reindex, ps: Seq<IndexPack>, to_delete: bool, read_all: bool) -> Reindex
    decreases ps.len(),
{
    if ps.len() == 0 {
        s
    } else {
        after_pack(after_packs(s, ps.drop_last(), to_delete, read_all), ps.last(), to_delete, read_all)
    }
}

/// The walk after one index file: first its live entries, then its
/// superseded ones, starting with nothing kept and nothing changed.
pub open spec fn after_file(packs: Map<Id, u32>, to_read: Seq<PackToRead>, file: IndexFile, read_all: bool) -> Reindex {
    let start = Reindex { packs, to_read, live: Seq::empty(), dead: Seq::empty(), changed: false };
    after_packs(
        after_packs(start, file.packs@, false, read_all),
        file.packs_to_delete@,
        true,
        read_all,
    )
}

/// Checks one index entry against the packs that are there.
///
/// The pack is taken out of `packs`. Where it was not in there, the entry
/// goes. Where its size is not what the entry says, or all headers are to
/// be read, the pack is noted in `pack_read_header`. Else the entry is
/// added to `new_index`. `changed` is set where the entry does not stay.
pub fn process_pack(
    packs: &mut IdMap<u32>,
    p: IndexPack,
    to_delete: bool,
    read_all: bool,
    new_index: &mut IndexFile,
    changed: &mut bool,
    pack_read_header: &mut Vec<PackToRead>,
)
    ensures
        (Reindex {
            packs: final(packs)@,
            to_read: final(pack_read_header)@,
            live: final(new_index).packs@,
            dead: final(new_index).packs_to_delete@,
            changed: *final(changed),
        }) == after_pack(
            Reindex {
                packs: old(packs)@,
                to_read: old(pack_read_header)@,
                live: old(new_index).packs@,
                dead: old(new_index).packs_to_delete@,
                changed: *old(changed),
            },
            p,
            to_delete,
            read_all,
        ),
{
    let index_size = p.pack_size();
    let id = p.id;
    match packs.remove(&id) {
        None => {
            *changed = true;
        },
        Some(size) => {
            if index_size != size {
                let hint = p.header_size();
                let pack_size = if size >= index_size {
                    size
                } else {
                    index_size
                };
                pack_read_header.push(
                    PackToRead { id, to_delete, size_hint: Some(hint), pack_size },
                );
                *changed = true;
            } else if read_all {
                let hint = p.header_size();
                pack_read_header.push(
                    PackToRead { id, to_delete, size_hint: Some(hint), pack_size: index_size },
                );
                *changed = true;
            } else {
                new_index.add(p, to_delete);
            }
        },
    }
}

/// Checks the entries `ps` of an index file, in order.
fn process_packs(
    packs: &mut IdMap<u32>,
    ps: Vec<IndexPack>,
    to_delete: bool,
    read_all: bool,
    new_index: &mut IndexFile,
    changed: &mut bool,
    pack_read_header: &mut Vec<PackToRead>,
)
    ensures
        (Reindex {
            packs: final(packs)@,
            to_read: final(pack_read_header)@,
            live: final(new_index).packs@,
            dead: final(new_index).packs_to_delete@,
            changed: *final(changed),
        }) == after_packs(
            Reindex {
                packs: old(packs)@,
                to_read: old(pack_read_header)@,
                live: old(new_index).packs@,
                dead: old(new_index).packs_to_delete@,
                changed: *old(changed),
            },
            ps@,
            to_delete,
            read_all,
        ),
{
    let ghost start = Reindex {
        packs: packs@,
        to_read: pack_read_header@,
        live: new_index.packs@,
        dead: new_index.packs_to_delete@,
        changed: *changed,
    };
    let ghost all = ps@;
    let mut rest = ps;
    let mut i: usize = 0;
    let n = rest.len();
    assert(all.subrange(0, 0) =~= Seq::<IndexPack>::empty());
    while i < n
        invariant
            0 <= i <= n,
            n == all.len(),
            rest@.len() == n,
            forall|j: int| i <= j < n ==> #[trigger] rest@[j] == all[j],
            (Reindex {
                packs: packs@,
                to_read: pack_read_header@,
                live: new_index.packs@,
                dead: new_index.packs_to_delete@,
                changed: *changed,
            }) == after_packs(start, all.subrange(0, i as int), to_delete, read_all),
        decreases n - i,
    {
        // each entry is handed on by value; an empty one takes its place
        let mut p = IndexPack { id: Id::default(), blobs: Vec::new(), size: None };
        std::mem::swap(&mut p, &mut rest[i]);
        proof {
            let next = all.subrange(0, i + 1);
            assert(next.drop_last() =~= all.subrange(0, i as int));
            assert(next.last() == p);
        }
        process_pack(packs, p, to_delete, read_all, new_index, changed, pack_read_header);
        i += 1;
    }
    assert(all.subrange(0, i as int) =~= all);
}

/// Checks one index file against the packs that are there.
///
/// Every pack that the file names is taken out of `packs`, and those to
/// read again are noted in `pack_read_header`. Where every entry stays,
/// the file stays. Else, unless the run is a dry one, the entries that stay
/// form a new file in its place, or the file goes where none stays.
pub fn process_index(
    packs: &mut IdMap<u32>,
    index: IndexFile,
    read_all: bool,
    dry_run: bool,
    pack_read_header: &mut Vec<PackToRead>,
) -> (change: IndexChange)
    ensures
        ({
            let s = after_file(old(packs)@, old(pack_read_header)@, index, read_all);
            &&& final(packs)@ == s.packs
            &&& final(pack_read_header)@ == s.to_read
            &&& match change {
                IndexChange::Unchanged => !s.changed,
                IndexChange::WouldModify => s.changed && dry_run,
                IndexChange::Replace(file) => s.changed && !dry_run && file.packs@ == s.live
                    && file.packs_to_delete@ == s.dead && s.live.len() + s.dead.len() > 0,
                IndexChange::Remove => s.changed && !dry_run && s.live.len() + s.dead.len() == 0,
            }
        }),
{
    let mut new_index = IndexFile::new();
    let mut changed = false;
    assert(new_index.packs@ =~= Seq::<IndexPack>::empty());
    assert(new_index.packs_to_delete@ =~= Seq::<IndexPack>::empty());
    let IndexFile { packs: live, packs_to_delete: dead } = index;
    process_packs(packs, live, false, read_all, &mut new_index, &mut changed, pack_read_header);
    process_packs(packs, dead, true, read_all, &mut new_index, &mut changed, pack_read_header);
    if !changed {
        IndexChange::Unchanged
    } else if dry_run {
        IndexChange::WouldModify
    } else if !new_index.packs.is_empty() || !new_index.packs_to_delete.is_empty() {
        IndexChange::Replace(new_index)
    } else {
        IndexChange::Remove
    }
}

/// The identifiers of the packs that `ps` describes.
pub open spec fn pack_ids(ps: Seq<IndexPack>) -> Set<Id> {
    Set::new(|id: Id| exists|i: int| 0 <= i < ps.len() && (#[trigger] ps[i]).id == id)
}

/// The identifiers of the packs to read again.
pub open spec fn read_ids(rs: Seq<PackToRead>) -> Set<Id> {
    Set::new(|id: Id| exists|i: int| 0 <= i < rs.len() && (#[trigger] rs[i]).id == id)
}

/// The packs of a listing with their sizes; of two lines for one pack the
/// later counts.
pub open spec fn listed(listing: Seq<(Id, u32)>) -> Map<Id, u32>
    decreases listing.len(),
{
    if listing.len() == 0 {
        Map::empty()
    } else {
        listed(listing.drop_last()).insert(listing.last().0, listing.last().1)
    }
}

/// Where the walk through the index files stands.
pub ghost struct Walk {
    /// The packs that are there and that no entry has claimed yet.
    pub packs: Map<Id, u32>,
    /// The packs whose header is to be read again.
    pub to_read: Seq<PackToRead>,
    /// The packs whose entry stays in the index.
    pub kept: Set<Id>,
}

/// The walk after the index files `files`, in order.
pub open spec fn after_files(w: Walk, files: Seq<(Id, IndexFile)>, read_all: bool) -> Walk
    decreases files.len(),
{
    if files.len() == 0 {
        w
    } else {
        let before = after_files(w, files.drop_last(), read_all);
        let s = after_file(before.packs, before.to_read, files.last().1, read_all);
        Walk {
            packs: s.packs,
            to_read: s.to_read,
            kept: before.kept + pack_ids(s.live) + pack_ids(s.dead),
        }
    }
}

/// The packs that no index file names, each to be read as a live pack
/// without a hint.
pub open spec fn unclaimed(entries: Seq<(Id, u32)>) -> Seq<PackToRead> {
    Seq::new(
        entries.len(),
        |i: int|
            PackToRead {
                id: entries[i].0,
                to_delete: false,
                size_hint: None,
                pack_size: entries[i].1,
            },
    )
}

/// The packs that the walk accounts for: those not yet claimed, those
/// whose entry stays, and those to read again.
pub open spec fn covered(s: Reindex) -> Set<Id> {
    s.packs.dom() + pack_ids(s.live) + pack_ids(s.dead) + read_ids(s.to_read)
}

/// An index entry moves its pack between the parts of the walk, and
/// neither adds a pack nor loses one.
pub proof fn lemma_after_pack_covered(s: Reindex, p: IndexPack, to_delete: bool, read_all: bool)
    ensures
        covered(after_pack(s, p, to_delete, read_all)) == covered(s),
{
    let t = after_pack(s, p, to_delete, read_all);
    assert forall|id: Id| covered(t).contains(id) == covered(s).contains(id) by {
        if pack_ids(t.live).contains(id) && !pack_ids(s.live).contains(id) {
            let i = choose|i: int| 0 <= i < t.live.len() && (#[trigger] t.live[i]).id == id;
            if i < s.live.len() {
                assert(s.live[i].id == id);
            }
        }
        if pack_ids(t.dead).contains(id) && !pack_ids(s.dead).contains(id) {
            let i = choose|i: int| 0 <= i < t.dead.len() && (#[trigger] t.dead[i]).id == id;
            if i < s.dead.len() {
                assert(s.dead[i].id == id);
            }
        }
        if read_ids(t.to_read).contains(id) && !read_ids(s.to_read).contains(id) {
            let i = choose|i: int| 0 <= i < t.to_read.len() && (#[trigger] t.to_read[i]).id == id;
            if i < s.to_read.len() {
                assert(s.to_read[i].id == id);
            }
        }
        if pack_ids(s.live).contains(id) {
            let i = choose|i: int| 0 <= i < s.live.len() && (#[trigger] s.live[i]).id == id;
            assert(t.live[i].id == id);
        }
        if pack_ids(s.dead).contains(id) {
            let i = choose|i: int| 0 <= i < s.dead.len() && (#[trigger] s.dead[i]).id == id;
            assert(t.dead[i].id == id);
        }
        if read_ids(s.to_read).contains(id) {
            let i = choose|i: int| 0 <= i < s.to_read.len() && (#[trigger] s.to_read[i]).id == id;
            assert(t.to_read[i].id == id);
        }
        if s.packs.contains_key(id) && id == p.id {
            match verdict(s.packs, p, to_delete, read_all) {
                PackVerdict::Drop => {},
                PackVerdict::Reread(r) => {
                    assert(t.to_read[t.to_read.len() - 1].id == id);
                },
                PackVerdict::Keep => {
                    if to_delete {
                        assert(t.dead[t.dead.len() - 1].id == id);
                    } else {
                        assert(t.live[t.live.len() - 1].id == id);
                    }
                },
            }
        }
    }
    assert(covered(t) =~= covered(s));
}

/// As [`lemma_after_pack_covered`], for a list of entries.
pub proof fn lemma_after_packs_covered(s: Reindex, ps: Seq<IndexPack>, to_delete: bool, read_all: bool)
    ensures
        covered(after_packs(s, ps, to_delete, read_all)) == covered(s),
    decreases ps.len(),
{
    if ps.len() > 0 {
        lemma_after_packs_covered(s, ps.drop_last(), to_delete, read_all);
        lemma_after_pack_covered(
            after_packs(s, ps.drop_last(), to_delete, read_all),
            ps.last(),
            to_delete,
            read_all,
        );
    }
}

/// The packs that a walk through index files accounts for.
pub open spec fn walk_covered(w: Walk) -> Set<Id> {
    w.packs.dom() + w.kept + read_ids(w.to_read)
}

/// A walk through index files neither adds a pack nor loses one: every
/// pack that is there stays unclaimed, keeps its entry, or is read again,
/// and no other pack does.
pub proof fn lemma_after_files_covered(w: Walk, files: Seq<(Id, IndexFile)>, read_all: bool)
    ensures
        walk_covered(after_files(w, files, read_all)) == walk_covered(w),
    decreases files.len(),
{
    if files.len() > 0 {
        lemma_after_files_covered(w, files.drop_last(), read_all);
        let before = after_files(w, files.drop_last(), read_all);
        let file = files.last().1;
        let start = Reindex {
            packs: before.packs,
            to_read: before.to_read,
            live: Seq::empty(),
            dead: Seq::empty(),
            changed: false,
        };
        let mid = after_packs(start, file.packs@, false, read_all);
        lemma_after_packs_covered(start, file.packs@, false, read_all);
        lemma_after_packs_covered(mid, file.packs_to_delete@, true, read_all);
        let s = after_file(before.packs, before.to_read, file, read_all);
        assert(covered(s) == covered(start));
        assert(pack_ids(start.live) =~= Set::<Id>::empty());
        assert(pack_ids(start.dead) =~= Set::<Id>::empty());
        let after = after_files(w, files, read_all);
        assert forall|id: Id| walk_covered(after).contains(id) == walk_covered(before).contains(
            id,
        ) by {
            assert(covered(s).contains(id) == covered(start).contains(id));
        }
        assert(walk_covered(after) =~= walk_covered(before));
    }
}

/// What a repair of the index leaves to do.
#[derive(Debug)]
pub struct IndexRepair {
    /// What is to be done with each index file, in the order given.
    pub changes: Vec<(Id, IndexChange)>,
    /// The packs whose header is to be read and indexed anew.
    pub read_headers: Vec<PackToRead>,
}

/// Whether `change` is what is to be done with `file`, where the walk
/// reaches it as `before`.
pub open spec fn change_fits(change: IndexChange, before: Walk, file: IndexFile, read_all: bool, dry_run: bool) -> bool {
    let s = after_file(before.packs, before.to_read, file, read_all);
    match change {
        IndexChange::Unchanged => !s.changed,
        IndexChange::WouldModify => s.changed && dry_run,
        IndexChange::Replace(new) => s.changed && !dry_run && new.packs@ == s.live
            && new.packs_to_delete@ == s.dead && s.live.len() + s.dead.len() > 0,
        IndexChange::Remove => s.changed && !dry_run && s.live.len() + s.dead.len() == 0,
    }
}

/// Holds the index files against the listing of the packs.
///
/// Each index file is checked in turn by [`process_index`]. The packs to
/// read again are those that the files name with another size than they
/// have (all that the files name, where `read_all` is set), followed by
/// the packs that no file names, ascending. Every listed pack either
/// keeps its index entry or is read again, and no other pack does.
pub fn repair_index(
    listing: &Vec<(Id, u32)>,
    index_files: Vec<(Id, IndexFile)>,
    read_all: bool,
    dry_run: bool,
) -> (r: IndexRepair)
    ensures
        ({
            let start = Walk { packs: listed(listing@), to_read: Seq::empty(), kept: Set::empty() };
            let end = after_files(start, index_files@, read_all);
            &&& r.changes@.len() == index_files@.len()
            &&& forall|i: int|
                0 <= i < index_files@.len() ==> (#[trigger] r.changes@[i]).0 == index_files@[i].0
                    && change_fits(
                    r.changes@[i].1,
                    after_files(start, index_files@.subrange(0, i), read_all),
                    index_files@[i].1,
                    read_all,
                    dry_run,
                )
            &&& exists|rest: Seq<(Id, u32)>|
                ascending(rest) && lists(rest, end.packs) && r.read_headers@ == end.to_read
                    + unclaimed(rest)
            &&& end.kept + read_ids(r.read_headers@) == listed(listing@).dom()
        }),
{
    let mut packs: IdMap<u32> = IdMap::new();
    let mut k: usize = 0;
    assert(listing@.subrange(0, 0) =~= Seq::<(Id, u32)>::empty());
    while k < listing.len()
        invariant
            0 <= k <= listing@.len(),
            packs@ == listed(listing@.subrange(0, k as int)),
        decreases listing@.len() - k,
    {
        proof {
            let next = listing@.subrange(0, k + 1);
            assert(next.drop_last() =~= listing@.subrange(0, k as int));
            assert(next.last() == listing@[k as int]);
        }
        packs.insert(listing[k].0, listing[k].1);
        k += 1;
    }
    assert(listing@.subrange(0, k as int) =~= listing@);
    let ghost start = Walk { packs: packs@, to_read: Seq::empty(), kept: Set::empty() };
    let ghost all = index_files@;
    let mut pack_read_header: Vec<PackToRead> = Vec::new();
    let mut changes: Vec<(Id, IndexChange)> = Vec::new();
    let mut files = index_files;
    let n = files.len();
    let mut i: usize = 0;
    assert(all.subrange(0, 0) =~= Seq::<(Id, IndexFile)>::empty());
    while i < n
        invariant
            0 <= i <= n,
            n == all.len(),
            files@.len() == n,
            forall|j: int| i <= j < n ==> #[trigger] files@[j] == all[j],
            changes@.len() == i,
            packs@ == after_files(start, all.subrange(0, i as int), read_all).packs,
            pack_read_header@ == after_files(start, all.subrange(0, i as int), read_all).to_read,
            forall|j: int|
                0 <= j < i ==> (#[trigger] changes@[j]).0 == all[j].0 && change_fits(
                    changes@[j].1,
                    after_files(start, all.subrange(0, j), read_all),
                    all[j].1,
                    read_all,
                    dry_run,
                ),
        decreases n - i,
    {
        // each file is handed on by value; an empty one takes its place
        let mut entry = (Id::default(), IndexFile::new());
        std::mem::swap(&mut entry, &mut files[i]);
        let (index_id, index) = entry;
        proof {
            let next = all.subrange(0, i + 1);
            assert(next.drop_last() =~= all.subrange(0, i as int));
            assert(next.last() == all[i as int]);
        }
        let change = process_index(&mut packs, index, read_all, dry_run, &mut pack_read_header);
        changes.push((index_id, change));
        i += 1;
    }
    assert(all.subrange(0, i as int) =~= all);
    let ghost end = after_files(start, all, read_all);
    let rest = packs.into_entries();
    let mut j: usize = 0;
    assert(unclaimed(rest@).subrange(0, 0) =~= Seq::<PackToRead>::empty());
    assert(pack_read_header@ + Seq::<PackToRead>::empty() =~= pack_read_header@);
    while j < rest.len()
        invariant
            0 <= j <= rest@.len(),
            pack_read_header@ == end.to_read + unclaimed(rest@).subrange(0, j as int),
        decreases rest@.len() - j,
    {
        pack_read_header.push(
            PackToRead { id: rest[j].0, to_delete: false, size_hint: None, pack_size: rest[j].1 },
        );
        assert(pack_read_header@ =~= end.to_read + unclaimed(rest@).subrange(0, j + 1));
        j += 1;
    }
    assert(unclaimed(rest@).subrange(0, j as int) =~= unclaimed(rest@));
    proof {
        lemma_after_files_covered(start, all, read_all);
        let reads = pack_read_header@;
        assert forall|id: Id|
            (end.kept + read_ids(reads)).contains(id) == start.packs.dom().contains(id) by {
            assert(walk_covered(end).contains(id) == walk_covered(start).contains(id));
            assert(read_ids(start.to_read) =~= Set::<Id>::empty());
            if read_ids(reads).contains(id) {
                let i = choose|i: int| 0 <= i < reads.len() && (#[trigger] reads[i]).id == id;
                if i < end.to_read.len() {
                    assert(end.to_read[i].id == id);
                } else {
                    assert(rest@[i - end.to_read.len()].0 == id);
                }
            }
            if end.packs.dom().contains(id) {
                let i = choose|i: int| 0 <= i < rest@.len() && (#[trigger] rest@[i]).0 == id;
                assert(reads[end.to_read.len() + i].id == id);
            }
            if read_ids(end.to_read).contains(id) {
                let i = choose|i: int|
                    0 <= i < end.to_read.len() && (#[trigger] end.to_read[i]).id == id;
                assert(reads[i].id == id);
            }
        }
        assert(end.kept + read_ids(reads) =~= start.packs.dom());
    }
    IndexRepair { changes, read_headers: pack_read_header }
}

/// The description of the pack `id` from what reading its header gave:
/// the blobs of the header, or none where the header could not be read.
/// The description records no size.
pub fn pack_from_header(id: Id, header: Result<Vec<IndexBlob>, PackError>) -> (p: IndexPack)
    ensures
        p.id == id,
        p.size.is_none(),
        p.blobs@ == (match header {
            Ok(blobs) => blobs@,
            Err(_) => Seq::empty(),
        }),
{
    let blobs = match header {
        Ok(blobs) => blobs,
        Err(_) => Vec::new(),
    };
    IndexPack { id, blobs, size: None }
}

/// The blobs that are indexed for a pack whose stored blobs end at
/// `start`, given its header as the codec decoded it: the records of the
/// header, where it is a list of records that lie one behind the other and
/// end at `start`; none where the header was not decoded, or is no such
/// list.
pub open spec fn blobs_of_header(start: u32, header: Option<Seq<u8>>) -> Seq<IndexBlob> {
    match header {
        Some(bytes) => match parse_entries(bytes, 0) {
            Some(blobs) => if end_of(blobs, 0) == start {
                blobs
            } else {
                Seq::empty()
            },
            None => Seq::empty(),
        },
        None => Seq::empty(),
    }
}

/// The description of the pack `id` from its header as the codec decoded
/// it. The blobs of the description lie one behind the other from the
/// first byte of the pack, and end where the header begins, at `start`.
pub fn pack_from_decoded(id: Id, start: u32, header: Option<Vec<u8>>) -> (p: IndexPack)
    ensures
        p.id == id,
        p.size.is_none(),
        p.blobs@ == blobs_of_header(
            start,
            match header {
                Some(bytes) => Some(bytes@),
                None => None,
            },
        ),
        laid_out(p.blobs@, 0),
        p.blobs@.len() > 0 ==> end_of(p.blobs@, 0) == start,
{
    match header {
        Some(bytes) => pack_from_header(id, read_pack_header(bytes.as_slice(), start)),
        None => pack_from_header(id, Err(PackError::BadHeader)),
    }
}

/// The description of the pack `id` from its encoded header `stored`,
/// which begins at `start`. Whatever the codec makes of the header, the
/// blobs of the description lie one behind the other from the first byte
/// of the pack, and end where the header begins.
pub fn pack_from_stored<C: Codec>(codec: &C, id: Id, start: u32, stored: &[u8]) -> (p: IndexPack)
    ensures
        p.id == id,
        p.size.is_none(),
        laid_out(p.blobs@, 0),
        p.blobs@.len() > 0 ==> end_of(p.blobs@, 0) == start,
{
    pack_from_decoded(id, start, codec.decode(stored))
}

/// A pack that the packer has sealed is described from its header as the
/// packer described it: with the same blobs, which cover the stored blobs
/// of the pack from its first byte to its header.
pub proof fn lemma_sealed_pack_read(pack: SealedPack, added: Seq<Packed>, tpe: BlobType)
    requires
        sealed(pack, added, tpe),
    ensures
        blobs_of_header(pack.payload_len, Some(pack.header@)) == pack.index.blobs@,
        laid_out(pack.index.blobs@, 0),
        end_of(pack.index.blobs@, 0) == pack.payload_len,
{
    lemma_parse_header(pack.index.blobs@, 0);
}

} // verus!
