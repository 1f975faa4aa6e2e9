//! The write side of the index: pack descriptions are gathered as a run
//! produces packs, and handed out as index files.

use vstd::prelude::*;
use crate::blob::{BlobType, IndexBlob, IndexFile, IndexPack};
use crate::id::Id;
use crate::idmap::IdSet;

verus! {

/// The identifiers of the blobs of kind `tpe` among `blobs`.
pub open spec fn blob_ids(blobs: Seq<IndexBlob>, tpe: BlobType) -> Set<Id> {
    Set::new(
        |id: Id|
            exists|i: int|
                0 <= i < blobs.len() && (#[trigger] blobs[i]).id == id && blobs[i].tpe == tpe,
    )
}

/// Blobs that make an index file unless the caller says otherwise.
pub const DEFAULT_INDEX_BLOBS: usize = 50000;

/// A count capped at the largest `usize`.
pub open spec fn capped(n: int) -> usize {
    if n > usize::MAX {
        usize::MAX
    } else {
        n as usize
    }
}

/// Gathers the descriptions of the packs that a run writes.
///
/// Every blob of a pack that is added counts as known from then on. Once
/// the packs gathered hold `threshold` blobs or more, they leave as one
/// index file.
pub struct Indexer {
    file: IndexFile,
    count: usize,
    threshold: usize,
    known_tree_ids: IdSet,
    known_data_ids: IdSet,
}

impl Indexer {
    /// The tree blobs known from the packs added.
    pub closed spec fn known_trees(&self) -> Set<Id> {
        self.known_tree_ids@
    }

    /// The data blobs known from the packs added.
    pub closed spec fn known_data(&self) -> Set<Id> {
        self.known_data_ids@
    }

    /// The blobs of kind `tpe` known from the packs added.
    pub open spec fn known(&self, tpe: BlobType) -> Set<Id> {
        match tpe {
            BlobType::Tree => self.known_trees(),
            BlobType::Data => self.known_data(),
        }
    }

    /// The live packs gathered and not yet handed out.
    pub closed spec fn pending(&self) -> Seq<IndexPack> {
        self.file.packs@
    }

    /// The superseded packs gathered and not yet handed out.
    pub closed spec fn pending_to_delete(&self) -> Seq<IndexPack> {
        self.file.packs_to_delete@
    }

    /// How many blobs make an index file.
    pub closed spec fn spec_threshold(&self) -> usize {
        self.threshold
    }

    /// How many blobs the packs gathered hold, capped at the largest
    /// `usize`.
    pub closed spec fn blob_count(&self) -> usize {
        self.count
    }

    /// An indexer that knows no blob and has gathered no pack.
    pub fn new(threshold: usize) -> (r: Indexer)
        ensures
            r.known_trees() == Set::<Id>::empty(),
            r.known_data() == Set::<Id>::empty(),
            r.pending() == Seq::<IndexPack>::empty(),
            r.pending_to_delete() == Seq::<IndexPack>::empty(),
            r.spec_threshold() == threshold,
            r.blob_count() == 0,
    {
        Indexer {
            file: IndexFile::new(),
            count: 0,
            threshold,
            known_tree_ids: IdSet::new(),
            known_data_ids: IdSet::new(),
        }
    }

    /// Whether the blob `id` of kind `tpe` is known.
    pub fn has(&self, tpe: BlobType, id: &Id) -> (r: bool)
        ensures
            r == self.known(tpe).contains(*id),
    {
        match tpe {
            BlobType::Tree => self.known_tree_ids.contains(id),
            BlobType::Data => self.known_data_ids.contains(id),
        }
    }

    /// Adds a live pack. See [`Indexer::add_with`].
    pub fn add(&mut self, pack: IndexPack) -> (r: Option<IndexFile>)
        ensures
            final(self).known_trees() == old(self).known_trees() + blob_ids(
                pack.blobs@,
                BlobType::Tree,
            ),
            final(self).known_data() == old(self).known_data() + blob_ids(
                pack.blobs@,
                BlobType::Data,
            ),
            final(self).spec_threshold() == old(self).spec_threshold(),
            r.is_some() <==> capped(old(self).blob_count() + pack.blobs@.len()) >= old(
                self,
            ).spec_threshold(),
            match r {
                Some(file) => {
                    &&& file.packs@ == old(self).pending().push(pack)
                    &&& file.packs_to_delete@ == old(self).pending_to_delete()
                    &&& final(self).pending() == Seq::<IndexPack>::empty()
                    &&& final(self).pending_to_delete() == Seq::<IndexPack>::empty()
                    &&& final(self).blob_count() == 0
                },
                None => {
                    &&& final(self).pending() == old(self).pending().push(pack)
                    &&& final(self).pending_to_delete() == old(self).pending_to_delete()
                    &&& final(self).blob_count() == capped(
                        old(self).blob_count() + pack.blobs@.len(),
                    )
                },
            },
    {
        self.add_with(pack, false)
    }

    /// Adds a pack to the live list, or to the superseded one.
    ///
    /// The blobs of the pack count as known from now on. Where the packs
    /// gathered, this one included, hold as many blobs as the threshold or
    /// more, they are returned as an index file to write, and the
    /// gathering starts anew.
    pub fn add_with(&mut self, pack: IndexPack, to_delete: bool) -> (r: Option<IndexFile>)
        ensures
            final(self).known_trees() == old(self).known_trees() + blob_ids(
                pack.blobs@,
                BlobType::Tree,
            ),
            final(self).known_data() == old(self).known_data() + blob_ids(
                pack.blobs@,
                BlobType::Data,
            ),
            final(self).spec_threshold() == old(self).spec_threshold(),
            ({
                let live = if to_delete {
                    old(self).pending()
                } else {
                    old(self).pending().push(pack)
                };
                let dead = if to_delete {
                    old(self).pending_to_delete().push(pack)
                } else {
                    old(self).pending_to_delete()
                };
                let count = capped(old(self).blob_count() + pack.blobs@.len());
                &&& r.is_some() <==> count >= old(self).spec_threshold()
                &&& match r {
                    Some(file) => {
                        &&& file.packs@ == live
                        &&& file.packs_to_delete@ == dead
                        &&& final(self).pending() == Seq::<IndexPack>::empty()
                        &&& final(self).pending_to_delete() == Seq::<IndexPack>::empty()
                        &&& final(self).blob_count() == 0
                    },
                    None => {
                        &&& final(self).pending() == live
                        &&& final(self).pending_to_delete() == dead
                        &&& final(self).blob_count() == count
                    },
                }
            }),
    {
        let mut i: usize = 0;
        while i < pack.blobs.len()
            invariant
                0 <= i <= pack.blobs@.len(),
                self.file == old(self).file,
                self.count == old(self).count,
                self.threshold == old(self).threshold,
                self.known_tree_ids@ == old(self).known_tree_ids@ + blob_ids(
                    pack.blobs@.subrange(0, i as int),
                    BlobType::Tree,
                ),
                self.known_data_ids@ == old(self).known_data_ids@ + blob_ids(
                    pack.blobs@.subrange(0, i as int),
                    BlobType::Data,
                ),
            decreases pack.blobs@.len() - i,
        {
            let b = &pack.blobs[i];
            let ghost before = pack.blobs@.subrange(0, i as int);
            let ghost next = pack.blobs@.subrange(0, i + 1);
            match b.tpe {
                BlobType::Tree => {
                    self.known_tree_ids.insert(b.id);
                },
                BlobType::Data => {
                    self.known_data_ids.insert(b.id);
                },
            }
            proof {
                assert forall|tpe: BlobType|
                    #![trigger blob_ids(next, tpe)]
                    blob_ids(next, tpe) =~= if b.tpe == tpe {
                        blob_ids(before, tpe).insert(b.id)
                    } else {
                        blob_ids(before, tpe)
                    } by {
                    assert forall|id: Id| blob_ids(next, tpe).contains(id) <==> (blob_ids(
                        before,
                        tpe,
                    ).contains(id) || (b.tpe == tpe && id == b.id)) by {
                        if blob_ids(next, tpe).contains(id) {
                            let k = choose|k: int|
                                0 <= k < next.len() && (#[trigger] next[k]).id == id && next[k].tpe
                                    == tpe;
                            if k < i {
                                assert(before[k].id == id);
                            }
                        }
                        if blob_ids(before, tpe).contains(id) {
                            let k = choose|k: int|
                                0 <= k < before.len() && (#[trigger] before[k]).id == id
                                    && before[k].tpe == tpe;
                            assert(next[k].id == id);
                        }
                        if b.tpe == tpe && id == b.id {
                            assert(next[i as int].id == id);
                        }
                    }
                }
                assert(self.known_tree_ids@ =~= old(self).known_tree_ids@ + blob_ids(
                    next,
                    BlobType::Tree,
                ));
                assert(self.known_data_ids@ =~= old(self).known_data_ids@ + blob_ids(
                    next,
                    BlobType::Data,
                ));
            }
            i += 1;
        }
        assert(pack.blobs@.subrange(0, i as int) =~= pack.blobs@);
        self.count = self.count.saturating_add(pack.blobs.len());
        self.file.add(pack, to_delete);
        if self.count >= self.threshold {
            let mut file = IndexFile::new();
            std::mem::swap(&mut file, &mut self.file);
            self.count = 0;
            assert(self.file.packs@ =~= Seq::<IndexPack>::empty());
            assert(self.file.packs_to_delete@ =~= Seq::<IndexPack>::empty());
            Some(file)
        } else {
            None
        }
    }

    /// Ends the gathering: the packs not yet handed out, as an index file
    /// to write; `None` where there is none.
    pub fn finalize(self) -> (r: Option<IndexFile>)
        ensures
            match r {
                Some(file) => file.packs@ == self.pending() && file.packs_to_delete@
                    == self.pending_to_delete() && self.pending().len()
                    + self.pending_to_delete().len() > 0,
                None => self.pending().len() + self.pending_to_delete().len() == 0,
            },
    {
        if self.file.packs.is_empty() && self.file.packs_to_delete.is_empty() {
            None
        } else {
            Some(self.file)
        }
    }
}

} // verus!
