//! The order in which a run writes: packs as they fill up, each followed
//! by the index files that are due, and the snapshot last of all.

use vstd::prelude::*;
use crate::blob::{BlobType, IndexBlob, IndexFile, IndexPack};
use crate::id::Id;
use crate::indexer::{capped, Indexer};
use crate::packer::{
    grown_by, sealed, stored_total, Codec, Packed, Packer, PackerError, SealedPack,
};
use crate::snapshot::{serialize_snapshot, snapshot_id, SnapshotFile};

verus! {

/// One object to write.
#[derive(Debug)]
pub enum Write {
    /// A pack, under its identifier.
    Pack(SealedPack),
    /// An index file.
    Index(IndexFile),
    /// A snapshot in its stored form before encoding, under its identifier.
    Snapshot(Id, Vec<u8>),
}

/// Whether none of `writes` is a snapshot.
pub open spec fn no_snapshot(writes: Seq<Write>) -> bool {
    forall|i: int| 0 <= i < writes.len() ==> !(#[trigger] writes[i] is Snapshot)
}

/// The snapshots that `writes` write, in order.
pub open spec fn snapshots_of(writes: Seq<Write>) -> Seq<(Id, Seq<u8>)>
    decreases writes.len(),
{
    if writes.len() == 0 {
        Seq::empty()
    } else {
        match writes.last() {
            Write::Snapshot(id, bytes) => snapshots_of(writes.drop_last()).push((id, bytes@)),
            _ => snapshots_of(writes.drop_last()),
        }
    }
}

/// The snapshots `snaps` as they are written: each under its identifier,
/// in its stored form.
pub open spec fn stored_snapshots(snaps: Seq<SnapshotFile>) -> Seq<(Id, Seq<u8>)> {
    Seq::new(snaps.len(), |i: int| (snapshot_id(snaps[i]@), serialize_snapshot(snaps[i]@)))
}

/// Whether `writes` are the writes that end a run: the snapshots come
/// last, in order, and no write before them is a snapshot.
pub open spec fn snapshots_last(writes: Seq<Write>, snaps: Seq<SnapshotFile>) -> bool {
    let first = writes.len() - snaps.len();
    &&& first >= 0
    &&& no_snapshot(writes.subrange(0, first))
    &&& forall|i: int| 0 <= i < snaps.len() ==> writes_snapshot(#[trigger] writes[first + i], snaps[i])
}

/// Whether `w` writes the snapshot `snap`: its stored form, under its
/// identifier.
pub open spec fn writes_snapshot(w: Write, snap: SnapshotFile) -> bool {
    match w {
        Write::Snapshot(id, bytes) => id == snapshot_id(snap@) && bytes@ == serialize_snapshot(
            snap@,
        ),
        _ => false,
    }
}

/// Writes without a snapshot write no snapshot.
pub proof fn lemma_no_snapshot(writes: Seq<Write>)
    requires
        no_snapshot(writes),
    ensures
        snapshots_of(writes) == Seq::<(Id, Seq<u8>)>::empty(),
    decreases writes.len(),
{
    if writes.len() > 0 {
        assert(!(writes[writes.len() - 1] is Snapshot));
        assert forall|i: int| 0 <= i < writes.drop_last().len() implies !(
        #[trigger] writes.drop_last()[i] is Snapshot) by {
            assert(writes.drop_last()[i] == writes[i]);
        }
        lemma_no_snapshot(writes.drop_last());
    }
}

/// A run that is cut short shows a prefix of the snapshots that it was to
/// save: the snapshots are written last and in order, so the writes that
/// were done before the cut hold the first of them and no other.
pub proof fn lemma_cut_shows_prefix(writes: Seq<Write>, snaps: Seq<SnapshotFile>, done: int)
    requires
        snapshots_last(writes, snaps),
        0 <= done <= writes.len(),
    ensures
        ({
            let first = writes.len() - snaps.len();
            let shown = if done <= first {
                0
            } else {
                done - first
            };
            snapshots_of(writes.subrange(0, done)) == stored_snapshots(snaps).subrange(0, shown)
        }),
    decreases done,
{
    let first = writes.len() - snaps.len();
    let part = writes.subrange(0, done);
    if done <= first {
        assert forall|i: int| 0 <= i < part.len() implies !(#[trigger] part[i] is Snapshot) by {
            assert(writes.subrange(0, first)[i] == writes[i]);
        }
        lemma_no_snapshot(part);
        assert(stored_snapshots(snaps).subrange(0, 0) =~= Seq::<(Id, Seq<u8>)>::empty());
    } else {
        lemma_cut_shows_prefix(writes, snaps, done - 1);
        assert(part.drop_last() =~= writes.subrange(0, done - 1));
        let i = done - 1 - first;
        assert(writes[first + i] is Snapshot);
        assert(part.last() == writes[first + i]);
        let before = if done - 1 <= first {
            0
        } else {
            done - 1 - first
        };
        assert(before == i);
        assert(stored_snapshots(snaps).subrange(0, i).push(stored_snapshots(snaps)[i])
            =~= stored_snapshots(snaps).subrange(0, i + 1));
    }
}

/// What an index says of a pack: its identifier, its blobs, and its size.
pub ghost struct Described {
    pub id: Id,
    pub blobs: Seq<IndexBlob>,
    pub size: Option<u32>,
}

/// What the description `p` says of its pack.
pub open spec fn described(p: IndexPack) -> Described {
    Described { id: p.id, blobs: p.blobs@, size: p.size }
}

/// What the descriptions `ps` say of their packs, in order.
pub open spec fn descriptions(ps: Seq<IndexPack>) -> Seq<Described> {
    Seq::new(ps.len(), |i: int| described(ps[i]))
}

/// What the packs `packs` are described as, in order.
pub open spec fn pack_descriptions(packs: Seq<SealedPack>) -> Seq<Described> {
    Seq::new(packs.len(), |i: int| described(packs[i].index))
}

/// The packs that `writes` write, in order.
pub open spec fn packs_of(writes: Seq<Write>) -> Seq<SealedPack>
    decreases writes.len(),
{
    if writes.len() == 0 {
        Seq::empty()
    } else {
        match writes.last() {
            Write::Pack(pack) => packs_of(writes.drop_last()).push(pack),
            _ => packs_of(writes.drop_last()),
        }
    }
}

/// The live packs that the index files of `writes` describe, in order.
pub open spec fn live_of(writes: Seq<Write>) -> Seq<Described>
    decreases writes.len(),
{
    if writes.len() == 0 {
        Seq::empty()
    } else {
        match writes.last() {
            Write::Index(file) => live_of(writes.drop_last()) + descriptions(file.packs@),
            _ => live_of(writes.drop_last()),
        }
    }
}

/// The superseded packs that the index files of `writes` describe, in
/// order.
pub open spec fn superseded_of(writes: Seq<Write>) -> Seq<Described>
    decreases writes.len(),
{
    if writes.len() == 0 {
        Seq::empty()
    } else {
        match writes.last() {
            Write::Index(file) => superseded_of(writes.drop_last()) + descriptions(
                file.packs_to_delete@,
            ),
            _ => superseded_of(writes.drop_last()),
        }
    }
}

/// What one more write adds to what the writes hold.
pub proof fn lemma_one_more(writes: Seq<Write>, w: Write)
    ensures
        packs_of(writes.push(w)) == match w {
            Write::Pack(pack) => packs_of(writes).push(pack),
            _ => packs_of(writes),
        },
        live_of(writes.push(w)) == match w {
            Write::Index(file) => live_of(writes) + descriptions(file.packs@),
            _ => live_of(writes),
        },
        superseded_of(writes.push(w)) == match w {
            Write::Index(file) => superseded_of(writes) + descriptions(file.packs_to_delete@),
            _ => superseded_of(writes),
        },
{
    assert(writes.push(w).drop_last() =~= writes);
    assert(writes.push(w).last() == w);
}

/// Packs the blobs of a run and says what to write, in order.
pub struct Writer<C: Codec> {
    data: Packer<C>,
    trees: Packer<C>,
    indexer: Indexer,
}

impl<C: Codec> Writer<C> {
    /// Whether each packer packs its kind of blob, as it does from
    /// [`Writer::new`] on.
    pub open spec fn sorted(&self) -> bool {
        self.data().blob_type() == BlobType::Data && self.trees().blob_type() == BlobType::Tree
    }

    /// The packer of the data blobs.
    pub closed spec fn data(&self) -> Packer<C> {
        self.data
    }

    /// The packer of the tree blobs.
    pub closed spec fn trees(&self) -> Packer<C> {
        self.trees
    }

    /// The packer of the blobs of kind `tpe`.
    pub open spec fn packer(&self, tpe: BlobType) -> Packer<C> {
        match tpe {
            BlobType::Data => self.data(),
            BlobType::Tree => self.trees(),
        }
    }

    /// The indexer of the run.
    pub closed spec fn indexer(&self) -> Indexer {
        self.indexer
    }

    /// A writer that seals packs at `pack_size` bytes of stored blobs, and
    /// index files at `index_blobs` blobs. Each packer gets a codec of its
    /// own.
    pub fn new(data_codec: C, tree_codec: C, pack_size: u32, index_blobs: usize) -> (r: Writer<C>)
        ensures
            r.sorted(),
            r.data().open_blobs() == Seq::<Packed>::empty(),
            r.data().target_size() == pack_size,
            r.trees().open_blobs() == Seq::<Packed>::empty(),
            r.trees().target_size() == pack_size,
            r.indexer().known_data() == Set::<Id>::empty(),
            r.indexer().known_trees() == Set::<Id>::empty(),
            r.indexer().pending() == Seq::<IndexPack>::empty(),
            r.indexer().pending_to_delete() == Seq::<IndexPack>::empty(),
            r.indexer().spec_threshold() == index_blobs,
            r.indexer().blob_count() == 0,
    {
        Writer {
            data: Packer::new(data_codec, BlobType::Data, pack_size),
            trees: Packer::new(tree_codec, BlobType::Tree, pack_size),
            indexer: Indexer::new(index_blobs),
        }
    }

    /// Whether the run has packed the blob `id` of kind `tpe`, or holds it
    /// in an open pack.
    pub fn has(&self, tpe: BlobType, id: &Id) -> (r: bool)
        ensures
            r == (self.indexer().known(tpe).contains(*id) || self.packer(tpe).open_ids().contains(
                *id,
            )),
    {
        self.indexer.has(tpe, id) || match tpe {
            BlobType::Data => self.data.has(id),
            BlobType::Tree => self.trees.has(id),
        }
    }

    /// Tells the indexer of a sealed pack, and appends to `writes` the
    /// pack and, where it is due, the index file.
    fn wrote(&mut self, pack: SealedPack, writes: &mut Vec<Write>)
        requires
            no_snapshot(old(writes)@),
        ensures
            no_snapshot(final(writes)@),
            final(self).data() == old(self).data(),
            final(self).trees() == old(self).trees(),
            final(writes)@.len() == old(writes)@.len() + if capped(
                old(self).indexer().blob_count() + pack.index.blobs@.len(),
            ) >= old(self).indexer().spec_threshold() {
                2int
            } else {
                1int
            },
            final(writes)@.subrange(0, old(writes)@.len() as int) == old(writes)@,
            pack_of(final(writes)@[old(writes)@.len() as int]).is_some(),
            same_pack(pack_of(final(writes)@[old(writes)@.len() as int]).unwrap(), pack),
            final(writes)@.len() == old(writes)@.len() + 2 ==> {
                let file = index_of(final(writes)@.last());
                &&& file.is_some()
                &&& file.unwrap().packs@ == old(self).indexer().pending().push(pack.index)
                &&& file.unwrap().packs_to_delete@ == old(self).indexer().pending_to_delete()
            },
            final(self).indexer().spec_threshold() == old(self).indexer().spec_threshold(),
            final(self).indexer().known_data() == old(self).indexer().known_data()
                + crate::indexer::blob_ids(pack.index.blobs@, BlobType::Data),
            final(self).indexer().known_trees() == old(self).indexer().known_trees()
                + crate::indexer::blob_ids(pack.index.blobs@, BlobType::Tree),
            packs_of(final(writes)@).len() == packs_of(old(writes)@).len() + 1,
            packs_of(final(writes)@).drop_last() == packs_of(old(writes)@),
            same_pack(packs_of(final(writes)@).last(), pack),
            live_of(final(writes)@) + descriptions(final(self).indexer().pending()) == (live_of(
                old(writes)@,
            ) + descriptions(old(self).indexer().pending())).push(described(pack.index)),
            superseded_of(final(writes)@) + descriptions(
                final(self).indexer().pending_to_delete(),
            ) == superseded_of(old(writes)@) + descriptions(
                old(self).indexer().pending_to_delete(),
            ),
    {
        let SealedPack { id, bytes, payload_len, header, index } = pack;
        // the index gets a copy of the description; the pack keeps its own
        let described = IndexPack {
            id: index.id,
            blobs: vstd::slice::slice_to_vec(index.blobs.as_slice()),
            size: index.size,
        };
        let ghost before = writes@;
        let ghost pending = self.indexer.pending();
        let ghost superseded = self.indexer.pending_to_delete();
        let copy = SealedPack { id, bytes, payload_len, header, index: described };
        proof {
            lemma_one_more(before, Write::Pack(copy));
            assert(packs_of(before).push(copy).drop_last() =~= packs_of(before));
        }
        writes.push(Write::Pack(copy));
        let ghost with_pack = writes@;
        match self.indexer.add(index) {
            Some(file) => {
                proof {
                    lemma_one_more(with_pack, Write::Index(file));
                    assert(descriptions(self.indexer.pending()) =~= Seq::<Described>::empty());
                    assert(descriptions(self.indexer.pending_to_delete()) =~= Seq::<
                        Described,
                    >::empty());
                    assert(descriptions(pending.push(index)) =~= descriptions(pending).push(
                        crate::writer::described(index),
                    ));
                }
                writes.push(Write::Index(file));
            },
            None => {
                proof {
                    assert(descriptions(pending.push(index)) =~= descriptions(pending).push(
                        crate::writer::described(index),
                    ));
                }
            },
        }
        proof {
            let x = crate::writer::described(index);
            assert(live_of(writes@) + descriptions(self.indexer.pending()) =~= (live_of(before)
                + descriptions(pending)).push(x));
            assert(superseded_of(writes@) + descriptions(self.indexer.pending_to_delete())
                =~= superseded_of(before) + descriptions(superseded));
        }
        proof {
            assert(writes@.subrange(0, before.len() as int) =~= before);
            assert forall|i: int| 0 <= i < writes@.len() implies !(#[trigger] writes@[i]
                is Snapshot) by {
                if i < before.len() {
                    assert(writes@[i] == before[i]);
                }
            }
        }
    }

    /// Packs the blob `data` of kind `tpe` under the identifier `id`, and
    /// says what to write for it: nothing while its pack is open, the pack
    /// once it is sealed, and behind it the index file where one is due.
    /// No snapshot is written while blobs are packed.
    ///
    /// A blob that the run has packed or holds in an open pack is dropped.
    /// Any other blob is handed to the codec of its kind as it is, and
    /// [`Writer::add_stored`] packs what the codec returns.
    pub fn add(&mut self, tpe: BlobType, data: &[u8], id: Id) -> (r: Result<Vec<Write>, PackerError>)
        ensures
            old(self).sorted() ==> final(self).sorted(),
            final(self).packer(other_kind(tpe)) == old(self).packer(other_kind(tpe)),
            match r {
                Ok(writes) => if writes@.len() == 0 {
                    final(self).indexer() == old(self).indexer()
                } else {
                    let blobs = pack_of(writes@[0]).unwrap().index.blobs@;
                    &&& pack_of(writes@[0]).is_some()
                    &&& final(self).indexer().known_data() == old(self).indexer().known_data()
                        + crate::indexer::blob_ids(blobs, BlobType::Data)
                    &&& final(self).indexer().known_trees() == old(self).indexer().known_trees()
                        + crate::indexer::blob_ids(blobs, BlobType::Tree)
                    &&& final(self).indexer().spec_threshold() == old(
                        self,
                    ).indexer().spec_threshold()
                },
                Err(_) => final(self).indexer() == old(self).indexer(),
            },
            old(self).sorted() && data@.len() > u32::MAX && !(old(self).indexer().known(
                tpe,
            ).contains(id) || old(self).packer(tpe).open_ids().contains(id)) ==> r.is_err(),
            old(self).sorted() ==> match r {
                Ok(writes) => {
                    let known = old(self).indexer().known(tpe).contains(id) || old(self).packer(
                        tpe,
                    ).open_ids().contains(id);
                    &&& no_snapshot(writes@)
                    &&& writes@.len() <= 2
                    &&& known ==> writes@.len() == 0 && final(self).packer(tpe).open_blobs()
                        == old(self).packer(tpe).open_blobs()
                    &&& writes@.len() == 0 && !known ==> grown_by(
                        old(self).packer(tpe).open_blobs(),
                        final(self).packer(tpe).open_blobs(),
                        id,
                        data@,
                    )
                    &&& writes@.len() > 0 ==> {
                        &&& !known
                        &&& final(self).packer(tpe).open_blobs() == Seq::<Packed>::empty()
                        &&& pack_of(writes@[0]).is_some()
                        &&& exists|all: Seq<Packed>|
                            grown_by(old(self).packer(tpe).open_blobs(), all, id, data@)
                                && #[trigger] sealed_as(pack_of(writes@[0]).unwrap(), all, tpe)
                    }
                    &&& writes@.len() == 2 ==> index_of(writes@[1]).is_some()
                },
                Err(_) => {
                    let known = old(self).indexer().known(tpe).contains(id) || old(self).packer(
                        tpe,
                    ).open_ids().contains(id);
                    &&& !known
                    &&& final(self).packer(tpe).open_blobs() == old(self).packer(tpe).open_blobs()
                        || grown_by(
                        old(self).packer(tpe).open_blobs(),
                        final(self).packer(tpe).open_blobs(),
                        id,
                        data@,
                    )
                },
            },
    {
        if self.has(tpe, &id) {
            return Ok(Vec::new());
        }
        let stored = match tpe {
            BlobType::Data => self.data.encode(data),
            BlobType::Tree => self.trees.encode(data),
        };
        let ghost all = old(self).packer(tpe).open_blobs().push(
            Packed { id, data: data@, stored: stored@ },
        );
        proof {
            assert(all.drop_last() =~= old(self).packer(tpe).open_blobs());
            assert(grown_by(old(self).packer(tpe).open_blobs(), all, id, data@));
        }
        self.add_stored(tpe, data, id, stored)
    }

    /// Packs the blob `data` of kind `tpe` under the identifier `id`, given
    /// what the codec has made of it, and says what to write for it.
    ///
    /// A blob that the run has packed or holds in an open pack is dropped.
    /// A blob is refused, and nothing changes, where the plaintext or the
    /// stored bytes are more than four bytes can say, or where the open
    /// pack would outgrow that with them. Any other blob is put into the
    /// open pack of its kind, and nothing is to be written while the pack
    /// is below its target size. Once it has that size it is sealed: the
    /// pack is to be written, and behind it the index file where one is
    /// due. `TooLarge` comes, and the blob stays in the open pack, where
    /// the codec makes the header longer than four bytes can say.
    pub fn add_stored(&mut self, tpe: BlobType, data: &[u8], id: Id, stored: Vec<u8>) -> (r: Result<
        Vec<Write>,
        PackerError,
    >)
        ensures
            old(self).sorted() ==> final(self).sorted(),
            final(self).packer(other_kind(tpe)) == old(self).packer(other_kind(tpe)),
            match r {
                Ok(writes) => if writes@.len() == 0 {
                    final(self).indexer() == old(self).indexer()
                } else {
                    let blobs = pack_of(writes@[0]).unwrap().index.blobs@;
                    &&& pack_of(writes@[0]).is_some()
                    &&& final(self).indexer().known_data() == old(self).indexer().known_data()
                        + crate::indexer::blob_ids(blobs, BlobType::Data)
                    &&& final(self).indexer().known_trees() == old(self).indexer().known_trees()
                        + crate::indexer::blob_ids(blobs, BlobType::Tree)
                    &&& final(self).indexer().spec_threshold() == old(
                        self,
                    ).indexer().spec_threshold()
                },
                Err(_) => final(self).indexer() == old(self).indexer(),
            },
            old(self).sorted() ==> ({
                let before = old(self).packer(tpe).open_blobs();
                let all = before.push(Packed { id, data: data@, stored: stored@ });
                let known = old(self).indexer().known(tpe).contains(id) || old(self).packer(
                    tpe,
                ).open_ids().contains(id);
                let fits = data@.len() <= u32::MAX && stored@.len() <= u32::MAX && stored_total(
                    before,
                ) + stored@.len() <= u32::MAX;
                let open = final(self).packer(tpe).open_blobs();
                if known {
                    &&& r.is_ok()
                    &&& r.unwrap()@.len() == 0
                    &&& open == before
                    &&& final(self).indexer() == old(self).indexer()
                } else if !fits {
                    &&& r.is_err()
                    &&& open == before
                    &&& final(self).indexer() == old(self).indexer()
                } else if stored_total(all) < old(self).packer(tpe).target_size() {
                    &&& r.is_ok()
                    &&& r.unwrap()@.len() == 0
                    &&& open == all
                    &&& final(self).indexer() == old(self).indexer()
                } else {
                    match r {
                        Ok(writes) => {
                            &&& 1 <= writes@.len() <= 2
                            &&& no_snapshot(writes@)
                            &&& pack_of(writes@[0]).is_some()
                            &&& sealed_as(pack_of(writes@[0]).unwrap(), all, tpe)
                            &&& writes@.len() == 2 ==> index_of(writes@[1]).is_some()
                            &&& open == Seq::<Packed>::empty()
                            &&& final(self).indexer().known_data() == old(
                                self,
                            ).indexer().known_data() + crate::indexer::blob_ids(
                                pack_of(writes@[0]).unwrap().index.blobs@,
                                BlobType::Data,
                            )
                            &&& final(self).indexer().known_trees() == old(
                                self,
                            ).indexer().known_trees() + crate::indexer::blob_ids(
                                pack_of(writes@[0]).unwrap().index.blobs@,
                                BlobType::Tree,
                            )
                        },
                        Err(_) => open == all && final(self).indexer() == old(self).indexer(),
                    }
                }
            }),
    {
        let mut writes: Vec<Write> = Vec::new();
        if self.indexer.has(tpe, &id) {
            return Ok(writes);
        }
        let sealed_pack = match tpe {
            BlobType::Data => self.data.add_stored(data, id, stored),
            BlobType::Tree => self.trees.add_stored(data, id, stored),
        };
        match sealed_pack {
            Ok(Some(pack)) => {
                self.wrote(pack, &mut writes);
                proof {
                    if old(self).sorted() {
                        let all = old(self).packer(tpe).open_blobs().push(
                            Packed { id, data: data@, stored: stored@ },
                        );
                        assert(sealed(pack, all, tpe));
                        assert(same_pack(pack_of(writes@[0]).unwrap(), pack));
                        assert(sealed_as(pack_of(writes@[0]).unwrap(), all, tpe));
                    }
                }
                Ok(writes)
            },
            Ok(None) => Ok(writes),
            Err(e) => Err(e),
        }
    }

    /// Ends the run: the open packs are sealed and written, the data pack
    /// first; every pack that no index file describes yet is described in
    /// one; and last of all come the snapshots, so that a snapshot that is
    /// there has all its blobs.
    ///
    /// A run whose packs are both empty always ends well. Where a pack
    /// holds blobs, its header goes through the codec, and `TooLarge`
    /// comes, and nothing is to be written, where what comes back does not
    /// fit into the pack.
    pub fn finalize(self, snapshots: &Vec<SnapshotFile>) -> (r: Result<Vec<Write>, PackerError>)
        ensures
            self.data().open_blobs().len() == 0 && self.trees().open_blobs().len() == 0
                ==> r.is_ok(),
            match r {
                Ok(writes) => {
                    let data = self.data().open_blobs();
                    let trees = self.trees().open_blobs();
                    let packs = packs_of(writes@);
                    &&& snapshots_last(writes@, snapshots@)
                    &&& packs.len() == if data.len() > 0 {
                        1int
                    } else {
                        0int
                    } + if trees.len() > 0 {
                        1int
                    } else {
                        0int
                    }
                    &&& data.len() > 0 ==> sealed_as(packs.first(), data, self.data().blob_type())
                    &&& trees.len() > 0 ==> sealed_as(
                        packs.last(),
                        trees,
                        self.trees().blob_type(),
                    )
                    &&& live_of(writes@) == descriptions(self.indexer().pending())
                        + pack_descriptions(packs)
                    &&& superseded_of(writes@) == descriptions(self.indexer().pending_to_delete())
                },
                Err(e) => e == PackerError::TooLarge && (self.data().open_blobs().len() > 0
                    || self.trees().open_blobs().len() > 0),
            },
    {
        let ghost data = self.data.open_blobs();
        let ghost trees = self.trees.open_blobs();
        let ghost live = descriptions(self.indexer.pending());
        let ghost superseded = descriptions(self.indexer.pending_to_delete());
        let mut run = self;
        let mut writes: Vec<Write> = Vec::new();
        proof {
            assert(Seq::<Described>::empty() + live =~= live + pack_descriptions(
                packs_of(writes@),
            ));
            assert(Seq::<Described>::empty() + superseded =~= superseded);
        }
        match run.data.finalize() {
            Ok(Some(pack)) => {
                run.wrote(pack, &mut writes);
                proof {
                    let packs = packs_of(writes@);
                    assert(packs.first() == packs.last());
                    assert(sealed_as(packs.first(), data, run.data.blob_type()));
                    assert(pack_descriptions(packs) =~= seq![described(pack.index)]);
                    assert(live_of(writes@) + descriptions(run.indexer.pending()) =~= live
                        + pack_descriptions(packs));
                }
            },
            Ok(None) => {},
            Err(e) => {
                return Err(e);
            },
        }
        let ghost first = packs_of(writes@);
        match run.trees.finalize() {
            Ok(Some(pack)) => {
                run.wrote(pack, &mut writes);
                proof {
                    let packs = packs_of(writes@);
                    assert(packs =~= first.push(packs.last()));
                    assert(sealed_as(packs.last(), trees, run.trees.blob_type()));
                    assert(pack_descriptions(packs) =~= pack_descriptions(first).push(
                        described(pack.index),
                    ));
                    assert(live_of(writes@) + descriptions(run.indexer.pending()) =~= live
                        + pack_descriptions(packs));
                    if data.len() > 0 {
                        assert(packs.first() == first.first());
                    }
                }
            },
            Ok(None) => {},
            Err(e) => {
                return Err(e);
            },
        }
        let Writer { data: _, trees: _, indexer } = run;
        let ghost before = writes@;
        let ghost packs = packs_of(before);
        match indexer.finalize() {
            Some(file) => {
                proof {
                    lemma_one_more(before, Write::Index(file));
                }
                writes.push(Write::Index(file));
                proof {
                    assert forall|i: int| 0 <= i < writes@.len() implies !(#[trigger] writes@[i]
                        is Snapshot) by {
                        if i < before.len() {
                            assert(writes@[i] == before[i]);
                        }
                    }
                }
            },
            None => {
                proof {
                    assert(descriptions(indexer.pending()) =~= Seq::<Described>::empty());
                    assert(descriptions(indexer.pending_to_delete()) =~= Seq::<Described>::empty());
                    assert(live_of(before) + Seq::<Described>::empty() =~= live_of(before));
                    assert(superseded_of(before) + Seq::<Described>::empty() =~= superseded_of(
                        before,
                    ));
                }
            },
        }
        let ghost packed = writes@;
        let mut k: usize = 0;
        assert(writes@.subrange(0, packed.len() as int) =~= packed);
        while k < snapshots.len()
            invariant
                0 <= k <= snapshots@.len(),
                no_snapshot(packed),
                writes@.len() == packed.len() + k,
                writes@.subrange(0, packed.len() as int) == packed,
                packs_of(writes@) == packs,
                live_of(writes@) == live + pack_descriptions(packs),
                superseded_of(writes@) == superseded,
                forall|i: int|
                    0 <= i < k ==> writes_snapshot(
                        #[trigger] writes@[packed.len() + i],
                        snapshots@[i],
                    ),
            decreases snapshots@.len() - k,
        {
            let ghost had = writes@;
            let (bytes, id) = snapshots[k].serialize();
            proof {
                lemma_one_more(had, Write::Snapshot(id, bytes));
            }
            writes.push(Write::Snapshot(id, bytes));
            proof {
                assert(writes@.subrange(0, packed.len() as int) =~= had.subrange(
                    0,
                    packed.len() as int,
                ));
                assert forall|i: int| 0 <= i < k + 1 implies writes_snapshot(
                    #[trigger] writes@[packed.len() + i],
                    snapshots@[i],
                ) by {
                    if i < k {
                        assert(writes@[packed.len() + i] == had[packed.len() + i]);
                    }
                }
            }
            k += 1;
        }
        Ok(writes)
    }
}

/// The other kind of blob.
pub open spec fn other_kind(tpe: BlobType) -> BlobType {
    match tpe {
        BlobType::Data => BlobType::Tree,
        BlobType::Tree => BlobType::Data,
    }
}

/// The pack of a write.
pub open spec fn pack_of(w: Write) -> Option<SealedPack> {
    match w {
        Write::Pack(p) => Some(p),
        _ => None,
    }
}

/// The index file of a write.
pub open spec fn index_of(w: Write) -> Option<IndexFile> {
    match w {
        Write::Index(file) => Some(file),
        _ => None,
    }
}

/// Whether two packs are the same but for the description of their blobs,
/// which lists the same blobs.
pub open spec fn same_pack(a: SealedPack, b: SealedPack) -> bool {
    &&& a.id == b.id
    &&& a.bytes == b.bytes
    &&& a.payload_len == b.payload_len
    &&& a.header == b.header
    &&& a.index.id == b.index.id
    &&& a.index.blobs@ == b.index.blobs@
    &&& a.index.size == b.index.size
}

/// Whether `pack` is a sealed pack of the blobs `all`, but for the
/// description of its blobs, which is a copy.
pub open spec fn sealed_as(pack: SealedPack, all: Seq<Packed>, tpe: BlobType) -> bool {
    exists|original: SealedPack| #[trigger] sealed(original, all, tpe) && same_pack(pack, original)
}

} // verus!
