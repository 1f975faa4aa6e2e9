//! The in-memory blob catalog that readers consult: for every blob
//! identifier, the one place where the blob is stored.

use vstd::prelude::*;
use crate::blob::{BlobType, IndexBlob, IndexFile, IndexPack};
use crate::id::Id;
use crate::idmap::IdMap;

verus! {

/// Where a blob is stored.
#[derive(Clone, Copy, Debug, PartialEq, Eq, Hash)]
pub struct IndexEntry {
    pub pack: Id,
    pub blob_type: BlobType,
    pub offset: u32,
    pub length: u32,
    pub uncompressed_length: Option<u32>,
}

impl IndexEntry {
    /// The blob record that the entry came from.
    pub open spec fn blob(self, id: Id) -> IndexBlob {
        IndexBlob {
            id,
            tpe: self.blob_type,
            offset: self.offset,
            length: self.length,
            uncompressed_length: self.uncompressed_length,
        }
    }

    /// Plaintext bytes of the blob.
    pub open spec fn spec_data_length(self) -> u32 {
        self.blob(Id::zero()).spec_data_length()
    }

    /// Plaintext bytes of the blob.
    pub fn data_length(&self) -> (n: u32)
        ensures
            n == self.spec_data_length(),
    {
        match self.uncompressed_length {
            Some(n) => n,
            None => self.length.saturating_sub(crate::blob::CODEC_OVERHEAD),
        }
    }
}

/// The entry for blob `b` of pack `pack`.
pub open spec fn entry_of(pack: Id, b: IndexBlob) -> IndexEntry {
    IndexEntry {
        pack,
        blob_type: b.tpe,
        offset: b.offset,
        length: b.length,
        uncompressed_length: b.uncompressed_length,
    }
}

/// `m` with the blobs of kind `tpe` among `blobs`, in order; an identifier
/// that is already there keeps its entry.
pub open spec fn with_blobs(
    m: Map<Id, IndexEntry>,
    pack: Id,
    blobs: Seq<IndexBlob>,
    tpe: BlobType,
) -> Map<Id, IndexEntry>
    decreases blobs.len(),
{
    if blobs.len() == 0 {
        m
    } else {
        let before = with_blobs(m, pack, blobs.drop_last(), tpe);
        let b = blobs.last();
        if b.tpe == tpe && !before.contains_key(b.id) {
            before.insert(b.id, entry_of(pack, b))
        } else {
            before
        }
    }
}

/// `m` with the blobs of kind `tpe` of `packs`, in order.
pub open spec fn with_packs(m: Map<Id, IndexEntry>, packs: Seq<IndexPack>, tpe: BlobType) -> Map<
    Id,
    IndexEntry,
>
    decreases packs.len(),
{
    if packs.len() == 0 {
        m
    } else {
        with_blobs(with_packs(m, packs.drop_last(), tpe), packs.last().id, packs.last().blobs@, tpe)
    }
}

/// `m` with the blobs of kind `tpe` of the live packs of `files`, in order.
pub open spec fn with_files(m: Map<Id, IndexEntry>, files: Seq<IndexFile>, tpe: BlobType) -> Map<
    Id,
    IndexEntry,
>
    decreases files.len(),
{
    if files.len() == 0 {
        m
    } else {
        with_packs(with_files(m, files.drop_last(), tpe), files.last().packs@, tpe)
    }
}

/// The blob catalog of a repository, built from its index files.
///
/// Only live packs count. Where several packs hold a blob, the first one
/// in the order of the index files is where the blob is read from.
pub struct IndexBackend {
    trees: IdMap<IndexEntry>,
    data: IdMap<IndexEntry>,
}

impl IndexBackend {
    /// The catalog of tree blobs.
    pub closed spec fn trees(&self) -> Map<Id, IndexEntry> {
        self.trees@
    }

    /// The catalog of data blobs.
    pub closed spec fn data(&self) -> Map<Id, IndexEntry> {
        self.data@
    }

    /// The catalog of blobs of kind `tpe`.
    pub open spec fn blobs(&self, tpe: BlobType) -> Map<Id, IndexEntry> {
        match tpe {
            BlobType::Tree => self.trees(),
            BlobType::Data => self.data(),
        }
    }

    /// The catalog of a repository without index files.
    pub fn empty() -> (index: IndexBackend)
        ensures
            index.trees() == Map::<Id, IndexEntry>::empty(),
            index.data() == Map::<Id, IndexEntry>::empty(),
    {
        IndexBackend { trees: IdMap::new(), data: IdMap::new() }
    }

    /// Adds the blobs of one pack.
    pub fn add_pack(&mut self, pack: &IndexPack)
        ensures
            final(self).trees() == with_blobs(
                old(self).trees(),
                pack.id,
                pack.blobs@,
                BlobType::Tree,
            ),
            final(self).data() == with_blobs(old(self).data(), pack.id, pack.blobs@, BlobType::Data),
    {
        let mut i: usize = 0;
        assert(pack.blobs@.subrange(0, 0) =~= Seq::<IndexBlob>::empty());
        while i < pack.blobs.len()
            invariant
                0 <= i <= pack.blobs@.len(),
                self.trees() == with_blobs(
                    old(self).trees(),
                    pack.id,
                    pack.blobs@.subrange(0, i as int),
                    BlobType::Tree,
                ),
                self.data() == with_blobs(
                    old(self).data(),
                    pack.id,
                    pack.blobs@.subrange(0, i as int),
                    BlobType::Data,
                ),
            decreases pack.blobs@.len() - i,
        {
            let b = &pack.blobs[i];
            let entry = IndexEntry {
                pack: pack.id,
                blob_type: b.tpe,
                offset: b.offset,
                length: b.length,
                uncompressed_length: b.uncompressed_length,
            };
            proof {
                let next = pack.blobs@.subrange(0, i + 1);
                assert(next.drop_last() =~= pack.blobs@.subrange(0, i as int));
                assert(next.last() == pack.blobs@[i as int]);
            }
            match b.tpe {
                BlobType::Tree => {
                    if !self.trees.contains(&b.id) {
                        self.trees.insert(b.id, entry);
                    }
                },
                BlobType::Data => {
                    if !self.data.contains(&b.id) {
                        self.data.insert(b.id, entry);
                    }
                },
            }
            i += 1;
        }
        assert(pack.blobs@.subrange(0, i as int) =~= pack.blobs@);
    }

    /// Adds the blobs of the live packs of one index file.
    pub fn add_file(&mut self, file: &IndexFile)
        ensures
            final(self).trees() == with_packs(old(self).trees(), file.packs@, BlobType::Tree),
            final(self).data() == with_packs(old(self).data(), file.packs@, BlobType::Data),
    {
        let mut i: usize = 0;
        assert(file.packs@.subrange(0, 0) =~= Seq::<IndexPack>::empty());
        while i < file.packs.len()
            invariant
                0 <= i <= file.packs@.len(),
                self.trees() == with_packs(
                    old(self).trees(),
                    file.packs@.subrange(0, i as int),
                    BlobType::Tree,
                ),
                self.data() == with_packs(
                    old(self).data(),
                    file.packs@.subrange(0, i as int),
                    BlobType::Data,
                ),
            decreases file.packs@.len() - i,
        {
            proof {
                let next = file.packs@.subrange(0, i + 1);
                assert(next.drop_last() =~= file.packs@.subrange(0, i as int));
                assert(next.last() == file.packs@[i as int]);
            }
            self.add_pack(&file.packs[i]);
            i += 1;
        }
        assert(file.packs@.subrange(0, i as int) =~= file.packs@);
    }

    /// The catalog of a repository with the given index files.
    pub fn new(files: &Vec<IndexFile>) -> (index: IndexBackend)
        ensures
            index.trees() == with_files(Map::empty(), files@, BlobType::Tree),
            index.data() == with_files(Map::empty(), files@, BlobType::Data),
    {
        let mut index = IndexBackend::empty();
        let mut i: usize = 0;
        assert(files@.subrange(0, 0) =~= Seq::<IndexFile>::empty());
        while i < files.len()
            invariant
                0 <= i <= files@.len(),
                index.trees() == with_files(
                    Map::empty(),
                    files@.subrange(0, i as int),
                    BlobType::Tree,
                ),
                index.data() == with_files(Map::empty(), files@.subrange(0, i as int), BlobType::Data),
            decreases files@.len() - i,
        {
            proof {
                let next = files@.subrange(0, i + 1);
                assert(next.drop_last() =~= files@.subrange(0, i as int));
                assert(next.last() == files@[i as int]);
            }
            index.add_file(&files[i]);
            i += 1;
        }
        assert(files@.subrange(0, i as int) =~= files@);
        index
    }

    /// Where the blob `id` of kind `tpe` is stored.
    pub fn get_id(&self, tpe: BlobType, id: &Id) -> (r: Option<IndexEntry>)
        ensures
            match r {
                Some(e) => self.blobs(tpe).contains_key(*id) && e == self.blobs(tpe)[*id],
                None => !self.blobs(tpe).contains_key(*id),
            },
    {
        let found = match tpe {
            BlobType::Tree => self.trees.get(id),
            BlobType::Data => self.data.get(id),
        };
        match found {
            Some(e) => Some(*e),
            None => None,
        }
    }

    /// Where the tree blob `id` is stored.
    pub fn get_tree(&self, id: &Id) -> (r: Option<IndexEntry>)
        ensures
            match r {
                Some(e) => self.trees().contains_key(*id) && e == self.trees()[*id],
                None => !self.trees().contains_key(*id),
            },
    {
        self.get_id(BlobType::Tree, id)
    }

    /// Where the data blob `id` is stored.
    pub fn get_data(&self, id: &Id) -> (r: Option<IndexEntry>)
        ensures
            match r {
                Some(e) => self.data().contains_key(*id) && e == self.data()[*id],
                None => !self.data().contains_key(*id),
            },
    {
        self.get_id(BlobType::Data, id)
    }

    /// Whether the catalog holds the tree blob `id`.
    pub fn has_tree(&self, id: &Id) -> (r: bool)
        ensures
            r == self.trees().contains_key(*id),
    {
        self.trees.contains(id)
    }

    /// Whether the catalog holds the data blob `id`.
    pub fn has_data(&self, id: &Id) -> (r: bool)
        ensures
            r == self.data().contains_key(*id),
    {
        self.data.contains(id)
    }
}

} // verus!
