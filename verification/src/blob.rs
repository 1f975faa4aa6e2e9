//! Blobs as the index files and pack headers describe them.

use vstd::prelude::*;
use crate::id::Id;

verus! {

/// The two kinds of blob a repository holds.
#[derive(Clone, Copy, Debug, PartialEq, Eq, Structural, Hash)]
pub enum BlobType {
    Tree,
    Data,
}

/// Bytes that the repository codec adds to whatever it encodes without
/// compressing it: a 16-byte nonce and a 16-byte authentication tag.
pub const CODEC_OVERHEAD: u32 = 32;

/// Bytes of the length field that ends a pack.
pub const LENGTH_LEN: u32 = 4;

/// Bytes of a header record without an uncompressed length: one type byte,
/// four length bytes and the identifier.
pub const ENTRY_LEN: u32 = 37;

/// Bytes of a header record with an uncompressed length.
pub const ENTRY_LEN_COMPRESSED: u32 = 41;

/// One blob of a pack: what it is, and where it lies in the pack.
#[derive(Clone, Copy, Debug, PartialEq, Eq, Hash)]
pub struct IndexBlob {
    pub id: Id,
    pub tpe: BlobType,
    /// First byte of the stored blob within the pack.
    pub offset: u32,
    /// Stored bytes of the blob.
    pub length: u32,
    /// Plaintext bytes, recorded where the blob was compressed.
    pub uncompressed_length: Option<u32>,
}

/// A value capped at the largest `u32`.
pub open spec fn clip32(n: int) -> u32 {
    if n > u32::MAX {
        u32::MAX
    } else if n < 0 {
        0u32
    } else {
        n as u32
    }
}

/// A value capped at the largest `u64`.
pub open spec fn clip64(n: int) -> u64 {
    if n > u64::MAX {
        u64::MAX
    } else if n < 0 {
        0u64
    } else {
        n as u64
    }
}

impl IndexBlob {
    /// Plaintext bytes of the blob: the recorded uncompressed length, or the
    /// stored length less what the codec adds.
    pub open spec fn spec_data_length(self) -> u32 {
        match self.uncompressed_length {
            Some(n) => n,
            None => clip32(self.length - CODEC_OVERHEAD),
        }
    }

    /// Plaintext bytes of the blob.
    pub fn data_length(&self) -> (n: u32)
        ensures
            n == self.spec_data_length(),
    {
        match self.uncompressed_length {
            Some(n) => n,
            None => self.length.saturating_sub(CODEC_OVERHEAD),
        }
    }

    /// Bytes of the header record of the blob.
    pub open spec fn spec_entry_len(self) -> u32 {
        if self.uncompressed_length.is_some() {
            ENTRY_LEN_COMPRESSED
        } else {
            ENTRY_LEN
        }
    }

    /// Bytes of the header record of the blob.
    pub fn entry_len(&self) -> (n: u32)
        ensures
            n == self.spec_entry_len(),
    {
        if self.uncompressed_length.is_some() {
            ENTRY_LEN_COMPRESSED
        } else {
            ENTRY_LEN
        }
    }
}

/// Bytes of all header records of `blobs`.
pub open spec fn entries_len(blobs: Seq<IndexBlob>) -> nat
    decreases blobs.len(),
{
    if blobs.len() == 0 {
        0
    } else {
        entries_len(blobs.drop_last()) + blobs.last().spec_entry_len() as nat
    }
}

/// Stored bytes of all of `blobs`.
pub open spec fn stored_len(blobs: Seq<IndexBlob>) -> nat
    decreases blobs.len(),
{
    if blobs.len() == 0 {
        0
    } else {
        stored_len(blobs.drop_last()) + blobs.last().length as nat
    }
}

/// Bytes of the encoded header of a pack of `blobs`, capped at the largest
/// `u32`.
pub open spec fn header_size(blobs: Seq<IndexBlob>) -> u32 {
    clip32(CODEC_OVERHEAD + entries_len(blobs))
}

/// Bytes of a whole pack of `blobs`: the payload, the encoded header and the
/// length field, capped at the largest `u32`.
pub open spec fn computed_pack_size(blobs: Seq<IndexBlob>) -> u32 {
    clip32(stored_len(blobs) + CODEC_OVERHEAD + entries_len(blobs) + LENGTH_LEN)
}

/// A pack as an index file describes it.
#[derive(Clone, Debug, PartialEq, Eq)]
pub struct IndexPack {
    pub id: Id,
    pub blobs: Vec<IndexBlob>,
    /// Bytes of the pack file, where the index file records them.
    pub size: Option<u32>,
}

impl IndexPack {
    /// Bytes of the pack file: as recorded, else as computed from the blobs.
    pub open spec fn spec_pack_size(self) -> u32 {
        match self.size {
            Some(n) => n,
            None => computed_pack_size(self.blobs@),
        }
    }

    /// Bytes of the encoded header, as computed from the blobs.
    pub fn header_size(&self) -> (n: u32)
        ensures
            n == header_size(self.blobs@),
    {
        let mut total: u64 = CODEC_OVERHEAD as u64;
        let mut i: usize = 0;
        assert(self.blobs@.subrange(0, 0) =~= Seq::<IndexBlob>::empty());
        while i < self.blobs.len()
            invariant
                0 <= i <= self.blobs@.len(),
                total <= u32::MAX + 1,
                total == CODEC_OVERHEAD + entries_len(self.blobs@.subrange(0, i as int)) || (total
                    == u32::MAX + 1 && CODEC_OVERHEAD + entries_len(
                    self.blobs@.subrange(0, i as int),
                ) > u32::MAX),
            decreases self.blobs@.len() - i,
        {
            let step: u64 = self.blobs[i].entry_len() as u64;
            proof {
                let next = self.blobs@.subrange(0, i + 1);
                assert(next.drop_last() =~= self.blobs@.subrange(0, i as int));
                assert(next.last() == self.blobs@[i as int]);
            }
            total = total + step;
            if total > u32::MAX as u64 {
                total = u32::MAX as u64 + 1;
            }
            i += 1;
        }
        assert(self.blobs@.subrange(0, i as int) =~= self.blobs@);
        if total > u32::MAX as u64 {
            u32::MAX
        } else {
            total as u32
        }
    }

    /// Bytes of the pack file: as recorded, else as computed from the blobs.
    pub fn pack_size(&self) -> (n: u32)
        ensures
            n == self.spec_pack_size(),
    {
        match self.size {
            Some(n) => n,
            None => {
                let mut total: u64 = (CODEC_OVERHEAD + LENGTH_LEN) as u64;
                let mut i: usize = 0;
                assert(self.blobs@.subrange(0, 0) =~= Seq::<IndexBlob>::empty());
                while i < self.blobs.len()
                    invariant
                        0 <= i <= self.blobs@.len(),
                        total <= u32::MAX + 1,
                        total == pack_total(self.blobs@.subrange(0, i as int)) || (total
                            == u32::MAX + 1 && pack_total(self.blobs@.subrange(0, i as int))
                            > u32::MAX),
                    decreases self.blobs@.len() - i,
                {
                    let blob = &self.blobs[i];
                    let step: u64 = blob.length as u64 + blob.entry_len() as u64;
                    proof {
                        let next = self.blobs@.subrange(0, i + 1);
                        assert(next.drop_last() =~= self.blobs@.subrange(0, i as int));
                        assert(next.last() == self.blobs@[i as int]);
                    }
                    total = total + step;
                    if total > u32::MAX as u64 {
                        total = u32::MAX as u64 + 1;
                    }
                    i += 1;
                }
                assert(self.blobs@.subrange(0, i as int) =~= self.blobs@);
                if total > u32::MAX as u64 {
                    u32::MAX
                } else {
                    total as u32
                }
            },
        }
    }
}

/// Uncapped bytes of a whole pack of `blobs`.
pub open spec fn pack_total(blobs: Seq<IndexBlob>) -> nat {
    stored_len(blobs) + CODEC_OVERHEAD as nat + entries_len(blobs) + LENGTH_LEN as nat
}

/// One index file: the packs it describes, live ones and ones that are
/// superseded and wait to be pruned.
#[derive(Clone, Debug, PartialEq, Eq)]
pub struct IndexFile {
    pub packs: Vec<IndexPack>,
    pub packs_to_delete: Vec<IndexPack>,
}

impl IndexFile {
    /// An index file that describes no pack.
    pub fn new() -> (file: IndexFile)
        ensures
            file.packs@.len() == 0,
            file.packs_to_delete@.len() == 0,
    {
        IndexFile { packs: Vec::new(), packs_to_delete: Vec::new() }
    }

    /// Adds a pack to the live list, or to the superseded one.
    pub fn add(&mut self, pack: IndexPack, to_delete: bool)
        ensures
            to_delete ==> final(self).packs@ == old(self).packs@ && final(self).packs_to_delete@
                == old(self).packs_to_delete@.push(pack),
            !to_delete ==> final(self).packs@ == old(self).packs@.push(pack)
                && final(self).packs_to_delete@ == old(self).packs_to_delete@,
    {
        if to_delete {
            self.packs_to_delete.push(pack);
        } else {
            self.packs.push(pack);
        }
    }
}

} // verus!
