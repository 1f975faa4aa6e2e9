//! The packer: blobs of one kind are encoded, gathered in a pack, and the
//! pack is sealed once it has grown to its target size.

use vstd::prelude::*;
use vstd::slice::slice_to_vec;
use crate::blob::{BlobType, IndexBlob, IndexPack, CODEC_OVERHEAD};
use crate::hasher::{content_id, hash};
use crate::id::Id;
use crate::idmap::IdSet;
use crate::indexer::Indexer;
use crate::packfile::{
    assemble_pack, end_of, header_bytes, header_range, laid_out, lemma_locate_assembled,
    lemma_parse_header, pack_bytes, parse_entries, write_header, HeaderRange, PackError,
};
use crate::wire::push_bytes;

verus! {

/// The transform under which a repository stores its objects.
///
/// The library promises nothing of a codec and asks nothing of it: what
/// `encode` returns is stored as it comes. Encoding may differ from call
/// to call, as encryption draws a fresh nonce.
pub trait Codec {
    /// Encodes a plaintext.
    fn encode(&self, data: &[u8]) -> (stored: Vec<u8>);

    /// Decodes stored bytes; `None` where they were not encoded with this
    /// codec.
    fn decode(&self, stored: &[u8]) -> (data: Option<Vec<u8>>);
}

/// The codec that stores every object as it is.
#[derive(Clone, Copy, Debug)]
pub struct Plain;

impl Codec for Plain {
    /// The plaintext itself is what is stored.
    fn encode(&self, data: &[u8]) -> (stored: Vec<u8>)
        ensures
            stored@ == data@,
    {
        slice_to_vec(data)
    }

    /// What is stored is the plaintext: every byte string decodes, to
    /// itself.
    fn decode(&self, stored: &[u8]) -> (data: Option<Vec<u8>>)
        ensures
            data.is_some(),
            data.unwrap()@ == stored@,
    {
        Some(slice_to_vec(stored))
    }
}

/// A blob as it was added to a pack.
pub ghost struct Packed {
    /// The identifier under which it was added.
    pub id: Id,
    /// Its plaintext.
    pub data: Seq<u8>,
    /// What the codec made of the plaintext.
    pub stored: Seq<u8>,
}

/// Bytes of stored blobs at which a pack is sealed unless the caller says
/// otherwise: 16 MiB. With chunks of 8 MiB at most, a pack of file data
/// stays below 32 MiB.
pub const DEFAULT_PACK_SIZE: u32 = 16777216;

/// Why a blob could not be packed.
#[derive(Clone, Copy, Debug, PartialEq, Eq, Structural)]
pub enum PackerError {
    /// The pack, the blob or the header would outgrow what four bytes can
    /// address.
    TooLarge,
}

/// A pack that is ready to be written.
#[derive(Debug)]
pub struct SealedPack {
    /// The identifier of the pack: the hash of its encoded header.
    pub id: Id,
    /// The bytes of the pack file.
    pub bytes: Vec<u8>,
    /// Bytes of the stored blobs, which is where the encoded header
    /// begins.
    pub payload_len: u32,
    /// The header before it was encoded: the records of the blobs.
    pub header: Vec<u8>,
    /// The description of the pack for the index.
    pub index: IndexPack,
}

/// Whether the blobs of a pack are the blobs that were added, each stored
/// where its record says, as the codec encoded it.
pub open spec fn holds(
    payload: Seq<u8>,
    blobs: Seq<IndexBlob>,
    added: Seq<Packed>,
    tpe: BlobType,
) -> bool {
    &&& blobs.len() == added.len()
    &&& forall|i: int|
        0 <= i < blobs.len() ==> {
            let b = #[trigger] blobs[i];
            &&& b.id == added[i].id
            &&& b.tpe == tpe
            &&& b.offset + b.length <= payload.len()
            &&& payload.subrange(b.offset as int, b.offset + b.length) == added[i].stored
            &&& b.spec_data_length() == added[i].data.len()
        }
}

/// Whether no two of the blobs `added` have the same identifier.
pub open spec fn distinct(added: Seq<Packed>) -> bool {
    forall|i: int, j: int|
        0 <= i < j < added.len() ==> (#[trigger] added[i]).id != (#[trigger] added[j]).id
}

/// Whether `pack` is a pack of the blobs `added`, in order: the stored
/// blobs lie one behind the other from the start of the pack up to the
/// header, no two of them have the same identifier, the pack ends with the
/// length of the header, and it is named by the hash of its encoded
/// header.
pub open spec fn sealed(pack: SealedPack, added: Seq<Packed>, tpe: BlobType) -> bool {
    let n = pack.payload_len as int;
    let payload = pack.bytes@.subrange(0, n);
    let header = pack.bytes@.subrange(n, pack.bytes@.len() - 4);
    &&& n + 4 <= pack.bytes@.len()
    &&& pack.bytes@ == pack_bytes(payload, header)
    &&& header.len() <= u32::MAX
    &&& pack.header@ == header_bytes(pack.index.blobs@)
    &&& pack.id == content_id(header)
    &&& pack.index.id == pack.id
    &&& pack.index.size == if pack.bytes@.len() <= u32::MAX {
        Some(pack.bytes@.len() as u32)
    } else {
        None
    }
    &&& laid_out(pack.index.blobs@, 0)
    &&& end_of(pack.index.blobs@, 0) == n
    &&& holds(payload, pack.index.blobs@, added, tpe)
    &&& distinct(added)
}

/// The identifiers of the blobs `added`.
pub open spec fn packed_ids(added: Seq<Packed>) -> Set<Id> {
    Set::new(|id: Id| exists|i: int| 0 <= i < added.len() && (#[trigger] added[i]).id == id)
}

/// Bytes of what the codec made of the blobs `added`.
pub open spec fn stored_total(added: Seq<Packed>) -> nat
    decreases added.len(),
{
    if added.len() == 0 {
        0
    } else {
        stored_total(added.drop_last()) + added.last().stored.len()
    }
}

/// Whether `after` is `before` with the blob `data` added under `id`.
pub open spec fn grown_by(before: Seq<Packed>, after: Seq<Packed>, id: Id, data: Seq<u8>) -> bool {
    &&& after.len() == before.len() + 1
    &&& after.drop_last() == before
    &&& after.last().id == id
    &&& after.last().data == data
}

/// The pack that blobs are gathered in.
struct OpenPack {
    payload: Vec<u8>,
    blobs: Vec<IndexBlob>,
    in_pack: IdSet,
    added: Ghost<Seq<Packed>>,
}

impl OpenPack {
    /// Whether the pack is in order: its records say where its blobs lie,
    /// and what it knows of its blobs is right.
    spec fn wf(&self, tpe: BlobType) -> bool {
        &&& laid_out(self.blobs@, 0)
        &&& end_of(self.blobs@, 0) == self.payload@.len()
        &&& self.payload@.len() <= u32::MAX
        &&& self.payload@.len() == stored_total(self.added@)
        &&& holds(self.payload@, self.blobs@, self.added@, tpe)
        &&& distinct(self.added@)
        &&& forall|id: Id|
            self.in_pack@.contains(id) <==> exists|i: int|
                0 <= i < self.added@.len() && (#[trigger] self.added@[i]).id == id
    }

    fn empty(Ghost(tpe): Ghost<BlobType>) -> (r: OpenPack)
        ensures
            r.wf(tpe),
            r.added@ == Seq::<Packed>::empty(),
            r.blobs@.len() == 0,
    {
        OpenPack {
            payload: Vec::new(),
            blobs: Vec::new(),
            in_pack: IdSet::new(),
            added: Ghost(Seq::empty()),
        }
    }
}

/// Puts a pack together from its stored blobs, the description of its
/// blobs, its header, and the header as the codec has encoded it: the
/// stored blobs, the encoded header and its length make the file, and the
/// hash of the encoded header names the pack. There is no pack where the
/// stored blobs or the encoded header are longer than four bytes can say.
pub fn seal_pack(
    payload: Vec<u8>,
    blobs: Vec<IndexBlob>,
    header: Vec<u8>,
    stored_header: &[u8],
) -> (r: Option<SealedPack>)
    ensures
        r.is_some() <==> payload@.len() <= u32::MAX && stored_header@.len() <= u32::MAX,
        r.is_some() ==> {
            let pack = r.unwrap();
            &&& pack.bytes@ == pack_bytes(payload@, stored_header@)
            &&& pack.payload_len == payload@.len()
            &&& pack.header == header
            &&& pack.id == content_id(stored_header@)
            &&& pack.index.id == pack.id
            &&& pack.index.blobs == blobs
            &&& pack.index.size == if pack.bytes@.len() <= u32::MAX {
                Some(pack.bytes@.len() as u32)
            } else {
                None
            }
        },
{
    if payload.len() > u32::MAX as usize || stored_header.len() > u32::MAX as usize {
        return None;
    }
    let id = hash(stored_header);
    let payload_len = payload.len() as u32;
    let bytes = assemble_pack(payload, stored_header).unwrap();
    let size = if bytes.len() <= u32::MAX as usize {
        Some(bytes.len() as u32)
    } else {
        None
    };
    Some(SealedPack { id, bytes, payload_len, header, index: IndexPack { id, blobs, size } })
}

/// Gathers blobs of one kind into packs.
pub struct Packer<C: Codec> {
    codec: C,
    tpe: BlobType,
    target: u32,
    open: OpenPack,
}

/// Blobs that lie one behind the other still do with one more behind them.
pub proof fn lemma_laid_out_push(blobs: Seq<IndexBlob>, from: nat, b: IndexBlob)
    requires
        laid_out(blobs, from),
        b.offset == end_of(blobs, from),
    ensures
        laid_out(blobs.push(b), from),
        end_of(blobs.push(b), from) == end_of(blobs, from) + b.length,
    decreases blobs.len(),
{
    if blobs.len() == 0 {
        assert(blobs.push(b).drop_first() =~= Seq::<IndexBlob>::empty());
        assert(blobs.push(b).first() == b);
        assert(laid_out(blobs.push(b).drop_first(), from + b.length as nat));
        assert(end_of(blobs.push(b).drop_first(), from + b.length as nat) == from + b.length);
    } else {
        assert(blobs.push(b).drop_first() =~= blobs.drop_first().push(b));
        assert(blobs.push(b).first() == blobs.first());
        lemma_laid_out_push(blobs.drop_first(), from + blobs.first().length as nat, b);
    }
}

impl<C: Codec> Packer<C> {
    #[verifier::type_invariant]
    spec fn inv(self) -> bool {
        self.open.wf(self.tpe)
    }

    /// The blobs added to the open pack, each with its plaintext and with
    /// what the codec made of it.
    pub closed spec fn open_blobs(&self) -> Seq<Packed> {
        self.open.added@
    }

    /// The identifiers of the blobs in the open pack.
    pub open spec fn open_ids(&self) -> Set<Id> {
        packed_ids(self.open_blobs())
    }

    /// The kind of blob that the packer packs.
    pub closed spec fn blob_type(&self) -> BlobType {
        self.tpe
    }

    /// Bytes of stored blobs at which a pack is sealed.
    pub closed spec fn target_size(&self) -> u32 {
        self.target
    }

    /// A packer for blobs of kind `tpe`, which seals a pack once its stored
    /// blobs have `target` bytes or more.
    pub fn new(codec: C, tpe: BlobType, target: u32) -> (r: Packer<C>)
        ensures
            r.open_blobs() == Seq::<Packed>::empty(),
            r.blob_type() == tpe,
            r.target_size() == target,
    {
        Packer { codec, tpe, target, open: OpenPack::empty(Ghost(tpe)) }
    }

    /// Whether the open pack holds the blob `id`.
    pub fn has(&self, id: &Id) -> (r: bool)
        ensures
            r == self.open_ids().contains(*id),
    {
        proof {
            use_type_invariant(self);
        }
        self.open.in_pack.contains(id)
    }

    /// Seals a pack that holds a blob: the header is handed to the codec,
    /// and the pack is put together from what comes back. The pack comes
    /// back as it was where the encoded header is longer than four bytes
    /// can say.
    fn seal(&self, open: OpenPack) -> (r: Result<SealedPack, OpenPack>)
        requires
            open.wf(self.tpe),
            open.blobs@.len() > 0,
        ensures
            match r {
                Ok(pack) => sealed(pack, open.added@, self.tpe),
                Err(back) => back == open,
            },
    {
        let header = write_header(&open.blobs);
        let stored_header = self.codec.encode(header.as_slice());
        if stored_header.len() > u32::MAX as usize {
            return Err(open);
        }
        let OpenPack { payload, blobs, in_pack: _, added: _ } = open;
        let ghost stored = payload@;
        let pack = seal_pack(payload, blobs, header, stored_header.as_slice()).unwrap();
        proof {
            vstd::bytes::lemma_auto_spec_u32_to_from_le_bytes();
            let n = pack.payload_len as int;
            assert(pack.bytes@.subrange(0, n) =~= stored);
            assert(pack.bytes@.subrange(n, pack.bytes@.len() - 4) =~= stored_header@);
        }
        Ok(pack)
    }

    /// Seals the open pack, if it holds a blob, and opens an empty one.
    ///
    /// A packer whose open pack is empty has nothing to seal, and says so
    /// with `Ok(None)`. Else the records of the blobs are handed to the
    /// codec as the header, and [`seal_pack`] puts the pack together from
    /// what the codec returns; the pack stays open, and `TooLarge` comes,
    /// where the encoded header does not fit.
    pub fn finalize(&mut self) -> (r: Result<Option<SealedPack>, PackerError>)
        ensures
            final(self).blob_type() == old(self).blob_type(),
            final(self).target_size() == old(self).target_size(),
            old(self).open_blobs().len() == 0 ==> r.is_ok() && r.unwrap().is_none(),
            match r {
                Ok(Some(pack)) => old(self).open_blobs().len() > 0 && sealed(
                    pack,
                    old(self).open_blobs(),
                    old(self).blob_type(),
                ) && final(self).open_blobs() == Seq::<Packed>::empty(),
                Ok(None) => old(self).open_blobs().len() == 0 && final(self).open_blobs()
                    == old(self).open_blobs(),
                Err(e) => e == PackerError::TooLarge && old(self).open_blobs().len() > 0
                    && final(self).open_blobs() == old(self).open_blobs(),
            },
    {
        proof {
            use_type_invariant(&*self);
        }
        if self.open.blobs.len() == 0 {
            return Ok(None);
        }
        let mut open = OpenPack::empty(Ghost(self.tpe));
        std::mem::swap(&mut open, &mut self.open);
        match self.seal(open) {
            Ok(pack) => Ok(Some(pack)),
            Err(back) => {
                self.open = back;
                Err(PackerError::TooLarge)
            },
        }
    }

    /// What the codec of the packer makes of `data`.
    pub(crate) fn encode(&self, data: &[u8]) -> Vec<u8> {
        self.codec.encode(data)
    }

    /// Adds the blob `data` under the identifier `id`.
    ///
    /// A blob that the indexer knows or that the open pack holds is
    /// dropped. Any other blob is handed to the codec as it is, and
    /// [`Packer::add_stored`] adds what the codec returns. A blob of more
    /// bytes than four bytes can say is refused, whatever the codec makes
    /// of it.
    pub fn add(&mut self, indexer: &Indexer, data: &[u8], id: Id) -> (r: Result<
        Option<SealedPack>,
        PackerError,
    >)
        ensures
            final(self).blob_type() == old(self).blob_type(),
            final(self).target_size() == old(self).target_size(),
            ({
                let known = indexer.known(old(self).blob_type()).contains(id) || old(
                    self,
                ).open_ids().contains(id);
                &&& !known && data@.len() > u32::MAX ==> r.is_err() && final(self).open_blobs()
                    == old(self).open_blobs()
                &&& match r {
                    Ok(None) => if known {
                        final(self).open_blobs() == old(self).open_blobs()
                    } else {
                        grown_by(old(self).open_blobs(), final(self).open_blobs(), id, data@)
                    },
                    Ok(Some(pack)) => !known && final(self).open_blobs() == Seq::<Packed>::empty()
                        && exists|all: Seq<Packed>|
                        grown_by(old(self).open_blobs(), all, id, data@) && #[trigger] sealed(
                            pack,
                            all,
                            old(self).blob_type(),
                        ),
                    Err(_) => !known && (final(self).open_blobs() == old(self).open_blobs()
                        || grown_by(old(self).open_blobs(), final(self).open_blobs(), id, data@)),
                }
            }),
    {
        if indexer.has(self.tpe, &id) || self.has(&id) {
            return Ok(None);
        }
        let stored = self.codec.encode(data);
        let ghost blob = Packed { id, data: data@, stored: stored@ };
        let r = self.add_stored(data, id, stored);
        proof {
            let all = old(self).open_blobs().push(blob);
            assert(all.drop_last() =~= old(self).open_blobs());
            assert(grown_by(old(self).open_blobs(), all, id, data@));
        }
        r
    }

    /// Adds the blob `data` under the identifier `id`, given what the
    /// codec has made of it.
    ///
    /// A blob that the open pack holds is dropped. A blob is refused, and
    /// the packer stays as it was, where the plaintext or the stored bytes
    /// are more than four bytes can say, or where the open pack would
    /// outgrow that with them. Any other blob is put behind the blobs of
    /// the open pack. Once the stored blobs have the target size, the pack
    /// is sealed and returned; it stays open with the blob in it, and
    /// `TooLarge` comes, where the codec makes the header longer than four
    /// bytes can say.
    pub fn add_stored(&mut self, data: &[u8], id: Id, stored: Vec<u8>) -> (r: Result<
        Option<SealedPack>,
        PackerError,
    >)
        ensures
            final(self).blob_type() == old(self).blob_type(),
            final(self).target_size() == old(self).target_size(),
            ({
                let before = old(self).open_blobs();
                let all = before.push(Packed { id, data: data@, stored: stored@ });
                let fits = data@.len() <= u32::MAX && stored@.len() <= u32::MAX && stored_total(
                    before,
                ) + stored@.len() <= u32::MAX;
                if old(self).open_ids().contains(id) {
                    r == Ok::<Option<SealedPack>, PackerError>(None) && final(self).open_blobs()
                        == before
                } else if !fits {
                    r == Err::<Option<SealedPack>, PackerError>(PackerError::TooLarge) && final(self).open_blobs() == before
                } else if stored_total(all) < old(self).target_size() {
                    r == Ok::<Option<SealedPack>, PackerError>(None) && final(self).open_blobs()
                        == all
                } else {
                    match r {
                        Ok(Some(pack)) => sealed(pack, all, old(self).blob_type()) && final(self).open_blobs() == Seq::<Packed>::empty(),
                        Ok(None) => false,
                        Err(e) => e == PackerError::TooLarge && final(self).open_blobs() == all,
                    }
                }
            }),
    {
        proof {
            use_type_invariant(&*self);
        }
        if self.open.in_pack.contains(&id) {
            return Ok(None);
        }
        if data.len() > u32::MAX as usize || stored.len() > u32::MAX as usize
            || self.open.payload.len() > u32::MAX as usize - stored.len() {
            return Err(PackerError::TooLarge);
        }
        let mut open = OpenPack::empty(Ghost(self.tpe));
        std::mem::swap(&mut open, &mut self.open);
        let open = self.grow(open, data, id, stored);
        if open.payload.len() >= self.target as usize {
            match self.seal(open) {
                Ok(pack) => Ok(Some(pack)),
                Err(back) => {
                    self.open = back;
                    Err(PackerError::TooLarge)
                },
            }
        } else {
            self.open = open;
            Ok(None)
        }
    }

    /// The pack with one more blob behind the others.
    fn grow(&self, open: OpenPack, data: &[u8], id: Id, stored: Vec<u8>) -> (r: OpenPack)
        requires
            open.wf(self.tpe),
            !open.in_pack@.contains(id),
            data@.len() <= u32::MAX,
            open.payload@.len() + stored@.len() <= u32::MAX,
        ensures
            r.wf(self.tpe),
            r.added@ == open.added@.push(Packed { id, data: data@, stored: stored@ }),
            r.payload@.len() == open.payload@.len() + stored@.len(),
            r.blobs@.len() > 0,
    {
        let OpenPack { payload, blobs, in_pack, added } = open;
        let mut payload = payload;
        let mut blobs = blobs;
        let mut in_pack = in_pack;
        let offset = payload.len() as u32;
        let length = stored.len() as u32;
        let plain = data.len() as u32;
        let uncompressed_length = if length >= CODEC_OVERHEAD && length - CODEC_OVERHEAD == plain {
            None
        } else {
            Some(plain)
        };
        let blob = IndexBlob { id, tpe: self.tpe, offset, length, uncompressed_length };
        let ghost before = payload@;
        let ghost had = blobs@;
        let ghost was = added@;
        proof {
            lemma_laid_out_push(had, 0, blob);
        }
        push_bytes(&mut payload, stored.as_slice());
        blobs.push(blob);
        in_pack.insert(id);
        let ghost all = was.push(Packed { id, data: data@, stored: stored@ });
        let r = OpenPack { payload, blobs, in_pack, added: Ghost(all) };
        proof {
            let now = r.payload@;
            assert(now.subrange(offset as int, offset + length) =~= stored@);
            assert forall|i: int| 0 <= i < had.len() implies now.subrange(
                (#[trigger] had[i]).offset as int,
                had[i].offset + had[i].length,
            ) == before.subrange(had[i].offset as int, had[i].offset + had[i].length) by {
                assert(now.subrange(had[i].offset as int, had[i].offset + had[i].length)
                    =~= before.subrange(had[i].offset as int, had[i].offset + had[i].length));
            }
            assert(holds(now, r.blobs@, all, self.tpe)) by {
                assert forall|i: int| 0 <= i < r.blobs@.len() implies {
                    let b = #[trigger] r.blobs@[i];
                    &&& b.id == all[i].id
                    &&& b.tpe == self.tpe
                    &&& b.offset + b.length <= now.len()
                    &&& now.subrange(b.offset as int, b.offset + b.length) == all[i].stored
                    &&& b.spec_data_length() == all[i].data.len()
                } by {
                    if i < had.len() {
                        assert(r.blobs@[i] == had[i]);
                    }
                }
            }
            assert forall|k: Id|
                r.in_pack@.contains(k) <==> exists|i: int|
                    0 <= i < all.len() && (#[trigger] all[i]).id == k by {
                if k == id {
                    assert(all[was.len() as int].id == k);
                }
                if open.in_pack@.contains(k) {
                    let i = choose|i: int| 0 <= i < was.len() && (#[trigger] was[i]).id == k;
                    assert(all[i].id == k);
                }
                if exists|i: int| 0 <= i < all.len() && (#[trigger] all[i]).id == k {
                    let i = choose|i: int| 0 <= i < all.len() && (#[trigger] all[i]).id == k;
                    if i < was.len() {
                        assert(was[i].id == k);
                    }
                }
            }
            assert(all.drop_last() =~= was);
            assert(stored_total(all) == stored_total(was) + stored@.len());
            assert forall|i: int, j: int| 0 <= i < j < all.len() implies (#[trigger] all[i]).id != (
            #[trigger] all[j]).id by {
                if j < was.len() {
                    assert(was[i].id != was[j].id);
                } else {
                    assert(was[i].id != id);
                }
            }
        }
        r
    }
}

/// What a packer seals reads back as it was packed: the length field at
/// the end of the pack leads to the encoded header; the header, as it was
/// before encoding, yields the records of the blobs added; their offsets
/// and lengths cover the stored blobs exactly; and every record carries
/// the identifier under which its blob was added, and points to what the
/// codec made of that blob.
pub proof fn lemma_pack_header_fidelity(pack: SealedPack, added: Seq<Packed>, tpe: BlobType)
    requires
        sealed(pack, added, tpe),
        pack.bytes@.len() <= u32::MAX,
    ensures
        ({
            let bytes = pack.bytes@;
            let trailer = bytes.subrange(bytes.len() - 4, bytes.len() as int);
            header_range(bytes.len() as u32, trailer) == Ok::<HeaderRange, PackError>(
                HeaderRange {
                    start: pack.payload_len,
                    length: (bytes.len() - 4 - pack.payload_len) as u32,
                },
            )
        }),
        parse_entries(pack.header@, 0) == Some(pack.index.blobs@),
        laid_out(pack.index.blobs@, 0),
        end_of(pack.index.blobs@, 0) == pack.payload_len,
        pack.index.blobs@.len() == added.len(),
        forall|i: int|
            0 <= i < added.len() ==> {
                let b = #[trigger] pack.index.blobs@[i];
                &&& b.id == added[i].id
                &&& b.tpe == tpe
                &&& b.offset + b.length <= pack.payload_len
                &&& pack.bytes@.subrange(b.offset as int, b.offset + b.length) == added[i].stored
            },
        forall|i: int, j: int|
            0 <= i < j < added.len() ==> (#[trigger] pack.index.blobs@[i]).id != (
            #[trigger] pack.index.blobs@[j]).id,
{
    let bytes = pack.bytes@;
    let n = pack.payload_len as int;
    let payload = bytes.subrange(0, n);
    let header = bytes.subrange(n, bytes.len() - 4);
    let blobs = pack.index.blobs@;
    lemma_locate_assembled(payload, header);
    lemma_parse_header(blobs, 0);
    assert forall|i: int, j: int| 0 <= i < j < added.len() implies (
    #[trigger] pack.index.blobs@[i]).id != (#[trigger] pack.index.blobs@[j]).id by {
        assert(added[i].id != added[j].id);
    }
    assert forall|i: int| 0 <= i < added.len() implies {
        let b = #[trigger] pack.index.blobs@[i];
        &&& b.id == added[i].id
        &&& b.tpe == tpe
        &&& b.offset + b.length <= pack.payload_len
        &&& pack.bytes@.subrange(b.offset as int, b.offset + b.length) == added[i].stored
    } by {
        let b = blobs[i];
        assert(bytes.subrange(b.offset as int, b.offset + b.length) =~= payload.subrange(
            b.offset as int,
            b.offset + b.length,
        ));
    }
}

} // verus!
