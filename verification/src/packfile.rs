//! The layout of a pack file: the stored blobs, then the encoded header
//! that describes them, then the length of that header in four bytes.

use vstd::prelude::*;
use vstd::bytes::{
    lemma_auto_spec_u32_to_from_le_bytes, spec_u32_from_le_bytes, spec_u32_to_le_bytes,
    u32_from_le_bytes, u32_to_le_bytes,
};
use vstd::slice::{slice_subrange, slice_to_vec};
use crate::blob::{BlobType, IndexBlob};
use crate::id::Id;
use crate::wire::push_bytes;

verus! {

/// Why a pack or its header cannot be read.
#[derive(Clone, Copy, Debug, PartialEq, Eq, Structural)]
pub enum PackError {
    /// The pack is shorter than its length field, or than the header that
    /// the field announces.
    TooShort,
    /// The header is no list of records.
    BadHeader,
    /// The blobs of the header do not end where the header begins.
    LengthMismatch,
}

/// The first byte of a header record: the kind of the blob, and whether an
/// uncompressed length follows.
pub open spec fn type_code(b: IndexBlob) -> u8 {
    match (b.tpe, b.uncompressed_length.is_some()) {
        (BlobType::Data, false) => 0u8,
        (BlobType::Tree, false) => 1u8,
        (BlobType::Data, true) => 2u8,
        (BlobType::Tree, true) => 3u8,
    }
}

/// The record of one blob: the type byte, the stored length, the
/// uncompressed length where there is one, and the identifier. Lengths are
/// four bytes each, low byte first.
pub open spec fn entry_bytes(b: IndexBlob) -> Seq<u8> {
    match b.uncompressed_length {
        None => seq![type_code(b)] + spec_u32_to_le_bytes(b.length) + b.id@,
        Some(n) => seq![type_code(b)] + spec_u32_to_le_bytes(b.length) + spec_u32_to_le_bytes(n)
            + b.id@,
    }
}

/// The header of a pack before it is encoded: the records of its blobs in
/// order.
pub open spec fn header_bytes(blobs: Seq<IndexBlob>) -> Seq<u8>
    decreases blobs.len(),
{
    if blobs.len() == 0 {
        Seq::empty()
    } else {
        entry_bytes(blobs.first()) + header_bytes(blobs.drop_first())
    }
}

/// Whether `blobs` lie one behind the other from `from` on.
pub open spec fn laid_out(blobs: Seq<IndexBlob>, from: nat) -> bool
    decreases blobs.len(),
{
    blobs.len() > 0 ==> blobs.first().offset == from && laid_out(
        blobs.drop_first(),
        from + blobs.first().length as nat,
    )
}

/// The byte behind the last of `blobs`, where they lie from `from` on.
pub open spec fn end_of(blobs: Seq<IndexBlob>, from: nat) -> nat
    decreases blobs.len(),
{
    if blobs.len() == 0 {
        from
    } else {
        end_of(blobs.drop_first(), from + blobs.first().length as nat)
    }
}

/// The blobs that a header describes, the first of them at `from`; `None`
/// where the bytes are no list of records, or a blob would begin beyond
/// what four bytes can address.
pub open spec fn parse_entries(bytes: Seq<u8>, from: nat) -> Option<Seq<IndexBlob>>
    decreases bytes.len(),
{
    if bytes.len() == 0 {
        Some(Seq::empty())
    } else if bytes[0] > 3 || from > u32::MAX {
        None
    } else {
        let compressed = bytes[0] >= 2;
        let n: int = if compressed {
            41
        } else {
            37
        };
        if bytes.len() < n {
            None
        } else {
            let blob = IndexBlob {
                id: Id::of_bytes(bytes.subrange(n - 32, n)),
                tpe: if bytes[0] % 2 == 0 {
                    BlobType::Data
                } else {
                    BlobType::Tree
                },
                offset: from as u32,
                length: spec_u32_from_le_bytes(bytes.subrange(1, 5)),
                uncompressed_length: if compressed {
                    Some(spec_u32_from_le_bytes(bytes.subrange(5, 9)))
                } else {
                    None
                },
            };
            match parse_entries(bytes.subrange(n, bytes.len() as int), from + blob.length as nat) {
                Some(rest) => Some(seq![blob] + rest),
                None => None,
            }
        }
    }
}

/// A record has 37 bytes, or 41 with an uncompressed length.
pub proof fn lemma_entry_len(b: IndexBlob)
    ensures
        entry_bytes(b).len() == b.spec_entry_len(),
        entry_bytes(b)[0] == type_code(b),
{
    lemma_auto_spec_u32_to_from_le_bytes();
    b.id.lemma_view();
}

/// The header of a list with one more blob is the header of the list
/// followed by the record of that blob.
pub proof fn lemma_header_push(blobs: Seq<IndexBlob>, b: IndexBlob)
    ensures
        header_bytes(blobs.push(b)) == header_bytes(blobs) + entry_bytes(b),
    decreases blobs.len(),
{
    if blobs.len() == 0 {
        assert(blobs.push(b).drop_first() =~= Seq::<IndexBlob>::empty());
        assert(blobs.push(b).first() == b);
        assert(header_bytes(blobs.push(b).drop_first()) =~= Seq::<u8>::empty());
        assert(header_bytes(blobs) =~= Seq::<u8>::empty());
        assert(header_bytes(blobs.push(b)) =~= entry_bytes(b));
        assert(header_bytes(blobs) + entry_bytes(b) =~= entry_bytes(b));
    } else {
        assert(blobs.push(b).drop_first() =~= blobs.drop_first().push(b));
        lemma_header_push(blobs.drop_first(), b);
        assert(header_bytes(blobs.push(b)) =~= header_bytes(blobs) + entry_bytes(b));
    }
}

/// Reading the header of blobs that lie one behind the other gives these
/// blobs back, each where it lies.
pub proof fn lemma_parse_header(blobs: Seq<IndexBlob>, from: nat)
    requires
        laid_out(blobs, from),
        end_of(blobs, from) <= u32::MAX,
    ensures
        parse_entries(header_bytes(blobs), from) == Some(blobs),
    decreases blobs.len(),
{
    if blobs.len() > 0 {
        let b = blobs.first();
        let rest = blobs.drop_first();
        let bytes = header_bytes(blobs);
        let n = b.spec_entry_len() as int;
        lemma_entry_len(b);
        lemma_auto_spec_u32_to_from_le_bytes();
        b.id.lemma_view();
        lemma_end_grows(rest, from + b.length as nat);
        lemma_parse_header(rest, from + b.length as nat);
        assert(bytes.subrange(n, bytes.len() as int) =~= header_bytes(rest));
        assert(bytes.subrange(1, 5) =~= spec_u32_to_le_bytes(b.length));
        assert(bytes.subrange(n - 32, n) =~= b.id@);
        assert(bytes[0] == type_code(b));
        if b.uncompressed_length.is_some() {
            assert(bytes.subrange(5, 9) =~= spec_u32_to_le_bytes(b.uncompressed_length.unwrap()));
        }
        let parsed = parse_entries(bytes, from).unwrap();
        assert(parsed =~= seq![b] + rest);
        assert(seq![b] + rest =~= blobs);
    } else {
        assert(header_bytes(blobs) =~= Seq::<u8>::empty());
    }
}

/// Blobs end at or behind where they begin.
pub proof fn lemma_end_grows(blobs: Seq<IndexBlob>, from: nat)
    ensures
        end_of(blobs, from) >= from,
    decreases blobs.len(),
{
    if blobs.len() > 0 {
        lemma_end_grows(blobs.drop_first(), from + blobs.first().length as nat);
    }
}

/// The blobs read from a header lie one behind the other, and the header
/// is the list of their records.
pub proof fn lemma_parsed_header(bytes: Seq<u8>, from: nat)
    requires
        parse_entries(bytes, from).is_some(),
    ensures
        header_bytes(parse_entries(bytes, from).unwrap()) == bytes,
        laid_out(parse_entries(bytes, from).unwrap(), from),
    decreases bytes.len(),
{
    if bytes.len() > 0 {
        let blobs = parse_entries(bytes, from).unwrap();
        let n: int = if bytes[0] >= 2 {
            41
        } else {
            37
        };
        let tail = bytes.subrange(n, bytes.len() as int);
        let b = blobs.first();
        lemma_parsed_header(tail, from + b.length as nat);
        lemma_auto_spec_u32_to_from_le_bytes();
        Id::lemma_of_bytes(bytes.subrange(n - 32, n));
        assert(blobs.drop_first() =~= parse_entries(tail, from + b.length as nat).unwrap());
        assert(spec_u32_to_le_bytes(b.length) == bytes.subrange(1, 5));
        if bytes[0] >= 2 {
            assert(spec_u32_to_le_bytes(b.uncompressed_length.unwrap()) == bytes.subrange(5, 9));
        }
        assert(entry_bytes(b) =~= bytes.subrange(0, n));
        assert(bytes.subrange(0, n) + tail =~= bytes);
    } else {
        assert(header_bytes(Seq::<IndexBlob>::empty()) =~= bytes);
    }
}

/// Appends the record of one blob.
fn push_entry(out: &mut Vec<u8>, b: &IndexBlob)
    ensures
        final(out)@ == old(out)@ + entry_bytes(*b),
{
    let code: u8 = match (b.tpe, b.uncompressed_length.is_some()) {
        (BlobType::Data, false) => 0,
        (BlobType::Tree, false) => 1,
        (BlobType::Data, true) => 2,
        (BlobType::Tree, true) => 3,
    };
    out.push(code);
    let length = u32_to_le_bytes(b.length);
    push_bytes(out, length.as_slice());
    match b.uncompressed_length {
        Some(n) => {
            let more = u32_to_le_bytes(n);
            push_bytes(out, more.as_slice());
        },
        None => {},
    }
    let id = b.id.to_bytes();
    push_bytes(out, id.as_slice());
    assert(out@ =~= old(out)@ + entry_bytes(*b));
}

/// The header of a pack of `blobs`, before it is encoded.
pub fn write_header(blobs: &Vec<IndexBlob>) -> (out: Vec<u8>)
    ensures
        out@ == header_bytes(blobs@),
{
    let mut out: Vec<u8> = Vec::new();
    let mut i: usize = 0;
    assert(blobs@.subrange(0, 0) =~= Seq::<IndexBlob>::empty());
    assert(out@ =~= header_bytes(Seq::<IndexBlob>::empty()));
    while i < blobs.len()
        invariant
            0 <= i <= blobs@.len(),
            out@ == header_bytes(blobs@.subrange(0, i as int)),
        decreases blobs@.len() - i,
    {
        proof {
            lemma_header_push(blobs@.subrange(0, i as int), blobs@[i as int]);
            assert(blobs@.subrange(0, i as int).push(blobs@[i as int]) =~= blobs@.subrange(
                0,
                i + 1,
            ));
        }
        push_entry(&mut out, &blobs[i]);
        i += 1;
    }
    assert(blobs@.subrange(0, i as int) =~= blobs@);
    out
}

/// Reading `bytes` from `from` on continues a reading that has come to
/// `done`.
spec fn continues(whole: Option<Seq<IndexBlob>>, done: Seq<IndexBlob>, bytes: Seq<u8>, from: nat) -> bool {
    whole == match parse_entries(bytes, from) {
        Some(rest) => Some(done + rest),
        None => None,
    }
}

/// Reads the decoded header of a pack: the blobs it describes, the first
/// of them at the start of the pack, each behind the one before.
pub fn read_header(bytes: &[u8]) -> (r: Result<Vec<IndexBlob>, PackError>)
    ensures
        match r {
            Ok(blobs) => parse_entries(bytes@, 0) == Some(blobs@),
            Err(e) => e == PackError::BadHeader && parse_entries(bytes@, 0).is_none(),
        },
{
    let ghost whole = parse_entries(bytes@, 0);
    let mut blobs: Vec<IndexBlob> = Vec::new();
    let mut pos: usize = 0;
    let mut from: u64 = 0;
    proof {
        assert(bytes@.subrange(0, bytes@.len() as int) =~= bytes@);
        assert(Seq::<IndexBlob>::empty() + parse_entries(bytes@, 0).unwrap() =~= parse_entries(
            bytes@,
            0,
        ).unwrap());
    }
    while pos < bytes.len()
        invariant
            0 <= pos <= bytes@.len(),
            whole == parse_entries(bytes@, 0),
            from <= u32::MAX + blobs@.len() * u32::MAX,
            continues(whole, blobs@, bytes@.subrange(pos as int, bytes@.len() as int), from as nat),
        decreases bytes@.len() - pos,
    {
        let ghost rest = bytes@.subrange(pos as int, bytes@.len() as int);
        let code: u8 = bytes[pos];
        assert(rest[0] == code);
        if code > 3 || from > u32::MAX as u64 {
            return Err(PackError::BadHeader);
        }
        let compressed = code >= 2;
        let n: usize = if compressed {
            41
        } else {
            37
        };
        if bytes.len() - pos < n {
            return Err(PackError::BadHeader);
        }
        let length = u32_from_le_bytes(slice_subrange(bytes, pos + 1, pos + 5));
        let uncompressed_length = if compressed {
            Some(u32_from_le_bytes(slice_subrange(bytes, pos + 5, pos + 9)))
        } else {
            None
        };
        let id = Id::from_slice(slice_subrange(bytes, pos + n - 32, pos + n)).unwrap();
        let blob = IndexBlob {
            id,
            tpe: if code % 2 == 0 {
                BlobType::Data
            } else {
                BlobType::Tree
            },
            offset: from as u32,
            length,
            uncompressed_length,
        };
        proof {
            assert(rest.subrange(1, 5) =~= bytes@.subrange(pos + 1, pos + 5));
            assert(rest.subrange(5, 9) =~= bytes@.subrange(pos + 5, pos + 9));
            assert(rest.subrange(n - 32, n as int) =~= bytes@.subrange(pos + n - 32, pos + n));
            assert(rest.subrange(n as int, rest.len() as int) =~= bytes@.subrange(
                pos + n,
                bytes@.len() as int,
            ));
            let tail = parse_entries(
                bytes@.subrange(pos + n, bytes@.len() as int),
                (from + length) as nat,
            );
            if tail.is_some() {
                assert(blobs@ + (seq![blob] + tail.unwrap()) =~= blobs@.push(blob) + tail.unwrap());
            }
        }
        blobs.push(blob);
        from = from + length as u64;
        pos = pos + n;
    }
    proof {
        assert(bytes@.subrange(pos as int, bytes@.len() as int) =~= Seq::<u8>::empty());
        assert(blobs@ + Seq::<IndexBlob>::empty() =~= blobs@);
    }
    Ok(blobs)
}

/// A pack: the stored blobs, the encoded header, and the length of the
/// encoded header in four bytes, low byte first.
pub open spec fn pack_bytes(payload: Seq<u8>, header: Seq<u8>) -> Seq<u8> {
    payload + header + spec_u32_to_le_bytes(header.len() as u32)
}

/// Puts a pack together; `None` where the encoded header is longer than
/// four bytes can say.
pub fn assemble_pack(payload: Vec<u8>, header: &[u8]) -> (r: Option<Vec<u8>>)
    ensures
        match r {
            Some(pack) => header@.len() <= u32::MAX && pack@ == pack_bytes(payload@, header@),
            None => header@.len() > u32::MAX,
        },
{
    if header.len() > u32::MAX as usize {
        return None;
    }
    let mut pack = payload;
    push_bytes(&mut pack, header);
    let length = u32_to_le_bytes(header.len() as u32);
    push_bytes(&mut pack, length.as_slice());
    Some(pack)
}

/// Where the encoded header of a pack lies.
#[derive(Clone, Copy, Debug, PartialEq, Eq, Structural)]
pub struct HeaderRange {
    /// The first byte of the encoded header, which is the byte behind the
    /// last stored blob.
    pub start: u32,
    /// Bytes of the encoded header.
    pub length: u32,
}

/// Where the encoded header of a pack of `pack_size` bytes lies, given the
/// four bytes that end the pack.
pub open spec fn header_range(pack_size: u32, trailer: Seq<u8>) -> Result<HeaderRange, PackError> {
    let length = spec_u32_from_le_bytes(trailer);
    if pack_size < 4 || length > pack_size - 4 {
        Err(PackError::TooShort)
    } else {
        Ok(HeaderRange { start: (pack_size - 4 - length) as u32, length })
    }
}

/// Finds the encoded header of a pack of `pack_size` bytes from its last
/// four bytes. A trailer that has not four bytes is one of a pack that is
/// too short.
pub fn locate_header(pack_size: u32, trailer: &[u8]) -> (r: Result<HeaderRange, PackError>)
    ensures
        r == if trailer@.len() == 4 {
            header_range(pack_size, trailer@)
        } else {
            Err(PackError::TooShort)
        },
{
    if trailer.len() != 4 {
        return Err(PackError::TooShort);
    }
    let length = u32_from_le_bytes(trailer);
    if pack_size < 4 || length > pack_size - 4 {
        Err(PackError::TooShort)
    } else {
        Ok(HeaderRange { start: pack_size - 4 - length, length })
    }
}

/// The last bytes of a pack of `pack_size` bytes that are read first:
/// the length field, and before it as many bytes as the index said the
/// encoded header has, where it said so; never more than the pack has.
pub open spec fn tail_range(size_hint: Option<u32>, pack_size: u32) -> HeaderRange {
    let wanted: int = match size_hint {
        Some(hint) => hint + 4,
        None => 4,
    };
    let length: int = if wanted < pack_size {
        wanted
    } else {
        pack_size as int
    };
    HeaderRange { start: (pack_size - length) as u32, length: length as u32 }
}

/// Which bytes of a pack to read first, so that one read brings the
/// encoded header where the index was right about its length.
pub fn tail_to_read(size_hint: Option<u32>, pack_size: u32) -> (r: HeaderRange)
    ensures
        r == tail_range(size_hint, pack_size),
        r.start + r.length == pack_size,
{
    let hint: u32 = match size_hint {
        Some(hint) => hint,
        None => 0,
    };
    let length: u32 = if hint < pack_size && pack_size - hint > 4 {
        hint + 4
    } else {
        pack_size
    };
    HeaderRange { start: pack_size - length, length }
}

/// Where the encoded header of a pack is had from, once the last bytes of
/// the pack are read.
#[derive(Debug)]
pub enum HeaderSource {
    /// The encoded header, which lay within the bytes read.
    Found(Vec<u8>),
    /// The bytes of the pack that hold the encoded header, and are still
    /// to be read.
    Read(HeaderRange),
}

/// Where the encoded header of a pack of `pack_size` bytes is had from,
/// given the last bytes `tail` of the pack: from `tail` where it reaches
/// back far enough, else from the pack.
pub open spec fn header_source(pack_size: u32, tail: Seq<u8>) -> Result<
    (HeaderRange, Option<Seq<u8>>),
    PackError,
> {
    if tail.len() < 4 {
        Err(PackError::TooShort)
    } else {
        match header_range(pack_size, tail.subrange(tail.len() - 4, tail.len() as int)) {
            Err(e) => Err(e),
            Ok(range) => if range.length + 4 <= tail.len() {
                Ok(
                    (
                        range,
                        Some(tail.subrange(tail.len() - 4 - range.length, tail.len() - 4)),
                    ),
                )
            } else {
                Ok((range, None))
            },
        }
    }
}

/// Finds the encoded header of a pack of `pack_size` bytes in its last
/// bytes `tail`, or says which bytes of the pack hold it.
pub fn header_from_tail(pack_size: u32, tail: &[u8]) -> (r: Result<HeaderSource, PackError>)
    ensures
        match r {
            Ok(HeaderSource::Found(bytes)) => match header_source(pack_size, tail@) {
                Ok((_, Some(found))) => bytes@ == found,
                _ => false,
            },
            Ok(HeaderSource::Read(range)) => header_source(pack_size, tail@) == Ok::<
                (HeaderRange, Option<Seq<u8>>),
                PackError,
            >((range, None)),
            Err(e) => header_source(pack_size, tail@) == Err::<
                (HeaderRange, Option<Seq<u8>>),
                PackError,
            >(e),
        },
{
    let n: usize = tail.len();
    if n < 4 {
        return Err(PackError::TooShort);
    }
    let range = locate_header(pack_size, slice_subrange(tail, n - 4, n))?;
    if range.length as usize <= n - 4 {
        let found = slice_subrange(tail, n - 4 - range.length as usize, n - 4);
        Ok(HeaderSource::Found(slice_to_vec(found)))
    } else {
        Ok(HeaderSource::Read(range))
    }
}

/// The bytes that [`header_from_tail`] finds in the last bytes of a pack
/// are the bytes of the pack where its header lies.
pub proof fn lemma_found_in_pack(pack: Seq<u8>, from: int, range: HeaderRange, found: Seq<u8>)
    requires
        pack.len() <= u32::MAX,
        0 <= from <= pack.len(),
        header_source(pack.len() as u32, pack.subrange(from, pack.len() as int)) == Ok::<
            (HeaderRange, Option<Seq<u8>>),
            PackError,
        >((range, Some(found))),
    ensures
        range.start + range.length + 4 == pack.len(),
        found == pack.subrange(range.start as int, range.start + range.length),
        header_range(pack.len() as u32, pack.subrange(pack.len() - 4, pack.len() as int)) == Ok::<
            HeaderRange,
            PackError,
        >(range),
{
    let tail = pack.subrange(from, pack.len() as int);
    assert(tail.subrange(tail.len() - 4, tail.len() as int) =~= pack.subrange(
        pack.len() - 4,
        pack.len() as int,
    ));
    assert(tail.subrange(tail.len() - 4 - range.length, tail.len() - 4) =~= pack.subrange(
        range.start as int,
        range.start + range.length,
    ));
}

/// The header of a pack is found where it was put: behind the stored
/// blobs, with the length it has.
pub proof fn lemma_locate_assembled(payload: Seq<u8>, header: Seq<u8>)
    requires
        payload.len() + header.len() + 4 <= u32::MAX,
    ensures
        ({
            let pack = pack_bytes(payload, header);
            let trailer = pack.subrange(pack.len() - 4, pack.len() as int);
            &&& pack.len() == payload.len() + header.len() + 4
            &&& header_range(pack.len() as u32, trailer) == Ok::<HeaderRange, PackError>(
                HeaderRange { start: payload.len() as u32, length: header.len() as u32 },
            )
            &&& pack.subrange(payload.len() as int, (payload.len() + header.len()) as int) == header
            &&& pack.subrange(0, payload.len() as int) == payload
        }),
{
    lemma_auto_spec_u32_to_from_le_bytes();
    let pack = pack_bytes(payload, header);
    let trailer = pack.subrange(pack.len() - 4, pack.len() as int);
    assert(trailer =~= spec_u32_to_le_bytes(header.len() as u32));
    assert(pack.subrange(payload.len() as int, (payload.len() + header.len()) as int) =~= header);
    assert(pack.subrange(0, payload.len() as int) =~= payload);
}

/// Reads the decoded header of a pack whose encoded header begins at
/// `header_start`: the blobs must end there.
pub fn read_pack_header(bytes: &[u8], header_start: u32) -> (r: Result<Vec<IndexBlob>, PackError>)
    ensures
        match parse_entries(bytes@, 0) {
            Some(blobs) => if end_of(blobs, 0) == header_start {
                r.is_ok() && r.unwrap()@ == blobs && laid_out(blobs, 0)
            } else {
                r == Err::<Vec<IndexBlob>, PackError>(PackError::LengthMismatch)
            },
            None => r == Err::<Vec<IndexBlob>, PackError>(PackError::BadHeader),
        },
{
    match read_header(bytes) {
        Ok(blobs) => {
            proof {
                lemma_parsed_header(bytes@, 0);
            }
            match check_blobs(&blobs, header_start) {
                Ok(()) => Ok(blobs),
                Err(e) => Err(e),
            }
        },
        Err(e) => Err(e),
    }
}

/// Checks the blobs of a header against where the header begins: they
/// must end there.
fn check_blobs(blobs: &Vec<IndexBlob>, header_start: u32) -> (r: Result<(), PackError>)
    requires
        laid_out(blobs@, 0),
    ensures
        match r {
            Ok(()) => end_of(blobs@, 0) == header_start,
            Err(e) => e == PackError::LengthMismatch && end_of(blobs@, 0) != header_start,
        },
{
    let mut end: u64 = 0;
    let mut i: usize = 0;
    let ghost target = end_of(blobs@, 0);
    assert(blobs@.subrange(0, blobs@.len() as int) =~= blobs@);
    while i < blobs.len()
        invariant
            0 <= i <= blobs@.len(),
            end <= i * u32::MAX,
            target == end_of(blobs@, 0),
            target == end_of(blobs@.subrange(i as int, blobs@.len() as int), end as nat),
        decreases blobs@.len() - i,
    {
        proof {
            let rest = blobs@.subrange(i as int, blobs@.len() as int);
            assert(rest.first() == blobs@[i as int]);
            assert(rest.drop_first() =~= blobs@.subrange(i + 1, blobs@.len() as int));
        }
        if end > u32::MAX as u64 {
            proof {
                lemma_end_grows(blobs@.subrange(i as int, blobs@.len() as int), end as nat);
            }
            return Err(PackError::LengthMismatch);
        }
        end = end + blobs[i].length as u64;
        i += 1;
    }
    assert(blobs@.subrange(i as int, blobs@.len() as int) =~= Seq::<IndexBlob>::empty());
    if end == header_start as u64 {
        Ok(())
    } else {
        Err(PackError::LengthMismatch)
    }
}

} // verus!
