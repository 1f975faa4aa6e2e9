use rustic::blob::{BlobType, IndexBlob};
use rustic::hasher::hash;
use rustic::id::Id;
use rustic::indexer::Indexer;
use rustic::packer::{seal_pack, Codec, Packer, PackerError, Plain};
use rustic::repair_index::{pack_from_decoded, pack_from_header, pack_from_stored, repair_index};
use rustic::packfile::{
    assemble_pack, header_from_tail, locate_header, read_header, read_pack_header, tail_to_read,
    write_header, HeaderRange, HeaderSource, PackError,
};

fn id(n: u8) -> Id {
    Id::new([n; 32])
}

fn blobs() -> Vec<IndexBlob> {
    vec![
        IndexBlob { id: id(1), tpe: BlobType::Data, offset: 0, length: 10, uncompressed_length: None },
        IndexBlob {
            id: id(2),
            tpe: BlobType::Tree,
            offset: 10,
            length: 0x0102_0304,
            uncompressed_length: Some(7),
        },
        IndexBlob {
            id: id(3),
            tpe: BlobType::Data,
            offset: 10 + 0x0102_0304,
            length: 1,
            uncompressed_length: Some(u32::MAX),
        },
        IndexBlob {
            id: id(4),
            tpe: BlobType::Tree,
            offset: 11 + 0x0102_0304,
            length: 0,
            uncompressed_length: None,
        },
    ]
}

#[test]
fn header_records_have_the_documented_bytes() {
    let header = write_header(&blobs());
    assert_eq!(header.len(), 37 + 41 + 41 + 37);
    let mut expected = vec![0u8, 10, 0, 0, 0];
    expected.extend([1u8; 32]);
    expected.extend([3u8, 4, 3, 2, 1, 7, 0, 0, 0]);
    expected.extend([2u8; 32]);
    assert_eq!(&header[..78], &expected[..]);
    assert_eq!(header[78], 2);
    assert_eq!(&header[79..87], &[1, 0, 0, 0, 255, 255, 255, 255]);
    assert_eq!(header[119], 1);
    assert!(write_header(&vec![]).is_empty());
}

#[test]
fn header_reads_back() {
    let header = write_header(&blobs());
    assert_eq!(read_header(&header), Ok(blobs()));
    assert_eq!(read_header(&[]), Ok(vec![]));
}

#[test]
fn offsets_are_running_sums() {
    let mut shuffled = blobs();
    for b in shuffled.iter_mut() {
        b.offset = 999;
    }
    let header = write_header(&shuffled);
    assert_eq!(read_header(&header), Ok(blobs()));
}

#[test]
fn malformed_headers_are_refused() {
    let header = write_header(&blobs());
    assert_eq!(read_header(&header[..header.len() - 1]), Err(PackError::BadHeader));
    assert_eq!(read_header(&header[..36]), Err(PackError::BadHeader));
    let mut bad = header.clone();
    bad[0] = 4;
    assert_eq!(read_header(&bad), Err(PackError::BadHeader));
    let mut longer = header;
    longer.push(0);
    assert_eq!(read_header(&longer), Err(PackError::BadHeader));
}

#[test]
fn blob_beyond_four_bytes_is_refused() {
    let big = vec![
        IndexBlob {
            id: id(1),
            tpe: BlobType::Data,
            offset: 0,
            length: u32::MAX,
            uncompressed_length: None,
        },
        IndexBlob { id: id(2), tpe: BlobType::Data, offset: 0, length: 1, uncompressed_length: None },
        IndexBlob { id: id(3), tpe: BlobType::Data, offset: 0, length: 1, uncompressed_length: None },
    ];
    assert_eq!(read_header(&write_header(&big)), Err(PackError::BadHeader));
    // the last blob may end beyond, as long as it begins within
    let mut within = big;
    within.pop();
    let parsed = read_header(&write_header(&within)).unwrap();
    assert_eq!(parsed[1].offset, u32::MAX);
}

#[test]
fn blobs_must_end_where_the_header_begins() {
    let two = vec![
        IndexBlob { id: id(1), tpe: BlobType::Data, offset: 0, length: 10, uncompressed_length: None },
        IndexBlob { id: id(2), tpe: BlobType::Data, offset: 10, length: 5, uncompressed_length: None },
    ];
    let header = write_header(&two);
    assert_eq!(read_pack_header(&header, 15), Ok(two));
    assert_eq!(read_pack_header(&header, 14), Err(PackError::LengthMismatch));
    assert_eq!(read_pack_header(&header, 16), Err(PackError::LengthMismatch));
    assert_eq!(read_pack_header(&header[1..], 15), Err(PackError::BadHeader));
    assert_eq!(read_pack_header(&[], 0), Ok(vec![]));
    assert_eq!(read_pack_header(&[], 1), Err(PackError::LengthMismatch));
}

#[test]
fn pack_ends_with_the_length_of_its_header() {
    let pack = assemble_pack(vec![1, 2, 3], &[9, 8]).unwrap();
    assert_eq!(pack, vec![1, 2, 3, 9, 8, 2, 0, 0, 0]);
    let empty = assemble_pack(vec![], &[]).unwrap();
    assert_eq!(empty, vec![0, 0, 0, 0]);
}

#[test]
fn header_is_located_from_the_end() {
    let pack = assemble_pack(vec![1, 2, 3], &[9, 8]).unwrap();
    let range = locate_header(pack.len() as u32, &pack[pack.len() - 4..]).unwrap();
    assert_eq!(range, HeaderRange { start: 3, length: 2 });
    assert_eq!(locate_header(4, &[0, 0, 0, 0]), Ok(HeaderRange { start: 0, length: 0 }));
    assert_eq!(locate_header(8, &[4, 0, 0, 0]), Ok(HeaderRange { start: 0, length: 4 }));
}

#[test]
fn short_packs_are_refused() {
    assert_eq!(locate_header(3, &[0, 0, 0, 0]), Err(PackError::TooShort));
    assert_eq!(locate_header(8, &[5, 0, 0, 0]), Err(PackError::TooShort));
    assert_eq!(locate_header(100, &[0, 0, 0, 1]), Err(PackError::TooShort));
    assert_eq!(locate_header(100, &[0, 0, 0]), Err(PackError::TooShort));
    assert_eq!(locate_header(100, &[0, 0, 0, 0, 0]), Err(PackError::TooShort));
}

/// Stores data with every byte flipped, behind a nonce of two bytes.
struct Flip;

impl Codec for Flip {
    fn encode(&self, data: &[u8]) -> Vec<u8> {
        let mut out = vec![0xca, 0xfe];
        out.extend(data.iter().map(|b| !b));
        out
    }

    fn decode(&self, stored: &[u8]) -> Option<Vec<u8>> {
        if stored.len() < 2 || stored[..2] != [0xca, 0xfe] {
            return None;
        }
        Some(stored[2..].iter().map(|b| !b).collect())
    }
}

fn read_back<C: Codec>(codec: &C, pack: &[u8]) -> Vec<(Id, Vec<u8>)> {
    let range = locate_header(pack.len() as u32, &pack[pack.len() - 4..]).unwrap();
    let stored = &pack[range.start as usize..(range.start + range.length) as usize];
    let header = codec.decode(stored).unwrap();
    let blobs = read_pack_header(&header, range.start).unwrap();
    blobs
        .iter()
        .map(|b| {
            let slice = &pack[b.offset as usize..(b.offset + b.length) as usize];
            (b.id, codec.decode(slice).unwrap())
        })
        .collect()
}

#[test]
fn sealed_pack_reads_back_as_it_was_packed() {
    let indexer = Indexer::new(100);
    let mut packer = Packer::new(Flip, BlobType::Data, 1000);
    let parts: Vec<Vec<u8>> = vec![b"hello".to_vec(), vec![], vec![7; 300]];
    for part in &parts {
        assert!(matches!(packer.add(&indexer, part, hash(part)), Ok(None)));
    }
    let pack = packer.finalize().unwrap().unwrap();
    assert_eq!(pack.payload_len, 7 + 2 + 302);
    assert_eq!(pack.index.id, pack.id);
    assert_eq!(pack.index.size, Some(pack.bytes.len() as u32));
    let header_start = pack.payload_len as usize;
    let stored_header = &pack.bytes[header_start..pack.bytes.len() - 4];
    assert_eq!(pack.id, hash(stored_header));
    assert_eq!(Flip.decode(stored_header), Some(pack.header.clone()));
    assert_eq!(pack.header, write_header(&pack.index.blobs));
    let back = read_back(&Flip, &pack.bytes);
    assert_eq!(back.len(), 3);
    for ((id, data), part) in back.iter().zip(&parts) {
        assert_eq!(data, part);
        assert_eq!(*id, hash(data));
    }
    // the records say how long the plaintext is
    assert_eq!(pack.index.blobs[0].data_length(), 5);
    assert_eq!(pack.index.blobs[1].data_length(), 0);
    assert_eq!(pack.index.blobs[2].data_length(), 300);
    assert!(pack.index.blobs.iter().all(|b| b.tpe == BlobType::Data));
}

#[test]
fn pack_is_sealed_at_its_target_size() {
    let indexer = Indexer::new(100);
    let mut packer = Packer::new(Plain, BlobType::Tree, 10);
    assert!(matches!(packer.add(&indexer, &[1; 4], id(1)), Ok(None)));
    assert!(matches!(packer.add(&indexer, &[2; 5], id(2)), Ok(None)));
    let pack = packer.add(&indexer, &[3; 1], id(3)).unwrap().unwrap();
    assert_eq!(pack.payload_len, 10);
    assert_eq!(pack.index.blobs.len(), 3);
    assert_eq!(pack.index.blobs[2].offset, 9);
    assert!(pack.index.blobs.iter().all(|b| b.tpe == BlobType::Tree));
    // stored as it is: the plaintext length is recorded
    assert_eq!(pack.index.blobs[0].uncompressed_length, Some(4));
    assert_eq!(&pack.bytes[..10], &[1, 1, 1, 1, 2, 2, 2, 2, 2, 3]);
    assert!(matches!(packer.finalize(), Ok(None)));
    // one large blob makes a pack of its own
    let big = packer.add(&indexer, &[4; 50], id(4)).unwrap().unwrap();
    assert_eq!(big.payload_len, 50);
}

#[test]
fn known_blobs_are_dropped() {
    let mut indexer = Indexer::new(100);
    let mut packer = Packer::new(Plain, BlobType::Data, 1000);
    assert!(matches!(packer.add(&indexer, b"a", id(1)), Ok(None)));
    assert!(packer.has(&id(1)));
    assert!(!packer.has(&id(2)));
    // in the open pack
    assert!(matches!(packer.add(&indexer, b"other", id(1)), Ok(None)));
    let pack = packer.finalize().unwrap().unwrap();
    assert_eq!(pack.index.blobs.len(), 1);
    assert_eq!(pack.payload_len, 1);
    // known to the indexer
    assert!(indexer.add(pack.index).is_none());
    assert!(matches!(packer.add(&indexer, b"a", id(1)), Ok(None)));
    assert!(!packer.has(&id(1)));
    assert!(matches!(packer.finalize(), Ok(None)));
    // a tree blob of the same identifier is another blob
    let mut trees = Packer::new(Plain, BlobType::Tree, 1000);
    assert!(matches!(trees.add(&indexer, b"a", id(1)), Ok(None)));
    assert!(trees.has(&id(1)));
}

#[test]
fn packer_error_is_comparable() {
    assert_eq!(PackerError::TooLarge, PackerError::TooLarge);
}

#[test]
fn index_is_rebuilt_from_the_packs() {
    // three packs of a run, as they lie in the repository
    let indexer = Indexer::new(usize::MAX);
    let mut packer = Packer::new(Flip, BlobType::Data, 40);
    let mut packs = Vec::new();
    for n in 0..10u8 {
        let data = vec![n; 10 + n as usize];
        if let Some(pack) = packer.add(&indexer, &data, hash(&data)).unwrap() {
            packs.push(pack);
        }
    }
    packs.extend(packer.finalize().unwrap());
    assert!(packs.len() >= 3);

    // every index file is gone
    let listing: Vec<(Id, u32)> = packs.iter().map(|p| (p.id, p.bytes.len() as u32)).collect();
    let plan = repair_index(&listing, vec![], false, false);
    assert!(plan.changes.is_empty());
    assert_eq!(plan.read_headers.len(), packs.len());

    // each pack is described anew from its header
    for read in &plan.read_headers {
        assert!(!read.to_delete);
        assert_eq!(read.size_hint, None);
        let pack = packs.iter().find(|p| p.id == read.id).unwrap();
        assert_eq!(read.pack_size as usize, pack.bytes.len());
        let trailer = &pack.bytes[pack.bytes.len() - 4..];
        let range = locate_header(read.pack_size, trailer).unwrap();
        let stored = &pack.bytes[range.start as usize..(range.start + range.length) as usize];
        let header = Flip.decode(stored).unwrap();
        assert_eq!(read_pack_header(&header, range.start), Ok(pack.index.blobs.clone()));
    }
}

#[test]
fn plain_codec_stores_bytes_as_they_are() {
    let data = vec![0u8, 1, 2, 255, 34, 92];
    assert_eq!(Plain.encode(&data), data);
    assert_eq!(Plain.decode(&data), Some(data));
    assert_eq!(Plain.encode(&[]), Vec::<u8>::new());
    assert_eq!(Plain.decode(&[]), Some(Vec::new()));
}

#[test]
fn pack_is_put_together_from_its_parts() {
    let blobs = vec![
        IndexBlob { id: id(1), tpe: BlobType::Data, offset: 0, length: 3, uncompressed_length: None },
    ];
    let header = write_header(&blobs);
    let stored_header = Flip.encode(&header);
    let pack = seal_pack(vec![7, 8, 9], blobs.clone(), header.clone(), &stored_header).unwrap();
    assert_eq!(pack.id, hash(&stored_header));
    assert_eq!(pack.index.id, pack.id);
    assert_eq!(pack.payload_len, 3);
    assert_eq!(pack.header, header);
    assert_eq!(pack.index.blobs, blobs);
    let mut expected = vec![7u8, 8, 9];
    expected.extend(&stored_header);
    expected.extend((stored_header.len() as u32).to_le_bytes());
    assert_eq!(pack.bytes, expected);
    assert_eq!(pack.index.size, Some(expected.len() as u32));
    // a pack without blobs is a header and its length
    let empty = seal_pack(vec![], vec![], vec![], &[]).unwrap();
    assert_eq!(empty.bytes, vec![0, 0, 0, 0]);
    assert_eq!(empty.id, hash(&[]));
}

#[test]
fn empty_packer_has_nothing_to_seal() {
    let mut packer = Packer::new(Flip, BlobType::Data, 0);
    assert!(matches!(packer.finalize(), Ok(None)));
    assert!(matches!(packer.finalize(), Ok(None)));
}

#[test]
fn stored_blob_is_added_as_it_is_handed_over() {
    let mut packer = Packer::new(Flip, BlobType::Data, 10);
    // below the target: kept open
    assert!(matches!(packer.add_stored(b"plain", id(1), vec![9, 9, 9]), Ok(None)));
    assert!(packer.has(&id(1)));
    // in the open pack already: dropped, whatever is handed over
    assert!(matches!(packer.add_stored(b"other", id(1), vec![8; 100]), Ok(None)));
    // the target is reached: sealed with what was handed over, not encoded again
    let pack = packer.add_stored(b"seven b", id(2), vec![7; 7]).unwrap().unwrap();
    assert_eq!(pack.payload_len, 10);
    assert_eq!(&pack.bytes[..10], &[9, 9, 9, 7, 7, 7, 7, 7, 7, 7]);
    assert_eq!(pack.index.blobs.len(), 2);
    assert_eq!(pack.index.blobs[0].id, id(1));
    assert_eq!(pack.index.blobs[0].offset, 0);
    assert_eq!(pack.index.blobs[0].length, 3);
    assert_eq!(pack.index.blobs[0].data_length(), 5);
    assert_eq!(pack.index.blobs[1].id, id(2));
    assert_eq!(pack.index.blobs[1].offset, 3);
    assert_eq!(pack.index.blobs[1].length, 7);
    assert_eq!(pack.index.blobs[1].data_length(), 7);
    assert!(!packer.has(&id(1)));
    assert!(matches!(packer.finalize(), Ok(None)));
}

#[test]
fn add_encodes_and_adds_what_is_not_known() {
    let mut indexer = Indexer::new(100);
    let mut known = Packer::new(Plain, BlobType::Data, 1);
    let pack = known.add_stored(b"k", id(5), vec![1]).unwrap().unwrap();
    assert!(indexer.add(pack.index).is_none());

    let mut by_add = Packer::new(Flip, BlobType::Data, 1000);
    let mut by_hand = Packer::new(Flip, BlobType::Data, 1000);
    // known to the index: not added
    assert!(matches!(by_add.add(&indexer, b"k", id(5)), Ok(None)));
    assert!(!by_add.has(&id(5)));
    assert!(matches!(by_add.finalize(), Ok(None)));
    // not known: the same as adding what the codec makes of it
    assert!(matches!(by_add.add(&indexer, b"abc", id(6)), Ok(None)));
    assert!(matches!(by_hand.add_stored(b"abc", id(6), Flip.encode(b"abc")), Ok(None)));
    let a = by_add.finalize().unwrap().unwrap();
    let b = by_hand.finalize().unwrap().unwrap();
    assert_eq!(a.bytes, b.bytes);
    assert_eq!(a.id, b.id);
    assert_ne!(&a.bytes[..3], b"abc");
}

#[test]
fn the_tail_of_a_pack_is_read_first() {
    // nothing said: the length field alone
    assert_eq!(tail_to_read(None, 100), HeaderRange { start: 96, length: 4 });
    // the header as the index has it, and the length field
    assert_eq!(tail_to_read(Some(30), 100), HeaderRange { start: 66, length: 34 });
    assert_eq!(tail_to_read(Some(0), 100), HeaderRange { start: 96, length: 4 });
    assert_eq!(tail_to_read(Some(95), 100), HeaderRange { start: 1, length: 99 });
    // never more than the pack has
    assert_eq!(tail_to_read(Some(96), 100), HeaderRange { start: 0, length: 100 });
    assert_eq!(tail_to_read(Some(97), 100), HeaderRange { start: 0, length: 100 });
    assert_eq!(tail_to_read(Some(u32::MAX), 100), HeaderRange { start: 0, length: 100 });
    assert_eq!(tail_to_read(None, 3), HeaderRange { start: 0, length: 3 });
    assert_eq!(tail_to_read(None, 0), HeaderRange { start: 0, length: 0 });
    assert_eq!(
        tail_to_read(Some(u32::MAX), u32::MAX),
        HeaderRange { start: 0, length: u32::MAX }
    );
    assert_eq!(
        tail_to_read(Some(u32::MAX - 5), u32::MAX),
        HeaderRange { start: 1, length: u32::MAX - 1 }
    );
}

#[test]
fn the_header_is_taken_from_the_tail_where_it_lies_there() {
    // a pack of 20 bytes: 10 of blobs, 6 of header, the length field
    let mut pack: Vec<u8> = (0..16).collect();
    pack.extend_from_slice(&6u32.to_le_bytes());
    let found = |from: usize| header_from_tail(20, &pack[from..]);
    match found(10) {
        Ok(HeaderSource::Found(bytes)) => assert_eq!(bytes, vec![10, 11, 12, 13, 14, 15]),
        other => panic!("{other:?}"),
    }
    match found(0) {
        Ok(HeaderSource::Found(bytes)) => assert_eq!(bytes, vec![10, 11, 12, 13, 14, 15]),
        other => panic!("{other:?}"),
    }
    // the tail does not reach back to the header: to be read
    match found(11) {
        Ok(HeaderSource::Read(range)) => assert_eq!(range, HeaderRange { start: 10, length: 6 }),
        other => panic!("{other:?}"),
    }
    match found(16) {
        Ok(HeaderSource::Read(range)) => assert_eq!(range, HeaderRange { start: 10, length: 6 }),
        other => panic!("{other:?}"),
    }
    // no length field, or a header longer than the pack
    assert!(matches!(found(17), Err(PackError::TooShort)));
    assert!(matches!(header_from_tail(20, &[]), Err(PackError::TooShort)));
    assert!(matches!(header_from_tail(9, &pack[10..]), Err(PackError::TooShort)));
    assert!(matches!(header_from_tail(3, &pack[16..]), Err(PackError::TooShort)));
    // an empty header lies in every tail
    match header_from_tail(4, &0u32.to_le_bytes()) {
        Ok(HeaderSource::Found(bytes)) => assert!(bytes.is_empty()),
        other => panic!("{other:?}"),
    }
}

#[test]
fn a_pack_is_described_by_what_its_header_gave() {
    let pack = pack_from_header(id(3), Ok(blobs()));
    assert_eq!(pack.id, id(3));
    assert_eq!(pack.blobs, blobs());
    assert_eq!(pack.size, None);
    for e in [PackError::TooShort, PackError::BadHeader, PackError::LengthMismatch] {
        let pack = pack_from_header(id(4), Err(e));
        assert_eq!(pack.id, id(4));
        assert!(pack.blobs.is_empty());
        assert_eq!(pack.size, None);
    }
}

fn laid_out_blobs() -> Vec<IndexBlob> {
    vec![
        IndexBlob { id: id(1), tpe: BlobType::Data, offset: 0, length: 10, uncompressed_length: None },
        IndexBlob { id: id(2), tpe: BlobType::Data, offset: 10, length: 5, uncompressed_length: Some(9) },
        IndexBlob { id: id(3), tpe: BlobType::Data, offset: 15, length: 7, uncompressed_length: None },
    ]
}

#[test]
fn a_decoded_header_describes_the_pack_where_it_covers_the_blobs() {
    let header = write_header(&laid_out_blobs());
    let pack = pack_from_decoded(id(9), 22, Some(header.clone()));
    assert_eq!(pack.id, id(9));
    assert_eq!(pack.size, None);
    assert_eq!(pack.blobs, laid_out_blobs());
    // the blobs do not end where the header begins
    assert!(pack_from_decoded(id(9), 23, Some(header.clone())).blobs.is_empty());
    assert!(pack_from_decoded(id(9), 21, Some(header.clone())).blobs.is_empty());
    // no list of records, or nothing decoded
    assert!(pack_from_decoded(id(9), 22, Some(header[..header.len() - 1].to_vec())).blobs.is_empty());
    assert!(pack_from_decoded(id(9), 22, None).blobs.is_empty());
    assert_eq!(pack_from_decoded(id(9), 22, None).id, id(9));
    // an empty header is the header of an empty pack
    assert!(pack_from_decoded(id(9), 0, Some(vec![])).blobs.is_empty());
}

#[test]
fn an_encoded_header_is_decoded_before_it_is_read() {
    let header = write_header(&laid_out_blobs());
    let stored = Flip.encode(&header);
    assert_eq!(pack_from_stored(&Flip, id(9), 22, &stored).blobs, laid_out_blobs());
    // as it is, the header is nothing that the codec has made
    assert!(pack_from_stored(&Flip, id(9), 22, &header).blobs.is_empty());
    assert!(pack_from_stored(&Plain, id(9), 22, &stored).blobs.is_empty());
    assert_eq!(pack_from_stored(&Plain, id(9), 22, &header).blobs, laid_out_blobs());
}

#[test]
fn a_sealed_pack_is_described_again_from_its_bytes() {
    let indexer = Indexer::new(100);
    let mut packer = Packer::new(Flip, BlobType::Tree, 1000);
    for part in [&b"one"[..], &b"three"[..], &b""[..], &[7u8; 40][..]] {
        assert!(matches!(packer.add(&indexer, part, hash(part)), Ok(None)));
    }
    let pack = packer.finalize().unwrap().unwrap();
    let size = pack.bytes.len() as u32;
    for hint in [None, Some(0), Some(5), Some(size), Some(pack.header.len() as u32 + 2)] {
        let first = tail_to_read(hint, size);
        let tail = &pack.bytes[first.start as usize..];
        assert_eq!(tail.len(), first.length as usize);
        let (stored, start) = match header_from_tail(size, tail).unwrap() {
            HeaderSource::Found(stored) => {
                let start = size - 4 - stored.len() as u32;
                (stored, start)
            }
            HeaderSource::Read(range) => (
                pack.bytes[range.start as usize..(range.start + range.length) as usize].to_vec(),
                range.start,
            ),
        };
        assert_eq!(start, pack.payload_len);
        let described = pack_from_stored(&Flip, pack.id, start, &stored);
        assert_eq!(described.id, pack.index.id);
        assert_eq!(described.blobs, pack.index.blobs);
        assert_eq!(described.size, None);
    }
}
