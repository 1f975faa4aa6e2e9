use rustic::blob::{BlobType, IndexBlob, IndexFile, IndexPack};
use rustic::id::Id;
use rustic::idmap::{IdMap, IdSet};
use rustic::index::{IndexBackend, IndexEntry};
use rustic::indexer::Indexer;

fn id(n: u8) -> Id {
    Id::new([n; 32])
}

fn blob(n: u8, tpe: BlobType, offset: u32) -> IndexBlob {
    IndexBlob { id: id(n), tpe, offset, length: 50, uncompressed_length: None }
}

fn pack(n: u8, blobs: Vec<IndexBlob>) -> IndexPack {
    IndexPack { id: id(n), blobs, size: None }
}

#[test]
fn map_keeps_one_value_for_each_identifier() {
    let mut map = IdMap::new();
    assert_eq!(map.get(&id(1)), None);
    for n in [5u8, 1, 9, 3, 7, 1, 9] {
        map.insert(id(n), n as u32 * 10);
    }
    assert_eq!(map.insert(id(3), 33), Some(30));
    assert_eq!(map.insert(id(4), 40), None);
    assert_eq!(map.get(&id(3)), Some(&33));
    assert_eq!(map.get(&id(9)), Some(&90));
    assert_eq!(map.get(&id(2)), None);
    assert!(map.contains(&id(5)) && !map.contains(&id(6)));
    assert_eq!(map.remove(&id(5)), Some(50));
    assert_eq!(map.remove(&id(5)), None);
    assert_eq!(map.remove(&id(100)), None);
    assert!(!map.contains(&id(5)));
    assert_eq!(
        map.into_entries(),
        vec![(id(1), 10), (id(3), 33), (id(4), 40), (id(7), 70), (id(9), 90)]
    );
}

#[test]
fn map_orders_by_every_byte() {
    let mut map = IdMap::new();
    let mut ids = Vec::new();
    for place in 0..32 {
        let mut bytes = [0u8; 32];
        bytes[place] = 1;
        ids.push(Id::new(bytes));
    }
    for (n, key) in ids.iter().enumerate() {
        map.insert(*key, n);
    }
    for (n, key) in ids.iter().enumerate() {
        assert_eq!(map.get(key), Some(&n));
    }
    assert_eq!(map.into_entries().len(), 32);
}

#[test]
fn set_knows_its_members() {
    let mut set = IdSet::new();
    assert!(!set.contains(&id(1)));
    assert!(set.insert(id(1)));
    assert!(!set.insert(id(1)));
    assert!(set.insert(id(2)));
    assert!(set.contains(&id(1)) && set.contains(&id(2)) && !set.contains(&id(3)));
}

#[test]
fn catalog_holds_the_first_place_of_each_blob() {
    let mut first = IndexFile::new();
    first.add(
        pack(0xa1, vec![blob(1, BlobType::Data, 0), blob(2, BlobType::Tree, 50)]),
        false,
    );
    first.add(pack(0xa2, vec![blob(3, BlobType::Data, 0)]), true);
    let mut second = IndexFile::new();
    second.add(
        pack(0xa3, vec![blob(1, BlobType::Data, 7), blob(1, BlobType::Tree, 9), blob(4, BlobType::Data, 11)]),
        false,
    );
    let index = IndexBackend::new(&vec![first, second]);
    let entry = index.get_data(&id(1)).unwrap();
    assert_eq!(
        entry,
        IndexEntry {
            pack: id(0xa1),
            blob_type: BlobType::Data,
            offset: 0,
            length: 50,
            uncompressed_length: None
        }
    );
    assert_eq!(entry.data_length(), 18);
    assert_eq!(index.get_tree(&id(1)).unwrap().pack, id(0xa3));
    assert_eq!(index.get_tree(&id(2)).unwrap().offset, 50);
    assert_eq!(index.get_id(BlobType::Data, &id(4)).unwrap().offset, 11);
    assert!(index.has_data(&id(4)) && !index.has_tree(&id(4)));
    // superseded packs are no part of the catalog
    assert!(!index.has_data(&id(3)));
    assert_eq!(index.get_data(&id(2)), None);
    assert!(!IndexBackend::empty().has_data(&id(1)));
}

#[test]
fn plaintext_length_is_what_is_recorded_or_what_the_codec_leaves() {
    let mut b = blob(1, BlobType::Data, 0);
    assert_eq!(b.data_length(), 18);
    b.length = 32;
    assert_eq!(b.data_length(), 0);
    b.length = 5;
    assert_eq!(b.data_length(), 0);
    b.uncompressed_length = Some(77);
    assert_eq!(b.data_length(), 77);
    assert_eq!(b.entry_len(), 41);
    b.uncompressed_length = None;
    assert_eq!(b.entry_len(), 37);
}

#[test]
fn indexer_hands_out_a_file_at_its_threshold() {
    let mut indexer = Indexer::new(3);
    assert!(!indexer.has(BlobType::Data, &id(1)));
    assert!(indexer.add(pack(0xa1, vec![blob(1, BlobType::Data, 0)])).is_none());
    assert!(indexer.has(BlobType::Data, &id(1)));
    assert!(!indexer.has(BlobType::Tree, &id(1)));
    assert!(indexer.add_with(pack(0xa2, vec![blob(2, BlobType::Tree, 0)]), true).is_none());
    let file = indexer.add(pack(0xa3, vec![blob(3, BlobType::Data, 0)])).unwrap();
    assert_eq!(file.packs.iter().map(|p| p.id).collect::<Vec<_>>(), vec![id(0xa1), id(0xa3)]);
    assert_eq!(file.packs_to_delete.iter().map(|p| p.id).collect::<Vec<_>>(), vec![id(0xa2)]);
    // what was handed out stays known
    assert!(indexer.has(BlobType::Tree, &id(2)) && indexer.has(BlobType::Data, &id(3)));
    assert!(indexer.add(pack(0xa4, vec![])).is_none());
    let rest = indexer.finalize().unwrap();
    assert_eq!(rest.packs.len(), 1);
    assert!(Indexer::new(3).finalize().is_none());
    // a threshold of zero hands every pack out at once
    assert!(Indexer::new(0).add(pack(0xa5, vec![])).is_some());
}
