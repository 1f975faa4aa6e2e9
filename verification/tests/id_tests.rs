use rustic::backend::{ids_from_names, ids_with_sizes, FileType, LocalBackend};
use rustic::hasher::hash;
use rustic::id::Id;

fn sample_id() -> Id {
    let mut bytes = [0u8; 32];
    for (i, b) in bytes.iter_mut().enumerate() {
        *b = (i as u8) * 7 + 1;
    }
    Id::new(bytes)
}

#[test]
fn hex_is_lowercase_and_64_long() {
    let id = Id::new([0xab; 32]);
    let hex = id.to_hex();
    assert_eq!(hex.len(), 64);
    assert_eq!(hex, "ab".repeat(32));
}

#[test]
fn hex_round_trip() {
    let id = sample_id();
    assert_eq!(Id::from_hex(&id.to_hex()), Some(id));
}

#[test]
fn bytes_round_trip() {
    let id = sample_id();
    let bytes = id.to_bytes();
    assert_eq!(bytes.len(), 32);
    assert_eq!(bytes[0], 1);
    assert_eq!(bytes[31], 31 * 7 + 1);
    assert_eq!(Id::from_slice(&bytes), Some(id));
}

#[test]
fn from_hex_rejects_other_text() {
    assert_eq!(Id::from_hex(""), None);
    assert_eq!(Id::from_hex(&"a".repeat(63)), None);
    assert_eq!(Id::from_hex(&"a".repeat(65)), None);
    assert_eq!(Id::from_hex(&"g".repeat(64)), None);
    assert_eq!(Id::from_hex(&"A".repeat(64)), None);
    assert_eq!(Id::from_hex(&"é".repeat(32)), None);
    assert!(Id::from_hex(&"0".repeat(64)).unwrap().is_null());
}

#[test]
fn from_slice_needs_32_bytes() {
    assert_eq!(Id::from_slice(&[1u8; 31]), None);
    assert_eq!(Id::from_slice(&[1u8; 33]), None);
    assert_eq!(Id::from_slice(&[1u8; 32]), Some(Id::new([1u8; 32])));
}

#[test]
fn order_follows_the_halves() {
    let a = Id::new([0u8; 32]);
    let mut hi = [0u8; 32];
    hi[0] = 1;
    let b = Id::new(hi);
    assert!(a.lt(&b));
    assert!(!b.lt(&a));
    assert!(!a.lt(&a));
}

#[test]
fn hash_is_sha256() {
    let id = hash(b"abc");
    assert_eq!(
        id.to_hex(),
        "ba7816bf8f01cfea414140de5dae2223b00361a396177a9cb410ff61f20015ad"
    );
    let empty = hash(b"");
    assert_eq!(
        empty.to_hex(),
        "e3b0c44298fc1c149afbf4c8996fb92427ae41e4649b934ca495991b7852b855"
    );
}

#[test]
fn hash_differs_from_its_input() {
    let data = [7u8; 32];
    assert_ne!(hash(&data).to_bytes(), data.to_vec());
}

#[test]
fn paths_follow_the_layout() {
    let be = LocalBackend::new("/repo");
    let id = Id::new([0xab; 32]);
    let hex = "ab".repeat(32);
    assert_eq!(be.location(), "/repo");
    assert_eq!(be.path(FileType::Config, id), "/repo/config");
    assert_eq!(be.path(FileType::Key, id), format!("/repo/keys/{hex}"));
    assert_eq!(be.path(FileType::Snapshot, id), format!("/repo/snapshots/{hex}"));
    assert_eq!(be.path(FileType::Index, id), format!("/repo/index/{hex}"));
    assert_eq!(be.path(FileType::Pack, id), format!("/repo/data/ab/{hex}"));
}

#[test]
fn paths_join_like_a_path() {
    let id = Id::new([0x01; 32]);
    assert_eq!(LocalBackend::new("").path(FileType::Config, id), "config");
    assert_eq!(LocalBackend::new("/").path(FileType::Config, id), "/config");
    assert_eq!(LocalBackend::new("repo/").path(FileType::Config, id), "repo/config");
}

#[test]
fn names_that_are_no_identifier_are_skipped() {
    let id = sample_id();
    let names = vec!["config".to_string(), id.to_hex(), "x".repeat(64), String::new()];
    assert_eq!(ids_from_names(&names), vec![id]);
}

#[test]
fn hex_codes_spell_the_hex_text() {
    let id = sample_id();
    assert_eq!(String::from_utf8(id.hex_codes()).unwrap(), id.to_hex());
    assert_eq!(id.to_hex().len(), 64);
    assert!(id.to_hex().starts_with("01080f16"));
}

#[test]
fn objects_are_listed_with_their_lengths() {
    let a = Id::new([0xab; 32]);
    let b = Id::new([0x01; 32]);
    let names = vec![(a.to_hex(), 17u64), (b.to_hex(), 0), (a.to_hex(), u32::MAX as u64)];
    assert_eq!(ids_with_sizes(&names), Some(vec![(a, 17), (b, 0), (a, u32::MAX)]));
    assert_eq!(ids_with_sizes(&vec![]), Some(vec![]));
}

#[test]
fn a_listing_with_a_strange_name_or_length_is_refused() {
    let a = Id::new([0xab; 32]);
    // a length beyond 32 bits
    assert_eq!(ids_with_sizes(&vec![(a.to_hex(), u32::MAX as u64 + 1)]), None);
    assert_eq!(ids_with_sizes(&vec![(a.to_hex(), u64::MAX)]), None);
    // a name that is no identifier, wherever it stands
    assert_eq!(ids_with_sizes(&vec![("lock".to_string(), 1)]), None);
    assert_eq!(ids_with_sizes(&vec![(a.to_hex(), 1), (String::new(), 1)]), None);
    assert_eq!(ids_with_sizes(&vec![(a.to_hex()[..63].to_string(), 1), (a.to_hex(), 1)]), None);
}
