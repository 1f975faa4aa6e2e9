//! What a backup decides before and while it walks: the polynomial of the
//! chunker, the parent snapshot, and the node of each entry.

use vstd::prelude::*;
use crate::snapshot::{snapshot_views, SnapshotFile, SnapshotView};
use crate::text::ascii_codes;
use crate::tree::{Metadata, MetadataView, Node, NodeType, NodeView, Timestamp};

verus! {

/// The value of a hex digit of either case; `None` for any other byte.
pub open spec fn digit_value(c: u8) -> Option<int> {
    if 48 <= c <= 57 {
        Some(c - 48)
    } else if 97 <= c <= 102 {
        Some(c - 87)
    } else if 65 <= c <= 70 {
        Some(c - 55)
    } else {
        None
    }
}

/// The number that hex digits spell, the highest digit first; `None` where
/// a byte is no hex digit.
pub open spec fn hex_number(digits: Seq<u8>) -> Option<nat>
    decreases digits.len(),
{
    if digits.len() == 0 {
        Some(0nat)
    } else {
        match (hex_number(digits.drop_last()), digit_value(digits.last())) {
            (Some(high), Some(low)) => Some((high * 16 + low) as nat),
            _ => None,
        }
    }
}

/// The polynomial that a configuration names: one to sixteen hex digits;
/// `None` for any other text.
pub open spec fn polynomial_of(text: Seq<u8>) -> Option<u64> {
    if 1 <= text.len() <= 16 {
        match hex_number(text) {
            Some(n) => if n <= u64::MAX {
                Some(n as u64)
            } else {
                None
            },
            None => None,
        }
    } else {
        None
    }
}

/// Sixteen hex digits or fewer spell a number that fits in 64 bits.
proof fn lemma_hex_number_bound(digits: Seq<u8>)
    requires
        digits.len() <= 16,
        hex_number(digits).is_some(),
    ensures
        hex_number(digits).unwrap() < pow16(digits.len()),
    decreases digits.len(),
{
    if digits.len() > 0 {
        lemma_hex_number_bound(digits.drop_last());
    }
}

/// A power of sixteen.
pub open spec fn pow16(n: nat) -> nat
    decreases n,
{
    if n == 0 {
        1
    } else {
        16 * pow16((n - 1) as nat)
    }
}

/// The value of a hex digit.
fn digit(c: u8) -> (r: Option<u8>)
    ensures
        match r {
            Some(v) => digit_value(c) == Some(v as int) && v < 16,
            None => digit_value(c).is_none(),
        },
{
    if 48 <= c && c <= 57 {
        Some(c - 48)
    } else if 97 <= c && c <= 102 {
        Some(c - 87)
    } else if 65 <= c && c <= 70 {
        Some(c - 55)
    } else {
        None
    }
}

/// Reads the polynomial of the chunker from the hex digits under which the
/// configuration holds it.
pub fn parse_polynomial(text: &str) -> (r: Option<u64>)
    ensures
        match ascii_codes_of(text@) {
            Some(codes) => r == polynomial_of(codes),
            None => r.is_none(),
        },
{
    let codes = match ascii_codes(text) {
        Some(codes) => codes,
        None => {
            return None;
        },
    };
    proof {
        lemma_ascii_codes_of(text@, codes@);
    }
    if codes.len() == 0 || codes.len() > 16 {
        return None;
    }
    let mut value: u64 = 0;
    let mut i: usize = 0;
    assert(codes@.subrange(0, 0) =~= Seq::<u8>::empty());
    assert(pow16(0) == 1);
    while i < codes.len()
        invariant
            0 <= i <= codes@.len(),
            1 <= codes@.len() <= 16,
            ascii_codes_of(text@) == Some(codes@),
            hex_number(codes@.subrange(0, i as int)) == Some(value as nat),
            value < pow16(i as nat),
        decreases codes@.len() - i,
    {
        proof {
            let next = codes@.subrange(0, i + 1);
            assert(next.drop_last() =~= codes@.subrange(0, i as int));
            assert(next.last() == codes@[i as int]);
            lemma_pow16(i as nat);
        }
        match digit(codes[i]) {
            Some(v) => {
                value = value * 16 + v as u64;
            },
            None => {
                proof {
                    lemma_hex_number_prefix(codes@, i + 1);
                }
                return None;
            },
        }
        i += 1;
    }
    assert(codes@.subrange(0, i as int) =~= codes@);
    Some(value)
}

/// The powers of sixteen up to the sixteenth.
proof fn lemma_pow16(n: nat)
    requires
        n < 16,
    ensures
        pow16(n) * 16 == pow16(n + 1),
        pow16(n + 1) <= 0x1_0000_0000_0000_0000,
{
    reveal_with_fuel(pow16, 18);
}

/// Digits that begin with something that is no number spell no number.
proof fn lemma_hex_number_prefix(digits: Seq<u8>, n: int)
    requires
        0 <= n <= digits.len(),
        hex_number(digits.subrange(0, n)).is_none(),
    ensures
        hex_number(digits).is_none(),
    decreases digits.len(),
{
    if n < digits.len() {
        assert(digits.drop_last().subrange(0, n) =~= digits.subrange(0, n));
        lemma_hex_number_prefix(digits.drop_last(), n);
    } else {
        assert(digits.subrange(0, n) =~= digits);
    }
}

/// The ASCII codes of a text; `None` where the text holds a character
/// beyond ASCII.
pub open spec fn ascii_codes_of(text: Seq<char>) -> Option<Seq<u8>> {
    if exists|codes: Seq<u8>|
        crate::text::is_ascii_codes(codes) && text == crate::text::ascii_text(codes) {
        Some(
            choose|codes: Seq<u8>|
                crate::text::is_ascii_codes(codes) && text == crate::text::ascii_text(codes),
        )
    } else {
        None
    }
}

/// A text has one spelling in ASCII codes.
proof fn lemma_ascii_codes_of(text: Seq<char>, codes: Seq<u8>)
    requires
        crate::text::is_ascii_codes(codes),
        text == crate::text::ascii_text(codes),
    ensures
        ascii_codes_of(text) == Some(codes),
{
    let other = ascii_codes_of(text).unwrap();
    assert(other.len() == codes.len()) by {
        assert(crate::text::ascii_text(other).len() == other.len());
        assert(crate::text::ascii_text(codes).len() == codes.len());
    }
    assert forall|i: int| 0 <= i < codes.len() implies other[i] == codes[i] by {
        assert(crate::text::ascii_text(other)[i] == other[i] as char);
        assert(crate::text::ascii_text(codes)[i] == codes[i] as char);
        assert(other[i] < 128 && codes[i] < 128);
    }
    assert(other =~= codes);
}

/// Whether a time comes before another.
pub open spec fn earlier(a: Timestamp, b: Timestamp) -> bool {
    a.secs < b.secs || (a.secs == b.secs && a.nanos < b.nanos)
}

/// Whether the snapshot `s` is a backup of `path`.
pub open spec fn covers(s: SnapshotView, path: Seq<char>) -> bool {
    exists|i: int| 0 <= i < s.paths.len() && #[trigger] s.paths[i] == path
}

/// Whether `snaps[at]` is the latest backup of `path`: no backup of the
/// path is later, and every one before it in the list is earlier.
pub open spec fn is_latest(snaps: Seq<SnapshotView>, path: Seq<char>, at: int) -> bool {
    &&& 0 <= at < snaps.len()
    &&& covers(snaps[at], path)
    &&& forall|j: int|
        0 <= j < snaps.len() && covers(#[trigger] snaps[j], path) ==> !earlier(
            snaps[at].time,
            snaps[j].time,
        ) && (j < at ==> earlier(snaps[j].time, snaps[at].time))
}

/// Whether a snapshot is a backup of `path`.
pub fn snapshot_covers(s: &SnapshotFile, path: &String) -> (r: bool)
    ensures
        r == covers(s@, path@),
{
    let mut i: usize = 0;
    while i < s.paths.len()
        invariant
            0 <= i <= s.paths@.len(),
            forall|j: int| 0 <= j < i ==> #[trigger] s@.paths[j] != path@,
        decreases s.paths@.len() - i,
    {
        assert(s@.paths[i as int] == s.paths@[i as int]@);
        if s.paths[i] == *path {
            return true;
        }
        i += 1;
    }
    false
}

/// The parent for a backup of `path`: the latest snapshot that is a backup
/// of this path; of several with the same time, the first. `None` where
/// there is none.
pub fn latest_snapshot(snaps: &Vec<SnapshotFile>, path: &String) -> (r: Option<usize>)
    ensures
        match r {
            Some(at) => is_latest(snapshot_views(snaps@), path@, at as int),
            None => forall|j: int|
                0 <= j < snaps@.len() ==> !covers(#[trigger] snapshot_views(snaps@)[j], path@),
        },
{
    let ghost all = snapshot_views(snaps@);
    let mut best: Option<usize> = None;
    let mut i: usize = 0;
    while i < snaps.len()
        invariant
            0 <= i <= snaps@.len(),
            all == snapshot_views(snaps@),
            match best {
                Some(at) => {
                    &&& at < i
                    &&& covers(all[at as int], path@)
                    &&& forall|j: int|
                        0 <= j < i && covers(#[trigger] all[j], path@) ==> !earlier(
                            all[at as int].time,
                            all[j].time,
                        ) && (j < at ==> earlier(all[j].time, all[at as int].time))
                },
                None => forall|j: int| 0 <= j < i ==> !covers(#[trigger] all[j], path@),
            },
        decreases snaps@.len() - i,
    {
        assert(all[i as int] == snaps@[i as int]@);
        if snapshot_covers(&snaps[i], path) {
            match best {
                Some(at) => {
                    assert(all[at as int] == snaps@[at as int]@);
                    let a = snaps[at].time;
                    let b = snaps[i].time;
                    if a.secs < b.secs || (a.secs == b.secs && a.nanos < b.nanos) {
                        best = Some(i);
                    }
                },
                None => {
                    best = Some(i);
                },
            }
        }
        i += 1;
    }
    best
}

/// What the filesystem says of an entry.
#[derive(Debug)]
pub struct Stat {
    pub size: u64,
    pub modified: Option<Timestamp>,
    pub accessed: Option<Timestamp>,
    /// Change time: seconds since the epoch, and nanoseconds as the
    /// filesystem gives them.
    pub ctime: i64,
    pub ctime_nsec: i64,
    pub mode: u32,
    pub uid: u32,
    pub gid: u32,
    pub user: Option<Vec<u8>>,
    pub group: Option<Vec<u8>>,
    pub inode: u64,
    pub device_id: u64,
    pub links: u64,
}

/// What kind of entry the walk has met.
#[derive(Debug)]
pub enum EntryKind {
    Dir,
    /// A symbolic link, with its target.
    Symlink(Vec<u8>),
    /// Anything else: it is archived as a file.
    File,
}

/// Why an entry has no node.
#[derive(Clone, Copy, Debug, PartialEq, Eq, Structural)]
pub enum EntryError {
    /// The nanoseconds of the change time are negative, or more than 32
    /// bits hold.
    BadChangeTime,
}

/// The metadata of an entry. Without `with_atime`, the access time is
/// given as the modification time.
pub open spec fn metadata_of(stat: Stat, with_atime: bool) -> MetadataView {
    MetadataView {
        size: stat.size,
        mtime: stat.modified,
        atime: if with_atime {
            stat.accessed
        } else {
            stat.modified
        },
        ctime: Some(Timestamp { secs: stat.ctime, nanos: stat.ctime_nsec as u32 }),
        mode: stat.mode,
        uid: stat.uid,
        gid: stat.gid,
        user: crate::tree::opt_bytes(stat.user),
        group: crate::tree::opt_bytes(stat.group),
        inode: stat.inode,
        device_id: stat.device_id,
        links: stat.links,
    }
}

/// The node of an entry, before it has content or a subtree.
pub open spec fn entry_node(name: Seq<u8>, kind: EntryKind, stat: Stat, with_atime: bool) -> NodeView {
    NodeView {
        name,
        node_type: match kind {
            EntryKind::Dir => NodeType::Dir,
            EntryKind::Symlink(_) => NodeType::Symlink,
            EntryKind::File => NodeType::File,
        },
        meta: metadata_of(stat, with_atime),
        content: None,
        subtree: None,
        linktarget: match kind {
            EntryKind::Symlink(target) => Some(target@),
            _ => None,
        },
    }
}

/// Makes the node of an entry of the walk, and says whether its content
/// is to be read: that of a file is, no other.
///
/// Without `with_atime`, the node carries the modification time as its
/// access time too.
pub fn map_entry(name: Vec<u8>, kind: EntryKind, stat: Stat, with_atime: bool) -> (r: Result<
    (Node, bool),
    EntryError,
>)
    ensures
        match r {
            Ok((node, read)) => 0 <= stat.ctime_nsec <= u32::MAX && node@ == entry_node(
                name@,
                kind,
                stat,
                with_atime,
            ) && read == (kind is File),
            Err(e) => e == EntryError::BadChangeTime && !(0 <= stat.ctime_nsec <= u32::MAX),
        },
{
    if stat.ctime_nsec < 0 || stat.ctime_nsec > u32::MAX as i64 {
        return Err(EntryError::BadChangeTime);
    }
    let atime = if with_atime {
        stat.accessed
    } else {
        stat.modified
    };
    let meta = Metadata::new(
        stat.size,
        stat.modified,
        atime,
        Some(Timestamp { secs: stat.ctime, nanos: stat.ctime_nsec as u32 }),
        stat.mode,
        stat.uid,
        stat.gid,
        stat.user,
        stat.group,
        stat.inode,
        stat.device_id,
        stat.links,
    );
    match kind {
        EntryKind::Dir => Ok((Node::new_dir(name, meta), false)),
        EntryKind::Symlink(target) => Ok((Node::new_symlink(name, target, meta), false)),
        EntryKind::File => Ok((Node::new_file(name, meta), true)),
    }
}

} // verus!
