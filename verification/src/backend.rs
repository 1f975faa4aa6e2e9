//! Where the objects of a repository lie in a directory of the local
//! filesystem.

use vstd::prelude::*;
use vstd::string::{StrSliceExecFns, StringExecFns};
use crate::id::{lemma_hex_is_ascii, Id};

verus! {

/// The kinds of object that a repository stores.
#[derive(Clone, Copy, Debug, PartialEq, Eq, Structural, Hash)]
pub enum FileType {
    Config,
    Key,
    Snapshot,
    Index,
    Pack,
}

impl FileType {
    /// The directory of the objects of this kind; for the configuration,
    /// the name of its file.
    pub open spec fn spec_name(self) -> Seq<char> {
        match self {
            FileType::Config => "config"@,
            FileType::Key => "keys"@,
            FileType::Snapshot => "snapshots"@,
            FileType::Index => "index"@,
            FileType::Pack => "data"@,
        }
    }

    /// The directory of the objects of this kind; for the configuration,
    /// the name of its file.
    pub fn name(&self) -> (r: &'static str)
        ensures
            r@ == self.spec_name(),
    {
        match self {
            FileType::Config => "config",
            FileType::Key => "keys",
            FileType::Snapshot => "snapshots",
            FileType::Index => "index",
            FileType::Pack => "data",
        }
    }
}

/// The path of an object below the root of the repository.
///
/// The configuration is the file `config`. Packs lie in `data`, in a
/// directory named by the first two hex digits of their identifier. Every
/// other object lies in the directory of its kind. All but the
/// configuration are named by the hex digits of their identifier.
pub open spec fn relative_path(tpe: FileType, id: Id) -> Seq<char> {
    match tpe {
        FileType::Config => tpe.spec_name(),
        FileType::Pack => tpe.spec_name() + "/"@ + Id::hex_text(id).subrange(0, 2) + "/"@
            + Id::hex_text(id),
        _ => tpe.spec_name() + "/"@ + Id::hex_text(id),
    }
}

/// A relative path below a root: the two with one separator between them;
/// the relative path alone where the root is empty.
pub open spec fn joined(root: Seq<char>, rel: Seq<char>) -> Seq<char> {
    if root.len() == 0 {
        rel
    } else if root.last() == '/' {
        root + rel
    } else {
        root + "/"@ + rel
    }
}

/// A repository in a directory of the local filesystem.
#[derive(Clone, Debug)]
pub struct LocalBackend {
    path: String,
}

impl LocalBackend {
    /// The root directory of the repository.
    pub closed spec fn root(&self) -> Seq<char> {
        self.path@
    }

    /// The repository in the directory `path`.
    pub fn new(path: &str) -> (be: LocalBackend)
        ensures
            be.root() == path@,
    {
        LocalBackend { path: String::from_str(path) }
    }

    /// The root directory of the repository.
    pub fn location(&self) -> (r: &str)
        ensures
            r@ == self.root(),
    {
        self.path.as_str()
    }

    /// The path of the object `id` of kind `tpe`.
    pub fn path(&self, tpe: FileType, id: Id) -> (r: String)
        ensures
            r@ == joined(self.root(), relative_path(tpe, id)),
    {
        let root = self.path.as_str();
        let mut r = String::from_str(root);
        let n = root.unicode_len();
        if n > 0 && root.get_char(n - 1) != '/' {
            r.append("/");
        }
        r.append(tpe.name());
        match tpe {
            FileType::Config => {},
            FileType::Pack => {
                let hex = id.to_hex();
                let digits = hex.as_str();
                proof {
                    lemma_hex_is_ascii(id@);
                    id.lemma_view();
                    assert(vstd::string::is_ascii(digits)) by {
                        assert forall|i: int| 0 <= i < digits@.len() implies '\0'
                            <= #[trigger] digits@[i] <= '\u{7f}' by {
                            assert(crate::id::hex_of(id@)[i] < 128);
                        }
                    }
                }
                r.append("/");
                r.append(digits.substring_ascii(0, 2));
                r.append("/");
                r.append(hex.as_str());
            },
            _ => {
                let hex = id.to_hex();
                r.append("/");
                r.append(hex.as_str());
            },
        }
        proof {
            let rel = relative_path(tpe, id);
            assert(r@ =~= joined(self.root(), rel));
        }
        r
    }
}

/// The identifiers among `names`, in order: a name counts where it is the
/// 64 hex digits of an identifier.
pub open spec fn ids_among(names: Seq<String>) -> Seq<Id>
    decreases names.len(),
{
    if names.len() == 0 {
        Seq::empty()
    } else {
        let before = ids_among(names.drop_last());
        match Id::parse_hex(names.last()@) {
            Some(id) => before.push(id),
            None => before,
        }
    }
}

/// The objects among the file names of a directory: every name that is an
/// identifier, in order.
pub fn ids_from_names(names: &Vec<String>) -> (ids: Vec<Id>)
    ensures
        ids@ == ids_among(names@),
{
    let mut ids: Vec<Id> = Vec::new();
    let mut i: usize = 0;
    assert(names@.subrange(0, 0) =~= Seq::<String>::empty());
    while i < names.len()
        invariant
            0 <= i <= names@.len(),
            ids@ == ids_among(names@.subrange(0, i as int)),
        decreases names@.len() - i,
    {
        proof {
            let next = names@.subrange(0, i + 1);
            assert(next.drop_last() =~= names@.subrange(0, i as int));
            assert(next.last() == names@[i as int]);
        }
        match Id::from_hex(names[i].as_str()) {
            Some(id) => ids.push(id),
            None => {},
        }
        i += 1;
    }
    assert(names@.subrange(0, i as int) =~= names@);
    ids
}

/// Whether each of `names` is an identifier with a length that fits in 32
/// bits.
pub open spec fn all_sized(names: Seq<(String, u64)>) -> bool {
    forall|i: int|
        0 <= i < names.len() ==> Id::parse_hex((#[trigger] names[i]).0@).is_some() && names[i].1
            <= u32::MAX
}

/// The object that a file name and a length stand for, where the name is
/// an identifier and the length fits in 32 bits.
pub open spec fn sized(name: (String, u64)) -> (Id, u32) {
    (Id::parse_hex(name.0@).unwrap(), name.1 as u32)
}

/// The objects of a directory with their lengths, in order, from the file
/// names and lengths found there; `None` where a name is no identifier or
/// a length does not fit in 32 bits.
pub fn ids_with_sizes(names: &Vec<(String, u64)>) -> (r: Option<Vec<(Id, u32)>>)
    ensures
        r.is_some() <==> all_sized(names@),
        r.is_some() ==> r.unwrap()@ == names@.map_values(|n: (String, u64)| sized(n)),
{
    let mut ids: Vec<(Id, u32)> = Vec::new();
    let mut i: usize = 0;
    while i < names.len()
        invariant
            0 <= i <= names@.len(),
            all_sized(names@.subrange(0, i as int)),
            ids@ == names@.subrange(0, i as int).map_values(|n: (String, u64)| sized(n)),
        decreases names@.len() - i,
    {
        let size: u64 = names[i].1;
        let id = match Id::from_hex(names[i].0.as_str()) {
            Some(id) => id,
            None => {
                return None;
            },
        };
        if size > 0xffff_ffff {
            return None;
        }
        ids.push((id, size as u32));
        proof {
            let before = names@.subrange(0, i as int);
            let next = names@.subrange(0, i + 1);
            assert(next =~= before.push(names@[i as int]));
            assert(next.map_values(|n: (String, u64)| sized(n)) =~= before.map_values(
                |n: (String, u64)| sized(n),
            ).push(sized(names@[i as int])));
        }
        i += 1;
    }
    assert(names@.subrange(0, i as int) =~= names@);
    Some(ids)
}

} // verus!
