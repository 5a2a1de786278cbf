//! A hash table that finds a numbered entry by its path.

use crate::bytes::same_bytes;
use crate::path::{path_text, CanonicalPathBuf};
use hashbrown::{DefaultHashBuilder, HashTable};
use std::hash::BuildHasher;
use vstd::prelude::*;

verus! {

/// Entries are numbered below this bound: by 32-bit numbers, and so that a vector or a table of
/// them stays within the largest allocation.
pub open spec fn id_limit() -> int {
    if usize::MAX as int / 128 < u32::MAX {
        usize::MAX as int / 128
    } else {
        u32::MAX as int
    }
}

/// The bound on the numbers of entries.
pub fn max_entries() -> (r: usize)
    ensures
        r == id_limit(),
{
    let cap: usize = usize::MAX / 128;
    if cap < u32::MAX as usize {
        cap
    } else {
        u32::MAX as usize
    }
}

/// Numbered entries, each with a path.
pub trait PathSource {
    /// Whether there is an entry with this number.
    spec fn has_entry(&self, id: u32) -> bool;

    /// The stored path of the entry with this number.
    spec fn entry_path(&self, id: u32) -> Seq<u8>;

    /// The path of the entry with this number.
    fn path_at(&self, id: u32) -> (r: &CanonicalPathBuf)
        requires
            self.has_entry(id),
        ensures
            r@ == self.entry_path(id),
    ;
}

/// What an entry is looked up by: a stored path, or what a path says.
pub enum PathKey<'a> {
    Stored(&'a CanonicalPathBuf),
    Text(&'a [u8]),
}

impl<'a> PathKey<'a> {
    /// What the path that is looked for says.
    pub open spec fn text(&self) -> Seq<u8> {
        match *self {
            PathKey::Stored(path) => path_text(path@),
            PathKey::Text(text) => text@,
        }
    }

    /// Whether an entry with this stored path is the one that is looked for.
    pub open spec fn accepts(&self, raw: Seq<u8>) -> bool {
        match *self {
            PathKey::Stored(path) => path@ == raw,
            PathKey::Text(text) => path_text(raw) == text@,
        }
    }

    /// What the path that is looked for says.
    pub fn as_bytes(&self) -> (r: &[u8])
        ensures
            r@ == self.text(),
    {
        match self {
            PathKey::Stored(path) => path.as_bytes(),
            PathKey::Text(text) => *text,
        }
    }

    /// Whether an entry with this path is the one that is looked for.
    pub fn matches(&self, path: &CanonicalPathBuf) -> (r: bool)
        ensures
            r == self.accepts(path@),
    {
        match self {
            PathKey::Stored(wanted) => **wanted == *path,
            PathKey::Text(text) => same_bytes(path.as_bytes(), *text),
        }
    }
}

/// A `hashbrown::HashTable` of entry numbers, filed by the hash of what the path of each entry
/// says, and the hasher that computes the hashes.
#[verifier::external_body]
pub struct PathTable {
    table: HashTable<u32>,
    hasher: DefaultHashBuilder,
}

/// The numbers that the table holds.
pub uninterp spec fn table_ids(table: PathTable) -> Set<u32>;

/// The pairs of a text and a number such that a lookup with the hash of the text comes past the
/// number.
pub uninterp spec fn table_reach(table: PathTable) -> Set<(Seq<u8>, u32)>;

/// Every number in the table has an entry, and is filed by what the path of its entry says.
pub open spec fn is_filed<S: PathSource>(table: PathTable, source: S) -> bool {
    forall|id: u32| #[trigger]
        table_ids(table).contains(id) ==> source.has_entry(id) && table_reach(table).contains(
            (path_text(source.entry_path(id)), id),
        )
}

impl PathTable {
    /// `HashTable::with_capacity`: a table that holds nothing. It panics when the allocation would
    /// be too large, which the bound on `capacity` rules out.
    #[verifier::external_body]
    pub(crate) fn with_capacity(capacity: usize) -> (r: PathTable)
        requires
            capacity <= 65536,
        ensures
            table_ids(r) == Set::<u32>::empty(),
    {
        PathTable {
            table: HashTable::with_capacity(capacity),
            hasher: DefaultHashBuilder::default(),
        }
    }

    /// `HashTable::find`: goes through the numbers that the hash of the text leads to and returns
    /// the first that the key accepts, or `None` where it accepts none of them.
    #[verifier::external_body]
    fn find<S: PathSource>(&self, text: &[u8], key: &PathKey<'_>, source: &S) -> (r: Option<u32>)
        requires
            text@ == key.text(),
            forall|id: u32| #[trigger]
                table_ids(*self).contains(id) ==> source.has_entry(id),
        ensures
            match r {
                Some(id) => table_ids(*self).contains(id) && key.accepts(source.entry_path(id)),
                None => forall|id: u32| #[trigger]
                    table_ids(*self).contains(id) && table_reach(*self).contains((text@, id))
                        ==> !key.accepts(source.entry_path(id)),
            },
    {
        let hash = self.hasher.hash_one(text);
        self.table.find(hash, |&id| key.matches(source.path_at(id))).copied()
    }

    /// `HashTable::insert_unique`: files one more number under the hash of `text`. A number that is
    /// filed by what the path of its entry says stays filed by it, also where the table grows. It
    /// panics when the allocation would be too large, which the bound on the numbers rules out.
    #[verifier::external_body]
    pub(crate) fn insert<S: PathSource>(&mut self, text: &[u8], id: u32, source: &S)
        requires
            !table_ids(*old(self)).contains(id),
            id < id_limit(),
            forall|i: u32| #[trigger]
                table_ids(*old(self)).contains(i) ==> source.has_entry(i) && i < id_limit(),
        ensures
            table_ids(*final(self)) == table_ids(*old(self)).insert(id),
            table_reach(*final(self)).contains((text@, id)),
            forall|i: u32| #[trigger]
                table_ids(*old(self)).contains(i) && table_reach(*old(self)).contains(
                    (path_text(source.entry_path(i)), i),
                ) ==> table_reach(*final(self)).contains((path_text(source.entry_path(i)), i)),
    {
        let hasher = &self.hasher;
        self.table.insert_unique(hasher.hash_one(text), id, |&i| {
            hasher.hash_one(source.path_at(i).as_bytes())
        });
    }

    /// `HashTable::clear`: the table holds nothing any more.
    #[verifier::external_body]
    pub(crate) fn clear(&mut self)
        ensures
            table_ids(*final(self)) == Set::<u32>::empty(),
    {
        self.table.clear()
    }

    /// Looks an entry up in a table in which every number is filed by the path of its entry.
    pub fn lookup<S: PathSource>(&self, key: &PathKey<'_>, source: &S) -> (r: Option<u32>)
        requires
            is_filed(*self, *source),
        ensures
            match r {
                Some(id) => table_ids(*self).contains(id) && key.accepts(source.entry_path(id)),
                None => forall|id: u32| #[trigger]
                    table_ids(*self).contains(id) ==> !key.accepts(source.entry_path(id)),
            },
    {
        self.find(key.as_bytes(), key, source)
    }
}

/// There is room for more than sixteen million entries.
pub proof fn law_many_entries_fit()
    ensures
        id_limit() > 16_000_000,
        id_limit() <= u32::MAX,
{
}

} // verus!
