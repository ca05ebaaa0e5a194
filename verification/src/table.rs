use indexmap::IndexMap;
use smallvec::SmallVec;
use vstd::prelude::*;

use crate::value::{Value, ValueView};

verus! {

/// One entry of a [`Table`] as contracts see it: the key bytes it is found
/// by, then the key and the value stored under them.
pub type EntryView = (Seq<u8>, ValueView, ValueView);

/// An insertion-ordered hash table from key bytes to a stored key and value:
/// an `indexmap::IndexMap` whose keys are `smallvec::SmallVec` byte strings.
/// Nothing is proved of it: the functions below state what its methods do.
#[verifier::external_body]
pub struct Table {
    inner: IndexMap<SmallVec<[u8; 16]>, (Value, Value)>,
}

/// What a table holds, in its order.
pub uninterp spec fn table_entries(table: Table) -> Seq<EntryView>;

/// Whether some entry of `entries` is found by `bytes`.
pub open spec fn holds_bytes(entries: Seq<EntryView>, bytes: Seq<u8>) -> bool {
    exists|i: int| 0 <= i < entries.len() && (#[trigger] entries[i]).0 == bytes
}

impl Table {
    /// `IndexMap::new`: a table that holds nothing.
    #[verifier::external_body]
    pub(crate) fn new() -> (table: Table)
        ensures
            table_entries(table) == Seq::<EntryView>::empty(),
    {
        Table { inner: IndexMap::new() }
    }

    /// `IndexMap::len`: the number of entries.
    #[verifier::external_body]
    pub(crate) fn len(&self) -> (n: usize)
        ensures
            n == table_entries(*self).len(),
    {
        self.inner.len()
    }

    /// `IndexMap::contains_key`: whether an entry is found by `bytes`. Keys
    /// are compared as byte strings.
    #[verifier::external_body]
    pub(crate) fn contains_key(&self, bytes: &[u8]) -> (found: bool)
        ensures
            found == holds_bytes(table_entries(*self), bytes@),
    {
        self.inner.contains_key(bytes)
    }

    /// `IndexMap::get`: the key and value stored under `bytes`, or `None`
    /// where no entry is found by them.
    #[verifier::external_body]
    pub(crate) fn get(&self, bytes: &[u8]) -> (found: Option<&(Value, Value)>)
        ensures
            match found {
                Some(e) => exists|i: int|
                    0 <= i < table_entries(*self).len() && #[trigger] table_entries(*self)[i] == (
                        bytes@,
                        e.0@,
                        e.1@,
                    ),
                None => !holds_bytes(table_entries(*self), bytes@),
            },
    {
        self.inner.get(bytes)
    }

    /// `IndexMap::get_index`: the key and value stored at `index` in the
    /// table's order, or `None` where `index` is not below the length.
    #[verifier::external_body]
    pub(crate) fn get_index(&self, index: usize) -> (found: Option<&(Value, Value)>)
        ensures
            match found {
                Some(e) => index < table_entries(*self).len() && table_entries(*self)[
                    index as int
                ].1 == e.0@ && table_entries(*self)[index as int].2 == e.1@,
                None => index >= table_entries(*self).len(),
            },
    {
        self.inner.get_index(index).map(|(_, e)| e)
    }

    /// `IndexMap::insert`, on a key made by `SmallVec::from_slice`. Where an
    /// entry is found by `bytes`, it keeps its place and now stores `entry`;
    /// where none is, the new entry comes last. The other entries stay as
    /// they are.
    #[verifier::external_body]
    pub(crate) fn insert(&mut self, bytes: &[u8], entry: (Value, Value))
        ensures
            holds_bytes(table_entries(*old(self)), bytes@) ==> exists|i: int|
                0 <= i < table_entries(*old(self)).len() && (#[trigger] table_entries(
                    *old(self),
                )[i]).0 == bytes@ && table_entries(*final(self)) == table_entries(
                    *old(self),
                ).update(i, (bytes@, entry.0@, entry.1@)),
            !holds_bytes(table_entries(*old(self)), bytes@) ==> table_entries(*final(self))
                == table_entries(*old(self)).push((bytes@, entry.0@, entry.1@)),
    {
        self.inner.insert(SmallVec::from_slice(bytes), entry);
    }
}

} // verus!
