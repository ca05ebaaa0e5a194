use vstd::prelude::*;

use crate::table::{holds_bytes, table_entries, EntryView, Table};
use crate::value::{get_key_bytes, key_bytes, pair_of, Pair, Value, ValueView};

verus! {

/// Whether some key of `s` has the canonical encoding `bytes`.
pub open spec fn has_entry(s: Seq<Pair>, bytes: Seq<u8>) -> bool {
    exists|i: int| 0 <= i < s.len() && key_bytes((#[trigger] s[i]).0) == bytes
}

/// The place of an entry whose key has the canonical encoding `bytes`.
pub open spec fn index_of(s: Seq<Pair>, bytes: Seq<u8>) -> int {
    choose|i: int| 0 <= i < s.len() && key_bytes((#[trigger] s[i]).0) == bytes
}

/// The value found under `bytes`, or the empty value where there is none.
pub open spec fn lookup(s: Seq<Pair>, bytes: Seq<u8>) -> ValueView {
    if has_entry(s, bytes) {
        s[index_of(s, bytes)].1
    } else {
        ValueView::Empty
    }
}

/// The entries after `value` is set under `key`: an entry with the same
/// canonical encoding keeps its place and its stored key and takes the new
/// value; otherwise the new pair comes last.
pub open spec fn stored(s: Seq<Pair>, key: ValueView, value: ValueView) -> Seq<Pair> {
    let bytes = key_bytes(key);
    if has_entry(s, bytes) {
        s.update(index_of(s, bytes), (s[index_of(s, bytes)].0, value))
    } else {
        s.push((key, value))
    }
}

/// No two keys of `s` share a canonical encoding.
pub open spec fn distinct_keys(s: Seq<Pair>) -> bool {
    forall|i: int, j: int|
        0 <= i < j < s.len() ==> key_bytes((#[trigger] s[i]).0) != key_bytes((#[trigger] s[j]).0)
}

/// In a sequence of distinct keys, an entry is found by its own key, at its
/// own place.
pub proof fn lemma_index_of_entry(s: Seq<Pair>, i: int)
    requires
        distinct_keys(s),
        0 <= i < s.len(),
    ensures
        has_entry(s, key_bytes(s[i].0)),
        index_of(s, key_bytes(s[i].0)) == i,
        lookup(s, key_bytes(s[i].0)) == s[i].1,
{
    let bytes = key_bytes(s[i].0);
    let j = index_of(s, bytes);
    assert(0 <= j < s.len() && key_bytes(s[j].0) == bytes);
    if j < i {
        assert(key_bytes(s[j].0) != key_bytes(s[i].0));
    }
    if i < j {
        assert(key_bytes(s[i].0) != key_bytes(s[j].0));
    }
}

/// The pairs that a table's entries stand for.
pub open spec fn pairs_of(entries: Seq<EntryView>) -> Seq<Pair> {
    Seq::new(entries.len(), |i: int| (entries[i].1, entries[i].2))
}

/// Each entry is filed under the canonical encoding of its stored key.
pub open spec fn filed_by_key(entries: Seq<EntryView>) -> bool {
    forall|i: int| 0 <= i < entries.len() ==> (#[trigger] entries[i]).0 == key_bytes(entries[i].1)
}

proof fn lemma_holds_iff_has(entries: Seq<EntryView>, bytes: Seq<u8>)
    requires
        filed_by_key(entries),
    ensures
        holds_bytes(entries, bytes) == has_entry(pairs_of(entries), bytes),
{
    let s = pairs_of(entries);
    if holds_bytes(entries, bytes) {
        let i = choose|i: int| 0 <= i < entries.len() && (#[trigger] entries[i]).0 == bytes;
        assert(key_bytes(s[i].0) == bytes);
    }
    if has_entry(s, bytes) {
        let i = index_of(s, bytes);
        assert(entries[i].0 == bytes);
    }
}

/// An insertion-ordered map from canonical key bytes to values. Two keys
/// with the same canonical encoding are one key.
pub struct HashMapImpl {
    inner: Table,
}

impl View for HashMapImpl {
    type V = Seq<Pair>;

    /// The stored keys and their values, in the order of first insertion.
    closed spec fn view(&self) -> Seq<Pair> {
        pairs_of(table_entries(self.inner))
    }
}

impl HashMapImpl {
    /// What holds of every map made by [`HashMapImpl::new`] and changed by
    /// [`HashMapImpl::set`]: each entry is filed under the canonical
    /// encoding of its stored key, and no two keys share one.
    pub closed spec fn wf(&self) -> bool {
        &&& filed_by_key(table_entries(self.inner))
        &&& distinct_keys(pairs_of(table_entries(self.inner)))
    }

    /// In a well-formed map no two stored keys share a canonical encoding.
    pub proof fn lemma_distinct_keys(&self)
        requires
            self.wf(),
        ensures
            distinct_keys(self@),
    {
    }

    /// A map that holds nothing.
    pub fn new() -> (r: Self)
        ensures
            r.wf(),
            r@ == Seq::<Pair>::empty(),
    {
        let r = HashMapImpl { inner: Table::new() };
        assert(r@ =~= Seq::<Pair>::empty());
        r
    }

    /// The number of entries.
    pub fn len(&self) -> (n: usize)
        ensures
            n == self@.len(),
    {
        self.inner.len()
    }

    /// A copy of the value set under a key with the canonical encoding of
    /// `key`, or the empty value where there is none.
    pub fn get(&self, key: Value) -> (r: Value)
        requires
            self.wf(),
        ensures
            r@ == lookup(self@, key_bytes(key@)),
    {
        proof {
            lemma_holds_iff_has(table_entries(self.inner), key_bytes(key@));
        }
        let bytes = get_key_bytes(&key);
        match self.inner.get(bytes) {
            Some(e) => {
                proof {
                    let entries = table_entries(self.inner);
                    let i = choose|i: int|
                        0 <= i < entries.len() && #[trigger] entries[i] == (bytes@, e.0@, e.1@);
                    lemma_index_of_entry(self@, i);
                }
                e.1.clone()
            },
            None => Value::default(),
        }
    }

    /// Whether a value is set under a key with the canonical encoding of
    /// `key`.
    pub fn has_key(&self, key: Value) -> (r: bool)
        requires
            self.wf(),
        ensures
            r == has_entry(self@, key_bytes(key@)),
    {
        proof {
            lemma_holds_iff_has(table_entries(self.inner), key_bytes(key@));
        }
        self.inner.contains_key(get_key_bytes(&key))
    }

    /// Sets `value` under `key`. A key that is already there keeps its place
    /// in the order, and the map keeps the key it stored first.
    pub fn set(&mut self, key: Value, value: Value)
        requires
            old(self).wf(),
        ensures
            final(self).wf(),
            final(self)@ == stored(old(self)@, key@, value@),
    {
        proof {
            lemma_holds_iff_has(table_entries(self.inner), key_bytes(key@));
        }
        let ghost before = table_entries(self.inner);
        let ghost bytes = key_bytes(key@);
        let first = match self.inner.get(get_key_bytes(&key)) {
            Some(e) => {
                proof {
                    let i = choose|i: int|
                        0 <= i < before.len() && #[trigger] before[i] == (bytes, e.0@, e.1@);
                    lemma_index_of_entry(pairs_of(before), i);
                }
                e.0.clone()
            },
            None => key.clone(),
        };
        self.inner.insert(get_key_bytes(&key), (first, value));
        proof {
            let after = table_entries(self.inner);
            if holds_bytes(before, bytes) {
                let i = choose|i: int|
                    0 <= i < before.len() && (#[trigger] before[i]).0 == bytes && after
                        == before.update(i, (bytes, first@, value@));
                lemma_index_of_entry(pairs_of(before), i);
                assert(pairs_of(after) =~= stored(pairs_of(before), key@, value@));
                assert forall|a: int, b: int| 0 <= a < b < after.len() implies key_bytes(
                    (#[trigger] pairs_of(after)[a]).0,
                ) != key_bytes((#[trigger] pairs_of(after)[b]).0) by {
                    assert(key_bytes(pairs_of(before)[a].0) != key_bytes(pairs_of(before)[b].0));
                }
            } else {
                assert(pairs_of(after) =~= stored(pairs_of(before), key@, value@));
                assert forall|a: int, b: int| 0 <= a < b < after.len() implies key_bytes(
                    (#[trigger] pairs_of(after)[a]).0,
                ) != key_bytes((#[trigger] pairs_of(after)[b]).0) by {
                    if b < before.len() {
                        assert(key_bytes(pairs_of(before)[a].0) != key_bytes(
                            pairs_of(before)[b].0,
                        ));
                    } else {
                        assert(before[a].0 != bytes);
                    }
                }
            }
        }
    }

    /// A cursor at the first entry. It holds no entries of its own: each
    /// call on it reads the map as it then is.
    pub fn iter(&self) -> (r: HashMapIteratorImpl)
        ensures
            r.position() == 0,
    {
        HashMapIteratorImpl { position: 0 }
    }
}

/// A cursor into a [`HashMapImpl`]: a position in the map's order.
#[derive(Debug, Clone)]
pub struct HashMapIteratorImpl {
    position: usize,
}

impl HashMapIteratorImpl {
    /// The number of steps taken so far.
    pub closed spec fn spec_position(&self) -> usize {
        self.position
    }

    /// The number of steps taken so far.
    #[verifier::when_used_as_spec(spec_position)]
    pub fn position(&self) -> (r: usize)
        ensures
            r == self.position(),
    {
        self.position
    }

    /// Whether the cursor stands before an entry of `map` as it now is.
    pub fn has_next(&self, map: &HashMapImpl) -> (r: bool)
        ensures
            r == (self.position() < map@.len()),
    {
        self.position < map.len()
    }

    /// Hands out the key and value at the cursor, or two empty values where
    /// the cursor is past the last entry of `map`, and moves the cursor on
    /// by one either way.
    pub fn next(&mut self, map: &HashMapImpl) -> (r: [Value; 2])
        requires
            old(self).position() < usize::MAX,
        ensures
            final(self).position() == old(self).position() + 1,
            old(self).position() < map@.len() ==> r@[0]@ == map@[old(self).position() as int].0
                && r@[1]@ == map@[old(self).position() as int].1,
            old(self).position() >= map@.len() ==> r@[0]@ == ValueView::Empty && r@[1]@
                == ValueView::Empty,
    {
        let entry = match map.inner.get_index(self.position) {
            Some(e) => pair_of(&e.0, &e.1),
            None => [Value::default(), Value::default()],
        };
        self.position = self.position + 1;
        entry
    }
}

/// The entries of a map that was empty and then took the pairs of `ops`, one
/// `set` each, first to last.
pub open spec fn after_sets(ops: Seq<Pair>) -> Seq<Pair>
    decreases ops.len(),
{
    if ops.len() == 0 {
        Seq::empty()
    } else {
        stored(after_sets(ops.drop_last()), ops.last().0, ops.last().1)
    }
}

/// The value of the last pair of `ops` whose key has the canonical encoding
/// `bytes`, or the empty value where no pair has.
pub open spec fn latest(ops: Seq<Pair>, bytes: Seq<u8>) -> ValueView
    decreases ops.len(),
{
    if ops.len() == 0 {
        ValueView::Empty
    } else if key_bytes(ops.last().0) == bytes {
        ops.last().1
    } else {
        latest(ops.drop_last(), bytes)
    }
}

/// One `set`, seen from any key: a key with the encoding of the one that was
/// set now finds the new value, every other key finds what it found before,
/// and the keys stay distinct.
pub proof fn lemma_set_then_get(s: Seq<Pair>, key: ValueView, value: ValueView, bytes: Seq<u8>)
    requires
        distinct_keys(s),
    ensures
        distinct_keys(stored(s, key, value)),
        has_entry(stored(s, key, value), key_bytes(key)),
        bytes == key_bytes(key) ==> lookup(stored(s, key, value), bytes) == value,
        bytes != key_bytes(key) ==> lookup(stored(s, key, value), bytes) == lookup(s, bytes),
        bytes != key_bytes(key) ==> has_entry(stored(s, key, value), bytes) == has_entry(s, bytes),
{
    let t = stored(s, key, value);
    let kb = key_bytes(key);
    let at = if has_entry(s, kb) {
        index_of(s, kb)
    } else {
        s.len() as int
    };
    assert(0 <= at < t.len() && t[at].1 == value && key_bytes(t[at].0) == kb);
    assert(t.len() == if has_entry(s, kb) { s.len() } else { s.len() + 1 });
    assert forall|i: int| 0 <= i < t.len() && i != at implies i < s.len() && #[trigger] t[i]
        == s[i] by {}
    assert forall|i: int, j: int| 0 <= i < j < t.len() implies key_bytes((#[trigger] t[i]).0)
        != key_bytes((#[trigger] t[j]).0) by {
        if i != at && j != at {
            assert(key_bytes(s[i].0) != key_bytes(s[j].0));
        } else if has_entry(s, kb) {
            assert(key_bytes(s[i].0) != key_bytes(s[j].0));
        } else {
            assert(key_bytes(s[i].0) != kb);
        }
    }
    lemma_index_of_entry(t, at);
    if bytes != kb {
        if has_entry(s, bytes) {
            let i = index_of(s, bytes);
            assert(t[i] == s[i]);
            lemma_index_of_entry(t, i);
        }
        if has_entry(t, bytes) {
            let i = index_of(t, bytes);
            assert(t[i] == s[i]);
            lemma_index_of_entry(s, i);
        }
    }
}

/// After any run of `set` calls on a new map, the keys are distinct and
/// `get` finds under a key the value that was set last under a key with the
/// same canonical encoding.
pub proof fn lemma_get_finds_latest(ops: Seq<Pair>, bytes: Seq<u8>)
    ensures
        distinct_keys(after_sets(ops)),
        lookup(after_sets(ops), bytes) == latest(ops, bytes),
    decreases ops.len(),
{
    if ops.len() > 0 {
        lemma_get_finds_latest(ops.drop_last(), bytes);
        lemma_set_then_get(after_sets(ops.drop_last()), ops.last().0, ops.last().1, bytes);
    }
}

/// A key whose canonical encoding was never set is not in the map, and `get`
/// finds the empty value under it.
pub proof fn lemma_never_set(ops: Seq<Pair>, bytes: Seq<u8>)
    requires
        forall|i: int| 0 <= i < ops.len() ==> key_bytes((#[trigger] ops[i]).0) != bytes,
    ensures
        !has_entry(after_sets(ops), bytes),
        lookup(after_sets(ops), bytes) == ValueView::Empty,
    decreases ops.len(),
{
    if ops.len() > 0 {
        let front = ops.drop_last();
        assert forall|i: int| 0 <= i < front.len() implies key_bytes((#[trigger] front[i]).0)
            != bytes by {
            assert(front[i] == ops[i]);
        }
        lemma_never_set(front, bytes);
        lemma_get_finds_latest(front, bytes);
        assert(key_bytes(ops[ops.len() - 1].0) != bytes);
        lemma_set_then_get(after_sets(front), ops.last().0, ops.last().1, bytes);
    }
}

/// Pairs whose keys are all new when they are set are held in the order in
/// which they were set.
pub proof fn lemma_insertion_order(ops: Seq<Pair>)
    requires
        distinct_keys(ops),
    ensures
        after_sets(ops) == ops,
    decreases ops.len(),
{
    if ops.len() > 0 {
        let front = ops.drop_last();
        assert forall|i: int, j: int| 0 <= i < j < front.len() implies key_bytes(
            (#[trigger] front[i]).0,
        ) != key_bytes((#[trigger] front[j]).0) by {
            assert(front[i] == ops[i] && front[j] == ops[j]);
        }
        lemma_insertion_order(front);
        let bytes = key_bytes(ops.last().0);
        if has_entry(front, bytes) {
            let i = index_of(front, bytes);
            assert(front[i] == ops[i]);
            assert(key_bytes(ops[i].0) != key_bytes(ops[ops.len() - 1].0));
        }
        assert(after_sets(ops) =~= ops);
    } else {
        assert(after_sets(ops) =~= ops);
    }
}

/// Setting a value under a key that is already there changes that entry's
/// value and nothing else: not its place, not its stored key, not the other
/// entries.
pub proof fn lemma_overwrite_keeps_place(s: Seq<Pair>, i: int, key: ValueView, value: ValueView)
    requires
        distinct_keys(s),
        0 <= i < s.len(),
        key_bytes(key) == key_bytes(s[i].0),
    ensures
        stored(s, key, value) == s.update(i, (s[i].0, value)),
{
    lemma_index_of_entry(s, i);
}

/// Setting a value under a new key leaves the entries that were there in
/// their places and puts the new pair right behind them: a cursor that has
/// taken no more steps than there were entries comes to it.
pub proof fn lemma_new_key_comes_last(s: Seq<Pair>, key: ValueView, value: ValueView)
    requires
        !has_entry(s, key_bytes(key)),
    ensures
        stored(s, key, value).len() == s.len() + 1,
        stored(s, key, value)[s.len() as int] == (key, value),
        forall|i: int| 0 <= i < s.len() ==> stored(s, key, value)[i] == s[i],
{
}

} // verus!
