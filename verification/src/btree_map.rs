use vstd::prelude::*;

use crate::order::{is_total_order, lemma_chain, lemma_equal_alike, lemma_flip, Comparator};
use crate::util::Order;
use crate::value::{pair_of, Pair, Value, ValueView};

verus! {

/// The keys of `s` rise strictly in the order of `c`: each key is below
/// every later one, so no two of them are equal.
pub open spec fn sorted<C: Comparator>(c: C, s: Seq<Pair>) -> bool {
    forall|i: int, j: int|
        0 <= i < j < s.len() ==> c.order((#[trigger] s[i]).0, (#[trigger] s[j]).0) == Order::Less
}

/// Whether some key of `s` equals `key` in the order of `c`.
pub open spec fn has_equal<C: Comparator>(c: C, s: Seq<Pair>, key: ValueView) -> bool {
    exists|i: int| 0 <= i < s.len() && c.order((#[trigger] s[i]).0, key) == Order::Equal
}

/// The place of an entry whose key equals `key`.
pub open spec fn place_of<C: Comparator>(c: C, s: Seq<Pair>, key: ValueView) -> int {
    choose|i: int| 0 <= i < s.len() && c.order((#[trigger] s[i]).0, key) == Order::Equal
}

/// `p` parts `s` at `key`: the keys before `p` are below `key`, the keys
/// from `p` on are above it.
pub open spec fn parts_at<C: Comparator>(c: C, s: Seq<Pair>, key: ValueView, p: int) -> bool {
    &&& 0 <= p <= s.len()
    &&& forall|i: int| 0 <= i < p ==> c.order((#[trigger] s[i]).0, key) == Order::Less
    &&& forall|i: int| p <= i < s.len() ==> c.order((#[trigger] s[i]).0, key) == Order::Greater
}

/// The place at which a `key` that equals no key of `s` belongs.
pub open spec fn rank<C: Comparator>(c: C, s: Seq<Pair>, key: ValueView) -> int {
    choose|p: int| parts_at(c, s, key, p)
}

/// The value found under a key equal to `key`, or the empty value where
/// there is none.
pub open spec fn ordered_lookup<C: Comparator>(c: C, s: Seq<Pair>, key: ValueView) -> ValueView {
    if has_equal(c, s, key) {
        s[place_of(c, s, key)].1
    } else {
        ValueView::Empty
    }
}

/// The entries after `value` is set under `key`: an entry with an equal key
/// keeps its place and its stored key and takes the new value; otherwise the
/// new pair goes where `key` belongs in the order.
pub open spec fn ordered_stored<C: Comparator>(
    c: C,
    s: Seq<Pair>,
    key: ValueView,
    value: ValueView,
) -> Seq<Pair> {
    if has_equal(c, s, key) {
        s.update(place_of(c, s, key), (s[place_of(c, s, key)].0, value))
    } else {
        s.insert(rank(c, s, key), (key, value))
    }
}

/// In sorted entries, a key equal to `key` at place `i` is the only one: it
/// is the one that a lookup finds.
pub proof fn lemma_place_of_entry<C: Comparator>(c: C, s: Seq<Pair>, key: ValueView, i: int)
    requires
        is_total_order(c),
        sorted(c, s),
        0 <= i < s.len(),
        c.order(s[i].0, key) == Order::Equal,
    ensures
        has_equal(c, s, key),
        place_of(c, s, key) == i,
        ordered_lookup(c, s, key) == s[i].1,
        forall|j: int| 0 <= j < i ==> c.order((#[trigger] s[j]).0, key) == Order::Less,
        forall|j: int| i < j < s.len() ==> c.order((#[trigger] s[j]).0, key) == Order::Greater,
{
    let side = |j: int| if j < i { Order::Less } else { Order::Greater };
    assert forall|j: int| 0 <= j < s.len() && j != i implies c.order((#[trigger] s[j]).0, key)
        == side(j) by {
        lemma_equal_alike(c, s[i].0, key, s[j].0);
        lemma_flip(c, s[j].0, s[i].0);
        if j < i {
            assert(c.order(s[j].0, s[i].0) == Order::Less);
        } else {
            assert(c.order(s[i].0, s[j].0) == Order::Less);
        }
    }
    let p = place_of(c, s, key);
    assert(0 <= p < s.len() && c.order(s[p].0, key) == Order::Equal);
}

/// In sorted entries, the place that parts them at `key` is the only such
/// place, and no key equals `key`.
pub proof fn lemma_rank_of_gap<C: Comparator>(c: C, s: Seq<Pair>, key: ValueView, p: int)
    requires
        parts_at(c, s, key, p),
    ensures
        !has_equal(c, s, key),
        rank(c, s, key) == p,
        ordered_lookup(c, s, key) == ValueView::Empty,
{
    let q = rank(c, s, key);
    assert(parts_at(c, s, key, q));
    if q < p {
        assert(c.order(s[q].0, key) == Order::Less);
    }
    if p < q {
        assert(c.order(s[p].0, key) == Order::Greater);
    }
    if has_equal(c, s, key) {
        let i = place_of(c, s, key);
        assert(c.order(s[i].0, key) == Order::Equal);
    }
}

/// In sorted entries that hold no key equal to `key`, there is a place that
/// parts them at `key`.
pub proof fn lemma_rank_exists<C: Comparator>(c: C, s: Seq<Pair>, key: ValueView)
    requires
        is_total_order(c),
        sorted(c, s),
        !has_equal(c, s, key),
    ensures
        parts_at(c, s, key, rank(c, s, key)),
    decreases s.len(),
{
    if s.len() == 0 {
        assert(parts_at(c, s, key, 0));
    } else {
        let front = s.drop_last();
        let n = front.len() as int;
        assert forall|i: int, j: int| 0 <= i < j < front.len() implies c.order(
            (#[trigger] front[i]).0,
            (#[trigger] front[j]).0,
        ) == Order::Less by {
            assert(front[i] == s[i] && front[j] == s[j]);
        }
        if has_equal(c, front, key) {
            let i = place_of(c, front, key);
            assert(s[i] == front[i]);
        }
        lemma_rank_exists(c, front, key);
        let q = rank(c, front, key);
        assert(c.order(s[n].0, key) != Order::Equal);
        if c.order(s[n].0, key) == Order::Less {
            assert forall|i: int| 0 <= i < s.len() implies c.order((#[trigger] s[i]).0, key)
                == Order::Less by {
                if i < n {
                    assert(c.order(s[i].0, s[n].0) == Order::Less);
                    lemma_chain(c, s[i].0, s[n].0, key);
                }
            }
            assert(parts_at(c, s, key, s.len() as int));
        } else {
            assert forall|i: int| 0 <= i < q implies c.order((#[trigger] s[i]).0, key)
                == Order::Less by {
                assert(s[i] == front[i]);
            }
            assert forall|i: int| q <= i < s.len() implies c.order((#[trigger] s[i]).0, key)
                == Order::Greater by {
                if i < n {
                    assert(s[i] == front[i]);
                }
            }
            assert(parts_at(c, s, key, q));
        }
    }
}

/// The pairs that a vector of entries stands for.
pub open spec fn pairs_view(v: Seq<(Value, Value)>) -> Seq<Pair> {
    Seq::new(v.len(), |i: int| (v[i].0@, v[i].1@))
}

/// A map whose keys are ordered by a comparison that the host supplies.
/// Two keys that the comparison calls equal are one key.
pub struct BTreeMapImpl<C: Comparator> {
    entries: Vec<(Value, Value)>,
    comparator: C,
}

impl<C: Comparator> View for BTreeMapImpl<C> {
    type V = Seq<Pair>;

    /// The stored keys and their values, in the order in which the map
    /// holds them.
    closed spec fn view(&self) -> Seq<Pair> {
        pairs_view(self.entries@)
    }
}

impl<C: Comparator> BTreeMapImpl<C> {
    /// The comparison that the map was made with.
    pub closed spec fn comparator(&self) -> C {
        self.comparator
    }

    /// What holds of every map made by [`BTreeMapImpl::new_ref`] and changed
    /// by [`BTreeMapImpl::set`]: where the comparison is a total order, the
    /// keys rise strictly in it.
    pub closed spec fn wf(&self) -> bool {
        is_total_order(self.comparator) ==> sorted(self.comparator, self@)
    }

    /// In a well-formed map under a total order the keys rise strictly.
    pub proof fn lemma_sorted(&self)
        requires
            self.wf(),
            is_total_order(self.comparator()),
        ensures
            sorted(self.comparator(), self@),
    {
    }

    /// A map that holds nothing and orders its keys by `comparator`.
    pub fn new_ref(comparator: C) -> (r: Self)
        ensures
            r.wf(),
            r.comparator() == comparator,
            r@ == Seq::<Pair>::empty(),
    {
        let r = BTreeMapImpl { entries: Vec::new(), comparator };
        assert(r@ =~= Seq::<Pair>::empty());
        r
    }

    /// The number of entries.
    pub fn len(&self) -> (n: usize)
        ensures
            n == self@.len(),
    {
        self.entries.len()
    }

    /// Looks for `key` by halving: the place of an equal key where the
    /// search met one, else the place where the search ended.
    fn find(&self, key: &Value) -> (r: (bool, usize))
        requires
            self.wf(),
        ensures
            r.1 <= self@.len(),
            r.0 ==> r.1 < self@.len() && self.comparator().order(self@[r.1 as int].0, key@)
                == Order::Equal,
            !r.0 && is_total_order(self.comparator()) ==> parts_at(
                self.comparator(),
                self@,
                key@,
                r.1 as int,
            ),
    {
        let ghost c = self.comparator;
        let ghost s = self@;
        let mut lo: usize = 0;
        let mut hi: usize = self.entries.len();
        while lo < hi
            invariant
                lo <= hi <= self.entries.len(),
                s == self@,
                c == self.comparator,
                self.wf(),
                is_total_order(c) ==> forall|i: int|
                    0 <= i < lo ==> c.order((#[trigger] s[i]).0, key@) == Order::Less,
                is_total_order(c) ==> forall|i: int|
                    hi <= i < s.len() ==> c.order((#[trigger] s[i]).0, key@) == Order::Greater,
            decreases hi - lo,
        {
            let mid: usize = lo + (hi - lo) / 2;
            let found = self.comparator.compare(&self.entries[mid].0, key);
            assert(found == c.order(s[mid as int].0, key@));
            match found {
                Order::Equal => {
                    return (true, mid);
                },
                Order::Less => {
                    proof {
                        if is_total_order(c) {
                            assert forall|i: int| 0 <= i < mid + 1 implies c.order(
                                (#[trigger] s[i]).0,
                                key@,
                            ) == Order::Less by {
                                if i < mid {
                                    assert(c.order(s[i].0, s[mid as int].0) == Order::Less);
                                    lemma_chain(c, s[i].0, s[mid as int].0, key@);
                                }
                            }
                        }
                    }
                    lo = mid + 1;
                },
                Order::Greater => {
                    proof {
                        if is_total_order(c) {
                            assert forall|i: int| mid <= i < s.len() implies c.order(
                                (#[trigger] s[i]).0,
                                key@,
                            ) == Order::Greater by {
                                if mid < i {
                                    assert(c.order(s[mid as int].0, s[i].0) == Order::Less);
                                    lemma_flip(c, s[mid as int].0, s[i].0);
                                    lemma_chain(c, s[i].0, s[mid as int].0, key@);
                                }
                            }
                        }
                    }
                    hi = mid;
                },
            }
        }
        (false, lo)
    }

    /// A copy of the value set under a key equal to `key`, or the empty
    /// value where there is none.
    pub fn get(&self, key: Value) -> (r: Value)
        requires
            self.wf(),
        ensures
            is_total_order(self.comparator()) ==> r@ == ordered_lookup(
                self.comparator(),
                self@,
                key@,
            ),
            r@ == ValueView::Empty || exists|i: int|
                0 <= i < self@.len() && self.comparator().order((#[trigger] self@[i]).0, key@)
                    == Order::Equal && r@ == self@[i].1,
    {
        let (found, at) = self.find(&key);
        proof {
            if is_total_order(self.comparator) {
                if found {
                    lemma_place_of_entry(self.comparator, self@, key@, at as int);
                } else {
                    lemma_rank_of_gap(self.comparator, self@, key@, at as int);
                }
            }
        }
        if found {
            self.entries[at].1.clone()
        } else {
            Value::default()
        }
    }

    /// Whether a value is set under a key equal to `key`.
    pub fn has_key(&self, key: Value) -> (r: bool)
        requires
            self.wf(),
        ensures
            is_total_order(self.comparator()) ==> r == has_equal(self.comparator(), self@, key@),
            r ==> has_equal(self.comparator(), self@, key@),
    {
        let (found, at) = self.find(&key);
        proof {
            if is_total_order(self.comparator) {
                if found {
                    lemma_place_of_entry(self.comparator, self@, key@, at as int);
                } else {
                    lemma_rank_of_gap(self.comparator, self@, key@, at as int);
                }
            }
        }
        found
    }

    /// Sets `value` under `key`. An equal key that is already there keeps
    /// its place, and the map keeps the key it stored first; a new key goes
    /// where it belongs in the order.
    pub fn set(&mut self, key: Value, value: Value)
        requires
            old(self).wf(),
        ensures
            final(self).wf(),
            final(self).comparator() == old(self).comparator(),
            is_total_order(old(self).comparator()) ==> final(self)@ == ordered_stored(
                old(self).comparator(),
                old(self)@,
                key@,
                value@,
            ),
            (exists|i: int|
                0 <= i < old(self)@.len() && old(self).comparator().order(
                    (#[trigger] old(self)@[i]).0,
                    key@,
                ) == Order::Equal && final(self)@ == old(self)@.update(
                    i,
                    (old(self)@[i].0, value@),
                )) || (exists|p: int|
                0 <= p <= old(self)@.len() && final(self)@ == #[trigger] old(self)@.insert(
                    p,
                    (key@, value@),
                )),
    {
        let ghost c = self.comparator;
        let ghost s = self@;
        let (found, at) = self.find(&key);
        if found {
            let first = self.entries[at].0.clone();
            self.entries.set(at, (first, value));
            proof {
                assert(self@ =~= s.update(at as int, (s[at as int].0, value@)));
                if is_total_order(c) {
                    lemma_place_of_entry(c, s, key@, at as int);
                    lemma_stored_sorted(c, s, key@, value@);
                }
            }
        } else {
            self.entries.insert(at, (key, value));
            proof {
                assert(self@ =~= s.insert(at as int, (key@, value@)));
                if is_total_order(c) {
                    lemma_rank_of_gap(c, s, key@, at as int);
                    lemma_stored_sorted(c, s, key@, value@);
                }
            }
        }
    }

    /// An iterator over a copy of the entries as they now are, in the order
    /// of the keys.
    pub fn iter(&self) -> (r: BTreeMapIteratorImpl)
        requires
            self.wf(),
        ensures
            r.remaining() == self@,
            is_total_order(self.comparator()) ==> sorted(self.comparator(), r.remaining()),
    {
        let mut copy: Vec<(Value, Value)> = Vec::new();
        let mut i: usize = 0;
        while i < self.entries.len()
            invariant
                i <= self.entries.len(),
                copy.len() == i,
                forall|j: int|
                    0 <= j < i ==> (#[trigger] copy[j]).0@ == self.entries[j].0@ && copy[j].1@
                        == self.entries[j].1@,
            decreases self.entries.len() - i,
        {
            let e = &self.entries[i];
            copy.push((e.0.clone(), e.1.clone()));
            i = i + 1;
        }
        let r = BTreeMapIteratorImpl { entries: copy, position: 0 };
        assert(r.remaining() =~= self@);
        r
    }
}

/// Setting a value in sorted entries leaves them sorted.
pub proof fn lemma_stored_sorted<C: Comparator>(
    c: C,
    s: Seq<Pair>,
    key: ValueView,
    value: ValueView,
)
    requires
        is_total_order(c),
        sorted(c, s),
    ensures
        sorted(c, ordered_stored(c, s, key, value)),
{
    let t = ordered_stored(c, s, key, value);
    if !has_equal(c, s, key) {
        lemma_rank_exists(c, s, key);
    }
    if has_equal(c, s, key) {
        assert forall|i: int, j: int| 0 <= i < j < t.len() implies c.order(
            (#[trigger] t[i]).0,
            (#[trigger] t[j]).0,
        ) == Order::Less by {
            assert(c.order(s[i].0, s[j].0) == Order::Less);
        }
    } else {
        let p = rank(c, s, key);
        assert forall|i: int, j: int| 0 <= i < j < t.len() implies c.order(
            (#[trigger] t[i]).0,
            (#[trigger] t[j]).0,
        ) == Order::Less by {
            if j < p {
                assert(c.order(s[i].0, s[j].0) == Order::Less);
            } else if j == p {
                assert(c.order(s[i].0, key) == Order::Less);
            } else if i == p {
                assert(c.order(s[j - 1].0, key) == Order::Greater);
                lemma_flip(c, s[j - 1].0, key);
            } else if i < p {
                assert(c.order(s[i].0, s[j - 1].0) == Order::Less);
            } else {
                assert(c.order(s[i - 1].0, s[j - 1].0) == Order::Less);
            }
        }
    }
}

/// An iterator over the entries that an ordered map held when the iterator
/// was made. It owns them: no later change of the map reaches it.
pub struct BTreeMapIteratorImpl {
    entries: Vec<(Value, Value)>,
    position: usize,
}

impl BTreeMapIteratorImpl {
    /// The entries not yet handed out, in the order in which they will be.
    pub closed spec fn remaining(&self) -> Seq<Pair> {
        if self.position <= self.entries.len() {
            pairs_view(self.entries@).skip(self.position as int)
        } else {
            Seq::empty()
        }
    }

    /// Whether an entry is left.
    pub fn has_next(&self) -> (r: bool)
        ensures
            r == (self.remaining().len() > 0),
    {
        self.position < self.entries.len()
    }

    /// Hands out the next key and value and drops them from what is left,
    /// or hands out two empty values where nothing is left.
    pub fn next(&mut self) -> (r: [Value; 2])
        ensures
            old(self).remaining().len() > 0 ==> r@[0]@ == old(self).remaining()[0].0 && r@[1]@
                == old(self).remaining()[0].1 && final(self).remaining() == old(
                self,
            ).remaining().skip(1),
            old(self).remaining().len() == 0 ==> r@[0]@ == ValueView::Empty && r@[1]@
                == ValueView::Empty && final(self).remaining() == old(self).remaining(),
    {
        if self.position < self.entries.len() {
            let r = pair_of(&self.entries[self.position].0, &self.entries[self.position].1);
            self.position = self.position + 1;
            assert(self.remaining() =~= old(self).remaining().skip(1));
            r
        } else {
            [Value::default(), Value::default()]
        }
    }
}

/// One `set`, seen from any key: a key equal to the one that was set now
/// finds the new value, every other key finds what it found before, and the
/// entries stay sorted.
pub proof fn lemma_ordered_set_then_get<C: Comparator>(
    c: C,
    s: Seq<Pair>,
    key: ValueView,
    value: ValueView,
    probe: ValueView,
)
    requires
        is_total_order(c),
        sorted(c, s),
    ensures
        sorted(c, ordered_stored(c, s, key, value)),
        has_equal(c, ordered_stored(c, s, key, value), key),
        c.order(key, probe) == Order::Equal ==> ordered_lookup(
            c,
            ordered_stored(c, s, key, value),
            probe,
        ) == value,
        c.order(key, probe) != Order::Equal ==> ordered_lookup(
            c,
            ordered_stored(c, s, key, value),
            probe,
        ) == ordered_lookup(c, s, probe) && has_equal(c, ordered_stored(c, s, key, value), probe)
            == has_equal(c, s, probe),
{
    let t = ordered_stored(c, s, key, value);
    lemma_stored_sorted(c, s, key, value);
    lemma_flip(c, key, key);
    let at = if has_equal(c, s, key) {
        place_of(c, s, key)
    } else {
        lemma_rank_exists(c, s, key);
        rank(c, s, key)
    };
    assert(0 <= at < t.len() && t[at].1 == value);
    assert(c.order(t[at].0, key) == Order::Equal);
    // where an entry of `s` stands in `t`, and back
    let up = |j: int| if has_equal(c, s, key) || j < at { j } else { j + 1 };
    let down = |j: int| if has_equal(c, s, key) || j < at { j } else { j - 1 };
    assert forall|j: int| 0 <= j < s.len() && up(j) != at implies t[up(j)] == #[trigger] s[j] by {}
    assert forall|j: int| 0 <= j < t.len() && j != at implies #[trigger] t[j] == s[down(j)] && 0
        <= down(j) < s.len() by {}
    if c.order(key, probe) == Order::Equal {
        lemma_equal_alike(c, key, probe, t[at].0);
        lemma_place_of_entry(c, t, probe, at);
    } else {
        lemma_equal_alike(c, t[at].0, key, probe);
        if has_equal(c, s, probe) {
            let j = place_of(c, s, probe);
            assert(c.order(s[j].0, probe) == Order::Equal);
            if has_equal(c, s, key) && j == at {
                assert(s[j].0 == t[at].0);
            }
            assert(up(j) != at);
            assert(t[up(j)] == s[j]);
            lemma_place_of_entry(c, s, probe, j);
            lemma_place_of_entry(c, t, probe, up(j));
        }
        if has_equal(c, t, probe) {
            let j = place_of(c, t, probe);
            assert(c.order(t[j].0, probe) == Order::Equal);
            assert(j != at);
            assert(t[j] == s[down(j)]);
            lemma_place_of_entry(c, s, probe, down(j));
            lemma_place_of_entry(c, t, probe, j);
        }
    }
}

/// The entries of a map that was empty and then took the pairs of `ops`, one
/// `set` each, first to last.
pub open spec fn ordered_after_sets<C: Comparator>(c: C, ops: Seq<Pair>) -> Seq<Pair>
    decreases ops.len(),
{
    if ops.len() == 0 {
        Seq::empty()
    } else {
        ordered_stored(c, ordered_after_sets(c, ops.drop_last()), ops.last().0, ops.last().1)
    }
}

/// The value of the last pair of `ops` whose key equals `probe`, or the
/// empty value where no pair has such a key.
pub open spec fn ordered_latest<C: Comparator>(c: C, ops: Seq<Pair>, probe: ValueView) -> ValueView
    decreases ops.len(),
{
    if ops.len() == 0 {
        ValueView::Empty
    } else if c.order(ops.last().0, probe) == Order::Equal {
        ops.last().1
    } else {
        ordered_latest(c, ops.drop_last(), probe)
    }
}

/// After any run of `set` calls on a new map under a total order, the
/// entries are sorted and `get` finds under a key the value that was set
/// last under an equal key.
pub proof fn lemma_ordered_get_finds_latest<C: Comparator>(c: C, ops: Seq<Pair>, probe: ValueView)
    requires
        is_total_order(c),
    ensures
        sorted(c, ordered_after_sets(c, ops)),
        ordered_lookup(c, ordered_after_sets(c, ops), probe) == ordered_latest(c, ops, probe),
    decreases ops.len(),
{
    if ops.len() > 0 {
        lemma_ordered_get_finds_latest(c, ops.drop_last(), probe);
        lemma_ordered_set_then_get(
            c,
            ordered_after_sets(c, ops.drop_last()),
            ops.last().0,
            ops.last().1,
            probe,
        );
    }
}

/// Under a total order, a key to which no key that was ever set is equal is
/// not in the map, and `get` finds the empty value under it.
pub proof fn lemma_ordered_never_set<C: Comparator>(c: C, ops: Seq<Pair>, probe: ValueView)
    requires
        is_total_order(c),
        forall|i: int| 0 <= i < ops.len() ==> c.order((#[trigger] ops[i]).0, probe) != Order::Equal,
    ensures
        !has_equal(c, ordered_after_sets(c, ops), probe),
        ordered_lookup(c, ordered_after_sets(c, ops), probe) == ValueView::Empty,
    decreases ops.len(),
{
    if ops.len() > 0 {
        let front = ops.drop_last();
        assert forall|i: int| 0 <= i < front.len() implies c.order((#[trigger] front[i]).0, probe)
            != Order::Equal by {
            assert(front[i] == ops[i]);
        }
        lemma_ordered_never_set(c, front, probe);
        lemma_ordered_get_finds_latest(c, front, probe);
        assert(c.order(ops[ops.len() - 1].0, probe) != Order::Equal);
        lemma_ordered_set_then_get(c, ordered_after_sets(c, front), ops.last().0, ops.last().1, probe);
    }
}

/// Sorted entries hold each class of equal keys once, and rise from each
/// entry to the next: two entries with equal keys are one entry.
pub proof fn lemma_sorted_once_per_class<C: Comparator>(c: C, s: Seq<Pair>, i: int, j: int)
    requires
        is_total_order(c),
        sorted(c, s),
        0 <= i < s.len(),
        0 <= j < s.len(),
    ensures
        c.order(s[i].0, s[j].0) == Order::Equal ==> i == j,
        i < j ==> c.order(s[i].0, s[j].0) == Order::Less,
{
    if j < i {
        assert(c.order(s[j].0, s[i].0) == Order::Less);
        lemma_flip(c, s[j].0, s[i].0);
    }
}

/// Two `set` calls under equal keys leave one entry for them, and it holds
/// the second value.
pub proof fn lemma_overwrite_equal<C: Comparator>(
    c: C,
    s: Seq<Pair>,
    k1: ValueView,
    v1: ValueView,
    k2: ValueView,
    v2: ValueView,
)
    requires
        is_total_order(c),
        sorted(c, s),
        c.order(k1, k2) == Order::Equal,
    ensures
        ({
            let once = ordered_stored(c, s, k1, v1);
            let twice = ordered_stored(c, once, k2, v2);
            &&& twice.len() == once.len()
            &&& has_equal(c, twice, k1)
            &&& twice[place_of(c, twice, k1)].1 == v2
            &&& forall|i: int|
                0 <= i < twice.len() && i != place_of(c, twice, k1) ==> c.order(
                    (#[trigger] twice[i]).0,
                    k1,
                ) != Order::Equal
        }),
{
    let once = ordered_stored(c, s, k1, v1);
    let twice = ordered_stored(c, once, k2, v2);
    lemma_ordered_set_then_get(c, s, k1, v1, k1);
    let at = place_of(c, once, k1);
    assert(c.order(once[at].0, k1) == Order::Equal);
    lemma_equal_alike(c, k1, k2, once[at].0);
    assert(c.order(once[at].0, k2) == Order::Equal);
    lemma_place_of_entry(c, once, k2, at);
    lemma_flip(c, k1, k2);
    lemma_ordered_set_then_get(c, once, k2, v2, k1);
    assert(c.order(twice[at].0, k1) == Order::Equal);
    lemma_place_of_entry(c, twice, k1, at);
}

} // verus!
