use vstd::prelude::*;

use crate::util::Order;
use crate::value::{Value, ValueView};

verus! {

/// The host's three-way comparison of two values. The order is the
/// implementor's: the map states what it does for the order that `order`
/// names, and an implementor answers for `compare` returning just that.
pub trait Comparator {
    /// How `a` stands to `b`. An implementor states it; left unstated, it
    /// is some order of which nothing is known.
    open spec fn order(&self, a: ValueView, b: ValueView) -> Order {
        arbitrary()
    }

    /// Compares `a` with `b`.
    fn compare(&self, a: &Value, b: &Value) -> (r: Order)
        ensures
            r == self.order(a@, b@),
    ;
}

/// Whether `c` orders the values as a strict total order does: each value
/// equals itself, `a` is below `b` just when `b` is above `a`, below is
/// transitive, and two equal values stand alike to every third.
#[verifier::opaque]
pub open spec fn is_total_order<C: Comparator>(c: C) -> bool {
    &&& forall|a: ValueView| #[trigger] c.order(a, a) == Order::Equal
    &&& forall|a: ValueView, b: ValueView|
        (#[trigger] c.order(a, b) == Order::Less) == (c.order(b, a) == Order::Greater)
    &&& forall|a: ValueView, b: ValueView, x: ValueView|
        #![trigger c.order(a, b), c.order(b, x)]
        c.order(a, b) == Order::Less && c.order(b, x) == Order::Less ==> c.order(a, x)
            == Order::Less
    &&& forall|a: ValueView, b: ValueView, x: ValueView|
        #![trigger c.order(a, b), c.order(a, x)]
        c.order(a, b) == Order::Equal ==> c.order(a, x) == c.order(b, x)
}

/// Under a total order, turning a comparison round turns its result round.
pub proof fn lemma_flip<C: Comparator>(c: C, a: ValueView, b: ValueView)
    requires
        is_total_order(c),
    ensures
        (c.order(a, b) == Order::Less) == (c.order(b, a) == Order::Greater),
        (c.order(a, b) == Order::Greater) == (c.order(b, a) == Order::Less),
        (c.order(a, b) == Order::Equal) == (c.order(b, a) == Order::Equal),
        c.order(a, a) == Order::Equal,
{
    reveal(is_total_order);
    let ab = c.order(a, b);
    let ba = c.order(b, a);
    assert((ab == Order::Less) == (ba == Order::Greater));
    assert((ba == Order::Less) == (ab == Order::Greater));
}

/// Under a total order, what is below something below `x` is below `x`, and
/// likewise above.
pub proof fn lemma_chain<C: Comparator>(c: C, a: ValueView, b: ValueView, x: ValueView)
    requires
        is_total_order(c),
    ensures
        c.order(a, b) == Order::Less && c.order(b, x) == Order::Less ==> c.order(a, x)
            == Order::Less,
        c.order(a, b) == Order::Greater && c.order(b, x) == Order::Greater ==> c.order(a, x)
            == Order::Greater,
{
    lemma_flip(c, a, b);
    lemma_flip(c, b, x);
    lemma_flip(c, a, x);
    reveal(is_total_order);
    let ab = c.order(a, b);
    let bx = c.order(b, x);
    let xb = c.order(x, b);
    let ba = c.order(b, a);
    if ab == Order::Greater && bx == Order::Greater {
        assert(xb == Order::Less && ba == Order::Less);
        assert(c.order(x, a) == Order::Less);
    }
}

/// Under a total order, two equal values stand alike to every third.
pub proof fn lemma_equal_alike<C: Comparator>(c: C, a: ValueView, b: ValueView, x: ValueView)
    requires
        is_total_order(c),
        c.order(a, b) == Order::Equal,
    ensures
        c.order(a, x) == c.order(b, x),
        c.order(x, a) == c.order(x, b),
{
    lemma_flip(c, a, x);
    lemma_flip(c, b, x);
    reveal(is_total_order);
    let ab = c.order(a, b);
    let ax = c.order(a, x);
    assert(ax == c.order(b, x));
}

} // verus!
