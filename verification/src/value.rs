use vstd::prelude::*;

verus! {

/// A dynamically typed value of the host, reduced to what the containers
/// read of it: whether it has a type at all, whether that type is a string,
/// and the bytes it holds.
#[derive(Debug, PartialEq, Eq)]
pub enum Value {
    /// The empty value: no type, no bytes.
    Empty,
    /// A string, with its content.
    Text(Vec<u8>),
    /// A value of any other type, with its in-memory representation.
    Raw(Vec<u8>),
}

/// The mathematical content of a [`Value`].
pub ghost enum ValueView {
    Empty,
    Text(Seq<u8>),
    Raw(Seq<u8>),
}

/// A stored key with the value set under it, as contracts see them.
pub type Pair = (ValueView, ValueView);

impl View for Value {
    type V = ValueView;

    open spec fn view(&self) -> ValueView {
        match self {
            Value::Empty => ValueView::Empty,
            Value::Text(b) => ValueView::Text(b@),
            Value::Raw(b) => ValueView::Raw(b@),
        }
    }
}

/// The canonical byte encoding of a value: the content of a string, the
/// representation of any other value, and nothing for the empty value.
pub open spec fn key_bytes(v: ValueView) -> Seq<u8> {
    match v {
        ValueView::Empty => Seq::empty(),
        ValueView::Text(b) => b,
        ValueView::Raw(b) => b,
    }
}

impl Clone for Value {
    fn clone(&self) -> (r: Self)
        ensures
            r@ == self@,
    {
        match self {
            Value::Empty => Value::Empty,
            Value::Text(b) => {
                let c = b.clone();
                assert(c@ =~= b@);
                Value::Text(c)
            },
            Value::Raw(b) => {
                let c = b.clone();
                assert(c@ =~= b@);
                Value::Raw(c)
            },
        }
    }
}

impl Default for Value {
    fn default() -> (r: Self)
        ensures
            r@ == ValueView::Empty,
    {
        Value::Empty
    }
}

/// Computes the canonical byte encoding of `value`.
pub fn get_key_bytes(value: &Value) -> (r: &[u8])
    ensures
        r@ == key_bytes(value@),
{
    match value {
        Value::Empty => &[],
        Value::Text(b) => b.as_slice(),
        Value::Raw(b) => b.as_slice(),
    }
}

/// The two-element result that an iterator hands out for one entry: a copy
/// of the key, then a copy of the value.
pub fn pair_of(key: &Value, value: &Value) -> (r: [Value; 2])
    ensures
        r@[0]@ == key@,
        r@[1]@ == value@,
{
    [key.clone(), value.clone()]
}

} // verus!
