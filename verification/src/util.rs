use vstd::prelude::*;

verus! {

/// The three-way result of comparing two keys.
#[derive(Debug, Clone, Copy, PartialEq, Eq, Structural)]
pub enum Order {
    Less,
    Equal,
    Greater,
}

impl Default for Order {
    fn default() -> (r: Self)
        ensures
            r == Order::Equal,
    {
        Order::Equal
    }
}

impl Order {
    /// The same result in the standard library's vocabulary.
    pub fn to_std(self) -> (r: std::cmp::Ordering)
        ensures
            r == match self {
                Order::Less => std::cmp::Ordering::Less,
                Order::Equal => std::cmp::Ordering::Equal,
                Order::Greater => std::cmp::Ordering::Greater,
            },
    {
        match self {
            Order::Less => std::cmp::Ordering::Less,
            Order::Equal => std::cmp::Ordering::Equal,
            Order::Greater => std::cmp::Ordering::Greater,
        }
    }
}

} // verus!
