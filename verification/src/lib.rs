//! Associative containers over dynamically typed host values: an ordered map
//! whose key order is supplied by the host, and an insertion-ordered hash map
//! keyed by canonical bytes.

use vstd::prelude::*;

pub mod btree_map;
pub mod hash_map;
pub mod order;
pub mod table;
pub mod util;
pub mod value;

verus! {

/// The collection whose containers a host registers: the marker under which
/// the names below are published.
pub struct RedscriptCollections;

/// The name under which a host knows the collection.
pub const PLUGIN_NAME: &'static str = "redscript-collections";

/// The name under which the insertion-ordered map is registered.
pub const HASH_MAP_NAME: &'static str = "Collections.HashMap.MapImpl";

/// The name under which the insertion-ordered map's cursor is registered.
pub const HASH_MAP_ITERATOR_NAME: &'static str = "Collections.HashMap.MapIteratorImpl";

/// The name under which the ordered map is registered.
pub const BTREE_MAP_NAME: &'static str = "Collections.BTreeMap.MapImpl";

/// The name under which the ordered map's iterator is registered.
pub const BTREE_MAP_ITERATOR_NAME: &'static str = "Collections.BTreeMap.MapIteratorImpl";

/// The name under which the result of a comparison is registered.
pub const ORDER_NAME: &'static str = "Collections.Utils.Ordering";

} // verus!
