//! The concurrent maps and sets of the `dashmap` crate that the graph and the
//! swap decoding keep, with what each operation does to their contents.
//!
//! Their iteration order depends on a per-process hash seed, so listing the
//! entries only promises each entry exactly once, in some order.

use vstd::prelude::*;
use dashmap::{DashMap, DashSet};
use crate::address::Address;
use crate::graph::{Edge, Node};
use crate::swap::PoolKind;

verus! {

#[verifier::external_type_specification]
#[verifier::external_body]
#[verifier::reject_recursive_types(K)]
#[verifier::reject_recursive_types(V)]
#[verifier::reject_recursive_types(S)]
pub struct ExDashMap<K, V, S>(DashMap<K, V, S>);

#[verifier::external_type_specification]
#[verifier::external_body]
#[verifier::reject_recursive_types(K)]
#[verifier::reject_recursive_types(S)]
pub struct ExDashSet<K, S>(DashSet<K, S>);

/// The key of an edge: the token sold and the token bought.
pub type EdgeKey = (Address, Address);

/// The entries of a map of tokens.
pub uninterp spec fn node_entries(m: DashMap<Address, Node>) -> Map<Address, Node>;

/// The entries of a map of edges.
pub uninterp spec fn edge_entries(m: DashMap<(Address, Address), Edge>) -> Map<(Address, Address), Edge>;

/// The entries of a map of predecessors.
pub uninterp spec fn predecessor_entries(m: DashMap<Address, Option<Address>>) -> Map<Address, Option<Address>>;

/// The entries of a map of known pools.
pub uninterp spec fn pool_entries(m: DashMap<Address, PoolKind>) -> Map<Address, PoolKind>;

/// The paths a set of paths holds.
pub uninterp spec fn path_entries(s: DashSet<Vec<Address>>) -> Set<Seq<Address>>;

/// `s` lists the entries of `m`, each key once, in some order.
pub open spec fn lists_entries<K, V>(s: Seq<(K, V)>, m: Map<K, V>) -> bool {
    &&& forall|i: int, j: int| 0 <= i < j < s.len() ==> #[trigger] s[i].0 != #[trigger] s[j].0
    &&& forall|i: int| 0 <= i < s.len() ==> #[trigger] m.contains_key(s[i].0) && m[s[i].0] == s[i].1
    &&& forall|k: K| #[trigger] m.contains_key(k) ==> exists|i: int| 0 <= i < s.len() && s[i].0 == k
}

/// `DashMap::new`: an empty map.
#[verifier::external_body]
pub(crate) fn new_node_map() -> (r: DashMap<Address, Node>)
    ensures
        node_entries(r).dom() == Set::<Address>::empty(),
{
    DashMap::new()
}

/// `DashMap::insert`: sets the entry of `k` to `v` and returns the entry it replaced.
#[verifier::external_body]
pub(crate) fn node_map_insert(m: &mut DashMap<Address, Node>, k: Address, v: Node) -> (r: Option<Node>)
    ensures
        r == (if node_entries(*old(m)).contains_key(k) { Some(node_entries(*old(m))[k]) } else { None })
            && node_entries(*final(m)) == node_entries(*old(m)).insert(k, v),
{
    m.insert(k, v)
}

/// `DashMap::get`: the entry of `k`, if it has one.
#[verifier::external_body]
pub(crate) fn node_map_get(m: &DashMap<Address, Node>, k: &Address) -> (r: Option<Node>)
    ensures
        match r {
            Some(v) => node_entries(*m).contains_key(*k) && v == node_entries(*m)[*k],
            None => !node_entries(*m).contains_key(*k),
        },
{
    match m.get(k) {
        Some(e) => Some(*e.value()),
        None => None,
    }
}

/// `DashMap::iter`: every entry once, in some order.
#[verifier::external_body]
pub(crate) fn node_map_entries(m: &DashMap<Address, Node>) -> (r: Vec<(Address, Node)>)
    ensures
        lists_entries(r@, node_entries(*m)),
{
    m.iter().map(|e| (*e.key(), *e.value())).collect()
}

/// `DashMap::new`: an empty map.
#[verifier::external_body]
pub(crate) fn new_edge_map() -> (r: DashMap<(Address, Address), Edge>)
    ensures
        edge_entries(r).dom() == Set::<EdgeKey>::empty(),
{
    DashMap::new()
}

/// `DashMap::insert`: sets the entry of `k` to `v` and returns the entry it replaced.
#[verifier::external_body]
pub(crate) fn edge_map_insert(m: &mut DashMap<(Address, Address), Edge>, k: (Address, Address), v: Edge) -> (r: Option<Edge>)
    ensures
        r == (if edge_entries(*old(m)).contains_key(k) { Some(edge_entries(*old(m))[k]) } else { None })
            && edge_entries(*final(m)) == edge_entries(*old(m)).insert(k, v),
{
    m.insert(k, v)
}

/// `DashMap::get`: the entry of `k`, if it has one.
#[verifier::external_body]
pub(crate) fn edge_map_get(m: &DashMap<(Address, Address), Edge>, k: &(Address, Address)) -> (r: Option<Edge>)
    ensures
        match r {
            Some(v) => edge_entries(*m).contains_key(*k) && v == edge_entries(*m)[*k],
            None => !edge_entries(*m).contains_key(*k),
        },
{
    match m.get(k) {
        Some(e) => Some(*e.value()),
        None => None,
    }
}

/// `DashMap::iter`: every entry once, in some order.
#[verifier::external_body]
pub(crate) fn edge_map_entries(m: &DashMap<(Address, Address), Edge>) -> (r: Vec<((Address, Address), Edge)>)
    ensures
        lists_entries(r@, edge_entries(*m)),
{
    m.iter().map(|e| (*e.key(), *e.value())).collect()
}

/// `DashMap::get`: the entry of `k`, if it has one.
#[verifier::external_body]
pub(crate) fn predecessor_get(m: &DashMap<Address, Option<Address>>, k: &Address) -> (r: Option<Option<Address>>)
    ensures
        match r {
            Some(v) => predecessor_entries(*m).contains_key(*k) && v == predecessor_entries(*m)[*k],
            None => !predecessor_entries(*m).contains_key(*k),
        },
{
    match m.get(k) {
        Some(e) => Some(*e.value()),
        None => None,
    }
}

/// `DashMap::iter`: the key of every entry once, in some order.
#[verifier::external_body]
pub(crate) fn predecessor_keys(m: &DashMap<Address, Option<Address>>) -> (r: Vec<Address>)
    ensures
        forall|i: int, j: int| 0 <= i < j < r@.len() ==> #[trigger] r@[i] != #[trigger] r@[j],
        forall|i: int| 0 <= i < r@.len() ==> #[trigger] predecessor_entries(*m).contains_key(r@[i]),
        forall|k: Address| #[trigger] predecessor_entries(*m).contains_key(k) ==> r@.contains(k),
{
    m.iter().map(|e| *e.key()).collect()
}

/// `DashMap::get`: the entry of `k`, if it has one.
#[verifier::external_body]
pub(crate) fn pool_get(m: &DashMap<Address, PoolKind>, k: &Address) -> (r: Option<PoolKind>)
    ensures
        match r {
            Some(v) => pool_entries(*m).contains_key(*k) && v == pool_entries(*m)[*k],
            None => !pool_entries(*m).contains_key(*k),
        },
{
    match m.get(k) {
        Some(e) => Some(*e.value()),
        None => None,
    }
}

/// `DashSet::new`: an empty set.
#[verifier::external_body]
pub(crate) fn new_path_set() -> (r: DashSet<Vec<Address>>)
    ensures
        path_entries(r) == Set::<Seq<Address>>::empty(),
{
    DashSet::new()
}

/// `DashSet::insert`: adds `p` and tells whether it was new (a path equal to one
/// already held is not added twice).
#[verifier::external_body]
pub(crate) fn path_set_insert(s: &mut DashSet<Vec<Address>>, p: Vec<Address>) -> (r: bool)
    ensures
        r == !path_entries(*old(s)).contains(p@) && path_entries(*final(s)) == path_entries(*old(s)).insert(p@),
{
    s.insert(p)
}

/// `DashSet::into_iter`: every path once, in some order.
#[verifier::external_body]
pub(crate) fn path_set_into_vec(s: DashSet<Vec<Address>>) -> (r: Vec<Vec<Address>>)
    ensures
        forall|i: int, j: int| 0 <= i < j < r@.len() ==> #[trigger] r@[i]@ != #[trigger] r@[j]@,
        forall|i: int| 0 <= i < r@.len() ==> path_entries(s).contains(#[trigger] r@[i]@),
        forall|p: Seq<Address>| #[trigger] path_entries(s).contains(p) ==> exists|i: int| 0 <= i < r@.len() && r@[i]@ == p,
{
    s.into_iter().collect()
}

} // verus!
