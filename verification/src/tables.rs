use vstd::prelude::*;

use indexmap::IndexMap;

use crate::ids::{ClassId, NodeId};
use crate::model::{find_key, has_key, value_of};
use crate::node::{ClassData, Node, NodeModel};

verus! {

#[verifier::external_type_specification]
#[verifier::external_body]
#[verifier::reject_recursive_types(K)]
#[verifier::reject_recursive_types(V)]
#[verifier::reject_recursive_types(S)]
pub struct ExIndexMap<K, V, S>(IndexMap<K, V, S>);

/// The contents of a node table: its (id, node) entries in table order.
pub uninterp spec fn node_table(m: IndexMap<NodeId, Node>) -> Seq<(Seq<char>, NodeModel)>;

/// The contents of a class-metadata table: its entries in table order.
pub uninterp spec fn class_table(m: IndexMap<ClassId, ClassData>) -> Seq<
    (Seq<char>, Option<Seq<char>>),
>;

/// Relies on indexmap::IndexMap::new: a newly made map holds nothing.
#[verifier::external_body]
pub(crate) fn nm_new() -> (r: IndexMap<NodeId, Node>)
    ensures
        node_table(r) == Seq::<(Seq<char>, NodeModel)>::empty(),
{
    IndexMap::new()
}

/// Relies on indexmap::IndexMap::get: the value of the entry whose key
/// equals the one given, or nothing when no entry has that key.
#[verifier::external_body]
pub(crate) fn nm_get<'a>(m: &'a IndexMap<NodeId, Node>, k: &NodeId) -> (r: Option<&'a Node>)
    ensures
        match r {
            Some(n) => has_key(node_table(*m), k@) && n@ == value_of(node_table(*m), k@),
            None => !has_key(node_table(*m), k@),
        },
{
    m.get(k)
}

/// Relies on indexmap::IndexMap::insert: an existing key keeps its place
/// and gets the new value; a new key is appended last in order.
#[verifier::external_body]
pub(crate) fn nm_insert(m: &mut IndexMap<NodeId, Node>, k: NodeId, v: Node)
    ensures
        node_table(*final(m)) == (if has_key(node_table(*old(m)), k@) {
            node_table(*old(m)).update(find_key(node_table(*old(m)), k@), (k@, v@))
        } else {
            node_table(*old(m)).push((k@, v@))
        }),
{
    m.insert(k, v);
}

/// Relies on indexmap::IndexMap::keys: the keys come out in table order.
#[verifier::external_body]
pub(crate) fn nm_keys(m: &IndexMap<NodeId, Node>) -> (r: Vec<NodeId>)
    ensures
        r@.len() == node_table(*m).len(),
        forall|i: int| 0 <= i < r@.len() ==> r@[i]@ == node_table(*m)[i].0,
{
    m.keys().cloned().collect()
}

/// Relies on indexmap::IndexMap::len: the number of entries.
#[verifier::external_body]
pub(crate) fn nm_len(m: &IndexMap<NodeId, Node>) -> (r: usize)
    ensures
        r == node_table(*m).len(),
{
    m.len()
}

/// Relies on indexmap::IndexMap::new: a newly made map holds nothing.
#[verifier::external_body]
pub(crate) fn cm_new() -> (r: IndexMap<ClassId, ClassData>)
    ensures
        class_table(r) == Seq::<(Seq<char>, Option<Seq<char>>)>::empty(),
{
    IndexMap::new()
}

/// Relies on indexmap::IndexMap::get: the value of the entry whose key
/// equals the one given, or nothing when no entry has that key.
#[verifier::external_body]
pub(crate) fn cm_get<'a>(m: &'a IndexMap<ClassId, ClassData>, k: &ClassId) -> (r: Option<
    &'a ClassData,
>)
    ensures
        match r {
            Some(d) => has_key(class_table(*m), k@) && d@ == value_of(class_table(*m), k@),
            None => !has_key(class_table(*m), k@),
        },
{
    m.get(k)
}

/// Relies on indexmap::IndexMap::insert: an existing key keeps its place
/// and gets the new value; a new key is appended last in order.
#[verifier::external_body]
pub(crate) fn cm_insert(m: &mut IndexMap<ClassId, ClassData>, k: ClassId, v: ClassData)
    ensures
        class_table(*final(m)) == (if has_key(class_table(*old(m)), k@) {
            class_table(*old(m)).update(find_key(class_table(*old(m)), k@), (k@, v@))
        } else {
            class_table(*old(m)).push((k@, v@))
        }),
{
    m.insert(k, v);
}

/// Relies on indexmap::IndexMap::keys: the keys come out in table order.
#[verifier::external_body]
pub(crate) fn cm_keys(m: &IndexMap<ClassId, ClassData>) -> (r: Vec<ClassId>)
    ensures
        r@.len() == class_table(*m).len(),
        forall|i: int| 0 <= i < r@.len() ==> r@[i]@ == class_table(*m)[i].0,
{
    m.keys().cloned().collect()
}

} // verus!
