use vstd::prelude::*;

use indexmap::IndexMap;

use crate::ids::{ClassId, NodeId};
use crate::model::{keys_distinct, lemma_find_key_at};
use crate::node::{Class, ClassModel, Node, NodeModel};
use crate::tables::{nm_get, nm_keys, node_table};

verus! {

/// The distinct owning-class ids of `nodes`, in order of first appearance.
pub open spec fn class_ids(nodes: Seq<(Seq<char>, NodeModel)>) -> Seq<Seq<char>>
    decreases nodes.len(),
{
    if nodes.len() == 0 {
        Seq::empty()
    } else {
        let pre = class_ids(nodes.drop_last());
        if pre.contains(nodes.last().1.eclass) {
            pre
        } else {
            pre.push(nodes.last().1.eclass)
        }
    }
}

/// The ids of the nodes owned by class `c`, in table order.
pub open spec fn members_of(nodes: Seq<(Seq<char>, NodeModel)>, c: Seq<char>) -> Seq<Seq<char>>
    decreases nodes.len(),
{
    if nodes.len() == 0 {
        Seq::empty()
    } else {
        let pre = members_of(nodes.drop_last(), c);
        if nodes.last().1.eclass == c {
            pre.push(nodes.last().0)
        } else {
            pre
        }
    }
}

/// The grouping of the nodes by their owning class: one class per distinct
/// owning-class id, in order of first appearance, with its members in
/// table order.
pub open spec fn group_spec(nodes: Seq<(Seq<char>, NodeModel)>) -> Seq<ClassModel> {
    class_ids(nodes).map_values(|c: Seq<char>| ClassModel { id: c, members: members_of(nodes, c) })
}

/// A class id appears in the grouping exactly when some node is owned by it.
pub proof fn lemma_class_ids_contains(nodes: Seq<(Seq<char>, NodeModel)>, c: Seq<char>)
    ensures
        class_ids(nodes).contains(c) <==> exists|i: int|
            0 <= i < nodes.len() && nodes[i].1.eclass == c,
    decreases nodes.len(),
{
    if nodes.len() != 0 {
        lemma_class_ids_contains(nodes.drop_last(), c);
        let pre = class_ids(nodes.drop_last());
        if class_ids(nodes).contains(c) {
            if pre.contains(c) {
                let i = choose|i: int|
                    0 <= i < nodes.drop_last().len() && nodes.drop_last()[i].1.eclass == c;
                assert(nodes[i].1.eclass == c);
            } else {
                assert(nodes.last().1.eclass == c);
                assert(nodes[nodes.len() - 1].1.eclass == c);
            }
        }
        if exists|i: int| 0 <= i < nodes.len() && nodes[i].1.eclass == c {
            let i = choose|i: int| 0 <= i < nodes.len() && nodes[i].1.eclass == c;
            if i < nodes.len() - 1 {
                assert(nodes.drop_last()[i].1.eclass == c);
                assert(pre.contains(c));
                if !pre.contains(nodes.last().1.eclass) {
                    assert(class_ids(nodes) == pre.push(nodes.last().1.eclass));
                    assert(class_ids(nodes).contains(c)) by {
                        let j = choose|j: int| 0 <= j < pre.len() && pre[j] == c;
                        assert(class_ids(nodes)[j] == c);
                    }
                }
            } else {
                if !pre.contains(c) {
                    assert(class_ids(nodes).last() == c);
                }
            }
        }
    }
}

/// Whether the vector holds a class id with this text.
pub(crate) fn contains_cid(v: &Vec<ClassId>, c: &ClassId) -> (r: bool)
    ensures
        r == v@.map_values(|x: ClassId| x@).contains(c@),
{
    let ghost mv = v@.map_values(|x: ClassId| x@);
    let mut i: usize = 0;
    while i < v.len()
        invariant
            0 <= i <= v.len(),
            mv == v@.map_values(|x: ClassId| x@),
            forall|j: int| 0 <= j < i ==> mv[j] != c@,
        decreases v.len() - i,
    {
        if &v[i] == c {
            proof {
                assert(mv[i as int] == c@);
            }
            return true;
        }
        i += 1;
    }
    proof {
        assert(forall|j: int| 0 <= j < mv.len() ==> mv[j] != c@);
    }
    false
}

/// Whether the vector holds a node id with this text.
pub(crate) fn contains_nid(v: &Vec<NodeId>, c: &NodeId) -> (r: bool)
    ensures
        r == v@.map_values(|x: NodeId| x@).contains(c@),
{
    let ghost mv = v@.map_values(|x: NodeId| x@);
    let mut i: usize = 0;
    while i < v.len()
        invariant
            0 <= i <= v.len(),
            mv == v@.map_values(|x: NodeId| x@),
            forall|j: int| 0 <= j < i ==> mv[j] != c@,
        decreases v.len() - i,
    {
        if &v[i] == c {
            proof {
                assert(mv[i as int] == c@);
            }
            return true;
        }
        i += 1;
    }
    proof {
        assert(forall|j: int| 0 <= j < mv.len() ==> mv[j] != c@);
    }
    false
}

/// Compute the grouping of the node table by owning class.
pub(crate) fn compute_view(m: &IndexMap<NodeId, Node>) -> (r: Vec<Class>)
    requires
        keys_distinct(node_table(*m)),
    ensures
        r@.map_values(|c: Class| c@) == group_spec(node_table(*m)),
{
    let ghost tab = node_table(*m);
    let keys = nm_keys(m);
    let mut cids: Vec<ClassId> = Vec::new();
    let mut i: usize = 0;
    while i < keys.len()
        invariant
            0 <= i <= keys.len(),
            tab == node_table(*m),
            keys_distinct(tab),
            keys@.len() == tab.len(),
            forall|j: int| 0 <= j < keys@.len() ==> keys@[j]@ == tab[j].0,
            cids@.map_values(|x: ClassId| x@) == class_ids(tab.take(i as int)),
        decreases keys.len() - i,
    {
        proof {
            lemma_find_key_at(tab, i as int);
        }
        let n = nm_get(m, &keys[i]).unwrap();
        proof {
            assert(n@ == tab[i as int].1);
            assert(tab.take(i + 1).drop_last() =~= tab.take(i as int));
            assert(tab.take(i + 1).last() == tab[i as int]);
        }
        let present = contains_cid(&cids, &n.eclass);
        if !present {
            cids.push(n.eclass.dup());
            proof {
                assert(cids@.map_values(|x: ClassId| x@) =~= class_ids(tab.take(i + 1)));
            }
        }
        i += 1;
    }
    proof {
        assert(tab.take(tab.len() as int) =~= tab);
    }
    let mut r: Vec<Class> = Vec::new();
    let ghost allcids = class_ids(tab);
    let mut ci: usize = 0;
    while ci < cids.len()
        invariant
            0 <= ci <= cids.len(),
            tab == node_table(*m),
            keys_distinct(tab),
            keys@.len() == tab.len(),
            forall|j: int| 0 <= j < keys@.len() ==> keys@[j]@ == tab[j].0,
            cids@.map_values(|x: ClassId| x@) == allcids,
            allcids == class_ids(tab),
            r@.len() == ci,
            forall|j: int|
                0 <= j < ci ==> r@[j]@ == (ClassModel {
                    id: allcids[j],
                    members: members_of(tab, allcids[j]),
                }),
        decreases cids.len() - ci,
    {
        let cid = &cids[ci];
        proof {
            assert(cids@.map_values(|x: ClassId| x@)[ci as int] == cid@);
        }
        let mut members: Vec<NodeId> = Vec::new();
        let mut i2: usize = 0;
        while i2 < keys.len()
            invariant
                0 <= i2 <= keys.len(),
                tab == node_table(*m),
                keys_distinct(tab),
                keys@.len() == tab.len(),
                forall|j: int| 0 <= j < keys@.len() ==> keys@[j]@ == tab[j].0,
                members@.map_values(|x: NodeId| x@) == members_of(tab.take(i2 as int), cid@),
            decreases keys.len() - i2,
        {
            proof {
                lemma_find_key_at(tab, i2 as int);
            }
            let n = nm_get(m, &keys[i2]).unwrap();
            proof {
                assert(n@ == tab[i2 as int].1);
                assert(tab.take(i2 + 1).drop_last() =~= tab.take(i2 as int));
                assert(tab.take(i2 + 1).last() == tab[i2 as int]);
            }
            if &n.eclass == cid {
                members.push(keys[i2].dup());
                proof {
                    assert(members@.map_values(|x: NodeId| x@) =~= members_of(
                        tab.take(i2 + 1),
                        cid@,
                    ));
                }
            } else {
                proof {
                    assert(members@.map_values(|x: NodeId| x@) =~= members_of(
                        tab.take(i2 + 1),
                        cid@,
                    ));
                }
            }
            i2 += 1;
        }
        proof {
            assert(tab.take(tab.len() as int) =~= tab);
        }
        r.push(Class { id: cid.dup(), nodes: members });
        ci += 1;
    }
    proof {
        assert(r@.map_values(|c: Class| c@) =~= group_spec(tab));
    }
    r
}

/// A duplicate class record with the same id and member list.
pub(crate) fn class_dup(c: &Class) -> (r: Class)
    ensures
        r@ == c@,
{
    let mut nodes: Vec<NodeId> = Vec::new();
    let mut i: usize = 0;
    while i < c.nodes.len()
        invariant
            0 <= i <= c.nodes.len(),
            nodes@.len() == i,
            forall|j: int| 0 <= j < i ==> nodes@[j]@ == c.nodes@[j]@,
        decreases c.nodes.len() - i,
    {
        nodes.push(c.nodes[i].dup());
        i += 1;
    }
    let r = Class { id: c.id.dup(), nodes };
    proof {
        assert(r@.members =~= c@.members);
    }
    r
}

} // verus!
