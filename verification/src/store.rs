use vstd::prelude::*;

use indexmap::IndexMap;

use crate::ids::{ClassId, NodeId};
use crate::model::{find_key, has_key, keys_distinct, lemma_find_key, value_of, StoreModel};
use crate::node::{Class, ClassData, ClassModel, Node};
use crate::tables::{
    class_table, cm_get, cm_insert, cm_new, nm_get, nm_insert, nm_len, nm_new, node_table,
};
use crate::view::{class_dup, class_ids, compute_view, group_spec, members_of};

verus! {

/// The graph store: an insertion-ordered table of nodes keyed by unique
/// node ids, the designated root classes, a sparse table of per-class
/// metadata, and a cached derived grouping of nodes by owning class.
pub struct EGraph {
    pub(crate) nodes: IndexMap<NodeId, Node>,
    pub(crate) root_eclasses: Vec<ClassId>,
    pub(crate) class_data: IndexMap<ClassId, ClassData>,
    pub(crate) class_view: Option<Vec<Class>>,
}

impl View for EGraph {
    type V = StoreModel;

    closed spec fn view(&self) -> StoreModel {
        StoreModel {
            nodes: node_table(self.nodes),
            roots: self.root_eclasses@.map_values(|c: ClassId| c@),
            class_data: class_table(self.class_data),
        }
    }
}

impl EGraph {
    /// Node ids and metadata keys are unique, and the cached class view,
    /// when present, is the grouping of the current node table.
    pub closed spec fn wf(&self) -> bool {
        &&& keys_distinct(node_table(self.nodes))
        &&& keys_distinct(class_table(self.class_data))
        &&& match self.class_view {
            Some(v) => v@.map_values(|c: Class| c@) == group_spec(node_table(self.nodes)),
            None => true,
        }
    }

    pub(crate) proof fn lemma_view_parts(&self)
        ensures
            self@.nodes == node_table(self.nodes),
            self@.roots == self.root_eclasses@.map_values(|c: ClassId| c@),
            self@.class_data == class_table(self.class_data),
    {
    }

    pub proof fn lemma_wf_keys_distinct(&self)
        requires
            self.wf(),
        ensures
            keys_distinct(self@.nodes),
            keys_distinct(self@.class_data),
    {
    }

    /// An empty store.
    pub fn new() -> (r: EGraph)
        ensures
            r.wf(),
            r@.nodes == Seq::<(Seq<char>, crate::node::NodeModel)>::empty(),
            r@.roots == Seq::<Seq<char>>::empty(),
            r@.class_data == Seq::<(Seq<char>, Option<Seq<char>>)>::empty(),
    {
        let r = EGraph {
            nodes: nm_new(),
            root_eclasses: Vec::new(),
            class_data: cm_new(),
            class_view: None,
        };
        proof {
            assert(r.root_eclasses@.map_values(|c: ClassId| c@) =~= Seq::<Seq<char>>::empty());
        }
        r
    }

    /// Add a new node under a fresh id, appended last in table order.
    /// An id that is already present is caller misuse and is excluded.
    pub fn add_node(&mut self, node_id: NodeId, node: Node)
        requires
            old(self).wf(),
            !has_key(old(self)@.nodes, node_id@),
        ensures
            final(self).wf(),
            final(self)@.nodes == old(self)@.nodes.push((node_id@, node@)),
            final(self)@.roots == old(self)@.roots,
            final(self)@.class_data == old(self)@.class_data,
    {
        proof {
            lemma_find_key(node_table(self.nodes), node_id@);
        }
        nm_insert(&mut self.nodes, node_id, node);
        self.class_view = None;
        proof {
            let tab = old(self)@.nodes;
            assert forall|i: int, j: int|
                0 <= i < j < final(self)@.nodes.len() implies final(self)@.nodes[i].0
                != final(self)@.nodes[j].0 by {
                if j < tab.len() {
                } else {
                    assert(final(self)@.nodes[j].0 == node_id@);
                    assert(final(self)@.nodes[i] == tab[i]);
                }
            }
        }
    }

    /// Bind this id to this node: an existing id keeps its place in the
    /// table and gets the new node, a fresh id is appended last.
    pub(crate) fn put_node(&mut self, node_id: NodeId, node: Node)
        requires
            old(self).wf(),
        ensures
            final(self).wf(),
            final(self)@.nodes == crate::model::insert_entry(old(self)@.nodes, node_id@, node@),
            final(self)@.roots == old(self)@.roots,
            final(self)@.class_data == old(self)@.class_data,
    {
        proof {
            crate::model::lemma_insert_entry_distinct(node_table(self.nodes), node_id@, node@);
            lemma_find_key(node_table(self.nodes), node_id@);
        }
        nm_insert(&mut self.nodes, node_id, node);
        self.class_view = None;
    }

    /// The node with this id, when one is present.
    pub fn get_node<'a>(&'a self, node_id: &NodeId) -> (r: Option<&'a Node>)
        ensures
            match r {
                Some(n) => has_key(self@.nodes, node_id@) && n@ == value_of(self@.nodes, node_id@),
                None => !has_key(self@.nodes, node_id@),
            },
    {
        nm_get(&self.nodes, node_id)
    }

    /// The node with this id; looking up an absent id is caller misuse
    /// and is excluded.
    pub fn node<'a>(&'a self, node_id: &NodeId) -> (r: &'a Node)
        requires
            has_key(self@.nodes, node_id@),
        ensures
            r@ == value_of(self@.nodes, node_id@),
    {
        nm_get(&self.nodes, node_id).unwrap()
    }

    /// The owning class of the node with this id.
    pub fn nid_to_cid<'a>(&'a self, node_id: &NodeId) -> (r: &'a ClassId)
        requires
            has_key(self@.nodes, node_id@),
        ensures
            r@ == value_of(self@.nodes, node_id@).eclass,
    {
        &self.node(node_id).eclass
    }

    /// How many nodes the store holds.
    pub fn num_nodes(&self) -> (r: usize)
        ensures
            r == self@.nodes.len(),
    {
        nm_len(&self.nodes)
    }

    /// The ids of all nodes, in table order.
    pub fn node_ids(&self) -> (r: Vec<NodeId>)
        ensures
            r@.len() == self@.nodes.len(),
            forall|i: int| 0 <= i < r@.len() ==> r@[i]@ == self@.nodes[i].0,
    {
        proof {
            self.lemma_view_parts();
        }
        crate::tables::nm_keys(&self.nodes)
    }

    /// The class ids that carry metadata, in table order.
    pub fn class_data_ids(&self) -> (r: Vec<ClassId>)
        ensures
            r@.len() == self@.class_data.len(),
            forall|i: int| 0 <= i < r@.len() ==> r@[i]@ == self@.class_data[i].0,
    {
        proof {
            self.lemma_view_parts();
        }
        crate::tables::cm_keys(&self.class_data)
    }

    /// The whole contents of the store as plain values in table order:
    /// the (id, node) pairs, the root class ids, and the (class id,
    /// metadata) pairs. Feeding them back to `from_parts` rebuilds an
    /// equal store.
    pub fn to_parts(&self) -> (r: (Vec<(NodeId, Node)>, Vec<ClassId>, Vec<(ClassId, ClassData)>))
        requires
            self.wf(),
        ensures
            r.0@.len() == self@.nodes.len(),
            forall|i: int|
                0 <= i < r.0@.len() ==> #[trigger] r.0@[i].0@ == self@.nodes[i].0
                    && r.0@[i].1@ == self@.nodes[i].1,
            r.1@.map_values(|c: ClassId| c@) == self@.roots,
            r.2@.len() == self@.class_data.len(),
            forall|i: int|
                0 <= i < r.2@.len() ==> #[trigger] r.2@[i].0@ == self@.class_data[i].0
                    && r.2@[i].1@ == self@.class_data[i].1,
    {
        proof {
            self.lemma_view_parts();
        }
        let ids = self.node_ids();
        let mut nodes: Vec<(NodeId, Node)> = Vec::new();
        let mut i: usize = 0;
        while i < ids.len()
            invariant
                self.wf(),
                0 <= i <= ids.len(),
                ids@.len() == self@.nodes.len(),
                forall|j: int| 0 <= j < ids@.len() ==> ids@[j]@ == self@.nodes[j].0,
                nodes@.len() == i,
                forall|j: int|
                    0 <= j < i ==> #[trigger] nodes@[j].0@ == self@.nodes[j].0 && nodes@[j].1@
                        == self@.nodes[j].1,
            decreases ids.len() - i,
        {
            proof {
                self.lemma_view_parts();
                self.lemma_wf_or_lookup(i as int);
            }
            let n = self.get_node(&ids[i]).unwrap();
            nodes.push((ids[i].dup(), n.dup()));
            i += 1;
        }
        let mut roots: Vec<ClassId> = Vec::new();
        let mut i2: usize = 0;
        while i2 < self.root_eclasses.len()
            invariant
                0 <= i2 <= self.root_eclasses.len(),
                roots@.len() == i2,
                forall|j: int| 0 <= j < i2 ==> roots@[j]@ == self.root_eclasses@[j]@,
            decreases self.root_eclasses.len() - i2,
        {
            roots.push(self.root_eclasses[i2].dup());
            i2 += 1;
        }
        proof {
            self.lemma_view_parts();
            assert(roots@.map_values(|c: ClassId| c@) =~= self@.roots);
        }
        let cids = self.class_data_ids();
        let mut cdata: Vec<(ClassId, ClassData)> = Vec::new();
        let mut i3: usize = 0;
        while i3 < cids.len()
            invariant
                self.wf(),
                0 <= i3 <= cids.len(),
                cids@.len() == self@.class_data.len(),
                forall|j: int| 0 <= j < cids@.len() ==> cids@[j]@ == self@.class_data[j].0,
                cdata@.len() == i3,
                forall|j: int|
                    0 <= j < i3 ==> #[trigger] cdata@[j].0@ == self@.class_data[j].0
                        && cdata@[j].1@ == self@.class_data[j].1,
            decreases cids.len() - i3,
        {
            proof {
                self.lemma_view_parts();
                self.lemma_cd_lookup(i3 as int);
            }
            let d = cm_get(&self.class_data, &cids[i3]).unwrap();
            cdata.push((cids[i3].dup(), d.dup()));
            i3 += 1;
        }
        (nodes, roots, cdata)
    }

    proof fn lemma_wf_or_lookup(&self, i: int)
        requires
            0 <= i < self@.nodes.len(),
        ensures
            has_key(self@.nodes, self@.nodes[i].0) || !keys_distinct(self@.nodes),
            keys_distinct(self@.nodes) ==> has_key(self@.nodes, self@.nodes[i].0) && value_of(
                self@.nodes,
                self@.nodes[i].0,
            ) == self@.nodes[i].1,
            has_key(self@.nodes, self@.nodes[i].0),
    {
        crate::model::lemma_find_key(self@.nodes, self@.nodes[i].0);
        if find_key(self@.nodes, self@.nodes[i].0) == -1 {
            assert(false);
        }
        if keys_distinct(self@.nodes) {
            crate::model::lemma_find_key_at(self@.nodes, i);
        }
    }

    proof fn lemma_cd_lookup(&self, i: int)
        requires
            0 <= i < self@.class_data.len(),
        ensures
            has_key(self@.class_data, self@.class_data[i].0),
            keys_distinct(self@.class_data) ==> value_of(
                self@.class_data,
                self@.class_data[i].0,
            ) == self@.class_data[i].1,
    {
        crate::model::lemma_find_key(self@.class_data, self@.class_data[i].0);
        if find_key(self@.class_data, self@.class_data[i].0) == -1 {
            assert(false);
        }
        if keys_distinct(self@.class_data) {
            crate::model::lemma_find_key_at(self@.class_data, i);
        }
    }

    /// Rebuild a store from plain values, in the given order. With the
    /// parts that `to_parts` handed out this yields an equal store: the
    /// two are inverse.
    pub fn from_parts(
        nodes: Vec<(NodeId, Node)>,
        roots: Vec<ClassId>,
        class_data: Vec<(ClassId, ClassData)>,
    ) -> (r: EGraph)
        requires
            forall|i: int, j: int|
                0 <= i < j < nodes@.len() ==> nodes@[i].0@ != nodes@[j].0@,
            forall|i: int, j: int|
                0 <= i < j < class_data@.len() ==> class_data@[i].0@ != class_data@[j].0@,
        ensures
            r.wf(),
            r@.nodes.len() == nodes@.len(),
            forall|i: int|
                0 <= i < nodes@.len() ==> #[trigger] r@.nodes[i].0 == nodes@[i].0@ && r@.nodes[i].1
                    == nodes@[i].1@,
            r@.roots == roots@.map_values(|c: ClassId| c@),
            r@.class_data.len() == class_data@.len(),
            forall|i: int|
                0 <= i < class_data@.len() ==> #[trigger] r@.class_data[i].0 == class_data@[i].0@
                    && r@.class_data[i].1 == class_data@[i].1@,
    {
        let mut r = EGraph::new();
        let mut i: usize = 0;
        while i < nodes.len()
            invariant
                0 <= i <= nodes@.len(),
                r.wf(),
                forall|a: int, b: int|
                    0 <= a < b < nodes@.len() ==> nodes@[a].0@ != nodes@[b].0@,
                r@.nodes.len() == i,
                forall|j: int|
                    0 <= j < i ==> #[trigger] r@.nodes[j].0 == nodes@[j].0@ && r@.nodes[j].1
                        == nodes@[j].1@,
                r@.roots == Seq::<Seq<char>>::empty(),
                r@.class_data == Seq::<(Seq<char>, Option<Seq<char>>)>::empty(),
            decreases nodes.len() - i,
        {
            proof {
                lemma_find_key(r@.nodes, nodes@[i as int].0@);
                if has_key(r@.nodes, nodes@[i as int].0@) {
                    let f = find_key(r@.nodes, nodes@[i as int].0@);
                    assert(r@.nodes[f].0 == nodes@[f].0@);
                    assert(false);
                }
            }
            let e = &nodes[i];
            r.add_node(e.0.dup(), e.1.dup());
            i += 1;
        }
        let mut i2: usize = 0;
        while i2 < roots.len()
            invariant
                0 <= i2 <= roots@.len(),
                r.wf(),
                r@.nodes.len() == nodes@.len(),
                forall|j: int|
                    0 <= j < nodes@.len() ==> #[trigger] r@.nodes[j].0 == nodes@[j].0@
                        && r@.nodes[j].1 == nodes@[j].1@,
                r@.roots == roots@.map_values(|c: ClassId| c@).take(i2 as int),
                r@.class_data == Seq::<(Seq<char>, Option<Seq<char>>)>::empty(),
            decreases roots.len() - i2,
        {
            r.add_root(roots[i2].dup());
            proof {
                assert(r@.roots =~= roots@.map_values(|c: ClassId| c@).take(i2 + 1));
            }
            i2 += 1;
        }
        proof {
            assert(roots@.map_values(|c: ClassId| c@).take(roots@.len() as int) =~= roots@.map_values(
                |c: ClassId| c@,
            ));
        }
        let mut i3: usize = 0;
        while i3 < class_data.len()
            invariant
                0 <= i3 <= class_data@.len(),
                r.wf(),
                r@.nodes.len() == nodes@.len(),
                forall|j: int|
                    0 <= j < nodes@.len() ==> #[trigger] r@.nodes[j].0 == nodes@[j].0@
                        && r@.nodes[j].1 == nodes@[j].1@,
                r@.roots == roots@.map_values(|c: ClassId| c@),
                forall|a: int, b: int|
                    0 <= a < b < class_data@.len() ==> class_data@[a].0@ != class_data@[b].0@,
                r@.class_data.len() == i3,
                forall|j: int|
                    0 <= j < i3 ==> #[trigger] r@.class_data[j].0 == class_data@[j].0@
                        && r@.class_data[j].1 == class_data@[j].1@,
            decreases class_data.len() - i3,
        {
            proof {
                lemma_find_key(r@.class_data, class_data@[i3 as int].0@);
                if has_key(r@.class_data, class_data@[i3 as int].0@) {
                    let f = find_key(r@.class_data, class_data@[i3 as int].0@);
                    assert(r@.class_data[f].0 == class_data@[f].0@);
                    assert(false);
                }
            }
            let e = &class_data[i3];
            r.set_class_data(e.0.dup(), e.1.dup());
            i3 += 1;
        }
        r
    }

    /// The designated root classes, in order.
    pub fn roots<'a>(&'a self) -> (r: &'a Vec<ClassId>)
        ensures
            r@.map_values(|c: ClassId| c@) == self@.roots,
    {
        &self.root_eclasses
    }

    /// Designate one further root class.
    pub fn add_root(&mut self, class_id: ClassId)
        requires
            old(self).wf(),
        ensures
            final(self).wf(),
            final(self)@.nodes == old(self)@.nodes,
            final(self)@.roots == old(self)@.roots.push(class_id@),
            final(self)@.class_data == old(self)@.class_data,
    {
        self.root_eclasses.push(class_id);
        proof {
            assert(final(self).root_eclasses@.map_values(|c: ClassId| c@) =~= old(
                self,
            )@.roots.push(final(self).root_eclasses@.last()@));
        }
    }

    /// The metadata of this class, when any is recorded.
    pub fn get_class_data<'a>(&'a self, class_id: &ClassId) -> (r: Option<&'a ClassData>)
        ensures
            match r {
                Some(d) => has_key(self@.class_data, class_id@) && d@ == value_of(
                    self@.class_data,
                    class_id@,
                ),
                None => !has_key(self@.class_data, class_id@),
            },
    {
        cm_get(&self.class_data, class_id)
    }

    /// Record metadata for this class: an existing entry keeps its place
    /// and gets the new value, a new entry is appended last.
    pub fn set_class_data(&mut self, class_id: ClassId, data: ClassData)
        requires
            old(self).wf(),
        ensures
            final(self).wf(),
            final(self)@.nodes == old(self)@.nodes,
            final(self)@.roots == old(self)@.roots,
            final(self)@.class_data == (if has_key(old(self)@.class_data, class_id@) {
                old(self)@.class_data.update(
                    find_key(old(self)@.class_data, class_id@),
                    (class_id@, data@),
                )
            } else {
                old(self)@.class_data.push((class_id@, data@))
            }),
    {
        let ghost tab = class_table(self.class_data);
        let ghost k = class_id@;
        let ghost d = data@;
        cm_insert(&mut self.class_data, class_id, data);
        proof {
            lemma_find_key(tab, k);
            let newtab = final(self)@.class_data;
            if has_key(tab, k) {
                assert(keys_distinct(newtab)) by {
                    let f = find_key(tab, k);
                    assert(newtab.len() == tab.len());
                    assert(forall|i: int| 0 <= i < newtab.len() ==> newtab[i].0 == tab[i].0);
                }
            } else {
                assert forall|i: int, j: int|
                    0 <= i < j < newtab.len() implies newtab[i].0 != newtab[j].0 by {
                    if j < tab.len() {
                    } else {
                        assert(newtab[j].0 == k);
                        assert(newtab[i] == tab[i]);
                    }
                }
            }
        }
    }

    /// Replace the whole contents of the store and drop the cached view.
    pub(crate) fn replace_parts(
        &mut self,
        nodes: IndexMap<NodeId, Node>,
        roots: Vec<ClassId>,
        class_data: IndexMap<ClassId, ClassData>,
    )
        requires
            keys_distinct(node_table(nodes)),
            keys_distinct(class_table(class_data)),
        ensures
            final(self).wf(),
            final(self)@.nodes == node_table(nodes),
            final(self)@.roots == roots@.map_values(|c: ClassId| c@),
            final(self)@.class_data == class_table(class_data),
    {
        self.nodes = nodes;
        self.root_eclasses = roots;
        self.class_data = class_data;
        self.class_view = None;
    }

    /// Forget the cached class view; the next read recomputes it.
    pub(crate) fn invalidate_class_view(&mut self)
        ensures
            final(self)@ == old(self)@,
            old(self).wf() ==> final(self).wf(),
    {
        self.class_view = None;
    }

    /// The grouping of the nodes by owning class, one class per distinct
    /// owning-class id in order of first appearance, members in table
    /// order. The result is computed once and cached; any change to the
    /// node table invalidates the cache.
    pub fn classes(&mut self) -> (r: Vec<Class>)
        requires
            old(self).wf(),
        ensures
            final(self).wf(),
            final(self)@ == old(self)@,
            r@.map_values(|c: Class| c@) == group_spec(old(self)@.nodes),
    {
        if self.class_view.is_none() {
            let v = compute_view(&self.nodes);
            self.class_view = Some(v);
        }
        let cached = match &self.class_view {
            Some(v) => v,
            None => unreached(),
        };
        let mut r: Vec<Class> = Vec::new();
        let mut i: usize = 0;
        while i < cached.len()
            invariant
                0 <= i <= cached.len(),
                r@.len() == i,
                forall|j: int| 0 <= j < i ==> r@[j]@ == cached@[j]@,
            decreases cached.len() - i,
        {
            r.push(class_dup(&cached[i]));
            i += 1;
        }
        proof {
            assert(r@.map_values(|c: Class| c@) =~= cached@.map_values(|c: Class| c@));
        }
        r
    }

    /// The class with this id in the current grouping; asking for an id
    /// that owns no node is caller misuse and is excluded.
    pub fn class(&mut self, class_id: &ClassId) -> (r: Class)
        requires
            old(self).wf(),
            class_ids(old(self)@.nodes).contains(class_id@),
        ensures
            final(self).wf(),
            final(self)@ == old(self)@,
            r@ == (ClassModel {
                id: class_id@,
                members: members_of(old(self)@.nodes, class_id@),
            }),
    {
        let all = self.classes();
        let ghost cids = class_ids(old(self)@.nodes);
        proof {
            assert(all@.len() == all@.map_values(|c: Class| c@).len());
            assert(all@.len() == cids.len());
        }
        let mut i: usize = 0;
        while i < all.len()
            invariant
                0 <= i <= all.len(),
                self.wf(),
                self@ == old(self)@,
                all@.map_values(|c: Class| c@) == group_spec(old(self)@.nodes),
                cids == class_ids(old(self)@.nodes),
                cids.contains(class_id@),
                all@.len() == cids.len(),
                forall|j: int| 0 <= j < i ==> cids[j] != class_id@,
            decreases all.len() - i,
        {
            let c = &all[i];
            proof {
                assert(all@.map_values(|cc: Class| cc@)[i as int] == c@);
                assert(c@.id == cids[i as int]);
            }
            if &c.id == class_id {
                let r = class_dup(c);
                return r;
            }
            i += 1;
        }
        proof {
            let w = choose|j: int| 0 <= j < cids.len() && cids[j] == class_id@;
            assert(false);
        }
        unreached()
    }

    /// The class that owns the node with this id.
    pub fn nid_to_class(&mut self, node_id: &NodeId) -> (r: Class)
        requires
            old(self).wf(),
            has_key(old(self)@.nodes, node_id@),
        ensures
            final(self).wf(),
            final(self)@ == old(self)@,
            r@ == (ClassModel {
                id: value_of(old(self)@.nodes, node_id@).eclass,
                members: members_of(old(self)@.nodes, value_of(old(self)@.nodes, node_id@).eclass),
            }),
    {
        let cid = self.nid_to_cid(node_id).dup();
        proof {
            lemma_find_key(old(self)@.nodes, node_id@);
            crate::view::lemma_class_ids_contains(old(self)@.nodes, cid@);
            assert(old(self)@.nodes[find_key(old(self)@.nodes, node_id@)].1.eclass == cid@);
        }
        self.class(&cid)
    }
}

} // verus!
