use vstd::prelude::*;

use indexmap::IndexMap;

use crate::ids::{ClassId, NodeId};
use crate::model::{
    find_key, has_key, keys_distinct, lemma_find_key, lemma_find_key_at, value_of, StoreModel,
};
use crate::node::{ClassData, Node, NodeModel};
use crate::store::EGraph;
use crate::strutil::{placeholder_char, rewrite_op, rewrite_op_exec};
use crate::tables::{class_table, cm_get, cm_insert, cm_keys, cm_new, nm_get, nm_insert, nm_keys, nm_new, node_table};
use crate::view::{contains_nid, members_of};

verus! {

/// How many of the positions of `s` hold `k`.
pub open spec fn count_in(s: Seq<Seq<char>>, k: Seq<char>) -> nat
    decreases s.len(),
{
    if s.len() == 0 {
        0
    } else {
        count_in(s.drop_last(), k) + (if s.last() == k {
            1nat
        } else {
            0nat
        })
    }
}

/// How many child positions across the whole table hold `k`.
pub open spec fn refs_to(tab: Seq<(Seq<char>, NodeModel)>, k: Seq<char>) -> nat
    decreases tab.len(),
{
    if tab.len() == 0 {
        0
    } else {
        refs_to(tab.drop_last(), k) + count_in(tab.last().1.children, k)
    }
}

/// A node is inlined away exactly when it is childless, it is the sole
/// member of its owning class, and at least one node refers to it.
pub open spec fn is_inlinable(tab: Seq<(Seq<char>, NodeModel)>, k: Seq<char>) -> bool {
    &&& has_key(tab, k)
    &&& value_of(tab, k).children.len() == 0
    &&& members_of(tab, value_of(tab, k).eclass).len() == 1
    &&& refs_to(tab, k) > 0
}

/// The ids of the nodes a round inlines away, in table order.
pub open spec fn marked_seq(ctx: Seq<(Seq<char>, NodeModel)>, tab: Seq<(Seq<char>, NodeModel)>) -> Seq<
    Seq<char>,
>
    decreases tab.len(),
{
    if tab.len() == 0 {
        Seq::empty()
    } else {
        let pre = marked_seq(ctx, tab.drop_last());
        if is_inlinable(ctx, tab.last().0) {
            pre.push(tab.last().0)
        } else {
            pre
        }
    }
}

/// How many of the given children positions are being inlined.
pub open spec fn inl_count(ctx: Seq<(Seq<char>, NodeModel)>, children: Seq<Seq<char>>) -> nat
    decreases children.len(),
{
    if children.len() == 0 {
        0
    } else {
        inl_count(ctx, children.drop_last()) + (if is_inlinable(ctx, children.last()) {
            1nat
        } else {
            0nat
        })
    }
}

/// The summed cost of the inlined child positions.
pub open spec fn add_cost(ctx: Seq<(Seq<char>, NodeModel)>, children: Seq<Seq<char>>) -> int
    decreases children.len(),
{
    if children.len() == 0 {
        0
    } else {
        add_cost(ctx, children.drop_last()) + (if is_inlinable(ctx, children.last()) {
            value_of(ctx, children.last()).cost as int
        } else {
            0
        })
    }
}

/// Cost arithmetic saturates at the largest representable weight.
pub open spec fn cost_clamp(x: int) -> u64 {
    if x > u64::MAX as int {
        u64::MAX
    } else {
        x as u64
    }
}

/// One argument per current child position: the inlined child's label,
/// or the placeholder glyph.
pub open spec fn inline_args(ctx: Seq<(Seq<char>, NodeModel)>, children: Seq<Seq<char>>) -> Seq<
    Seq<char>,
> {
    children.map_values(
        |c: Seq<char>|
            if is_inlinable(ctx, c) {
                value_of(ctx, c).op
            } else {
                seq![placeholder_char()]
            },
    )
}

/// The child positions that survive the round, in order.
pub open spec fn surviving_children(ctx: Seq<(Seq<char>, NodeModel)>, children: Seq<Seq<char>>) -> Seq<
    Seq<char>,
>
    decreases children.len(),
{
    if children.len() == 0 {
        Seq::empty()
    } else {
        let pre = surviving_children(ctx, children.drop_last());
        if is_inlinable(ctx, children.last()) {
            pre
        } else {
            pre.push(children.last())
        }
    }
}

/// What one round makes of a surviving node: a node with no inlined
/// child is untouched; a parent of inlined children keeps the survivors
/// in order, absorbs the inlined costs, and gets the rewritten label.
pub open spec fn transform_node(ctx: Seq<(Seq<char>, NodeModel)>, n: NodeModel) -> NodeModel {
    if inl_count(ctx, n.children) > 0 {
        NodeModel {
            op: rewrite_op(n.op, inline_args(ctx, n.children)),
            children: surviving_children(ctx, n.children),
            eclass: n.eclass,
            cost: cost_clamp(n.cost + add_cost(ctx, n.children)),
        }
    } else {
        n
    }
}

/// What one round makes of the node table: inlined nodes are dropped and
/// every survivor is transformed, order kept.
pub open spec fn round_nodes(
    ctx: Seq<(Seq<char>, NodeModel)>,
    tab: Seq<(Seq<char>, NodeModel)>,
) -> Seq<(Seq<char>, NodeModel)>
    decreases tab.len(),
{
    if tab.len() == 0 {
        Seq::empty()
    } else {
        let pre = round_nodes(ctx, tab.drop_last());
        if is_inlinable(ctx, tab.last().0) {
            pre
        } else {
            pre.push((tab.last().0, transform_node(ctx, tab.last().1)))
        }
    }
}

/// Whether class `c` owns a node that the round inlines away.
pub open spec fn removed_class(ctx: Seq<(Seq<char>, NodeModel)>, c: Seq<char>) -> bool {
    exists|i: int|
        0 <= i < ctx.len() && is_inlinable(ctx, #[trigger] ctx[i].0) && ctx[i].1.eclass == c
}

/// What one round makes of the root list: roots of inlined leaves drop out.
pub open spec fn round_roots(ctx: Seq<(Seq<char>, NodeModel)>, roots: Seq<Seq<char>>) -> Seq<
    Seq<char>,
>
    decreases roots.len(),
{
    if roots.len() == 0 {
        Seq::empty()
    } else {
        let pre = round_roots(ctx, roots.drop_last());
        if removed_class(ctx, roots.last()) {
            pre
        } else {
            pre.push(roots.last())
        }
    }
}

/// What one round makes of the metadata table: entries of inlined
/// leaves' classes drop out.
pub open spec fn round_cd(
    ctx: Seq<(Seq<char>, NodeModel)>,
    cd: Seq<(Seq<char>, Option<Seq<char>>)>,
) -> Seq<(Seq<char>, Option<Seq<char>>)>
    decreases cd.len(),
{
    if cd.len() == 0 {
        Seq::empty()
    } else {
        let pre = round_cd(ctx, cd.drop_last());
        if removed_class(ctx, cd.last().0) {
            pre
        } else {
            pre.push(cd.last())
        }
    }
}

/// What one inlining round makes of a whole store.
pub open spec fn inline_round(m: StoreModel) -> StoreModel {
    StoreModel {
        nodes: round_nodes(m.nodes, m.nodes),
        roots: round_roots(m.nodes, m.roots),
        class_data: round_cd(m.nodes, m.class_data),
    }
}

/// How many nodes one round inlines away.
pub open spec fn inline_count(m: StoreModel) -> nat {
    marked_seq(m.nodes, m.nodes).len()
}

pub proof fn lemma_count_in_pos(s: Seq<Seq<char>>, k: Seq<char>)
    ensures
        (count_in(s, k) > 0) <==> s.contains(k),
    decreases s.len(),
{
    if s.len() != 0 {
        lemma_count_in_pos(s.drop_last(), k);
        if count_in(s, k) > 0 {
            if s.last() == k {
                assert(s[s.len() - 1] == k);
            } else {
                let i = choose|i: int| 0 <= i < s.drop_last().len() && s.drop_last()[i] == k;
                assert(s[i] == k);
            }
        }
        if s.contains(k) {
            let i = choose|i: int| 0 <= i < s.len() && s[i] == k;
            if i < s.len() - 1 {
                assert(s.drop_last()[i] == k);
            }
        }
    }
}

/// Membership in the marked list is exactly being inlinable, over a table
/// with distinct keys.
pub proof fn lemma_marked_contains(
    ctx: Seq<(Seq<char>, NodeModel)>,
    tab: Seq<(Seq<char>, NodeModel)>,
    k: Seq<char>,
)
    ensures
        marked_seq(ctx, tab).contains(k) <==> exists|i: int|
            0 <= i < tab.len() && #[trigger] tab[i].0 == k && is_inlinable(ctx, k),
    decreases tab.len(),
{
    if tab.len() != 0 {
        lemma_marked_contains(ctx, tab.drop_last(), k);
        let pre = marked_seq(ctx, tab.drop_last());
        if marked_seq(ctx, tab).contains(k) {
            if is_inlinable(ctx, tab.last().0) && tab.last().0 == k {
                assert(tab[tab.len() - 1].0 == k);
            } else {
                let j = choose|j: int|
                    0 <= j < marked_seq(ctx, tab).len() && marked_seq(ctx, tab)[j] == k;
                if j < pre.len() {
                    assert(pre[j] == k);
                    assert(pre.contains(k));
                    let i = choose|i: int|
                        0 <= i < tab.drop_last().len() && #[trigger] tab.drop_last()[i].0 == k
                            && is_inlinable(ctx, k);
                    assert(tab[i].0 == k);
                } else {
                    assert(marked_seq(ctx, tab)[j] == tab.last().0);
                    assert(tab[tab.len() - 1].0 == k);
                }
            }
        }
        if exists|i: int| 0 <= i < tab.len() && #[trigger] tab[i].0 == k && is_inlinable(ctx, k) {
            let i = choose|i: int|
                0 <= i < tab.len() && #[trigger] tab[i].0 == k && is_inlinable(ctx, k);
            if i < tab.len() - 1 {
                assert(tab.drop_last()[i].0 == k);
                assert(pre.contains(k));
                let j = choose|j: int| 0 <= j < pre.len() && pre[j] == k;
                if is_inlinable(ctx, tab.last().0) {
                    assert(marked_seq(ctx, tab)[j] == k);
                } else {
                    assert(marked_seq(ctx, tab)[j] == k);
                }
            } else {
                assert(tab.last().0 == k);
                assert(marked_seq(ctx, tab).last() == k);
            }
        }
    }
}

/// No key of the transformed table is new.
pub proof fn lemma_round_nodes_key_not(
    ctx: Seq<(Seq<char>, NodeModel)>,
    tab: Seq<(Seq<char>, NodeModel)>,
    k: Seq<char>,
)
    requires
        forall|j: int| 0 <= j < tab.len() ==> tab[j].0 != k,
    ensures
        forall|j: int|
            0 <= j < round_nodes(ctx, tab).len() ==> #[trigger] round_nodes(ctx, tab)[j].0 != k,
    decreases tab.len(),
{
    if tab.len() != 0 {
        assert(forall|j: int| 0 <= j < tab.drop_last().len() ==> #[trigger] tab.drop_last()[j].0
            == tab[j].0);
        lemma_round_nodes_key_not(ctx, tab.drop_last(), k);
        let pre = round_nodes(ctx, tab.drop_last());
        if !is_inlinable(ctx, tab.last().0) {
            assert(tab[tab.len() - 1].0 != k);
            assert(forall|j: int|
                0 <= j < round_nodes(ctx, tab).len() ==> #[trigger] round_nodes(ctx, tab)[j].0 == (
                if j < pre.len() {
                    pre[j].0
                } else {
                    tab.last().0
                }));
        }
    }
}

/// Distinct keys stay distinct across the round.
pub proof fn lemma_round_nodes_distinct(
    ctx: Seq<(Seq<char>, NodeModel)>,
    tab: Seq<(Seq<char>, NodeModel)>,
)
    requires
        keys_distinct(tab),
    ensures
        keys_distinct(round_nodes(ctx, tab)),
    decreases tab.len(),
{
    if tab.len() != 0 {
        assert(forall|j: int| 0 <= j < tab.drop_last().len() ==> #[trigger] tab.drop_last()[j]
            == tab[j]);
        lemma_round_nodes_distinct(ctx, tab.drop_last());
        let pre = round_nodes(ctx, tab.drop_last());
        if !is_inlinable(ctx, tab.last().0) {
            assert(forall|j: int| 0 <= j < tab.len() - 1 ==> tab[j].0 != tab.last().0);
            lemma_round_nodes_key_not(ctx, tab.drop_last(), tab.last().0);
            let rn = round_nodes(ctx, tab);
            assert forall|i: int, j: int| 0 <= i < j < rn.len() implies rn[i].0 != rn[j].0 by {
                if j < pre.len() {
                } else {
                    assert(rn[j].0 == tab.last().0);
                    assert(rn[i] == pre[i]);
                }
            }
        }
    }
}

/// A class is removed exactly when some marked node owns it.
pub proof fn lemma_removed_class_marked(ctx: Seq<(Seq<char>, NodeModel)>, c: Seq<char>)
    requires
        keys_distinct(ctx),
    ensures
        removed_class(ctx, c) <==> exists|j: int|
            0 <= j < marked_seq(ctx, ctx).len() && value_of(
                ctx,
                #[trigger] marked_seq(ctx, ctx)[j],
            ).eclass == c,
{
    let mk = marked_seq(ctx, ctx);
    if removed_class(ctx, c) {
        let i = choose|i: int|
            0 <= i < ctx.len() && is_inlinable(ctx, #[trigger] ctx[i].0) && ctx[i].1.eclass == c;
        lemma_marked_contains(ctx, ctx, ctx[i].0);
        assert(mk.contains(ctx[i].0));
        let j = choose|j: int| 0 <= j < mk.len() && mk[j] == ctx[i].0;
        lemma_find_key_at(ctx, i);
        assert(value_of(ctx, mk[j]).eclass == c);
    }
    if exists|j: int| 0 <= j < mk.len() && value_of(ctx, #[trigger] mk[j]).eclass == c {
        let j = choose|j: int| 0 <= j < mk.len() && value_of(ctx, #[trigger] mk[j]).eclass == c;
        assert(mk[j] == mk[j]);
        assert(mk.contains(mk[j]));
        lemma_marked_contains(ctx, ctx, mk[j]);
        let i = choose|i: int|
            0 <= i < ctx.len() && #[trigger] ctx[i].0 == mk[j] && is_inlinable(ctx, mk[j]);
        lemma_find_key_at(ctx, i);
        assert(ctx[i].1.eclass == c);
        assert(is_inlinable(ctx, ctx[i].0));
    }
}

/// Every marked id names an inlinable node.
pub proof fn lemma_marked_inlinable(
    ctx: Seq<(Seq<char>, NodeModel)>,
    tab: Seq<(Seq<char>, NodeModel)>,
    j: int,
)
    requires
        0 <= j < marked_seq(ctx, tab).len(),
    ensures
        is_inlinable(ctx, marked_seq(ctx, tab)[j]),
    decreases tab.len(),
{
    if tab.len() != 0 {
        let pre = marked_seq(ctx, tab.drop_last());
        if j < pre.len() {
            lemma_marked_inlinable(ctx, tab.drop_last(), j);
        } else {
            assert(is_inlinable(ctx, tab.last().0));
        }
    }
}

/// Saturating add on weights.
pub(crate) fn sat_add(a: u64, b: u64) -> (r: u64)
    ensures
        r == cost_clamp(a as int + b as int),
{
    if b <= u64::MAX - a {
        a + b
    } else {
        u64::MAX
    }
}

/// The summed cost of inlined children is never negative.
pub proof fn lemma_add_cost_nonneg(ctx: Seq<(Seq<char>, NodeModel)>, children: Seq<Seq<char>>)
    ensures
        add_cost(ctx, children) >= 0,
    decreases children.len(),
{
    if children.len() != 0 {
        lemma_add_cost_nonneg(ctx, children.drop_last());
    }
}

/// No key of the filtered metadata table is new.
pub proof fn lemma_round_cd_key_not(
    ctx: Seq<(Seq<char>, NodeModel)>,
    cd: Seq<(Seq<char>, Option<Seq<char>>)>,
    k: Seq<char>,
)
    requires
        forall|j: int| 0 <= j < cd.len() ==> cd[j].0 != k,
    ensures
        forall|j: int| 0 <= j < round_cd(ctx, cd).len() ==> #[trigger] round_cd(ctx, cd)[j].0 != k,
    decreases cd.len(),
{
    if cd.len() != 0 {
        assert(forall|j: int| 0 <= j < cd.drop_last().len() ==> #[trigger] cd.drop_last()[j].0
            == cd[j].0);
        lemma_round_cd_key_not(ctx, cd.drop_last(), k);
        let pre = round_cd(ctx, cd.drop_last());
        if !removed_class(ctx, cd.last().0) {
            assert(cd[cd.len() - 1].0 != k);
            assert(forall|j: int|
                0 <= j < round_cd(ctx, cd).len() ==> #[trigger] round_cd(ctx, cd)[j].0 == (if j
                    < pre.len() {
                    pre[j].0
                } else {
                    cd.last().0
                }));
        }
    }
}

/// Distinct metadata keys stay distinct across the round.
pub proof fn lemma_round_cd_distinct(
    ctx: Seq<(Seq<char>, NodeModel)>,
    cd: Seq<(Seq<char>, Option<Seq<char>>)>,
)
    requires
        keys_distinct(cd),
    ensures
        keys_distinct(round_cd(ctx, cd)),
    decreases cd.len(),
{
    if cd.len() != 0 {
        assert(forall|j: int| 0 <= j < cd.drop_last().len() ==> #[trigger] cd.drop_last()[j]
            == cd[j]);
        lemma_round_cd_distinct(ctx, cd.drop_last());
        let pre = round_cd(ctx, cd.drop_last());
        if !removed_class(ctx, cd.last().0) {
            assert(forall|j: int| 0 <= j < cd.len() - 1 ==> cd[j].0 != cd.last().0);
            lemma_round_cd_key_not(ctx, cd.drop_last(), cd.last().0);
            let rn = round_cd(ctx, cd);
            assert forall|i: int, j: int| 0 <= i < j < rn.len() implies rn[i].0 != rn[j].0 by {
                if j < pre.len() {
                } else {
                    assert(rn[j].0 == cd.last().0);
                    assert(rn[i] == pre[i]);
                }
            }
        }
    }
}

/// Whether class `c` has exactly one member node.
pub(crate) fn class_single(m: &IndexMap<NodeId, Node>, c: &ClassId) -> (r: bool)
    requires
        keys_distinct(node_table(*m)),
    ensures
        r == (members_of(node_table(*m), c@).len() == 1),
{
    let ghost tab = node_table(*m);
    let keys = nm_keys(m);
    let mut cnt: usize = 0;
    let mut i: usize = 0;
    while i < keys.len()
        invariant
            0 <= i <= keys.len(),
            tab == node_table(*m),
            keys_distinct(tab),
            keys@.len() == tab.len(),
            forall|j: int| 0 <= j < keys@.len() ==> keys@[j]@ == tab[j].0,
            cnt == members_of(tab.take(i as int), c@).len(),
            cnt <= i,
        decreases keys.len() - i,
    {
        proof {
            lemma_find_key_at(tab, i as int);
        }
        let n = nm_get(m, &keys[i]).unwrap();
        proof {
            assert(n@ == tab[i as int].1);
            assert(tab.take(i + 1).drop_last() =~= tab.take(i as int));
            assert(tab.take(i + 1).last() == tab[i as int]);
        }
        if &n.eclass == c {
            cnt += 1;
        }
        i += 1;
    }
    proof {
        assert(tab.take(tab.len() as int) =~= tab);
    }
    cnt == 1
}

/// Whether any node refers to `k` at some child position.
pub(crate) fn has_ref(m: &IndexMap<NodeId, Node>, k: &NodeId) -> (r: bool)
    requires
        keys_distinct(node_table(*m)),
    ensures
        r == (refs_to(node_table(*m), k@) > 0),
{
    let ghost tab = node_table(*m);
    let keys = nm_keys(m);
    let mut found = false;
    let mut i: usize = 0;
    while i < keys.len()
        invariant
            0 <= i <= keys.len(),
            tab == node_table(*m),
            keys_distinct(tab),
            keys@.len() == tab.len(),
            forall|j: int| 0 <= j < keys@.len() ==> keys@[j]@ == tab[j].0,
            found == (refs_to(tab.take(i as int), k@) > 0),
        decreases keys.len() - i,
    {
        proof {
            lemma_find_key_at(tab, i as int);
        }
        let n = nm_get(m, &keys[i]).unwrap();
        proof {
            assert(n@ == tab[i as int].1);
            assert(tab.take(i + 1).drop_last() =~= tab.take(i as int));
            assert(tab.take(i + 1).last() == tab[i as int]);
        }
        let occurs = contains_nid(&n.children, k);
        proof {
            lemma_count_in_pos(n@.children, k@);
        }
        if occurs {
            found = true;
        }
        i += 1;
    }
    proof {
        assert(tab.take(tab.len() as int) =~= tab);
    }
    found
}

/// Whether the class `c` loses its (sole, marked) member this round.
pub(crate) fn class_removed(
    m: &IndexMap<NodeId, Node>,
    marked: &Vec<NodeId>,
    c: &ClassId,
) -> (r: bool)
    requires
        keys_distinct(node_table(*m)),
        marked@.map_values(|x: NodeId| x@) == marked_seq(node_table(*m), node_table(*m)),
    ensures
        r == removed_class(node_table(*m), c@),
{
    let ghost tab = node_table(*m);
    let ghost mk = marked_seq(tab, tab);
    let mut i: usize = 0;
    while i < marked.len()
        invariant
            0 <= i <= marked.len(),
            tab == node_table(*m),
            keys_distinct(tab),
            marked@.map_values(|x: NodeId| x@) == mk,
            mk == marked_seq(tab, tab),
            forall|j: int| 0 <= j < i ==> value_of(tab, #[trigger] mk[j]).eclass != c@,
        decreases marked.len() - i,
    {
        proof {
            assert(marked@.map_values(|x: NodeId| x@)[i as int] == marked@[i as int]@);
            lemma_marked_inlinable(tab, tab, i as int);
        }
        let n = nm_get(m, &marked[i]).unwrap();
        if &n.eclass == c {
            proof {
                lemma_removed_class_marked(tab, c@);
                assert(value_of(tab, mk[i as int]).eclass == c@);
            }
            return true;
        }
        i += 1;
    }
    proof {
        lemma_removed_class_marked(tab, c@);
        if removed_class(tab, c@) {
            let j = choose|j: int|
                0 <= j < mk.len() && value_of(tab, #[trigger] mk[j]).eclass == c@;
            assert(false);
        }
    }
    false
}

impl EGraph {
    /// One inlining round. Every childless sole-member-of-its-class node
    /// that some node refers to is folded into each referring parent:
    /// the parent's label is rewritten, the inlined positions leave the
    /// child list, and the inlined costs move into the parent. Such
    /// leaves are then deleted, together with their class metadata and
    /// root entries. A childless node nothing refers to stays untouched.
    /// Returns how many nodes were inlined away.
    pub fn inline_leaves(&mut self) -> (r: usize)
        requires
            old(self).wf(),
        ensures
            final(self).wf(),
            final(self)@ == inline_round(old(self)@),
            r == inline_count(old(self)@),
    {
        let ghost m0 = old(self)@;
        let ghost ctx = m0.nodes;
        proof {
            self.lemma_wf_keys_distinct();
            self.lemma_view_parts();
        }
        let keys = nm_keys(&self.nodes);

        // which nodes this round inlines away
        let mut marked: Vec<NodeId> = Vec::new();
        let mut i: usize = 0;
        while i < keys.len()
            invariant
                0 <= i <= keys.len(),
                self.wf(),
                self@ == m0,
                ctx == m0.nodes,
                keys_distinct(ctx),
                keys@.len() == ctx.len(),
                forall|j: int| 0 <= j < keys@.len() ==> keys@[j]@ == ctx[j].0,
                marked@.map_values(|x: NodeId| x@) == marked_seq(ctx, ctx.take(i as int)),
            decreases keys.len() - i,
        {
            proof {
                self.lemma_view_parts();
                lemma_find_key_at(ctx, i as int);
            }
            let n = nm_get(&self.nodes, &keys[i]).unwrap();
            let mut inl = false;
            if n.is_leaf() {
                if class_single(&self.nodes, &n.eclass) {
                    if has_ref(&self.nodes, &keys[i]) {
                        inl = true;
                    }
                }
            }
            proof {
                assert(n@ == ctx[i as int].1);
                assert(n@ == value_of(ctx, ctx[i as int].0));
                assert(inl == is_inlinable(ctx, ctx[i as int].0));
                assert(ctx.take(i + 1).drop_last() =~= ctx.take(i as int));
                assert(ctx.take(i + 1).last() == ctx[i as int]);
            }
            if inl {
                marked.push(keys[i].dup());
                proof {
                    assert(marked@.map_values(|x: NodeId| x@) =~= marked_seq(
                        ctx,
                        ctx.take(i + 1),
                    ));
                }
            } else {
                proof {
                    assert(marked@.map_values(|x: NodeId| x@) =~= marked_seq(
                        ctx,
                        ctx.take(i + 1),
                    ));
                }
            }
            i += 1;
        }
        proof {
            assert(ctx.take(ctx.len() as int) =~= ctx);
        }

        // rebuild the node table: drop the marked leaves, transform parents
        let mut new_nodes = nm_new();
        let mut i2: usize = 0;
        while i2 < keys.len()
            invariant
                0 <= i2 <= keys.len(),
                self.wf(),
                self@ == m0,
                ctx == m0.nodes,
                keys_distinct(ctx),
                keys@.len() == ctx.len(),
                forall|j: int| 0 <= j < keys@.len() ==> keys@[j]@ == ctx[j].0,
                marked@.map_values(|x: NodeId| x@) == marked_seq(ctx, ctx),
                node_table(new_nodes) == round_nodes(ctx, ctx.take(i2 as int)),
            decreases keys.len() - i2,
        {
            proof {
                self.lemma_view_parts();
                lemma_find_key_at(ctx, i2 as int);
                lemma_marked_contains(ctx, ctx, ctx[i2 as int].0);
            }
            let k = &keys[i2];
            let is_marked = contains_nid(&marked, k);
            proof {
                assert(is_marked == is_inlinable(ctx, ctx[i2 as int].0));
                assert(ctx.take(i2 + 1).drop_last() =~= ctx.take(i2 as int));
                assert(ctx.take(i2 + 1).last() == ctx[i2 as int]);
            }
            if !is_marked {
                let n = nm_get(&self.nodes, k).unwrap();
                let ghost chm = n@.children;
                let mut args: Vec<String> = Vec::new();
                let mut kept: Vec<NodeId> = Vec::new();
                let mut addc: u64 = 0;
                let mut any = false;
                let mut j: usize = 0;
                proof {
                    assert(n@ == ctx[i2 as int].1);
                }
                while j < n.children.len()
                    invariant
                        0 <= j <= n.children.len(),
                        self.wf(),
                        self@ == m0,
                        ctx == m0.nodes,
                        keys_distinct(ctx),
                        chm == n.children@.map_values(|c: NodeId| c@),
                        marked@.map_values(|x: NodeId| x@) == marked_seq(ctx, ctx),
                        args@.len() == j,
                        kept@.len() == surviving_children(ctx, chm.take(j as int)).len(),
                        args@.map_values(|a: String| a@) == inline_args(ctx, chm.take(j as int)),
                        kept@.map_values(|x: NodeId| x@) == surviving_children(
                            ctx,
                            chm.take(j as int),
                        ),
                        addc == cost_clamp(add_cost(ctx, chm.take(j as int))),
                        any == (inl_count(ctx, chm.take(j as int)) > 0),
                    decreases n.children.len() - j,
                {
                    let child = &n.children[j];
                    let is_inl = contains_nid(&marked, child);
                    proof {
                        self.lemma_view_parts();
                        lemma_marked_contains(ctx, ctx, child@);
                        assert(chm[j as int] == child@);
                        if !is_inl && is_inlinable(ctx, child@) {
                            lemma_find_key(ctx, child@);
                            assert(ctx[find_key(ctx, child@)].0 == child@);
                            assert(false);
                        }
                        assert(is_inl == is_inlinable(ctx, child@));
                        assert(chm.take(j + 1).drop_last() =~= chm.take(j as int));
                        assert(chm.take(j + 1).last() == chm[j as int]);
                        lemma_add_cost_nonneg(ctx, chm.take(j as int));
                    }
                    let ghost args0 = args@;
                    if is_inl {
                        any = true;
                        let cn = nm_get(&self.nodes, child).unwrap();
                        args.push(cn.op.clone());
                        addc = sat_add(addc, cn.cost);
                        proof {
                            assert(cn@ == value_of(ctx, child@));
                            assert(args@ == args0.push(cn.op));
                            lemma_map_str_push(args0, cn.op);
                            assert(chm.take(j + 1) =~= chm.take(j as int).push(chm[j as int]));
                            lemma_inline_args_push(ctx, chm.take(j as int), chm[j as int]);
                            assert(args@.map_values(|a: String| a@) == inline_args(
                                ctx,
                                chm.take(j + 1),
                            ));
                            assert(kept@.map_values(|x: NodeId| x@) =~= surviving_children(
                                ctx,
                                chm.take(j + 1),
                            ));
                        }
                    } else {
                        let ph = "\u{b7}".to_owned();
                        proof {
                            reveal_strlit("\u{b7}");
                            assert(ph@ =~= seq![placeholder_char()]);
                        }
                        args.push(ph);
                        kept.push(child.dup());
                        proof {
                            assert(args@ == args0.push(args@.last()));
                            assert(args@.last()@ == seq![placeholder_char()]);
                            lemma_map_str_push(args0, args@.last());
                            assert(chm.take(j + 1) =~= chm.take(j as int).push(chm[j as int]));
                            lemma_inline_args_push(ctx, chm.take(j as int), chm[j as int]);
                            assert(args@.map_values(|a: String| a@) == inline_args(
                                ctx,
                                chm.take(j + 1),
                            ));
                            assert(kept@.map_values(|x: NodeId| x@) =~= surviving_children(
                                ctx,
                                chm.take(j + 1),
                            ));
                        }
                    }
                    j += 1;
                }
                proof {
                    assert(chm.take(chm.len() as int) =~= chm);
                }
                let new_node = if any {
                    let new_op = rewrite_op_exec(n.op.as_str(), &args);
                    proof {
                        lemma_add_cost_nonneg(ctx, chm);
                    }
                    let new_cost = sat_add(n.cost, addc);
                    Node::new(new_op, kept, n.eclass.dup(), new_cost)
                } else {
                    n.dup()
                };
                proof {
                    assert(new_node@ == transform_node(ctx, ctx[i2 as int].1));
                    assert(forall|jj: int|
                        0 <= jj < ctx.take(i2 as int).len() ==> #[trigger] ctx.take(
                            i2 as int,
                        )[jj].0 != ctx[i2 as int].0);
                    lemma_round_nodes_key_not(ctx, ctx.take(i2 as int), ctx[i2 as int].0);
                    lemma_find_key(node_table(new_nodes), ctx[i2 as int].0);
                }
                nm_insert(&mut new_nodes, k.dup(), new_node);
                proof {
                    assert(node_table(new_nodes) =~= round_nodes(ctx, ctx.take(i2 + 1)));
                }
            } else {
                proof {
                    assert(node_table(new_nodes) =~= round_nodes(ctx, ctx.take(i2 + 1)));
                }
            }
            i2 += 1;
        }
        proof {
            assert(ctx.take(ctx.len() as int) =~= ctx);
        }

        // rebuild the root list: the classes of inlined leaves drop out
        let ghost rts = m0.roots;
        let mut new_roots: Vec<ClassId> = Vec::new();
        let mut i3: usize = 0;
        while i3 < self.root_eclasses.len()
            invariant
                0 <= i3 <= self.root_eclasses.len(),
                self.wf(),
                self@ == m0,
                ctx == m0.nodes,
                keys_distinct(ctx),
                marked@.map_values(|x: NodeId| x@) == marked_seq(ctx, ctx),
                rts == self.root_eclasses@.map_values(|c: ClassId| c@),
                new_roots@.map_values(|c: ClassId| c@) == round_roots(ctx, rts.take(i3 as int)),
            decreases self.root_eclasses.len() - i3,
        {
            proof {
                self.lemma_view_parts();
            }
            let root = &self.root_eclasses[i3];
            let rem = class_removed(&self.nodes, &marked, root);
            proof {
                assert(rts[i3 as int] == root@);
                assert(rts.take(i3 + 1).drop_last() =~= rts.take(i3 as int));
                assert(rts.take(i3 + 1).last() == rts[i3 as int]);
            }
            if !rem {
                new_roots.push(root.dup());
                proof {
                    assert(new_roots@.map_values(|c: ClassId| c@) =~= round_roots(
                        ctx,
                        rts.take(i3 + 1),
                    ));
                }
            } else {
                proof {
                    assert(new_roots@.map_values(|c: ClassId| c@) =~= round_roots(
                        ctx,
                        rts.take(i3 + 1),
                    ));
                }
            }
            i3 += 1;
        }
        proof {
            assert(rts.take(rts.len() as int) =~= rts);
        }

        // rebuild the metadata table likewise
        let ghost cdt = m0.class_data;
        let cdkeys = cm_keys(&self.class_data);
        let mut new_cd = cm_new();
        let mut i4: usize = 0;
        while i4 < cdkeys.len()
            invariant
                0 <= i4 <= cdkeys.len(),
                self.wf(),
                self@ == m0,
                ctx == m0.nodes,
                keys_distinct(ctx),
                keys_distinct(cdt),
                cdt == m0.class_data,
                marked@.map_values(|x: NodeId| x@) == marked_seq(ctx, ctx),
                cdkeys@.len() == cdt.len(),
                forall|j: int| 0 <= j < cdkeys@.len() ==> cdkeys@[j]@ == cdt[j].0,
                class_table(new_cd) == round_cd(ctx, cdt.take(i4 as int)),
            decreases cdkeys.len() - i4,
        {
            proof {
                self.lemma_view_parts();
                lemma_find_key_at(cdt, i4 as int);
                assert(cdt.take(i4 + 1).drop_last() =~= cdt.take(i4 as int));
                assert(cdt.take(i4 + 1).last() == cdt[i4 as int]);
            }
            let ck = &cdkeys[i4];
            let rem = class_removed(&self.nodes, &marked, ck);
            if !rem {
                let d = cd_value(&self.class_data, ck);
                proof {
                    assert(forall|jj: int|
                        0 <= jj < cdt.take(i4 as int).len() ==> #[trigger] cdt.take(
                            i4 as int,
                        )[jj].0 != cdt[i4 as int].0);
                    lemma_round_cd_key_not(ctx, cdt.take(i4 as int), cdt[i4 as int].0);
                    lemma_find_key(class_table(new_cd), cdt[i4 as int].0);
                }
                cm_insert(&mut new_cd, ck.dup(), d);
                proof {
                    assert(class_table(new_cd) =~= round_cd(ctx, cdt.take(i4 + 1)));
                }
            } else {
                proof {
                    assert(class_table(new_cd) =~= round_cd(ctx, cdt.take(i4 + 1)));
                }
            }
            i4 += 1;
        }
        proof {
            assert(cdt.take(cdt.len() as int) =~= cdt);
        }

        let count = marked.len();
        proof {
            lemma_round_nodes_distinct(ctx, ctx);
            lemma_round_cd_distinct(ctx, cdt);
        }
        self.replace_parts(new_nodes, new_roots, new_cd);
        proof {
            assert(self@ == inline_round(m0));
        }
        count
    }
}

/// The metadata value under this key, duplicated.
pub(crate) fn cd_value(m: &IndexMap<ClassId, ClassData>, k: &ClassId) -> (r: ClassData)
    requires
        has_key(class_table(*m), k@),
    ensures
        r@ == value_of(class_table(*m), k@),
{
    let d = cm_get(m, k).unwrap();
    d.dup()
}

/// Each round drops exactly the marked entries from the table.
pub proof fn lemma_round_len(ctx: Seq<(Seq<char>, NodeModel)>, tab: Seq<(Seq<char>, NodeModel)>)
    ensures
        round_nodes(ctx, tab).len() + marked_seq(ctx, tab).len() == tab.len(),
    decreases tab.len(),
{
    if tab.len() != 0 {
        lemma_round_len(ctx, tab.drop_last());
    }
}

/// When nothing is marked, no key is inlinable.
pub proof fn lemma_no_inlinable(ctx: Seq<(Seq<char>, NodeModel)>)
    requires
        marked_seq(ctx, ctx).len() == 0,
    ensures
        forall|i: int| 0 <= i < ctx.len() ==> !is_inlinable(ctx, #[trigger] ctx[i].0),
{
    assert forall|i: int| 0 <= i < ctx.len() implies !is_inlinable(ctx, #[trigger] ctx[i].0) by {
        if is_inlinable(ctx, ctx[i].0) {
            lemma_marked_contains(ctx, ctx, ctx[i].0);
            assert(marked_seq(ctx, ctx).contains(ctx[i].0));
            let j = choose|j: int|
                0 <= j < marked_seq(ctx, ctx).len() && marked_seq(ctx, ctx)[j] == ctx[i].0;
        }
    }
}

/// When no key is inlinable, no child position is inlined.
pub proof fn lemma_inl_count_zero(ctx: Seq<(Seq<char>, NodeModel)>, children: Seq<Seq<char>>)
    requires
        forall|i: int| 0 <= i < ctx.len() ==> !is_inlinable(ctx, #[trigger] ctx[i].0),
    ensures
        inl_count(ctx, children) == 0,
    decreases children.len(),
{
    if children.len() != 0 {
        lemma_inl_count_zero(ctx, children.drop_last());
        if is_inlinable(ctx, children.last()) {
            lemma_find_key(ctx, children.last());
            assert(ctx[find_key(ctx, children.last())].0 == children.last());
            assert(false);
        }
    }
}

/// A round that marks nothing changes nothing.
pub proof fn lemma_round_identity(m: StoreModel)
    requires
        inline_count(m) == 0,
    ensures
        inline_round(m) == m,
{
    lemma_no_inlinable(m.nodes);
    lemma_round_nodes_identity(m.nodes, m.nodes);
    lemma_round_roots_identity(m.nodes, m.roots);
    lemma_round_cd_identity(m.nodes, m.class_data);
}

pub proof fn lemma_round_nodes_identity(
    ctx: Seq<(Seq<char>, NodeModel)>,
    tab: Seq<(Seq<char>, NodeModel)>,
)
    requires
        forall|i: int| 0 <= i < ctx.len() ==> !is_inlinable(ctx, #[trigger] ctx[i].0),
    ensures
        round_nodes(ctx, tab) == tab,
    decreases tab.len(),
{
    if tab.len() != 0 {
        lemma_round_nodes_identity(ctx, tab.drop_last());
        let k = tab.last().0;
        if is_inlinable(ctx, k) {
            lemma_find_key(ctx, k);
            assert(ctx[find_key(ctx, k)].0 == k);
            assert(false);
        }
        lemma_inl_count_zero(ctx, tab.last().1.children);
        assert(transform_node(ctx, tab.last().1) == tab.last().1);
        assert(round_nodes(ctx, tab) =~= tab);
    }
}

pub proof fn lemma_round_roots_identity(ctx: Seq<(Seq<char>, NodeModel)>, roots: Seq<Seq<char>>)
    requires
        forall|i: int| 0 <= i < ctx.len() ==> !is_inlinable(ctx, #[trigger] ctx[i].0),
    ensures
        round_roots(ctx, roots) == roots,
    decreases roots.len(),
{
    if roots.len() != 0 {
        lemma_round_roots_identity(ctx, roots.drop_last());
        assert(!removed_class(ctx, roots.last()));
        assert(round_roots(ctx, roots) =~= roots);
    }
}

pub proof fn lemma_round_cd_identity(
    ctx: Seq<(Seq<char>, NodeModel)>,
    cd: Seq<(Seq<char>, Option<Seq<char>>)>,
)
    requires
        forall|i: int| 0 <= i < ctx.len() ==> !is_inlinable(ctx, #[trigger] ctx[i].0),
    ensures
        round_cd(ctx, cd) == cd,
    decreases cd.len(),
{
    if cd.len() != 0 {
        lemma_round_cd_identity(ctx, cd.drop_last());
        assert(!removed_class(ctx, cd.last().0));
        assert(round_cd(ctx, cd) =~= cd);
    }
}

/// A round that marks something strictly shrinks the node table.
pub proof fn lemma_round_shrinks(m: StoreModel)
    requires
        inline_count(m) > 0,
    ensures
        inline_round(m).nodes.len() < m.nodes.len(),
{
    lemma_round_len(m.nodes, m.nodes);
}

/// Rounds applied until a round marks nothing.
pub open spec fn saturate_spec(m: StoreModel) -> StoreModel
    decreases m.nodes.len(),
{
    if inline_count(m) == 0 {
        m
    } else {
        proof {
            lemma_round_shrinks(m);
        }
        saturate_spec(inline_round(m))
    }
}

/// Viewing distributes over appending one label.
proof fn lemma_map_str_push(s: Seq<String>, v: String)
    ensures
        s.push(v).map_values(|a: String| a@) == s.map_values(|a: String| a@).push(v@),
{
    assert(s.push(v).map_values(|a: String| a@) =~= s.map_values(|a: String| a@).push(v@));
}

/// One more child position extends the argument list by one entry.
proof fn lemma_inline_args_push(ctx: Seq<(Seq<char>, NodeModel)>, s: Seq<Seq<char>>, c: Seq<char>)
    ensures
        inline_args(ctx, s.push(c)) == inline_args(ctx, s).push(
            if is_inlinable(ctx, c) {
                value_of(ctx, c).op
            } else {
                seq![placeholder_char()]
            },
        ),
{
    assert(inline_args(ctx, s.push(c)) =~= inline_args(ctx, s).push(
        if is_inlinable(ctx, c) {
            value_of(ctx, c).op
        } else {
            seq![placeholder_char()]
        },
    ));
}

impl EGraph {
    /// Inline leaves round after round until a round removes nothing.
    /// Terminates because every counted round strictly shrinks the node
    /// table; afterwards no inlinable leaf is left, so one more call of
    /// `inline_leaves` returns zero and changes nothing.
    pub fn saturate_inline_leaves(&mut self)
        requires
            old(self).wf(),
        ensures
            final(self).wf(),
            final(self)@ == saturate_spec(old(self)@),
            inline_count(final(self)@) == 0,
    {
        let ghost m0 = old(self)@;
        let ghost prev = self@;
        let mut n = self.inline_leaves();
        proof {
            if inline_count(prev) == 0 {
                lemma_round_identity(prev);
            }
        }
        while n > 0
            invariant
                self.wf(),
                saturate_spec(self@) == saturate_spec(m0),
                n == 0 ==> inline_count(self@) == 0,
            decreases self@.nodes.len() + (if n > 0 {
                1int
            } else {
                0int
            }),
        {
            let ghost cur = self@;
            n = self.inline_leaves();
            proof {
                if inline_count(cur) == 0 {
                    lemma_round_identity(cur);
                } else {
                    lemma_round_shrinks(cur);
                }
            }
        }
        proof {
            assert(inline_count(self@) == 0);
            assert(saturate_spec(self@) == self@);
        }
    }
}

} // verus!
