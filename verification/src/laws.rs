use vstd::prelude::*;

use crate::inline::{
    add_cost, cost_clamp, count_in, inl_count, inline_count, inline_round, is_inlinable,
    lemma_add_cost_nonneg, lemma_marked_contains, lemma_marked_inlinable, lemma_round_identity,
    lemma_round_nodes_distinct, lemma_round_shrinks, marked_seq, refs_to, round_nodes,
    saturate_spec, surviving_children, transform_node,
};
use crate::model::{
    has_key, keys_distinct, lemma_find_key, lemma_find_key_at, value_of, StoreModel,
};
use crate::node::NodeModel;

verus! {

/// A node that is childless and that nothing refers to.
pub open spec fn isolated(m: StoreModel, k: Seq<char>) -> bool {
    &&& has_key(m.nodes, k)
    &&& value_of(m.nodes, k).children.len() == 0
    &&& refs_to(m.nodes, k) == 0
}

/// Saturation reaches a true fixpoint: after it no leaf is inlinable any
/// more, so one further round removes nothing and changes nothing.
pub proof fn lemma_saturate_idempotent(m: StoreModel)
    ensures
        inline_count(saturate_spec(m)) == 0,
        inline_round(saturate_spec(m)) == saturate_spec(m),
    decreases m.nodes.len(),
{
    if inline_count(m) == 0 {
        lemma_round_identity(m);
    } else {
        lemma_round_shrinks(m);
        lemma_saturate_idempotent(inline_round(m));
    }
}

/// Surviving child lists hold no more occurrences of `k` than before.
pub proof fn lemma_count_in_surviving(
    ctx: Seq<(Seq<char>, NodeModel)>,
    children: Seq<Seq<char>>,
    k: Seq<char>,
)
    ensures
        count_in(surviving_children(ctx, children), k) <= count_in(children, k),
    decreases children.len(),
{
    if children.len() != 0 {
        lemma_count_in_surviving(ctx, children.drop_last(), k);
        let pre = surviving_children(ctx, children.drop_last());
        if !is_inlinable(ctx, children.last()) {
            assert(pre.push(children.last()).drop_last() =~= pre);
            assert(pre.push(children.last()).last() == children.last());
        }
    }
}

/// A round never adds references to a node.
pub proof fn lemma_refs_round(
    ctx: Seq<(Seq<char>, NodeModel)>,
    tab: Seq<(Seq<char>, NodeModel)>,
    k: Seq<char>,
)
    ensures
        refs_to(round_nodes(ctx, tab), k) <= refs_to(tab, k),
    decreases tab.len(),
{
    if tab.len() != 0 {
        lemma_refs_round(ctx, tab.drop_last(), k);
        let pre = round_nodes(ctx, tab.drop_last());
        if !is_inlinable(ctx, tab.last().0) {
            let t = transform_node(ctx, tab.last().1);
            lemma_count_in_surviving(ctx, tab.last().1.children, k);
            assert(count_in(t.children, k) <= count_in(tab.last().1.children, k));
            let e = (tab.last().0, t);
            assert(pre.push(e).drop_last() =~= pre);
            assert(pre.push(e).last() == e);
        }
    }
}

/// A surviving entry keeps its place in the transformed table.
pub proof fn lemma_round_nodes_member(
    ctx: Seq<(Seq<char>, NodeModel)>,
    tab: Seq<(Seq<char>, NodeModel)>,
    i: int,
)
    requires
        0 <= i < tab.len(),
        !is_inlinable(ctx, tab[i].0),
    ensures
        exists|j: int|
            0 <= j < round_nodes(ctx, tab).len() && #[trigger] round_nodes(ctx, tab)[j] == (
            tab[i].0,
            transform_node(ctx, tab[i].1),
            ),
    decreases tab.len(),
{
    let rn = round_nodes(ctx, tab);
    let pre = round_nodes(ctx, tab.drop_last());
    if i == tab.len() - 1 {
        assert(rn[rn.len() - 1] == (tab[i].0, transform_node(ctx, tab[i].1)));
    } else {
        assert(tab.drop_last()[i] == tab[i]);
        lemma_round_nodes_member(ctx, tab.drop_last(), i);
        let j = choose|j: int|
            0 <= j < pre.len() && #[trigger] pre[j] == (
                tab[i].0,
                transform_node(ctx, tab[i].1),
            );
        assert(rn[j] == pre[j]);
    }
}

/// One round keeps an isolated node untouched and isolated.
pub proof fn lemma_isolated_round(m: StoreModel, k: Seq<char>)
    requires
        keys_distinct(m.nodes),
        isolated(m, k),
    ensures
        keys_distinct(inline_round(m).nodes),
        has_key(inline_round(m).nodes, k),
        value_of(inline_round(m).nodes, k) == value_of(m.nodes, k),
        isolated(inline_round(m), k),
{
    let ctx = m.nodes;
    lemma_round_nodes_distinct(ctx, ctx);
    lemma_find_key(ctx, k);
    let i = crate::model::find_key(ctx, k);
    assert(ctx[i].0 == k);
    lemma_find_key_at(ctx, i);
    assert(value_of(ctx, k) == ctx[i].1);
    assert(!is_inlinable(ctx, k));
    lemma_round_nodes_member(ctx, ctx, i);
    let rn = round_nodes(ctx, ctx);
    let j = choose|j: int|
        0 <= j < rn.len() && #[trigger] rn[j] == (ctx[i].0, transform_node(ctx, ctx[i].1));
    assert(ctx[i].1.children.len() == 0);
    assert(transform_node(ctx, ctx[i].1) == ctx[i].1);
    lemma_find_key_at(rn, j);
    assert(has_key(rn, k));
    assert(value_of(rn, k) == ctx[i].1);
    lemma_refs_round(ctx, ctx, k);
}

/// A childless node that nothing refers to is never deleted, however
/// many saturation rounds run, and comes out exactly as it went in.
pub proof fn lemma_isolated_saturate(m: StoreModel, k: Seq<char>)
    requires
        keys_distinct(m.nodes),
        isolated(m, k),
    ensures
        has_key(saturate_spec(m).nodes, k),
        value_of(saturate_spec(m).nodes, k) == value_of(m.nodes, k),
        isolated(saturate_spec(m), k),
    decreases m.nodes.len(),
{
    if inline_count(m) == 0 {
    } else {
        lemma_round_shrinks(m);
        lemma_isolated_round(m, k);
        lemma_isolated_saturate(inline_round(m), k);
    }
}

/// The summed weight of all nodes of the table.
pub open spec fn total_cost(tab: Seq<(Seq<char>, NodeModel)>) -> int
    decreases tab.len(),
{
    if tab.len() == 0 {
        0
    } else {
        total_cost(tab.drop_last()) + tab.last().1.cost
    }
}

/// The summed weight of the entries a round inlines away.
pub open spec fn marked_cost(
    ctx: Seq<(Seq<char>, NodeModel)>,
    tab: Seq<(Seq<char>, NodeModel)>,
) -> int
    decreases tab.len(),
{
    if tab.len() == 0 {
        0
    } else {
        marked_cost(ctx, tab.drop_last()) + (if is_inlinable(ctx, tab.last().0) {
            tab.last().1.cost as int
        } else {
            0
        })
    }
}

/// The summed weight a round adds into parents, over all entries.
pub open spec fn addsum(ctx: Seq<(Seq<char>, NodeModel)>, tab: Seq<(Seq<char>, NodeModel)>) -> int
    decreases tab.len(),
{
    if tab.len() == 0 {
        0
    } else {
        addsum(ctx, tab.drop_last()) + add_cost(ctx, tab.last().1.children)
    }
}

/// The weight of the node named `k`.
pub open spec fn cost_of(ctx: Seq<(Seq<char>, NodeModel)>, k: Seq<char>) -> int {
    value_of(ctx, k).cost as int
}

/// The weights of the listed nodes, each multiplied by how often the
/// table refers to it.
pub open spec fn wsum(
    ctx: Seq<(Seq<char>, NodeModel)>,
    ms: Seq<Seq<char>>,
    tab: Seq<(Seq<char>, NodeModel)>,
) -> int
    decreases ms.len(),
{
    if ms.len() == 0 {
        0
    } else {
        wsum(ctx, ms.drop_last(), tab) + cost_of(ctx, ms.last()) * refs_to(tab, ms.last())
    }
}

/// The weights of the listed nodes, each multiplied by how often the
/// child list holds it.
pub open spec fn wcount(
    ctx: Seq<(Seq<char>, NodeModel)>,
    ms: Seq<Seq<char>>,
    children: Seq<Seq<char>>,
) -> int
    decreases ms.len(),
{
    if ms.len() == 0 {
        0
    } else {
        wcount(ctx, ms.drop_last(), children) + cost_of(ctx, ms.last()) * count_in(
            children,
            ms.last(),
        )
    }
}

/// The plain sum of the listed nodes' weights.
pub open spec fn mlist_cost(ctx: Seq<(Seq<char>, NodeModel)>, ms: Seq<Seq<char>>) -> int
    decreases ms.len(),
{
    if ms.len() == 0 {
        0
    } else {
        mlist_cost(ctx, ms.drop_last()) + cost_of(ctx, ms.last())
    }
}

/// No parent's weight overflows when the round folds its leaves in.
pub open spec fn round_costs_fit(tab: Seq<(Seq<char>, NodeModel)>) -> bool {
    forall|i: int|
        0 <= i < tab.len() ==> #[trigger] tab[i].1.cost + add_cost(tab, tab[i].1.children)
            <= u64::MAX
}

/// With no inlined position, no weight is added.
proof fn lemma_add_cost_zero(ctx: Seq<(Seq<char>, NodeModel)>, children: Seq<Seq<char>>)
    requires
        inl_count(ctx, children) == 0,
    ensures
        add_cost(ctx, children) == 0,
    decreases children.len(),
{
    if children.len() != 0 {
        lemma_add_cost_zero(ctx, children.drop_last());
    }
}

/// The marked list repeats no id.
proof fn lemma_marked_distinct(ctx: Seq<(Seq<char>, NodeModel)>, tab: Seq<(Seq<char>, NodeModel)>)
    requires
        keys_distinct(tab),
    ensures
        forall|p: int, q: int|
            0 <= p < q < marked_seq(ctx, tab).len() ==> marked_seq(ctx, tab)[p] != marked_seq(
                ctx,
                tab,
            )[q],
    decreases tab.len(),
{
    if tab.len() != 0 {
        assert(forall|i: int| 0 <= i < tab.len() - 1 ==> #[trigger] tab.drop_last()[i] == tab[i]);
        lemma_marked_distinct(ctx, tab.drop_last());
        let pre = marked_seq(ctx, tab.drop_last());
        let ms = marked_seq(ctx, tab);
        if is_inlinable(ctx, tab.last().0) {
            assert forall|p: int, q: int| 0 <= p < q < ms.len() implies ms[p] != ms[q] by {
                if q == ms.len() - 1 {
                    assert(ms[q] == tab.last().0);
                    assert(ms[p] == pre[p]);
                    if pre[p] == tab.last().0 {
                        lemma_marked_contains(ctx, tab.drop_last(), pre[p]);
                        assert(pre.contains(pre[p]));
                        let i = choose|i: int|
                            0 <= i < tab.drop_last().len() && #[trigger] tab.drop_last()[i].0
                                == pre[p] && is_inlinable(ctx, pre[p]);
                        assert(tab[i].0 == tab[tab.len() - 1].0);
                        assert(false);
                    }
                }
            }
        }
    }
}

/// What one round makes of the total weight, entry by entry.
proof fn lemma_round_total(ctx: Seq<(Seq<char>, NodeModel)>, tab: Seq<(Seq<char>, NodeModel)>)
    requires
        forall|i: int|
            0 <= i < tab.len() && is_inlinable(ctx, #[trigger] tab[i].0)
                ==> tab[i].1.children.len() == 0,
        forall|i: int|
            0 <= i < tab.len() ==> #[trigger] tab[i].1.cost + add_cost(ctx, tab[i].1.children)
                <= u64::MAX,
    ensures
        total_cost(round_nodes(ctx, tab)) == total_cost(tab) - marked_cost(ctx, tab) + addsum(
            ctx,
            tab,
        ),
    decreases tab.len(),
{
    if tab.len() != 0 {
        assert(forall|i: int| 0 <= i < tab.len() - 1 ==> #[trigger] tab.drop_last()[i] == tab[i]);
        lemma_round_total(ctx, tab.drop_last());
        let e = tab.last();
        let pre = round_nodes(ctx, tab.drop_last());
        if is_inlinable(ctx, e.0) {
            assert(e.1.children.len() == 0);
            assert(tab[tab.len() - 1] == e);
            assert(e.1.children =~= Seq::<Seq<char>>::empty());
            assert(add_cost(ctx, e.1.children) == 0);
        } else {
            let t = transform_node(ctx, e.1);
            lemma_add_cost_nonneg(ctx, e.1.children);
            if inl_count(ctx, e.1.children) > 0 {
                assert(tab[tab.len() - 1] == e);
                assert(e.1.cost + add_cost(ctx, e.1.children) <= u64::MAX);
                assert(t.cost == cost_clamp(e.1.cost + add_cost(ctx, e.1.children)));
                assert(t.cost == e.1.cost + add_cost(ctx, e.1.children));
            } else {
                lemma_add_cost_zero(ctx, e.1.children);
                assert(t.cost == e.1.cost);
            }
            assert(pre.push((e.0, t)).drop_last() =~= pre);
            assert(pre.push((e.0, t)).last() == (e.0, t));
        }
    }
}

/// Appending one child position raises the weighted count by the weight
/// of that child when it is listed, else not at all.
proof fn lemma_wcount_step(
    ctx: Seq<(Seq<char>, NodeModel)>,
    ms: Seq<Seq<char>>,
    ch: Seq<Seq<char>>,
    c: Seq<char>,
)
    requires
        forall|p: int, q: int| 0 <= p < q < ms.len() ==> ms[p] != ms[q],
    ensures
        wcount(ctx, ms, ch.push(c)) == wcount(ctx, ms, ch) + (if ms.contains(c) {
            cost_of(ctx, c)
        } else {
            0
        }),
    decreases ms.len(),
{
    if ms.len() != 0 {
        let msd = ms.drop_last();
        assert(forall|i: int| 0 <= i < ms.len() - 1 ==> #[trigger] msd[i] == ms[i]);
        lemma_wcount_step(ctx, msd, ch, c);
        let m = ms.last();
        assert(ch.push(c).drop_last() =~= ch);
        assert(ch.push(c).last() == c);
        assert(count_in(ch.push(c), m) == count_in(ch, m) + (if m == c {
            1int
        } else {
            0int
        }));
        assert(cost_of(ctx, m) * (count_in(ch, m) + 1) == cost_of(ctx, m) * count_in(ch, m)
            + cost_of(ctx, m)) by (nonlinear_arith);
        if m == c {
            assert(ms.contains(c)) by {
                assert(ms[ms.len() - 1] == c);
            }
            if msd.contains(c) {
                let p = choose|p: int| 0 <= p < msd.len() && msd[p] == c;
                assert(ms[p] == c);
                assert(ms[ms.len() - 1] == c);
                assert(false);
            }
        } else {
            if ms.contains(c) {
                let p = choose|p: int| 0 <= p < ms.len() && ms[p] == c;
                assert(p < ms.len() - 1);
                assert(msd[p] == c);
                assert(msd.contains(c));
            } else {
                if msd.contains(c) {
                    let p = choose|p: int| 0 <= p < msd.len() && msd[p] == c;
                    assert(ms[p] == c);
                    assert(false);
                }
            }
        }
    }
}

/// The weight a child list adds equals the weighted count of the listed
/// nodes it holds, when the list is exactly the inlinable ids.
proof fn lemma_add_cost_wcount(
    ctx: Seq<(Seq<char>, NodeModel)>,
    ms: Seq<Seq<char>>,
    children: Seq<Seq<char>>,
)
    requires
        forall|p: int, q: int| 0 <= p < q < ms.len() ==> ms[p] != ms[q],
        forall|c: Seq<char>| #[trigger] is_inlinable(ctx, c) <==> ms.contains(c),
    ensures
        add_cost(ctx, children) == wcount(ctx, ms, children),
    decreases children.len(),
{
    if children.len() == 0 {
        lemma_wcount_empty(ctx, ms);
        assert(children =~= Seq::<Seq<char>>::empty());
    } else {
        let chd = children.drop_last();
        let c = children.last();
        lemma_add_cost_wcount(ctx, ms, chd);
        assert(chd.push(c) =~= children);
        lemma_wcount_step(ctx, ms, chd, c);
        if is_inlinable(ctx, c) {
            assert(ms.contains(c));
        } else {
            if ms.contains(c) {
                assert(is_inlinable(ctx, c));
                assert(false);
            }
        }
    }
}

/// A weighted count over no positions is nought.
proof fn lemma_wcount_empty(ctx: Seq<(Seq<char>, NodeModel)>, ms: Seq<Seq<char>>)
    ensures
        wcount(ctx, ms, Seq::<Seq<char>>::empty()) == 0,
    decreases ms.len(),
{
    if ms.len() != 0 {
        lemma_wcount_empty(ctx, ms.drop_last());
        let m = ms.last();
        let cnt = count_in(Seq::<Seq<char>>::empty(), m);
        assert(cnt == 0);
        assert(cost_of(ctx, m) * cnt == 0) by (nonlinear_arith)
            requires
                cnt == 0,
        ;
    }
}

/// References over no entries are nought, weighted or not.
proof fn lemma_wsum_empty(ctx: Seq<(Seq<char>, NodeModel)>, ms: Seq<Seq<char>>)
    ensures
        wsum(ctx, ms, Seq::<(Seq<char>, NodeModel)>::empty()) == 0,
    decreases ms.len(),
{
    if ms.len() != 0 {
        lemma_wsum_empty(ctx, ms.drop_last());
        let m = ms.last();
        let r = refs_to(Seq::<(Seq<char>, NodeModel)>::empty(), m);
        assert(r == 0);
        assert(cost_of(ctx, m) * r == 0) by (nonlinear_arith)
            requires
                r == 0,
        ;
    }
}

/// One more table entry raises the weighted reference sum by the
/// weighted count of its child list.
proof fn lemma_wsum_step(
    ctx: Seq<(Seq<char>, NodeModel)>,
    ms: Seq<Seq<char>>,
    tab: Seq<(Seq<char>, NodeModel)>,
)
    requires
        tab.len() > 0,
    ensures
        wsum(ctx, ms, tab) == wsum(ctx, ms, tab.drop_last()) + wcount(
            ctx,
            ms,
            tab.last().1.children,
        ),
    decreases ms.len(),
{
    if ms.len() != 0 {
        lemma_wsum_step(ctx, ms.drop_last(), tab);
        let m = ms.last();
        assert(refs_to(tab, m) == refs_to(tab.drop_last(), m) + count_in(
            tab.last().1.children,
            m,
        ));
        assert(cost_of(ctx, m) * (refs_to(tab.drop_last(), m) + count_in(
            tab.last().1.children,
            m,
        )) == cost_of(ctx, m) * refs_to(tab.drop_last(), m) + cost_of(ctx, m) * count_in(
            tab.last().1.children,
            m,
        )) by (nonlinear_arith);
    }
}

/// Added weights over the whole table equal the weighted reference sum.
proof fn lemma_addsum_wsum(
    ctx: Seq<(Seq<char>, NodeModel)>,
    ms: Seq<Seq<char>>,
    tab: Seq<(Seq<char>, NodeModel)>,
)
    requires
        forall|p: int, q: int| 0 <= p < q < ms.len() ==> ms[p] != ms[q],
        forall|c: Seq<char>| #[trigger] is_inlinable(ctx, c) <==> ms.contains(c),
    ensures
        addsum(ctx, tab) == wsum(ctx, ms, tab),
    decreases tab.len(),
{
    if tab.len() == 0 {
        lemma_wsum_empty(ctx, ms);
        assert(tab =~= Seq::<(Seq<char>, NodeModel)>::empty());
    } else {
        lemma_addsum_wsum(ctx, ms, tab.drop_last());
        lemma_add_cost_wcount(ctx, ms, tab.last().1.children);
        lemma_wsum_step(ctx, ms, tab);
    }
}

/// When every listed node is referred to exactly once, the weighted
/// reference sum is the plain sum of the weights.
proof fn lemma_wsum_unit(
    ctx: Seq<(Seq<char>, NodeModel)>,
    ms: Seq<Seq<char>>,
    tab: Seq<(Seq<char>, NodeModel)>,
)
    requires
        forall|j: int| 0 <= j < ms.len() ==> refs_to(tab, #[trigger] ms[j]) == 1,
    ensures
        wsum(ctx, ms, tab) == mlist_cost(ctx, ms),
    decreases ms.len(),
{
    if ms.len() != 0 {
        assert(forall|i: int| 0 <= i < ms.len() - 1 ==> #[trigger] ms.drop_last()[i] == ms[i]);
        lemma_wsum_unit(ctx, ms.drop_last(), tab);
        assert(refs_to(tab, ms[ms.len() - 1]) == 1);
        let m = ms.last();
        let r = refs_to(tab, m);
        assert(r == 1);
        assert(cost_of(ctx, m) * r == cost_of(ctx, m)) by (nonlinear_arith)
            requires
                r == 1,
        ;
    }
}

/// The plain sum over the marked list is the summed weight of the
/// marked entries.
proof fn lemma_mlist_marked(ctx: Seq<(Seq<char>, NodeModel)>, tab: Seq<(Seq<char>, NodeModel)>)
    requires
        forall|i: int| 0 <= i < tab.len() ==> cost_of(ctx, #[trigger] tab[i].0) == tab[i].1.cost,
    ensures
        mlist_cost(ctx, marked_seq(ctx, tab)) == marked_cost(ctx, tab),
    decreases tab.len(),
{
    if tab.len() != 0 {
        assert(forall|i: int| 0 <= i < tab.len() - 1 ==> #[trigger] tab.drop_last()[i] == tab[i]);
        lemma_mlist_marked(ctx, tab.drop_last());
        let pre = marked_seq(ctx, tab.drop_last());
        if is_inlinable(ctx, tab.last().0) {
            assert(pre.push(tab.last().0).drop_last() =~= pre);
            assert(pre.push(tab.last().0).last() == tab.last().0);
            assert(tab[tab.len() - 1] == tab.last());
            assert(cost_of(ctx, tab.last().0) == tab.last().1.cost);
        }
    }
}

/// One inlining round conserves the total weight: the weight of each
/// inlined leaf moves into the one position that referred to it. This
/// holds whenever every inlinable leaf is referred to exactly once and
/// no parent's new weight passes the largest representable weight; a
/// leaf referred to from two positions is folded into both, and a sum
/// past the largest weight saturates, so neither is covered.
pub proof fn lemma_cost_conservation(m: StoreModel)
    requires
        keys_distinct(m.nodes),
        forall|k: Seq<char>| #[trigger] is_inlinable(m.nodes, k) ==> refs_to(m.nodes, k) == 1,
        round_costs_fit(m.nodes),
    ensures
        total_cost(inline_round(m).nodes) == total_cost(m.nodes),
{
    let ctx = m.nodes;
    let ms = marked_seq(ctx, ctx);
    assert forall|i: int| 0 <= i < ctx.len() implies cost_of(ctx, #[trigger] ctx[i].0)
        == ctx[i].1.cost by {
        lemma_find_key_at(ctx, i);
    }
    assert forall|i: int|
        0 <= i < ctx.len() && is_inlinable(ctx, #[trigger] ctx[i].0) implies ctx[i].1.children.len()
        == 0 by {
        lemma_find_key_at(ctx, i);
    }
    assert forall|c: Seq<char>| #[trigger] is_inlinable(ctx, c) <==> ms.contains(c) by {
        lemma_marked_contains(ctx, ctx, c);
        if is_inlinable(ctx, c) {
            lemma_find_key(ctx, c);
            let f = crate::model::find_key(ctx, c);
            assert(ctx[f].0 == c);
        }
        if ms.contains(c) {
            let i = choose|i: int|
                0 <= i < ctx.len() && #[trigger] ctx[i].0 == c && is_inlinable(ctx, c);
        }
    }
    lemma_marked_distinct(ctx, ctx);
    lemma_round_total(ctx, ctx);
    lemma_addsum_wsum(ctx, ms, ctx);
    assert forall|j: int| 0 <= j < ms.len() implies refs_to(ctx, #[trigger] ms[j]) == 1 by {
        lemma_marked_inlinable(ctx, ctx, j);
    }
    lemma_wsum_unit(ctx, ms, ctx);
    lemma_mlist_marked(ctx, ctx);
}

} // verus!
