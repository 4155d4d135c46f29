use vstd::prelude::*;

use crate::ids::{ClassId, NodeId};
use crate::model::{
    find_key, has_key, insert_entry, keys_distinct, lemma_find_key, lemma_find_key_at,
    lemma_insert_entry_len, lemma_insert_entry_props, value_of, StoreModel,
};
use crate::node::{Class, ClassData, Node, NodeModel};
use crate::store::EGraph;
use crate::strutil::{dec_digits, dec_spec};
use vstd::string::StringExecFns;
use crate::tables::{nm_keys, node_table};
use crate::view::{class_ids, contains_nid, group_spec, lemma_class_ids_contains, members_of};

verus! {

/// Every child position names a node that the table holds.
pub open spec fn children_closed(tab: Seq<(Seq<char>, NodeModel)>) -> bool {
    forall|i: int, j: int|
        0 <= i < tab.len() && 0 <= j < tab[i].1.children.len() ==> has_key(
            tab,
            #[trigger] tab[i].1.children[j],
        )
}

/// Two distinct marked nodes share one owning class: caller misuse that
/// aborts the split.
pub open spec fn split_conflict(tab: Seq<(Seq<char>, NodeModel)>, mk: Seq<Seq<char>>) -> bool {
    exists|i: int, j: int|
        0 <= i < j < tab.len() && #[trigger] tab[i].1.eclass == #[trigger] tab[j].1.eclass
            && mk.contains(tab[i].0) && mk.contains(tab[j].0)
}

/// The diagnostic of an aborted split: the offending class and two
/// distinct marked nodes it holds.
pub struct SplitConflict {
    pub class: ClassId,
    pub first: NodeId,
    pub second: NodeId,
}

/// How many of the member positions name a marked node.
pub open spec fn count_marked(mk: Seq<Seq<char>>, members: Seq<Seq<char>>) -> nat
    decreases members.len(),
{
    if members.len() == 0 {
        0
    } else {
        count_marked(mk, members.drop_last()) + (if mk.contains(members.last()) {
            1nat
        } else {
            0nat
        })
    }
}

pub proof fn lemma_count_marked_one(mk: Seq<Seq<char>>, members: Seq<Seq<char>>, p: int)
    requires
        0 <= p < members.len(),
        mk.contains(members[p]),
    ensures
        count_marked(mk, members) >= 1,
    decreases members.len(),
{
    if p < members.len() - 1 {
        assert(members.drop_last()[p] == members[p]);
        lemma_count_marked_one(mk, members.drop_last(), p);
    }
}

pub proof fn lemma_count_marked_two(mk: Seq<Seq<char>>, members: Seq<Seq<char>>, p1: int, p2: int)
    requires
        0 <= p1 < p2 < members.len(),
        mk.contains(members[p1]),
        mk.contains(members[p2]),
    ensures
        count_marked(mk, members) >= 2,
    decreases members.len(),
{
    if p2 < members.len() - 1 {
        assert(members.drop_last()[p1] == members[p1]);
        assert(members.drop_last()[p2] == members[p2]);
        lemma_count_marked_two(mk, members.drop_last(), p1, p2);
    } else {
        assert(members.drop_last()[p1] == members[p1]);
        lemma_count_marked_one(mk, members.drop_last(), p1);
        assert(members.last() == members[p2]);
    }
}

/// A member of a class's view is exactly an entry owned by that class.
pub proof fn lemma_members_contains(tab: Seq<(Seq<char>, NodeModel)>, c: Seq<char>, k: Seq<char>)
    ensures
        members_of(tab, c).contains(k) <==> exists|i: int|
            0 <= i < tab.len() && #[trigger] tab[i].0 == k && tab[i].1.eclass == c,
    decreases tab.len(),
{
    if tab.len() != 0 {
        lemma_members_contains(tab.drop_last(), c, k);
        let pre = members_of(tab.drop_last(), c);
        if members_of(tab, c).contains(k) {
            let p = choose|p: int|
                0 <= p < members_of(tab, c).len() && members_of(tab, c)[p] == k;
            if p < pre.len() {
                assert(pre[p] == k);
                assert(pre.contains(k));
                let i = choose|i: int|
                    0 <= i < tab.drop_last().len() && #[trigger] tab.drop_last()[i].0 == k
                        && tab.drop_last()[i].1.eclass == c;
                assert(tab[i].0 == k && tab[i].1.eclass == c);
            } else {
                assert(members_of(tab, c)[p] == tab.last().0);
                assert(tab[tab.len() - 1].0 == k && tab[tab.len() - 1].1.eclass == c);
            }
        }
        if exists|i: int| 0 <= i < tab.len() && #[trigger] tab[i].0 == k && tab[i].1.eclass == c {
            let i = choose|i: int|
                0 <= i < tab.len() && #[trigger] tab[i].0 == k && tab[i].1.eclass == c;
            if i < tab.len() - 1 {
                assert(tab.drop_last()[i].0 == k && tab.drop_last()[i].1.eclass == c);
                assert(pre.contains(k));
                let p = choose|p: int| 0 <= p < pre.len() && pre[p] == k;
                assert(members_of(tab, c)[p] == k);
            } else {
                assert(tab.last().1.eclass == c);
                assert(members_of(tab, c).last() == k);
            }
        }
    }
}

/// With distinct table keys, a class's member list has no repeats.
pub proof fn lemma_members_distinct(tab: Seq<(Seq<char>, NodeModel)>, c: Seq<char>)
    requires
        keys_distinct(tab),
    ensures
        forall|p1: int, p2: int|
            0 <= p1 < p2 < members_of(tab, c).len() ==> members_of(tab, c)[p1] != members_of(
                tab,
                c,
            )[p2],
    decreases tab.len(),
{
    if tab.len() != 0 {
        assert(forall|i: int| 0 <= i < tab.len() - 1 ==> #[trigger] tab.drop_last()[i] == tab[i]);
        lemma_members_distinct(tab.drop_last(), c);
        let pre = members_of(tab.drop_last(), c);
        let ms = members_of(tab, c);
        if tab.last().1.eclass == c {
            assert forall|p1: int, p2: int| 0 <= p1 < p2 < ms.len() implies ms[p1] != ms[p2] by {
                if p2 < pre.len() {
                } else {
                    assert(ms[p2] == tab.last().0);
                    assert(ms[p1] == pre[p1]);
                    if pre[p1] == tab.last().0 {
                        lemma_members_contains(tab.drop_last(), c, pre[p1]);
                        assert(pre.contains(pre[p1]));
                        let i = choose|i: int|
                            0 <= i < tab.drop_last().len() && #[trigger] tab.drop_last()[i].0
                                == pre[p1] && tab.drop_last()[i].1.eclass == c;
                        assert(tab[i].0 == tab.last().0);
                        assert(tab[i].0 == tab[tab.len() - 1].0);
                        assert(false);
                    }
                }
            }
        }
    }
}

/// Binding a key whose node's children are all present keeps the table closed.
pub proof fn lemma_insert_entry_closed(tab: Seq<(Seq<char>, NodeModel)>, k: Seq<char>, v: NodeModel)
    requires
        children_closed(tab),
        forall|j: int| 0 <= j < v.children.len() ==> has_key(tab, #[trigger] v.children[j]),
    ensures
        children_closed(insert_entry(tab, k, v)),
{
    let t = insert_entry(tab, k, v);
    lemma_find_key(tab, k);
    assert forall|i: int, j: int|
        0 <= i < t.len() && 0 <= j < t[i].1.children.len() implies has_key(
        t,
        #[trigger] t[i].1.children[j],
    ) by {
        if has_key(tab, k) {
            let f = find_key(tab, k);
            if i == f {
                assert(t[i].1 == v);
                lemma_insert_entry_props(tab, k, v, v.children[j]);
            } else {
                assert(t[i] == tab[i]);
                assert(has_key(tab, tab[i].1.children[j]));
                lemma_insert_entry_props(tab, k, v, tab[i].1.children[j]);
            }
        } else {
            if i == tab.len() {
                assert(t[i].1 == v);
                lemma_insert_entry_props(tab, k, v, v.children[j]);
            } else {
                assert(t[i] == tab[i]);
                assert(has_key(tab, tab[i].1.children[j]));
                lemma_insert_entry_props(tab, k, v, tab[i].1.children[j]);
            }
        }
    }
}

/// The running state of one splitting round: the node table, the
/// metadata table, and whether anything has moved or been redirected.
pub ghost struct SplitState {
    pub nodes: Seq<(Seq<char>, NodeModel)>,
    pub class_data: Seq<(Seq<char>, Option<Seq<char>>)>,
    pub changed: bool,
}

/// The position of the first marked member, or -1 when none is marked.
pub open spec fn first_marked(mk: Seq<Seq<char>>, ms: Seq<Seq<char>>) -> int
    decreases ms.len(),
{
    if ms.len() == 0 {
        -1
    } else if mk.contains(ms[0]) {
        0
    } else {
        let r = first_marked(mk, ms.subrange(1, ms.len() as int));
        if r < 0 {
            -1
        } else {
            r + 1
        }
    }
}

pub proof fn lemma_first_marked(mk: Seq<Seq<char>>, ms: Seq<Seq<char>>)
    ensures
        -1 <= first_marked(mk, ms) < ms.len(),
        first_marked(mk, ms) == -1 ==> forall|j: int| 0 <= j < ms.len() ==> !mk.contains(ms[j]),
        first_marked(mk, ms) >= 0 ==> mk.contains(ms[first_marked(mk, ms)]) && forall|j: int|
            0 <= j < first_marked(mk, ms) ==> !mk.contains(ms[j]),
    decreases ms.len(),
{
    if ms.len() != 0 && !mk.contains(ms[0]) {
        let t = ms.subrange(1, ms.len() as int);
        lemma_first_marked(mk, t);
        assert forall|j: int| 1 <= j < ms.len() implies t[j - 1] == ms[j] by {}
        if first_marked(mk, ms) == -1 {
            assert forall|j: int| 0 <= j < ms.len() implies !mk.contains(ms[j]) by {
                if j >= 1 {
                    assert(t[j - 1] == ms[j]);
                }
            }
        } else {
            let f = first_marked(mk, ms);
            assert(ms[f] == t[f - 1]);
            assert forall|j: int| 0 <= j < f implies !mk.contains(ms[j]) by {
                if j >= 1 {
                    assert(t[j - 1] == ms[j]);
                }
            }
        }
    }
}

/// The unmarked members, in member order.
pub open spec fn others_of(mk: Seq<Seq<char>>, ms: Seq<Seq<char>>) -> Seq<Seq<char>>
    decreases ms.len(),
{
    if ms.len() == 0 {
        Seq::empty()
    } else {
        let pre = others_of(mk, ms.drop_last());
        if mk.contains(ms.last()) {
            pre
        } else {
            pre.push(ms.last())
        }
    }
}

/// A node value with its owning class replaced.
pub open spec fn with_eclass(n: NodeModel, c: Seq<char>) -> NodeModel {
    NodeModel { op: n.op, children: n.children, eclass: c, cost: n.cost }
}

/// Metadata binding, applied only when the split class had metadata.
pub open spec fn put_cd(
    cd: Seq<(Seq<char>, Option<Seq<char>>)>,
    cdata: Option<Option<Seq<char>>>,
    k: Seq<char>,
) -> Seq<(Seq<char>, Option<Seq<char>>)> {
    match cdata {
        Some(d) => insert_entry(cd, k, d),
        None => cd,
    }
}

/// What moving the alternatives after the first does to the tables:
/// for each of `others[1..count]` in order, a fresh class id is derived
/// from the counter and the marked node's id, the class metadata is
/// copied there, the alternative moves into the fresh class, and a copy
/// of the marked node joins it.
pub open spec fn move_alts(
    nodes: Seq<(Seq<char>, NodeModel)>,
    cd: Seq<(Seq<char>, Option<Seq<char>>)>,
    others: Seq<Seq<char>>,
    count: int,
    uid: Seq<char>,
    uval: NodeModel,
    cdata: Option<Option<Seq<char>>>,
) -> (Seq<(Seq<char>, NodeModel)>, Seq<(Seq<char>, Option<Seq<char>>)>)
    decreases count,
{
    if count <= 1 {
        (nodes, cd)
    } else {
        let (n1, c1) = move_alts(nodes, cd, others, count - 1, uid, uval, cdata);
        let oi = count - 1;
        let sid = crate::split::split_id_spec((oi - 1) as nat, uid);
        let c2 = put_cd(c1, cdata, sid);
        let on = value_of(n1, others[oi]);
        let n2 = insert_entry(n1, others[oi], with_eclass(on, sid));
        let n3 = insert_entry(n2, sid, with_eclass(uval, sid));
        (n3, c2)
    }
}

/// The owning class, at round start, of the child at one position.
pub open spec fn child_class0(ctx0: Seq<(Seq<char>, NodeModel)>, p: int, b: int) -> Seq<char> {
    value_of(ctx0, ctx0[p].1.children[b]).eclass
}

/// Redirect one recorded (node, position) reference to the fresh copy,
/// when the position still exists on the node's current value.
pub open spec fn retarget_one(
    nodes: Seq<(Seq<char>, NodeModel)>,
    key_p: Seq<char>,
    b: int,
    sid2: Seq<char>,
) -> (Seq<(Seq<char>, NodeModel)>, bool) {
    let pn = value_of(nodes, key_p);
    if b < pn.children.len() {
        (
            insert_entry(
                nodes,
                key_p,
                NodeModel {
                    op: pn.op,
                    children: pn.children.update(b, sid2),
                    eclass: pn.eclass,
                    cost: pn.cost,
                },
            ),
            true,
        )
    } else {
        (nodes, false)
    }
}

/// Redirect the references recorded at the first `bcnt` child positions
/// of the round-start node at index `p`.
pub open spec fn retarget_positions(
    nodes: Seq<(Seq<char>, NodeModel)>,
    ctx0: Seq<(Seq<char>, NodeModel)>,
    p: int,
    bcnt: int,
    cid: Seq<char>,
    sid2: Seq<char>,
) -> (Seq<(Seq<char>, NodeModel)>, bool)
    decreases bcnt,
{
    if bcnt <= 0 {
        (nodes, false)
    } else {
        let (pre, ch) = retarget_positions(nodes, ctx0, p, bcnt - 1, cid, sid2);
        let b = bcnt - 1;
        if child_class0(ctx0, p, b) == cid {
            let (nn, ch2) = retarget_one(pre, ctx0[p].0, b, sid2);
            (nn, ch || ch2)
        } else {
            (pre, ch)
        }
    }
}

/// Redirect the references recorded against class `cid` at the first
/// `pcnt` round-start nodes.
pub open spec fn retarget_all(
    nodes: Seq<(Seq<char>, NodeModel)>,
    ctx0: Seq<(Seq<char>, NodeModel)>,
    pcnt: int,
    cid: Seq<char>,
    sid2: Seq<char>,
) -> (Seq<(Seq<char>, NodeModel)>, bool)
    decreases pcnt,
{
    if pcnt <= 0 {
        (nodes, false)
    } else {
        let (pre, ch) = retarget_all(nodes, ctx0, pcnt - 1, cid, sid2);
        let p = pcnt - 1;
        let (nn, ch2) = retarget_positions(
            pre,
            ctx0,
            p,
            ctx0[p].1.children.len() as int,
            cid,
            sid2,
        );
        (nn, ch || ch2)
    }
}

/// What the round does for one class of the round-start grouping: with
/// no marked member or no alternative the class is skipped; otherwise
/// every alternative after the first moves to a fresh class holding a
/// copy of the marked node and of the metadata, one further fresh class
/// gets a copy of the marked node alone, and every reference recorded
/// against the class is redirected to that copy.
pub open spec fn split_class_step(
    st: SplitState,
    ctx0: Seq<(Seq<char>, NodeModel)>,
    cid: Seq<char>,
    mk: Seq<Seq<char>>,
) -> SplitState {
    let ms = members_of(ctx0, cid);
    let fm = first_marked(mk, ms);
    let others = others_of(mk, ms);
    if fm < 0 || others.len() == 0 {
        st
    } else {
        let uid = ms[fm];
        let uval = value_of(st.nodes, uid);
        let cdata = if has_key(st.class_data, cid) {
            Some(value_of(st.class_data, cid))
        } else {
            None
        };
        let (n1, c1) = move_alts(
            st.nodes,
            st.class_data,
            others,
            others.len() as int,
            uid,
            uval,
            cdata,
        );
        let sid2 = crate::split::split_id_spec((others.len() - 1) as nat, uid);
        let c2 = put_cd(c1, cdata, sid2);
        let n2 = insert_entry(n1, sid2, with_eclass(uval, sid2));
        let (n3, fired) = retarget_all(n2, ctx0, ctx0.len() as int, cid, sid2);
        SplitState {
            nodes: n3,
            class_data: c2,
            changed: st.changed || others.len() >= 2 || fired,
        }
    }
}

/// The round applied to the first `ci` classes of the round-start
/// grouping, in grouping order.
pub open spec fn split_round_fold(
    st: SplitState,
    ctx0: Seq<(Seq<char>, NodeModel)>,
    ci: int,
    mk: Seq<Seq<char>>,
) -> SplitState
    decreases ci,
{
    if ci <= 0 {
        st
    } else {
        split_class_step(
            split_round_fold(st, ctx0, ci - 1, mk),
            ctx0,
            class_ids(ctx0)[ci - 1],
            mk,
        )
    }
}

/// What one conflict-free splitting round makes of a whole store.
pub open spec fn split_round_spec(m: StoreModel, mk: Seq<Seq<char>>) -> SplitState {
    split_round_fold(
        SplitState { nodes: m.nodes, class_data: m.class_data, changed: false },
        m.nodes,
        class_ids(m.nodes).len() as int,
        mk,
    )
}

/// One call of the predicate on this (id, node) entry can return `m`.
pub open spec fn decided<F: Fn(&NodeId, &Node) -> bool>(
    f: F,
    key: Seq<char>,
    val: NodeModel,
    m: bool,
) -> bool {
    exists|id: &NodeId, n: &Node|
        id@ == key && n@ == val && #[trigger] call_ensures(f, (id, n), m)
}

/// The marked set `mkv` is one the predicate can produce on this table:
/// for every entry, one call of the predicate on that entry can return
/// exactly the entry's membership in `mkv`.
pub open spec fn marked_all<F: Fn(&NodeId, &Node) -> bool>(
    f: F,
    tab: Seq<(Seq<char>, NodeModel)>,
    mkv: Seq<Seq<char>>,
) -> bool {
    forall|i: int|
        0 <= i < tab.len() ==> decided(f, (#[trigger] tab[i]).0, tab[i].1, mkv.contains(tab[i].0))
}

pub proof fn lemma_contains_push(s: Seq<Seq<char>>, v: Seq<char>, x: Seq<char>)
    ensures
        s.push(v).contains(x) <==> (s.contains(x) || x == v),
{
    if s.push(v).contains(x) {
        let j = choose|j: int| 0 <= j < s.push(v).len() && s.push(v)[j] == x;
        if j < s.len() {
            assert(s[j] == x);
        }
    }
    if s.contains(x) {
        let j = choose|j: int| 0 <= j < s.len() && s[j] == x;
        assert(s.push(v)[j] == x);
    }
    if x == v {
        assert(s.push(v)[s.len() as int] == x);
    }
}

/// In a closed table, every child of a held node is itself held.
pub proof fn lemma_closed_value(tab: Seq<(Seq<char>, NodeModel)>, k: Seq<char>)
    requires
        children_closed(tab),
        has_key(tab, k),
    ensures
        forall|j: int|
            0 <= j < value_of(tab, k).children.len() ==> has_key(
                tab,
                #[trigger] value_of(tab, k).children[j],
            ),
{
    lemma_find_key(tab, k);
    let f = find_key(tab, k);
    assert(value_of(tab, k) == tab[f].1);
}

/// Replace the entry at one position.
pub(crate) fn nid_vec_set(v: &mut Vec<NodeId>, i: usize, val: NodeId)
    requires
        i < old(v)@.len(),
    ensures
        final(v)@ == old(v)@.update(i as int, val),
{
    v.remove(i);
    v.insert(i, val);
    proof {
        assert(final(v)@ =~= old(v)@.update(i as int, val));
    }
}

/// The id of a class or node the split allocates, derived
/// deterministically from the running counter and the marked node's id.
pub open spec fn split_id_spec(offset: nat, uid: Seq<char>) -> Seq<char> {
    seq!['s', 'p', 'l', 'i', 't', '-'] + dec_spec(offset) + seq!['-'] + uid
}

fn split_id(offset: usize, uid: &NodeId) -> (r: String)
    ensures
        r@ == split_id_spec(offset as nat, uid@),
{
    let mut s = "split-".to_owned();
    let d = dec_digits(offset);
    s.append(d.as_str());
    s.append("-");
    s.append(uid.as_str());
    proof {
        reveal_strlit("split-");
        reveal_strlit("-");
        assert("split-"@ =~= seq!['s', 'p', 'l', 'i', 't', '-']);
        assert("-"@ =~= seq!['-']);
        assert(s@ =~= split_id_spec(offset as nat, uid@));
    }
    s
}

/// A member key of the grouping is held by the table and owned by that class.
pub proof fn lemma_member_has_key(tab: Seq<(Seq<char>, NodeModel)>, c: Seq<char>, k: Seq<char>)
    requires
        keys_distinct(tab),
        members_of(tab, c).contains(k),
    ensures
        has_key(tab, k),
        value_of(tab, k).eclass == c,
{
    lemma_members_contains(tab, c, k);
    let i = choose|i: int| 0 <= i < tab.len() && #[trigger] tab[i].0 == k && tab[i].1.eclass == c;
    lemma_find_key_at(tab, i);
}

/// When every class of the grouping holds at most one marked member,
/// there is no conflict.
pub proof fn lemma_no_conflict(tab: Seq<(Seq<char>, NodeModel)>, mk: Seq<Seq<char>>)
    requires
        keys_distinct(tab),
        forall|c2: int|
            0 <= c2 < group_spec(tab).len() ==> count_marked(
                mk,
                #[trigger] group_spec(tab)[c2].members,
            ) < 2,
    ensures
        !split_conflict(tab, mk),
{
    if split_conflict(tab, mk) {
        let (i, j) = choose|i: int, j: int|
            0 <= i < j < tab.len() && #[trigger] tab[i].1.eclass == #[trigger] tab[j].1.eclass
                && mk.contains(tab[i].0) && mk.contains(tab[j].0);
        let c = tab[i].1.eclass;
        lemma_class_ids_contains(tab, c);
        assert(class_ids(tab).contains(c)) by {
            assert(tab[i].1.eclass == c);
        }
        let idx = choose|idx: int| 0 <= idx < class_ids(tab).len() && class_ids(tab)[idx] == c;
        assert(group_spec(tab)[idx].members == members_of(tab, c));
        lemma_members_contains(tab, c, tab[i].0);
        lemma_members_contains(tab, c, tab[j].0);
        let ms = members_of(tab, c);
        assert(ms.contains(tab[i].0)) by {
            assert(tab[i].0 == tab[i].0 && tab[i].1.eclass == c);
        }
        assert(ms.contains(tab[j].0)) by {
            assert(tab[j].0 == tab[j].0 && tab[j].1.eclass == c);
        }
        let p1 = choose|p: int| 0 <= p < ms.len() && ms[p] == tab[i].0;
        let p2 = choose|p: int| 0 <= p < ms.len() && ms[p] == tab[j].0;
        assert(tab[i].0 != tab[j].0);
        assert(p1 != p2);
        if p1 < p2 {
            lemma_count_marked_two(mk, ms, p1, p2);
        } else {
            lemma_count_marked_two(mk, ms, p2, p1);
        }
        assert(false);
    }
}

/// Two marked members at distinct positions of one class of the grouping
/// witness a conflict.
pub proof fn lemma_conflict_found(
    tab: Seq<(Seq<char>, NodeModel)>,
    mk: Seq<Seq<char>>,
    cidx: int,
    p1: int,
    p2: int,
)
    requires
        keys_distinct(tab),
        0 <= cidx < group_spec(tab).len(),
        0 <= p1 < p2 < group_spec(tab)[cidx].members.len(),
        mk.contains(group_spec(tab)[cidx].members[p1]),
        mk.contains(group_spec(tab)[cidx].members[p2]),
    ensures
        split_conflict(tab, mk),
        group_spec(tab)[cidx].members[p1] != group_spec(tab)[cidx].members[p2],
        has_key(tab, group_spec(tab)[cidx].members[p1]),
        has_key(tab, group_spec(tab)[cidx].members[p2]),
        value_of(tab, group_spec(tab)[cidx].members[p1]).eclass == group_spec(tab)[cidx].id,
        value_of(tab, group_spec(tab)[cidx].members[p2]).eclass == group_spec(tab)[cidx].id,
{
    let c = class_ids(tab)[cidx];
    assert(group_spec(tab)[cidx].members == members_of(tab, c));
    assert(group_spec(tab)[cidx].id == c);
    let ms = members_of(tab, c);
    lemma_members_distinct(tab, c);
    assert(ms[p1] != ms[p2]);
    assert(ms.contains(ms[p1]));
    assert(ms.contains(ms[p2]));
    lemma_member_has_key(tab, c, ms[p1]);
    lemma_member_has_key(tab, c, ms[p2]);
    lemma_members_contains(tab, c, ms[p1]);
    lemma_members_contains(tab, c, ms[p2]);
    let i1 = choose|i: int| 0 <= i < tab.len() && #[trigger] tab[i].0 == ms[p1] && tab[i].1.eclass == c;
    let i2 = choose|i: int| 0 <= i < tab.len() && #[trigger] tab[i].0 == ms[p2] && tab[i].1.eclass == c;
    assert(i1 != i2);
    if i1 < i2 {
        assert(tab[i1].1.eclass == tab[i2].1.eclass && mk.contains(tab[i1].0) && mk.contains(
            tab[i2].0,
        ));
    } else {
        assert(tab[i2].1.eclass == tab[i1].1.eclass && mk.contains(tab[i2].0) && mk.contains(
            tab[i1].0,
        ));
    }
}

impl EGraph {
    /// One splitting round over the given marked nodes. A class holding
    /// two distinct marked nodes is caller misuse: the round returns the
    /// offending class and both nodes and leaves the store untouched.
    /// Otherwise the round does exactly what `split_round_spec` says:
    /// each class of the round-start grouping with one marked member and
    /// several alternatives is exploded — every alternative after the
    /// first moves to a fresh `split-<k>-<id>` class that also gets a
    /// copy of the marked node and of the class metadata, one further
    /// fresh class gets a copy of the marked node alone, and every
    /// reference recorded against the original class is redirected to
    /// that last copy. Returns whether anything moved or was redirected.
    pub fn split_round(&mut self, marked: &Vec<NodeId>) -> (r: Result<bool, SplitConflict>)
        requires
            old(self).wf(),
            children_closed(old(self)@.nodes),
        ensures
            final(self).wf(),
            children_closed(final(self)@.nodes),
            final(self)@.roots == old(self)@.roots,
            r.is_err() == split_conflict(
                old(self)@.nodes,
                marked@.map_values(|x: NodeId| x@),
            ),
            match r {
                Err(e) => final(self)@ == old(self)@ && e.first@ != e.second@ && has_key(
                    old(self)@.nodes,
                    e.first@,
                ) && has_key(old(self)@.nodes, e.second@) && value_of(
                    old(self)@.nodes,
                    e.first@,
                ).eclass == e.class@ && value_of(old(self)@.nodes, e.second@).eclass == e.class@
                    && marked@.map_values(|x: NodeId| x@).contains(e.first@)
                    && marked@.map_values(|x: NodeId| x@).contains(e.second@),
                Ok(b) => final(self)@.nodes == split_round_spec(
                    old(self)@,
                    marked@.map_values(|x: NodeId| x@),
                ).nodes && final(self)@.class_data == split_round_spec(
                    old(self)@,
                    marked@.map_values(|x: NodeId| x@),
                ).class_data && b == split_round_spec(
                    old(self)@,
                    marked@.map_values(|x: NodeId| x@),
                ).changed && final(self)@.roots == old(self)@.roots && final(self)@.nodes.len()
                    >= old(self)@.nodes.len() && forall|k2: Seq<char>|
                    #[trigger] has_key(old(self)@.nodes, k2) ==> has_key(final(self)@.nodes, k2),
            },
    {
        let ghost m0 = old(self)@;
        let ghost mk = marked@.map_values(|x: NodeId| x@);
        proof {
            self.lemma_wf_keys_distinct();
            self.lemma_view_parts();
        }
        let grouping = self.classes();
        proof {
            assert(grouping@.len() == grouping@.map_values(|c: Class| c@).len());
        }

        // detect caller misuse before touching anything
        let mut ci: usize = 0;
        while ci < grouping.len()
            invariant
                0 <= ci <= grouping.len(),
                self.wf(),
                self@ == m0,
                m0 == old(self)@,
                keys_distinct(m0.nodes),
                children_closed(m0.nodes),
                mk == marked@.map_values(|x: NodeId| x@),
                grouping@.map_values(|c: Class| c@) == group_spec(m0.nodes),
                grouping@.len() == group_spec(m0.nodes).len(),
                forall|c2: int|
                    0 <= c2 < ci ==> count_marked(
                        mk,
                        #[trigger] group_spec(m0.nodes)[c2].members,
                    ) < 2,
            decreases grouping.len() - ci,
        {
            let cls = &grouping[ci];
            proof {
                assert(grouping@.map_values(|c: Class| c@)[ci as int] == cls@);
                assert(cls@ == group_spec(m0.nodes)[ci as int]);
            }
            let ghost members = cls@.members;
            let mut cnt: usize = 0;
            let mut first: usize = 0;
            let mut second: usize = 0;
            let mut jj: usize = 0;
            while jj < cls.nodes.len()
                invariant
                    0 <= jj <= cls.nodes.len(),
                    members == cls@.members,
                    cls@.members.len() == cls.nodes@.len(),
                    forall|x: int| 0 <= x < cls.nodes@.len() ==> cls.nodes@[x]@ == members[x],
                    mk == marked@.map_values(|x: NodeId| x@),
                    cnt == count_marked(mk, members.take(jj as int)),
                    cnt <= jj,
                    cnt >= 1 ==> (first < jj && mk.contains(members[first as int])),
                    cnt >= 2 ==> (second < jj && first < second && mk.contains(
                        members[second as int],
                    )),
                decreases cls.nodes.len() - jj,
            {
                let hit = contains_nid(marked, &cls.nodes[jj]);
                proof {
                    assert(members.take(jj + 1).drop_last() =~= members.take(jj as int));
                    assert(members.take(jj + 1).last() == members[jj as int]);
                }
                if hit {
                    if cnt == 0 {
                        first = jj;
                    } else if cnt == 1 {
                        second = jj;
                    }
                    cnt += 1;
                }
                jj += 1;
            }
            proof {
                assert(members.take(members.len() as int) =~= members);
            }
            if cnt >= 2 {
                proof {
                    lemma_conflict_found(m0.nodes, mk, ci as int, first as int, second as int);
                }
                return Err(
                    SplitConflict {
                        class: cls.id.dup(),
                        first: cls.nodes[first].dup(),
                        second: cls.nodes[second].dup(),
                    },
                );
            }
            ci += 1;
        }
        proof {
            lemma_no_conflict(m0.nodes, mk);
        }

        // record, per node and child position, the owning class referenced there
        proof {
            self.lemma_view_parts();
        }
        let keys = nm_keys(&self.nodes);
        let ghost tab = m0.nodes;
        let mut pkeys: Vec<NodeId> = Vec::new();
        let mut pcls: Vec<Vec<ClassId>> = Vec::new();
        let mut i5: usize = 0;
        while i5 < keys.len()
            invariant
                0 <= i5 <= keys.len(),
                self.wf(),
                self@ == m0,
                tab == m0.nodes,
                keys_distinct(tab),
                children_closed(tab),
                keys@.len() == tab.len(),
                forall|a: int| 0 <= a < keys@.len() ==> keys@[a]@ == tab[a].0,
                pkeys@.len() == i5,
                pcls@.len() == i5,
                forall|a: int| 0 <= a < i5 ==> pkeys@[a]@ == tab[a].0,
                forall|a: int| 0 <= a < i5 ==> #[trigger] pcls@[a]@.len()
                    == tab[a].1.children.len(),
                forall|a: int, b: int|
                    0 <= a < i5 && 0 <= b < pcls@[a]@.len() ==> #[trigger] pcls@[a]@[b]@
                        == value_of(tab, tab[a].1.children[b]).eclass,
            decreases keys.len() - i5,
        {
            proof {
                self.lemma_view_parts();
                lemma_find_key_at(tab, i5 as int);
            }
            let n = self.get_node(&keys[i5]).unwrap();
            proof {
                assert(n@ == tab[i5 as int].1);
            }
            let mut row: Vec<ClassId> = Vec::new();
            let mut b: usize = 0;
            while b < n.children.len()
                invariant
                    0 <= b <= n.children.len(),
                    self.wf(),
                    self@ == m0,
                    tab == m0.nodes,
                    keys_distinct(tab),
                    children_closed(tab),
                    n@ == tab[i5 as int].1,
                    0 <= i5 < tab.len(),
                    n.children@.len() == tab[i5 as int].1.children.len(),
                    forall|x: int| 0 <= x < n.children@.len() ==> n.children@[x]@
                        == tab[i5 as int].1.children[x],
                    row@.len() == b,
                    forall|bb: int|
                        0 <= bb < b ==> #[trigger] row@[bb]@ == value_of(
                            tab,
                            tab[i5 as int].1.children[bb],
                        ).eclass,
                decreases n.children.len() - b,
            {
                proof {
                    self.lemma_view_parts();
                    assert(has_key(tab, tab[i5 as int].1.children[b as int]));
                }
                let cc = self.nid_to_cid(&n.children[b]).dup();
                row.push(cc);
                b += 1;
            }
            pkeys.push(keys[i5].dup());
            pcls.push(row);
            i5 += 1;
        }

        // explode each class with one marked member and several alternatives
        let ghost st0 = SplitState { nodes: m0.nodes, class_data: m0.class_data, changed: false };
        let ghost ctx0 = m0.nodes;
        let mut changed = false;
        let mut ci2: usize = 0;
        while ci2 < grouping.len()
            invariant
                0 <= ci2 <= grouping.len(),
                self.wf(),
                keys_distinct(m0.nodes),
                children_closed(self@.nodes),
                self@.roots == m0.roots,
                self@.nodes.len() >= m0.nodes.len(),
                forall|k2: Seq<char>| #[trigger] has_key(m0.nodes, k2) ==> has_key(
                    self@.nodes,
                    k2,
                ),
                mk == marked@.map_values(|x: NodeId| x@),
                !split_conflict(m0.nodes, mk),
                st0 == (SplitState { nodes: m0.nodes, class_data: m0.class_data, changed: false }),
                ctx0 == m0.nodes,
                self@.nodes == split_round_fold(st0, ctx0, ci2 as int, mk).nodes,
                self@.class_data == split_round_fold(st0, ctx0, ci2 as int, mk).class_data,
                changed == split_round_fold(st0, ctx0, ci2 as int, mk).changed,
                grouping@.map_values(|c: Class| c@) == group_spec(m0.nodes),
                grouping@.len() == group_spec(m0.nodes).len(),
                pkeys@.len() == m0.nodes.len(),
                forall|a: int| 0 <= a < pkeys@.len() ==> pkeys@[a]@ == m0.nodes[a].0,
                pcls@.len() == m0.nodes.len(),
                forall|a: int| 0 <= a < pcls@.len() ==> #[trigger] pcls@[a]@.len()
                    == m0.nodes[a].1.children.len(),
                forall|a: int, bb: int|
                    0 <= a < pcls@.len() && 0 <= bb < pcls@[a]@.len() ==> #[trigger] pcls@[a]@[bb]@
                        == child_class0(ctx0, a, bb),
            decreases grouping.len() - ci2,
        {
            let ghost stc = split_round_fold(st0, ctx0, ci2 as int, mk);
            let cls = &grouping[ci2];
            proof {
                assert(grouping@.map_values(|c: Class| c@)[ci2 as int] == cls@);
                assert(cls@ == group_spec(m0.nodes)[ci2 as int]);
            }
            let ghost members = cls@.members;
            let ghost cid = class_ids(ctx0)[ci2 as int];
            proof {
                assert(group_spec(ctx0)[ci2 as int].id == cid);
                assert(members == members_of(ctx0, cid));
            }
            let mut umark: Option<usize> = None;
            let mut others: Vec<NodeId> = Vec::new();
            let mut jj: usize = 0;
            while jj < cls.nodes.len()
                invariant
                    0 <= jj <= cls.nodes.len(),
                    members == cls@.members,
                    cls@.members.len() == cls.nodes@.len(),
                    forall|x: int| 0 <= x < cls.nodes@.len() ==> cls.nodes@[x]@ == members[x],
                    mk == marked@.map_values(|x: NodeId| x@),
                    match umark {
                        Some(ui) => ui < jj && mk.contains(members[ui as int]) && forall|q: int|
                            0 <= q < ui ==> !mk.contains(members[q]),
                        None => forall|q: int| 0 <= q < jj ==> !mk.contains(members[q]),
                    },
                    others@.map_values(|x: NodeId| x@) == others_of(mk, members.take(jj as int)),
                    forall|x: int| 0 <= x < others@.len() ==> members.contains(
                        #[trigger] others@[x]@,
                    ),
                decreases cls.nodes.len() - jj,
            {
                let hit = contains_nid(marked, &cls.nodes[jj]);
                proof {
                    assert(members.take(jj + 1).drop_last() =~= members.take(jj as int));
                    assert(members.take(jj + 1).last() == members[jj as int]);
                }
                if hit {
                    if umark.is_none() {
                        umark = Some(jj);
                    }
                    proof {
                        assert(others@.map_values(|x: NodeId| x@) =~= others_of(
                            mk,
                            members.take(jj + 1),
                        ));
                    }
                } else {
                    others.push(cls.nodes[jj].dup());
                    proof {
                        assert(members.contains(members[jj as int]));
                        assert(others@.map_values(|x: NodeId| x@) =~= others_of(
                            mk,
                            members.take(jj + 1),
                        ));
                    }
                }
                jj += 1;
            }
            let ghost othm = others_of(mk, members);
            proof {
                assert(members.take(members.len() as int) =~= members);
                assert(others@.map_values(|x: NodeId| x@) == othm);
                assert(others@.len() == othm.len());
                lemma_first_marked(mk, members);
            }
            let ghost fm = first_marked(mk, members);
            if let Some(ui) = umark {
                proof {
                    assert(mk.contains(members[ui as int]));
                    if fm < 0 {
                        assert(!mk.contains(members[ui as int]));
                        assert(false);
                    }
                    if fm < ui {
                        assert(!mk.contains(members[fm]));
                        assert(false);
                    }
                    if ui < fm {
                        assert(!mk.contains(members[ui as int]));
                        assert(false);
                    }
                    assert(fm == ui as int);
                }
                if others.len() > 0 {
                    let uid = &cls.nodes[ui];
                    proof {
                        assert(uid@ == members[fm]);
                        assert(members.contains(members[ui as int]));
                        lemma_member_has_key(m0.nodes, cid, uid@);
                    }
                    let unode = self.get_node(uid).unwrap().dup();
                    let ghost uval = unode@;
                    proof {
                        lemma_closed_value(self@.nodes, uid@);
                        assert(uval == value_of(self@.nodes, uid@));
                        assert(uval == value_of(stc.nodes, uid@));
                        assert forall|j: int| 0 <= j < unode@.children.len() implies has_key(
                            self@.nodes,
                            #[trigger] unode@.children[j],
                        ) by {
                            assert(unode@.children[j] == value_of(
                                self@.nodes,
                                uid@,
                            ).children[j]);
                        }
                    }
                    let cdata: Option<ClassData> = match self.get_class_data(&cls.id) {
                        Some(d) => Some(d.dup()),
                        None => None,
                    };
                    let ghost cdv: Option<Option<Seq<char>>> = if cdata is Some {
                        Some((cdata->Some_0)@)
                    } else {
                        None
                    };
                    proof {
                        assert(cdv == (if has_key(stc.class_data, cid) {
                            Some(value_of(stc.class_data, cid))
                        } else {
                            None::<Option<Seq<char>>>
                        }));
                    }
                    let mut offset: usize = 0;
                    let mut oi: usize = 1;
                    while oi < others.len()
                        invariant
                            1 <= oi <= others@.len(),
                            self.wf(),
                            keys_distinct(m0.nodes),
                            children_closed(self@.nodes),
                            self@.roots == m0.roots,
                            self@.nodes.len() >= m0.nodes.len(),
                            mk == marked@.map_values(|x: NodeId| x@),
                            forall|k2: Seq<char>| #[trigger] has_key(m0.nodes, k2) ==> has_key(
                                self@.nodes,
                                k2,
                            ),
                            forall|j: int|
                                0 <= j < unode@.children.len() ==> has_key(
                                    self@.nodes,
                                    #[trigger] unode@.children[j],
                                ),
                            forall|x: int| 0 <= x < others@.len() ==> members.contains(
                                #[trigger] others@[x]@,
                            ),
                            members == members_of(m0.nodes, cid),
                            others@.map_values(|x: NodeId| x@) == othm,
                            others@.len() == othm.len(),
                            uval == unode@,
                            cdv == (if cdata is Some {
                                Some((cdata->Some_0)@)
                            } else {
                                None::<Option<Seq<char>>>
                            }),
                            offset == oi - 1,
                            self@.nodes == move_alts(
                                stc.nodes,
                                stc.class_data,
                                othm,
                                oi as int,
                                uid@,
                                uval,
                                cdv,
                            ).0,
                            self@.class_data == move_alts(
                                stc.nodes,
                                stc.class_data,
                                othm,
                                oi as int,
                                uid@,
                                uval,
                                cdv,
                            ).1,
                            changed == (stc.changed || oi > 1),
                        decreases others.len() - oi,
                    {
                        let ghost prev_n = self@.nodes;
                        let ghost prev_c = self@.class_data;
                        let sid = split_id(offset, uid);
                        let ghost sidv = sid@;
                        proof {
                            assert(sidv == split_id_spec((oi - 1) as nat, uid@));
                        }
                        if cdata.is_some() {
                            let d = cdata.as_ref().unwrap();
                            proof {
                                assert(cdv == Some(d@));
                            }
                            self.set_class_data(ClassId::new(sid.clone()), d.dup());
                        }
                        proof {
                            assert(self@.class_data == put_cd(prev_c, cdv, sidv));
                            assert(self@.nodes == prev_n);
                            assert(members.contains(others@[oi as int]@));
                            lemma_member_has_key(m0.nodes, cid, others@[oi as int]@);
                        }
                        let mut on = self.get_node(&others[oi]).unwrap().dup();
                        let ghost cur1 = self@.nodes;
                        proof {
                            lemma_closed_value(cur1, others@[oi as int]@);
                            assert(on@ == value_of(cur1, others@[oi as int]@));
                        }
                        on.eclass = ClassId::new(sid.clone());
                        let ghost onv = on@;
                        let ghost onk = others@[oi as int]@;
                        proof {
                            assert(onk == othm[oi as int]);
                            assert(onv == with_eclass(value_of(cur1, onk), sidv));
                        }
                        self.put_node(others[oi].dup(), on);
                        proof {
                            assert(self@.nodes == insert_entry(cur1, onk, onv));
                            lemma_insert_entry_len(cur1, onk, onv);
                            assert(self@.nodes.len() >= cur1.len());
                            assert forall|k2: Seq<char>| #[trigger] has_key(m0.nodes, k2)
                                implies has_key(self@.nodes, k2) by {
                                lemma_insert_entry_props(cur1, onk, onv, k2);
                            }
                            assert forall|j: int|
                                0 <= j < unode@.children.len() implies has_key(
                                self@.nodes,
                                #[trigger] unode@.children[j],
                            ) by {
                                lemma_insert_entry_props(cur1, onk, onv, unode@.children[j]);
                            }
                            assert forall|j: int| 0 <= j < onv.children.len() implies has_key(
                                cur1,
                                #[trigger] onv.children[j],
                            ) by {
                                assert(onv.children[j] == value_of(cur1, onk).children[j]);
                            }
                            lemma_insert_entry_closed(cur1, onk, onv);
                        }
                        let mut cp = unode.dup();
                        cp.eclass = ClassId::new(sid.clone());
                        let ghost cpv = cp@;
                        let ghost cur2 = self@.nodes;
                        proof {
                            assert(cpv == with_eclass(uval, sidv));
                        }
                        self.put_node(NodeId::new(sid), cp);
                        proof {
                            assert(self@.nodes == insert_entry(cur2, sidv, cpv));
                            lemma_insert_entry_len(cur2, sidv, cpv);
                            assert(self@.nodes.len() >= cur2.len());
                            assert forall|k2: Seq<char>| #[trigger] has_key(m0.nodes, k2)
                                implies has_key(self@.nodes, k2) by {
                                lemma_insert_entry_props(cur2, sidv, cpv, k2);
                            }
                            assert forall|j: int|
                                0 <= j < unode@.children.len() implies has_key(
                                self@.nodes,
                                #[trigger] unode@.children[j],
                            ) by {
                                lemma_insert_entry_props(cur2, sidv, cpv, unode@.children[j]);
                            }
                            assert forall|j: int| 0 <= j < cpv.children.len() implies has_key(
                                cur2,
                                #[trigger] cpv.children[j],
                            ) by {
                                assert(cpv.children[j] == unode@.children[j]);
                            }
                            lemma_insert_entry_closed(cur2, sidv, cpv);
                            assert(self@.nodes == move_alts(
                                stc.nodes,
                                stc.class_data,
                                othm,
                                oi + 1,
                                uid@,
                                uval,
                                cdv,
                            ).0);
                            assert(self@.class_data == move_alts(
                                stc.nodes,
                                stc.class_data,
                                othm,
                                oi + 1,
                                uid@,
                                uval,
                                cdv,
                            ).1);
                        }
                        changed = true;
                        offset += 1;
                        oi += 1;
                    }
                    let ghost n1 = move_alts(
                        stc.nodes,
                        stc.class_data,
                        othm,
                        othm.len() as int,
                        uid@,
                        uval,
                        cdv,
                    ).0;
                    let ghost c1 = move_alts(
                        stc.nodes,
                        stc.class_data,
                        othm,
                        othm.len() as int,
                        uid@,
                        uval,
                        cdv,
                    ).1;
                    proof {
                        assert(self@.nodes == n1);
                        assert(self@.class_data == c1);
                    }

                    // one further fresh class holding only a copy of the
                    // marked node: the new target of redirected references
                    let sid2 = split_id(offset, uid);
                    let ghost sid2v = sid2@;
                    proof {
                        assert(sid2v == split_id_spec((othm.len() - 1) as nat, uid@));
                    }
                    let fid = NodeId::new(sid2.clone());
                    if cdata.is_some() {
                        let d = cdata.as_ref().unwrap();
                        proof {
                            assert(cdv == Some(d@));
                        }
                        self.set_class_data(ClassId::new(sid2.clone()), d.dup());
                    }
                    proof {
                        assert(self@.class_data == put_cd(c1, cdv, sid2v));
                        assert(self@.nodes == n1);
                    }
                    let mut cp2 = unode.dup();
                    cp2.eclass = ClassId::new(sid2.clone());
                    let ghost cp2v = cp2@;
                    let ghost cur3 = self@.nodes;
                    proof {
                        assert(cp2v == with_eclass(uval, sid2v));
                    }
                    self.put_node(fid.dup(), cp2);
                    proof {
                        assert(self@.nodes == insert_entry(cur3, fid@, cp2v));
                        lemma_insert_entry_len(cur3, fid@, cp2v);
                        assert(self@.nodes.len() >= cur3.len());
                        assert forall|k2: Seq<char>| #[trigger] has_key(m0.nodes, k2)
                            implies has_key(self@.nodes, k2) by {
                            lemma_insert_entry_props(cur3, fid@, cp2v, k2);
                        }
                        assert forall|j: int| 0 <= j < cp2v.children.len() implies has_key(
                            cur3,
                            #[trigger] cp2v.children[j],
                        ) by {
                            assert(cp2v.children[j] == unode@.children[j]);
                        }
                        lemma_insert_entry_closed(cur3, fid@, cp2v);
                        lemma_insert_entry_props(cur3, fid@, cp2v, fid@);
                        assert(has_key(self@.nodes, fid@));
                    }
                    let ghost base_n = self@.nodes;
                    let ghost cd_fin = self@.class_data;
                    let ghost ch_base = changed;
                    proof {
                        assert(base_n == insert_entry(n1, sid2v, with_eclass(uval, sid2v)));
                        assert(ch_base == (stc.changed || othm.len() >= 2));
                    }

                    // redirect every reference recorded against this class
                    let mut p: usize = 0;
                    while p < pkeys.len()
                        invariant
                            0 <= p <= pkeys.len(),
                            self.wf(),
                            keys_distinct(m0.nodes),
                            children_closed(self@.nodes),
                            self@.roots == m0.roots,
                            self@.nodes.len() >= m0.nodes.len(),
                            forall|k2: Seq<char>| #[trigger] has_key(m0.nodes, k2) ==> has_key(
                                self@.nodes,
                                k2,
                            ),
                            has_key(self@.nodes, fid@),
                            fid@ == sid2v,
                            cls.id@ == cid,
                            ctx0 == m0.nodes,
                            pkeys@.len() == m0.nodes.len(),
                            forall|a: int| 0 <= a < pkeys@.len() ==> pkeys@[a]@ == m0.nodes[a].0,
                            pcls@.len() == m0.nodes.len(),
                            forall|a: int| 0 <= a < pcls@.len() ==> #[trigger] pcls@[a]@.len()
                                == m0.nodes[a].1.children.len(),
                            forall|a: int, bb: int|
                                0 <= a < pcls@.len() && 0 <= bb < pcls@[a]@.len()
                                    ==> #[trigger] pcls@[a]@[bb]@ == child_class0(ctx0, a, bb),
                            self@.class_data == cd_fin,
                            self@.nodes == retarget_all(base_n, ctx0, p as int, cid, sid2v).0,
                            changed == (ch_base || retarget_all(
                                base_n,
                                ctx0,
                                p as int,
                                cid,
                                sid2v,
                            ).1),
                        decreases pkeys.len() - p,
                    {
                        let ghost pn_base = retarget_all(base_n, ctx0, p as int, cid, sid2v).0;
                        let ghost chp_base = changed;
                        let row = &pcls[p];
                        let mut b: usize = 0;
                        while b < row.len()
                            invariant
                                0 <= b <= row.len(),
                                self.wf(),
                                keys_distinct(m0.nodes),
                                children_closed(self@.nodes),
                                self@.roots == m0.roots,
                                self@.nodes.len() >= m0.nodes.len(),
                                forall|k2: Seq<char>| #[trigger] has_key(m0.nodes, k2)
                                    ==> has_key(self@.nodes, k2),
                                has_key(self@.nodes, fid@),
                                fid@ == sid2v,
                                cls.id@ == cid,
                                ctx0 == m0.nodes,
                                pkeys@.len() == m0.nodes.len(),
                                forall|a: int| 0 <= a < pkeys@.len() ==> pkeys@[a]@
                                    == m0.nodes[a].0,
                                0 <= p < pkeys@.len(),
                                row@.len() == m0.nodes[p as int].1.children.len(),
                                forall|bb: int| 0 <= bb < row@.len() ==> #[trigger] row@[bb]@
                                    == child_class0(ctx0, p as int, bb),
                                self@.class_data == cd_fin,
                                self@.nodes == retarget_positions(
                                    pn_base,
                                    ctx0,
                                    p as int,
                                    b as int,
                                    cid,
                                    sid2v,
                                ).0,
                                changed == (chp_base || retarget_positions(
                                    pn_base,
                                    ctx0,
                                    p as int,
                                    b as int,
                                    cid,
                                    sid2v,
                                ).1),
                            decreases row.len() - b,
                        {
                            let hitc = &row[b] == &cls.id;
                            proof {
                                assert(row@[b as int]@ == child_class0(ctx0, p as int, b as int));
                                assert(cls.id@ == cid);
                                assert(hitc == (child_class0(ctx0, p as int, b as int) == cid));
                            }
                            if hitc {
                                proof {
                                    lemma_find_key_at(m0.nodes, p as int);
                                    assert(has_key(m0.nodes, pkeys@[p as int]@));
                                }
                                let mut pn = self.get_node(&pkeys[p]).unwrap().dup();
                                let ghost cur4 = self@.nodes;
                                proof {
                                    lemma_closed_value(cur4, pkeys@[p as int]@);
                                    assert(pn@ == value_of(cur4, pkeys@[p as int]@));
                                }
                                if b < pn.children.len() {
                                    nid_vec_set(&mut pn.children, b, fid.dup());
                                    let ghost pnv = pn@;
                                    let ghost pk = pkeys@[p as int]@;
                                    proof {
                                        assert(pnv.children =~= value_of(
                                            cur4,
                                            pk,
                                        ).children.update(b as int, fid@));
                                        assert(pk == ctx0[p as int].0);
                                        assert(pnv == (NodeModel {
                                            op: value_of(cur4, pk).op,
                                            children: value_of(cur4, pk).children.update(
                                                b as int,
                                                sid2v,
                                            ),
                                            eclass: value_of(cur4, pk).eclass,
                                            cost: value_of(cur4, pk).cost,
                                        }));
                                    }
                                    self.put_node(pkeys[p].dup(), pn);
                                    proof {
                                        assert(self@.nodes == insert_entry(cur4, pk, pnv));
                                        lemma_insert_entry_len(cur4, pk, pnv);
                                        assert(self@.nodes.len() >= cur4.len());
                                        assert forall|k2: Seq<char>|
                                            #[trigger] has_key(m0.nodes, k2) implies has_key(
                                            self@.nodes,
                                            k2,
                                        ) by {
                                            lemma_insert_entry_props(cur4, pk, pnv, k2);
                                        }
                                        assert forall|j: int|
                                            0 <= j < pnv.children.len() implies has_key(
                                            cur4,
                                            #[trigger] pnv.children[j],
                                        ) by {
                                            if j != b {
                                                assert(pnv.children[j] == value_of(
                                                    cur4,
                                                    pk,
                                                ).children[j]);
                                            } else {
                                                assert(pnv.children[j] == fid@);
                                            }
                                        }
                                        lemma_insert_entry_closed(cur4, pk, pnv);
                                        lemma_insert_entry_props(cur4, pk, pnv, fid@);
                                    }
                                    changed = true;
                                } else {
                                    proof {
                                        assert(retarget_one(
                                            self@.nodes,
                                            ctx0[p as int].0,
                                            b as int,
                                            sid2v,
                                        ).0 == self@.nodes);
                                    }
                                }
                            }
                            b += 1;
                        }
                        proof {
                            assert(row@.len() as int == ctx0[p as int].1.children.len() as int);
                        }
                        p += 1;
                    }
                    proof {
                        assert(self@.nodes == retarget_all(
                            base_n,
                            ctx0,
                            ctx0.len() as int,
                            cid,
                            sid2v,
                        ).0);
                        assert(split_round_fold(st0, ctx0, ci2 + 1, mk) == split_class_step(
                            stc,
                            ctx0,
                            cid,
                            mk,
                        ));
                        assert(self@.nodes == split_round_fold(st0, ctx0, ci2 + 1, mk).nodes);
                        assert(self@.class_data == split_round_fold(
                            st0,
                            ctx0,
                            ci2 + 1,
                            mk,
                        ).class_data);
                        assert(changed == split_round_fold(st0, ctx0, ci2 + 1, mk).changed);
                    }
                } else {
                    proof {
                        assert(othm.len() == 0);
                        assert(split_class_step(stc, ctx0, cid, mk) == stc);
                        assert(split_round_fold(st0, ctx0, ci2 + 1, mk) == stc);
                    }
                }
            } else {
                proof {
                    if fm >= 0 {
                        assert(mk.contains(members[fm]));
                        assert(false);
                    }
                    assert(split_class_step(stc, ctx0, cid, mk) == stc);
                    assert(split_round_fold(st0, ctx0, ci2 + 1, mk) == stc);
                }
            }
            ci2 += 1;
        }
        proof {
            assert(grouping@.len() == class_ids(ctx0).len());
            assert(split_round_fold(st0, ctx0, class_ids(ctx0).len() as int, mk)
                == split_round_spec(m0, mk));
        }
        self.invalidate_class_view();
        Ok(changed)
    }
}

impl EGraph {
    /// Split classes to fixpoint. The caller's predicate says which
    /// nodes are marked; each round evaluates it once per node and then
    /// runs `split_round`, until a round reports no change (an internal
    /// round counter, far beyond reach in practice, bounds the loop so
    /// termination is checkable). The final store is the image of one
    /// conflict-free round over a marked set the predicate can produce.
    /// A class holding two distinct marked nodes is caller misuse: the
    /// operation stops with the offending class and both nodes, the
    /// round that found them applying no change; completed earlier
    /// rounds remain applied.
    pub fn split_e_classes<F: Fn(&NodeId, &Node) -> bool>(&mut self, should_split: F) -> (r:
        Result<(), SplitConflict>)
        requires
            old(self).wf(),
            children_closed(old(self)@.nodes),
            forall|id: &NodeId, n: &Node| #[trigger] call_requires(should_split, (id, n)),
        ensures
            final(self).wf(),
            children_closed(final(self)@.nodes),
            final(self)@.roots == old(self)@.roots,
            final(self)@.nodes.len() >= old(self)@.nodes.len(),
            forall|k2: Seq<char>| #[trigger] has_key(old(self)@.nodes, k2) ==> has_key(
                final(self)@.nodes,
                k2,
            ),
            forall|k2: Seq<char>| #[trigger] has_key(final(self)@.nodes, k2) ==> has_key(
                old(self)@.nodes,
                k2,
            ) || split_prefixed(k2),
            forall|k2: Seq<char>|
                #[trigger] has_key(old(self)@.nodes, k2) && !split_prefixed(k2) ==> value_of(
                    final(self)@.nodes,
                    k2,
                ).op == value_of(old(self)@.nodes, k2).op && value_of(
                    final(self)@.nodes,
                    k2,
                ).cost == value_of(old(self)@.nodes, k2).cost,
            forall|ck: Seq<char>|
                #[trigger] has_key(old(self)@.class_data, ck) && !split_prefixed(ck) ==> has_key(
                    final(self)@.class_data,
                    ck,
                ) && value_of(final(self)@.class_data, ck) == value_of(
                    old(self)@.class_data,
                    ck,
                ),
            match r {
                Err(e) => e.first@ != e.second@ && has_key(final(self)@.nodes, e.first@)
                    && has_key(final(self)@.nodes, e.second@) && value_of(
                    final(self)@.nodes,
                    e.first@,
                ).eclass == e.class@ && value_of(final(self)@.nodes, e.second@).eclass
                    == e.class@ && exists|k: nat, mkv: Seq<Seq<char>>|
                    split_evolves(should_split, old(self)@, final(self)@, k) && marked_all(
                        should_split,
                        final(self)@.nodes,
                        mkv,
                    ) && split_conflict(final(self)@.nodes, mkv) && mkv.contains(e.first@)
                        && mkv.contains(e.second@),
                Ok(_) => exists|k: nat, pre: StoreModel, mkv: Seq<Seq<char>>|
                    split_evolves(should_split, old(self)@, pre, k) && marked_all(
                        should_split,
                        pre.nodes,
                        mkv,
                    ) && !split_conflict(pre.nodes, mkv) && final(self)@ == round_image(pre, mkv)
                        && (!split_round_spec(pre, mkv).changed || k + 1 == u64::MAX as nat),
            },
    {
        let mut rounds: u64 = 0;
        while rounds < u64::MAX
            invariant
                self.wf(),
                children_closed(self@.nodes),
                self@.roots == old(self)@.roots,
                self@.nodes.len() >= old(self)@.nodes.len(),
                forall|id: &NodeId, n: &Node| #[trigger] call_requires(should_split, (id, n)),
                split_evolves(should_split, old(self)@, self@, rounds as nat),
                forall|k2: Seq<char>| #[trigger] has_key(old(self)@.nodes, k2) ==> has_key(
                    self@.nodes,
                    k2,
                ),
                forall|k2: Seq<char>| #[trigger] has_key(self@.nodes, k2) ==> has_key(
                    old(self)@.nodes,
                    k2,
                ) || split_prefixed(k2),
                forall|k2: Seq<char>|
                    #[trigger] has_key(old(self)@.nodes, k2) && !split_prefixed(k2)
                        ==> value_of(self@.nodes, k2).op == value_of(old(self)@.nodes, k2).op
                        && value_of(self@.nodes, k2).cost == value_of(
                        old(self)@.nodes,
                        k2,
                    ).cost,
                forall|ck: Seq<char>|
                    #[trigger] has_key(old(self)@.class_data, ck) && !split_prefixed(ck)
                        ==> has_key(self@.class_data, ck) && value_of(self@.class_data, ck)
                        == value_of(old(self)@.class_data, ck),
                rounds > 0 ==> exists|pre: StoreModel, mkv: Seq<Seq<char>>|
                    split_evolves(should_split, old(self)@, pre, (rounds - 1) as nat)
                        && marked_all(should_split, pre.nodes, mkv) && !split_conflict(
                        pre.nodes,
                        mkv,
                    ) && self@ == round_image(pre, mkv) && split_round_spec(pre, mkv).changed,
            decreases u64::MAX - rounds,
        {
            proof {
                self.lemma_wf_keys_distinct();
                self.lemma_view_parts();
            }
            let keys = nm_keys(&self.nodes);
            let mut marked: Vec<NodeId> = Vec::new();
            let mut i: usize = 0;
            while i < keys.len()
                invariant
                    0 <= i <= keys.len(),
                    self.wf(),
                    keys_distinct(self@.nodes),
                    children_closed(self@.nodes),
                    keys@.len() == self@.nodes.len(),
                    forall|a: int| 0 <= a < keys@.len() ==> keys@[a]@ == self@.nodes[a].0,
                    forall|id: &NodeId, n: &Node| #[trigger] call_requires(
                        should_split,
                        (id, n),
                    ),
                    forall|idx: int|
                        0 <= idx < i ==> decided(
                            should_split,
                            (#[trigger] self@.nodes[idx]).0,
                            self@.nodes[idx].1,
                            marked@.map_values(|x: NodeId| x@).contains(self@.nodes[idx].0),
                        ),
                    forall|j: int|
                        0 <= j < marked@.len() ==> exists|idx: int|
                            0 <= idx < i && (#[trigger] self@.nodes[idx]).0 == (
                            #[trigger] marked@[j])@,
                decreases keys.len() - i,
            {
                proof {
                    self.lemma_wf_keys_distinct();
                    self.lemma_view_parts();
                    lemma_find_key_at(self@.nodes, i as int);
                }
                let ghost mk_old = marked@.map_values(|x: NodeId| x@);
                let kref = &keys[i];
                let n = self.node(kref);
                let b = should_split(kref, n);
                proof {
                    assert(call_ensures(should_split, (kref, n), b));
                    assert(n@ == self@.nodes[i as int].1);
                    assert(kref@ == self@.nodes[i as int].0);
                }
                if b {
                    marked.push(keys[i].dup());
                    proof {
                        let mk_new = marked@.map_values(|x: NodeId| x@);
                        assert(mk_new =~= mk_old.push(self@.nodes[i as int].0));
                        assert forall|idx: int| 0 <= idx < i + 1 implies decided(
                            should_split,
                            (#[trigger] self@.nodes[idx]).0,
                            self@.nodes[idx].1,
                            mk_new.contains(self@.nodes[idx].0),
                        ) by {
                            lemma_contains_push(
                                mk_old,
                                self@.nodes[i as int].0,
                                self@.nodes[idx].0,
                            );
                            if idx < i {
                                assert(self@.nodes[idx].0 != self@.nodes[i as int].0);
                            } else {
                                assert(mk_new.contains(self@.nodes[i as int].0));
                                assert(call_ensures(should_split, (kref, n), true));
                            }
                        }
                    }
                } else {
                    proof {
                        if mk_old.contains(self@.nodes[i as int].0) {
                            let j = choose|j: int|
                                0 <= j < mk_old.len() && mk_old[j] == self@.nodes[i as int].0;
                            let idx = choose|idx: int|
                                0 <= idx < i && self@.nodes[idx].0 == marked@[j]@;
                            assert(self@.nodes[idx].0 == self@.nodes[i as int].0);
                            assert(false);
                        }
                        assert(call_ensures(
                            should_split,
                            (kref, n),
                            marked@.map_values(|x: NodeId| x@).contains(
                                self@.nodes[i as int].0,
                            ),
                        ));
                        assert(decided(
                            should_split,
                            self@.nodes[i as int].0,
                            self@.nodes[i as int].1,
                            marked@.map_values(|x: NodeId| x@).contains(
                                self@.nodes[i as int].0,
                            ),
                        ));
                    }
                }
                i += 1;
            }
            let ghost pre_round = self@;
            let ghost mkv = marked@.map_values(|x: NodeId| x@);
            proof {
                assert(marked_all(should_split, pre_round.nodes, mkv));
                assert(keys_distinct(pre_round.nodes));
            }
            let rr = self.split_round(&marked);
            proof {
                if !rr.is_err() {
                    assert(self@.nodes == split_round_spec(pre_round, mkv).nodes);
                    assert(self@.class_data == split_round_spec(pre_round, mkv).class_data);
                    assert(self@.roots == pre_round.roots);
                    assert(self@ == round_image(pre_round, mkv));
                    assert forall|k2: Seq<char>| #[trigger] has_key(old(self)@.nodes, k2)
                        implies has_key(self@.nodes, k2) by {}
                    assert forall|k2: Seq<char>| #[trigger] has_key(self@.nodes, k2)
                        implies has_key(old(self)@.nodes, k2) || split_prefixed(k2) by {
                        lemma_split_round_new_ids(pre_round, mkv, k2);
                    }
                    assert forall|k2: Seq<char>|
                        #[trigger] has_key(old(self)@.nodes, k2) && !split_prefixed(k2)
                        implies value_of(self@.nodes, k2).op == value_of(
                        old(self)@.nodes,
                        k2,
                    ).op && value_of(self@.nodes, k2).cost == value_of(
                        old(self)@.nodes,
                        k2,
                    ).cost by {
                        lemma_split_round_keeps_op_cost(pre_round, mkv, k2);
                    }
                    assert forall|ck: Seq<char>|
                        #[trigger] has_key(old(self)@.class_data, ck) && !split_prefixed(ck)
                        implies has_key(self@.class_data, ck) && value_of(
                        self@.class_data,
                        ck,
                    ) == value_of(old(self)@.class_data, ck) by {
                        lemma_split_round_keeps_class_data(pre_round, mkv, ck);
                    }
                }
            }
            match rr {
                Err(e) => {
                    proof {
                        assert(self@ == pre_round);
                        assert(split_evolves(should_split, old(self)@, self@, rounds as nat));
                        assert(marked_all(should_split, self@.nodes, mkv));
                        assert(split_conflict(self@.nodes, mkv));
                    }
                    return Err(e);
                },
                Ok(true) => {},
                Ok(false) => {
                    proof {
                        assert(split_evolves(
                            should_split,
                            old(self)@,
                            pre_round,
                            rounds as nat,
                        ));
                        assert(!split_round_spec(pre_round, mkv).changed);
                    }
                    return Ok(());
                },
            }
            proof {
                lemma_evolves_snoc(should_split, old(self)@, pre_round, mkv, rounds as nat);
                assert(split_evolves(
                    should_split,
                    old(self)@,
                    round_image(pre_round, mkv),
                    (rounds + 1) as nat,
                ));
                assert(split_round_spec(pre_round, mkv).changed);
            }
            rounds += 1;
        }
        proof {
            assert(rounds == u64::MAX);
        }
        Ok(())
    }
}

/// Whether an id carries the prefix of split-derived ids.
pub open spec fn split_prefixed(k: Seq<char>) -> bool {
    k.len() >= 6 && k.subrange(0, 6) == seq!['s', 'p', 'l', 'i', 't', '-']
}

/// Every id the split derives carries the prefix.
pub proof fn lemma_split_id_prefixed(j: nat, uid: Seq<char>)
    ensures
        split_prefixed(split_id_spec(j, uid)),
{
    let sid = split_id_spec(j, uid);
    assert(sid.len() >= 6);
    assert(sid.subrange(0, 6) =~= seq!['s', 'p', 'l', 'i', 't', '-']);
}

/// The node named `k` is present with label `o` and weight `c`.
pub open spec fn keeps(
    nodes: Seq<(Seq<char>, NodeModel)>,
    k: Seq<char>,
    o: Seq<char>,
    c: u64,
) -> bool {
    has_key(nodes, k) && value_of(nodes, k).op == o && value_of(nodes, k).cost == c
}

proof fn lemma_keeps_insert(
    nodes: Seq<(Seq<char>, NodeModel)>,
    ik: Seq<char>,
    v: NodeModel,
    k: Seq<char>,
    o: Seq<char>,
    c: u64,
)
    requires
        keeps(nodes, k, o, c),
        ik == k ==> v.op == o && v.cost == c,
    ensures
        keeps(insert_entry(nodes, ik, v), k, o, c),
{
    lemma_insert_entry_props(nodes, ik, v, k);
}

proof fn lemma_keeps_move_alts(
    nodes: Seq<(Seq<char>, NodeModel)>,
    cd: Seq<(Seq<char>, Option<Seq<char>>)>,
    others: Seq<Seq<char>>,
    count: int,
    uid: Seq<char>,
    uval: NodeModel,
    cdata: Option<Option<Seq<char>>>,
    k: Seq<char>,
    o: Seq<char>,
    c: u64,
)
    requires
        keeps(nodes, k, o, c),
        !split_prefixed(k),
    ensures
        keeps(move_alts(nodes, cd, others, count, uid, uval, cdata).0, k, o, c),
    decreases count,
{
    if count > 1 {
        lemma_keeps_move_alts(nodes, cd, others, count - 1, uid, uval, cdata, k, o, c);
        let (n1, c1) = move_alts(nodes, cd, others, count - 1, uid, uval, cdata);
        let oi = count - 1;
        let sid = split_id_spec((oi - 1) as nat, uid);
        let on = value_of(n1, others[oi]);
        lemma_keeps_insert(n1, others[oi], with_eclass(on, sid), k, o, c);
        let n2 = insert_entry(n1, others[oi], with_eclass(on, sid));
        lemma_split_id_prefixed((oi - 1) as nat, uid);
        lemma_keeps_insert(n2, sid, with_eclass(uval, sid), k, o, c);
    }
}

proof fn lemma_keeps_retarget_positions(
    nodes: Seq<(Seq<char>, NodeModel)>,
    ctx0: Seq<(Seq<char>, NodeModel)>,
    p: int,
    bcnt: int,
    cid: Seq<char>,
    sid2: Seq<char>,
    k: Seq<char>,
    o: Seq<char>,
    c: u64,
)
    requires
        keeps(nodes, k, o, c),
    ensures
        keeps(retarget_positions(nodes, ctx0, p, bcnt, cid, sid2).0, k, o, c),
    decreases bcnt,
{
    if bcnt > 0 {
        lemma_keeps_retarget_positions(nodes, ctx0, p, bcnt - 1, cid, sid2, k, o, c);
        let (pre, ch) = retarget_positions(nodes, ctx0, p, bcnt - 1, cid, sid2);
        let b = bcnt - 1;
        if child_class0(ctx0, p, b) == cid {
            let pn = value_of(pre, ctx0[p].0);
            if b < pn.children.len() {
                lemma_keeps_insert(
                    pre,
                    ctx0[p].0,
                    NodeModel {
                        op: pn.op,
                        children: pn.children.update(b, sid2),
                        eclass: pn.eclass,
                        cost: pn.cost,
                    },
                    k,
                    o,
                    c,
                );
            }
        }
    }
}

proof fn lemma_keeps_retarget_all(
    nodes: Seq<(Seq<char>, NodeModel)>,
    ctx0: Seq<(Seq<char>, NodeModel)>,
    pcnt: int,
    cid: Seq<char>,
    sid2: Seq<char>,
    k: Seq<char>,
    o: Seq<char>,
    c: u64,
)
    requires
        keeps(nodes, k, o, c),
    ensures
        keeps(retarget_all(nodes, ctx0, pcnt, cid, sid2).0, k, o, c),
    decreases pcnt,
{
    if pcnt > 0 {
        lemma_keeps_retarget_all(nodes, ctx0, pcnt - 1, cid, sid2, k, o, c);
        let (pre, ch) = retarget_all(nodes, ctx0, pcnt - 1, cid, sid2);
        lemma_keeps_retarget_positions(
            pre,
            ctx0,
            pcnt - 1,
            ctx0[pcnt - 1].1.children.len() as int,
            cid,
            sid2,
            k,
            o,
            c,
        );
    }
}

proof fn lemma_keeps_class_step(
    st: SplitState,
    ctx0: Seq<(Seq<char>, NodeModel)>,
    cid: Seq<char>,
    mk: Seq<Seq<char>>,
    k: Seq<char>,
    o: Seq<char>,
    c: u64,
)
    requires
        keeps(st.nodes, k, o, c),
        !split_prefixed(k),
    ensures
        keeps(split_class_step(st, ctx0, cid, mk).nodes, k, o, c),
{
    let ms = members_of(ctx0, cid);
    let fm = first_marked(mk, ms);
    let others = others_of(mk, ms);
    if fm >= 0 && others.len() > 0 {
        let uid = ms[fm];
        let uval = value_of(st.nodes, uid);
        let cdata = if has_key(st.class_data, cid) {
            Some(value_of(st.class_data, cid))
        } else {
            None
        };
        lemma_keeps_move_alts(
            st.nodes,
            st.class_data,
            others,
            others.len() as int,
            uid,
            uval,
            cdata,
            k,
            o,
            c,
        );
        let n1 = move_alts(
            st.nodes,
            st.class_data,
            others,
            others.len() as int,
            uid,
            uval,
            cdata,
        ).0;
        let sid2 = split_id_spec((others.len() - 1) as nat, uid);
        lemma_split_id_prefixed((others.len() - 1) as nat, uid);
        lemma_keeps_insert(n1, sid2, with_eclass(uval, sid2), k, o, c);
        let n2 = insert_entry(n1, sid2, with_eclass(uval, sid2));
        lemma_keeps_retarget_all(n2, ctx0, ctx0.len() as int, cid, sid2, k, o, c);
    }
}

/// A splitting round deletes no node, and a pre-existing node whose id
/// does not carry the split-derived prefix keeps its label and weight:
/// only its owning class and its child references can change.
pub proof fn lemma_split_round_keeps_op_cost(m: StoreModel, mk: Seq<Seq<char>>, k: Seq<char>)
    requires
        has_key(m.nodes, k),
        !split_prefixed(k),
    ensures
        has_key(split_round_spec(m, mk).nodes, k),
        value_of(split_round_spec(m, mk).nodes, k).op == value_of(m.nodes, k).op,
        value_of(split_round_spec(m, mk).nodes, k).cost == value_of(m.nodes, k).cost,
{
    let st0 = SplitState { nodes: m.nodes, class_data: m.class_data, changed: false };
    lemma_keeps_fold(
        st0,
        m.nodes,
        class_ids(m.nodes).len() as int,
        mk,
        k,
        value_of(m.nodes, k).op,
        value_of(m.nodes, k).cost,
    );
}

proof fn lemma_keeps_fold(
    st: SplitState,
    ctx0: Seq<(Seq<char>, NodeModel)>,
    ci: int,
    mk: Seq<Seq<char>>,
    k: Seq<char>,
    o: Seq<char>,
    c: u64,
)
    requires
        keeps(st.nodes, k, o, c),
        !split_prefixed(k),
    ensures
        keeps(split_round_fold(st, ctx0, ci, mk).nodes, k, o, c),
    decreases ci,
{
    if ci > 0 {
        lemma_keeps_fold(st, ctx0, ci - 1, mk, k, o, c);
        lemma_keeps_class_step(
            split_round_fold(st, ctx0, ci - 1, mk),
            ctx0,
            class_ids(ctx0)[ci - 1],
            mk,
            k,
            o,
            c,
        );
    }
}

/// A metadata binding is present with value `d`.
pub open spec fn keeps_cd(
    cd: Seq<(Seq<char>, Option<Seq<char>>)>,
    ck: Seq<char>,
    d: Option<Seq<char>>,
) -> bool {
    has_key(cd, ck) && value_of(cd, ck) == d
}

proof fn lemma_keeps_cd_put(
    cd: Seq<(Seq<char>, Option<Seq<char>>)>,
    cdata: Option<Option<Seq<char>>>,
    ik: Seq<char>,
    ck: Seq<char>,
    d: Option<Seq<char>>,
)
    requires
        keeps_cd(cd, ck, d),
        ik != ck,
    ensures
        keeps_cd(put_cd(cd, cdata, ik), ck, d),
{
    match cdata {
        Some(v) => {
            lemma_insert_entry_props(cd, ik, v, ck);
        },
        None => {},
    }
}

proof fn lemma_keeps_cd_move_alts(
    nodes: Seq<(Seq<char>, NodeModel)>,
    cd: Seq<(Seq<char>, Option<Seq<char>>)>,
    others: Seq<Seq<char>>,
    count: int,
    uid: Seq<char>,
    uval: NodeModel,
    cdata: Option<Option<Seq<char>>>,
    ck: Seq<char>,
    d: Option<Seq<char>>,
)
    requires
        keeps_cd(cd, ck, d),
        !split_prefixed(ck),
    ensures
        keeps_cd(move_alts(nodes, cd, others, count, uid, uval, cdata).1, ck, d),
    decreases count,
{
    if count > 1 {
        lemma_keeps_cd_move_alts(nodes, cd, others, count - 1, uid, uval, cdata, ck, d);
        let (n1, c1) = move_alts(nodes, cd, others, count - 1, uid, uval, cdata);
        let sid = split_id_spec((count - 2) as nat, uid);
        lemma_split_id_prefixed((count - 2) as nat, uid);
        lemma_keeps_cd_put(c1, cdata, sid, ck, d);
    }
}

proof fn lemma_keeps_cd_class_step(
    st: SplitState,
    ctx0: Seq<(Seq<char>, NodeModel)>,
    cid: Seq<char>,
    mk: Seq<Seq<char>>,
    ck: Seq<char>,
    d: Option<Seq<char>>,
)
    requires
        keeps_cd(st.class_data, ck, d),
        !split_prefixed(ck),
    ensures
        keeps_cd(split_class_step(st, ctx0, cid, mk).class_data, ck, d),
{
    let ms = members_of(ctx0, cid);
    let fm = first_marked(mk, ms);
    let others = others_of(mk, ms);
    if fm >= 0 && others.len() > 0 {
        let uid = ms[fm];
        let uval = value_of(st.nodes, uid);
        let cdata = if has_key(st.class_data, cid) {
            Some(value_of(st.class_data, cid))
        } else {
            None
        };
        lemma_keeps_cd_move_alts(
            st.nodes,
            st.class_data,
            others,
            others.len() as int,
            uid,
            uval,
            cdata,
            ck,
            d,
        );
        let c1 = move_alts(
            st.nodes,
            st.class_data,
            others,
            others.len() as int,
            uid,
            uval,
            cdata,
        ).1;
        let sid2 = split_id_spec((others.len() - 1) as nat, uid);
        lemma_split_id_prefixed((others.len() - 1) as nat, uid);
        lemma_keeps_cd_put(c1, cdata, sid2, ck, d);
    }
}

proof fn lemma_keeps_cd_fold(
    st: SplitState,
    ctx0: Seq<(Seq<char>, NodeModel)>,
    ci: int,
    mk: Seq<Seq<char>>,
    ck: Seq<char>,
    d: Option<Seq<char>>,
)
    requires
        keeps_cd(st.class_data, ck, d),
        !split_prefixed(ck),
    ensures
        keeps_cd(split_round_fold(st, ctx0, ci, mk).class_data, ck, d),
    decreases ci,
{
    if ci > 0 {
        lemma_keeps_cd_fold(st, ctx0, ci - 1, mk, ck, d);
        lemma_keeps_cd_class_step(
            split_round_fold(st, ctx0, ci - 1, mk),
            ctx0,
            class_ids(ctx0)[ci - 1],
            mk,
            ck,
            d,
        );
    }
}

/// A splitting round copies metadata only to fresh split-derived class
/// ids: every metadata entry of a class whose id does not carry the
/// split-derived prefix keeps its value.
pub proof fn lemma_split_round_keeps_class_data(m: StoreModel, mk: Seq<Seq<char>>, ck: Seq<char>)
    requires
        has_key(m.class_data, ck),
        !split_prefixed(ck),
    ensures
        has_key(split_round_spec(m, mk).class_data, ck),
        value_of(split_round_spec(m, mk).class_data, ck) == value_of(m.class_data, ck),
{
    let st0 = SplitState { nodes: m.nodes, class_data: m.class_data, changed: false };
    lemma_keeps_cd_fold(
        st0,
        m.nodes,
        class_ids(m.nodes).len() as int,
        mk,
        ck,
        value_of(m.class_data, ck),
    );
}

/// Once a round has changed something, later classes keep that flag.
proof fn lemma_fold_changed_mono(
    st: SplitState,
    ctx0: Seq<(Seq<char>, NodeModel)>,
    a: int,
    b: int,
    mk: Seq<Seq<char>>,
)
    requires
        0 <= a <= b,
        split_round_fold(st, ctx0, a, mk).changed,
    ensures
        split_round_fold(st, ctx0, b, mk).changed,
    decreases b - a,
{
    if a < b {
        let stp = split_round_fold(st, ctx0, b - 1, mk);
        lemma_fold_changed_mono(st, ctx0, a, b - 1, mk);
        assert(split_class_step(stp, ctx0, class_ids(ctx0)[b - 1], mk).changed);
    }
}

/// A round that reports no change found no class bundling a marked
/// member with two or more alternatives: the store is split as far as
/// the marked set allows.
pub proof fn lemma_unchanged_round_shape(m: StoreModel, mk: Seq<Seq<char>>, ci: int)
    requires
        0 <= ci < class_ids(m.nodes).len(),
        !split_round_spec(m, mk).changed,
    ensures
        first_marked(mk, members_of(m.nodes, class_ids(m.nodes)[ci])) >= 0 ==> others_of(
            mk,
            members_of(m.nodes, class_ids(m.nodes)[ci]),
        ).len() < 2,
{
    let st0 = SplitState { nodes: m.nodes, class_data: m.class_data, changed: false };
    let cid = class_ids(m.nodes)[ci];
    let ms = members_of(m.nodes, cid);
    if first_marked(mk, ms) >= 0 && others_of(mk, ms).len() >= 2 {
        let stp = split_round_fold(st0, m.nodes, ci, mk);
        assert(split_class_step(stp, m.nodes, cid, mk).changed);
        assert(split_round_fold(st0, m.nodes, ci + 1, mk).changed);
        lemma_fold_changed_mono(st0, m.nodes, ci + 1, class_ids(m.nodes).len() as int, mk);
        assert(false);
    }
}

proof fn lemma_new_ids_move_alts(
    nodes: Seq<(Seq<char>, NodeModel)>,
    cd: Seq<(Seq<char>, Option<Seq<char>>)>,
    others: Seq<Seq<char>>,
    count: int,
    uid: Seq<char>,
    uval: NodeModel,
    cdata: Option<Option<Seq<char>>>,
    x: Seq<char>,
)
    requires
        count <= others.len(),
        has_key(move_alts(nodes, cd, others, count, uid, uval, cdata).0, x),
    ensures
        has_key(nodes, x) || split_prefixed(x) || others.contains(x),
    decreases count,
{
    if count > 1 {
        let (n1, c1) = move_alts(nodes, cd, others, count - 1, uid, uval, cdata);
        let oi = count - 1;
        let sid = split_id_spec((oi - 1) as nat, uid);
        let on = value_of(n1, others[oi]);
        let n2 = insert_entry(n1, others[oi], with_eclass(on, sid));
        lemma_insert_entry_props(n2, sid, with_eclass(uval, sid), x);
        if x != sid {
            lemma_insert_entry_props(n1, others[oi], with_eclass(on, sid), x);
            if x != others[oi] {
                lemma_new_ids_move_alts(nodes, cd, others, count - 1, uid, uval, cdata, x);
            } else {
                assert(others.contains(x)) by {
                    assert(others[oi] == x);
                }
            }
        } else {
            lemma_split_id_prefixed((oi - 1) as nat, uid);
        }
    }
}

proof fn lemma_new_ids_retarget_positions(
    nodes: Seq<(Seq<char>, NodeModel)>,
    ctx0: Seq<(Seq<char>, NodeModel)>,
    p: int,
    bcnt: int,
    cid: Seq<char>,
    sid2: Seq<char>,
    x: Seq<char>,
)
    requires
        0 <= p < ctx0.len(),
        has_key(retarget_positions(nodes, ctx0, p, bcnt, cid, sid2).0, x),
    ensures
        has_key(nodes, x) || has_key(ctx0, x),
    decreases bcnt,
{
    if bcnt > 0 {
        let (pre, ch) = retarget_positions(nodes, ctx0, p, bcnt - 1, cid, sid2);
        let b = bcnt - 1;
        if child_class0(ctx0, p, b) == cid {
            let pn = value_of(pre, ctx0[p].0);
            if b < pn.children.len() {
                lemma_insert_entry_props(
                    pre,
                    ctx0[p].0,
                    NodeModel {
                        op: pn.op,
                        children: pn.children.update(b, sid2),
                        eclass: pn.eclass,
                        cost: pn.cost,
                    },
                    x,
                );
                if x == ctx0[p].0 {
                    lemma_find_key(ctx0, x);
                    if !has_key(ctx0, x) {
                        assert(ctx0[p].0 != x);
                        assert(false);
                    }
                } else {
                    lemma_new_ids_retarget_positions(nodes, ctx0, p, bcnt - 1, cid, sid2, x);
                }
            } else {
                lemma_new_ids_retarget_positions(nodes, ctx0, p, bcnt - 1, cid, sid2, x);
            }
        } else {
            lemma_new_ids_retarget_positions(nodes, ctx0, p, bcnt - 1, cid, sid2, x);
        }
    }
}

proof fn lemma_new_ids_retarget_all(
    nodes: Seq<(Seq<char>, NodeModel)>,
    ctx0: Seq<(Seq<char>, NodeModel)>,
    pcnt: int,
    cid: Seq<char>,
    sid2: Seq<char>,
    x: Seq<char>,
)
    requires
        pcnt <= ctx0.len(),
        has_key(retarget_all(nodes, ctx0, pcnt, cid, sid2).0, x),
    ensures
        has_key(nodes, x) || has_key(ctx0, x),
    decreases pcnt,
{
    if pcnt > 0 {
        let (pre, ch) = retarget_all(nodes, ctx0, pcnt - 1, cid, sid2);
        lemma_new_ids_retarget_positions(
            pre,
            ctx0,
            pcnt - 1,
            ctx0[pcnt - 1].1.children.len() as int,
            cid,
            sid2,
            x,
        );
        if has_key(pre, x) {
            lemma_new_ids_retarget_all(nodes, ctx0, pcnt - 1, cid, sid2, x);
        }
    }
}

proof fn lemma_new_ids_class_step(
    st: SplitState,
    ctx0: Seq<(Seq<char>, NodeModel)>,
    cid: Seq<char>,
    mk: Seq<Seq<char>>,
    x: Seq<char>,
)
    requires
        keys_distinct(ctx0),
        has_key(split_class_step(st, ctx0, cid, mk).nodes, x),
    ensures
        has_key(st.nodes, x) || has_key(ctx0, x) || split_prefixed(x),
{
    let ms = members_of(ctx0, cid);
    let fm = first_marked(mk, ms);
    let others = others_of(mk, ms);
    if fm >= 0 && others.len() > 0 {
        let uid = ms[fm];
        let uval = value_of(st.nodes, uid);
        let cdata = if has_key(st.class_data, cid) {
            Some(value_of(st.class_data, cid))
        } else {
            None
        };
        let n1 = move_alts(
            st.nodes,
            st.class_data,
            others,
            others.len() as int,
            uid,
            uval,
            cdata,
        ).0;
        let sid2 = split_id_spec((others.len() - 1) as nat, uid);
        let n2 = insert_entry(n1, sid2, with_eclass(uval, sid2));
        lemma_new_ids_retarget_all(n2, ctx0, ctx0.len() as int, cid, sid2, x);
        if has_key(n2, x) {
            lemma_insert_entry_props(n1, sid2, with_eclass(uval, sid2), x);
            if x == sid2 {
                lemma_split_id_prefixed((others.len() - 1) as nat, uid);
            } else {
                lemma_new_ids_move_alts(
                    st.nodes,
                    st.class_data,
                    others,
                    others.len() as int,
                    uid,
                    uval,
                    cdata,
                    x,
                );
                if others.contains(x) {
                    lemma_others_are_members(mk, ms, x);
                    lemma_member_has_key(ctx0, cid, x);
                }
            }
        }
    }
}

/// An unmarked alternative is one of the class's members.
proof fn lemma_others_are_members(mk: Seq<Seq<char>>, ms: Seq<Seq<char>>, x: Seq<char>)
    requires
        others_of(mk, ms).contains(x),
    ensures
        ms.contains(x),
    decreases ms.len(),
{
    if ms.len() != 0 {
        let pre = others_of(mk, ms.drop_last());
        if !mk.contains(ms.last()) && others_of(mk, ms)[others_of(mk, ms).len() - 1] == x
            && pre.len() == others_of(mk, ms).len() - 1 {
        }
        let j = choose|j: int| 0 <= j < others_of(mk, ms).len() && others_of(mk, ms)[j] == x;
        if j < pre.len() {
            assert(pre[j] == x);
            assert(pre.contains(x));
            lemma_others_are_members(mk, ms.drop_last(), x);
            let i = choose|i: int| 0 <= i < ms.drop_last().len() && ms.drop_last()[i] == x;
            assert(ms[i] == x);
        } else {
            assert(others_of(mk, ms)[j] == ms.last());
            assert(ms[ms.len() - 1] == x);
        }
    }
}

/// A splitting round adds nodes only under split-derived ids: every key
/// of the result was a key before or carries the prefix.
pub proof fn lemma_split_round_new_ids(m: StoreModel, mk: Seq<Seq<char>>, x: Seq<char>)
    requires
        keys_distinct(m.nodes),
        has_key(split_round_spec(m, mk).nodes, x),
    ensures
        has_key(m.nodes, x) || split_prefixed(x),
{
    let st0 = SplitState { nodes: m.nodes, class_data: m.class_data, changed: false };
    lemma_new_ids_fold(st0, m.nodes, class_ids(m.nodes).len() as int, mk, x);
}

proof fn lemma_new_ids_fold(
    st: SplitState,
    ctx0: Seq<(Seq<char>, NodeModel)>,
    ci: int,
    mk: Seq<Seq<char>>,
    x: Seq<char>,
)
    requires
        keys_distinct(ctx0),
        has_key(split_round_fold(st, ctx0, ci, mk).nodes, x),
    ensures
        has_key(st.nodes, x) || has_key(ctx0, x) || split_prefixed(x),
    decreases ci,
{
    if ci > 0 {
        lemma_new_ids_class_step(
            split_round_fold(st, ctx0, ci - 1, mk),
            ctx0,
            class_ids(ctx0)[ci - 1],
            mk,
            x,
        );
        if has_key(split_round_fold(st, ctx0, ci - 1, mk).nodes, x) {
            lemma_new_ids_fold(st, ctx0, ci - 1, mk, x);
        }
    }
}

/// The store after one conflict-free round over marked set `mkv`; roots
/// are untouched by splitting.
pub open spec fn round_image(m: StoreModel, mkv: Seq<Seq<char>>) -> StoreModel {
    StoreModel {
        nodes: split_round_spec(m, mkv).nodes,
        roots: m.roots,
        class_data: split_round_spec(m, mkv).class_data,
    }
}

/// `to` arises from `from` by exactly `k` completed conflict-free
/// rounds, each over a marked set the predicate can produce on the
/// store that round starts from.
pub open spec fn split_evolves<F: Fn(&NodeId, &Node) -> bool>(
    f: F,
    from: StoreModel,
    to: StoreModel,
    k: nat,
) -> bool
    decreases k,
{
    if k == 0 {
        to == from
    } else {
        exists|mkv: Seq<Seq<char>>|
            #[trigger] marked_all(f, from.nodes, mkv) && !split_conflict(from.nodes, mkv)
                && split_evolves(f, round_image(from, mkv), to, (k - 1) as nat)
    }
}

/// One further completed round extends a chain of rounds at its end.
pub proof fn lemma_evolves_snoc<F: Fn(&NodeId, &Node) -> bool>(
    f: F,
    from: StoreModel,
    mid: StoreModel,
    mkv: Seq<Seq<char>>,
    k: nat,
)
    requires
        split_evolves(f, from, mid, k),
        marked_all(f, mid.nodes, mkv),
        !split_conflict(mid.nodes, mkv),
    ensures
        split_evolves(f, from, round_image(mid, mkv), (k + 1) as nat),
    decreases k,
{
    if k == 0 {
        assert(mid == from);
        assert(marked_all(f, from.nodes, mkv) && !split_conflict(from.nodes, mkv)
            && split_evolves(f, round_image(from, mkv), round_image(from, mkv), 0));
    } else {
        let mkv0 = choose|mkv0: Seq<Seq<char>>|
            #[trigger] marked_all(f, from.nodes, mkv0) && !split_conflict(from.nodes, mkv0)
                && split_evolves(f, round_image(from, mkv0), mid, (k - 1) as nat);
        lemma_evolves_snoc(f, round_image(from, mkv0), mid, mkv, (k - 1) as nat);
        assert(marked_all(f, from.nodes, mkv0) && !split_conflict(from.nodes, mkv0)
            && split_evolves(f, round_image(from, mkv0), round_image(mid, mkv), k));
    }
}

} // verus!
