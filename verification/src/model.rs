use vstd::prelude::*;

use crate::node::NodeModel;

verus! {

/// The mathematical value of a whole graph store: the node table as a
/// sequence of (id, node) pairs in table order, the designated root class
/// ids in order, and the per-class metadata table in order.
pub ghost struct StoreModel {
    pub nodes: Seq<(Seq<char>, NodeModel)>,
    pub roots: Seq<Seq<char>>,
    pub class_data: Seq<(Seq<char>, Option<Seq<char>>)>,
}

/// The position of key `k` in the association sequence `s`, or -1 when absent.
pub open spec fn find_key<V>(s: Seq<(Seq<char>, V)>, k: Seq<char>) -> int
    decreases s.len(),
{
    if s.len() == 0 {
        -1
    } else if s[0].0 == k {
        0
    } else {
        let r = find_key(s.subrange(1, s.len() as int), k);
        if r < 0 {
            -1
        } else {
            r + 1
        }
    }
}

pub open spec fn has_key<V>(s: Seq<(Seq<char>, V)>, k: Seq<char>) -> bool {
    find_key(s, k) >= 0
}

/// The value bound to key `k`; meaningful only when `has_key(s, k)`.
pub open spec fn value_of<V>(s: Seq<(Seq<char>, V)>, k: Seq<char>) -> V {
    s[find_key(s, k)].1
}

/// No two entries of `s` bind the same key.
pub open spec fn keys_distinct<V>(s: Seq<(Seq<char>, V)>) -> bool {
    forall|i: int, j: int| 0 <= i < j < s.len() ==> s[i].0 != s[j].0
}

pub proof fn lemma_find_key<V>(s: Seq<(Seq<char>, V)>, k: Seq<char>)
    ensures
        -1 <= find_key(s, k) < s.len(),
        find_key(s, k) >= 0 ==> s[find_key(s, k)].0 == k,
        find_key(s, k) == -1 ==> forall|i: int| 0 <= i < s.len() ==> s[i].0 != k,
    decreases s.len(),
{
    if s.len() != 0 && s[0].0 != k {
        let t = s.subrange(1, s.len() as int);
        lemma_find_key(t, k);
        if find_key(s, k) == -1 {
            assert forall|i: int| 0 <= i < s.len() implies s[i].0 != k by {
                if i >= 1 {
                    assert(t[i - 1] == s[i]);
                }
            }
        }
    }
}

/// With distinct keys, the entry whose key is `k` is the one `find_key` names.
pub proof fn lemma_find_key_at<V>(s: Seq<(Seq<char>, V)>, i: int)
    requires
        keys_distinct(s),
        0 <= i < s.len(),
    ensures
        find_key(s, s[i].0) == i,
    decreases s.len(),
{
    lemma_find_key(s, s[i].0);
    if s.len() != 0 {
        if s[0].0 == s[i].0 {
            assert(i == 0);
        } else {
            let t = s.subrange(1, s.len() as int);
            assert(keys_distinct(t)) by {
                assert(forall|p: int, q: int|
                    0 <= p < q < t.len() ==> t[p].0 == s[p + 1].0 && t[q].0 == s[q + 1].0);
            }
            assert(t[i - 1] == s[i]);
            lemma_find_key_at(t, i - 1);
        }
    }
}

/// `find_key` after appending one entry.
pub proof fn lemma_find_key_push<V>(s: Seq<(Seq<char>, V)>, e: (Seq<char>, V), k: Seq<char>)
    ensures
        find_key(s.push(e), k) == (if has_key(s, k) {
            find_key(s, k)
        } else if e.0 == k {
            s.len() as int
        } else {
            -1
        }),
    decreases s.len(),
{
    let sp = s.push(e);
    if s.len() == 0 {
        assert(sp.len() == 1);
        assert(sp[0] == e);
        assert(find_key(s, k) == -1);
        if e.0 != k {
            assert(sp.subrange(1, 1) =~= Seq::<(Seq<char>, V)>::empty());
            assert(find_key(Seq::<(Seq<char>, V)>::empty(), k) == -1);
            assert(find_key(sp.subrange(1, 1), k) == -1);
            assert(find_key(sp, k) == -1);
        } else {
            assert(find_key(sp, k) == 0);
        }
    } else if sp[0].0 == k {
        assert(sp[0] == s[0]);
        assert(find_key(s.push(e), k) == (if has_key(s, k) {
            find_key(s, k)
        } else if e.0 == k {
            s.len() as int
        } else {
            -1
        }));
    } else {
        let t = s.subrange(1, s.len() as int);
        assert(sp[0] == s[0]);
        assert(sp.subrange(1, sp.len() as int) =~= t.push(e));
        lemma_find_key_push(t, e, k);
        assert(t.len() == s.len() - 1);
        let r = find_key(t.push(e), k);
        assert(find_key(sp, k) == (if r < 0 {
            -1
        } else {
            r + 1
        }));
        let r2 = find_key(t, k);
        assert(find_key(s, k) == (if r2 < 0 {
            -1
        } else {
            r2 + 1
        }));
        lemma_find_key(t, k);
        assert(find_key(s.push(e), k) == (if has_key(s, k) {
            find_key(s, k)
        } else if e.0 == k {
            s.len() as int
        } else {
            -1
        }));
    }
}

/// The table after binding `k` to `v`: an existing key keeps its place,
/// a new key is appended last.
pub open spec fn insert_entry<V>(s: Seq<(Seq<char>, V)>, k: Seq<char>, v: V) -> Seq<(Seq<char>, V)> {
    if has_key(s, k) {
        s.update(find_key(s, k), (k, v))
    } else {
        s.push((k, v))
    }
}

/// What binding one key does to lookups of every key.
pub proof fn lemma_insert_entry_props<V>(s: Seq<(Seq<char>, V)>, k: Seq<char>, v: V, k2: Seq<char>)
    ensures
        has_key(insert_entry(s, k, v), k2) <==> (has_key(s, k2) || k2 == k),
        k2 == k ==> value_of(insert_entry(s, k, v), k2) == v,
        k2 != k && has_key(s, k2) ==> value_of(insert_entry(s, k, v), k2) == value_of(s, k2),
{
    lemma_find_key(s, k);
    if has_key(s, k) {
        let i = find_key(s, k);
        lemma_find_key_update(s, i, (k, v), k2);
        lemma_find_key(s, k2);
        if k2 == k {
            assert(find_key(s.update(i, (k, v)), k2) == i);
        } else if has_key(s, k2) {
            let f2 = find_key(s, k2);
            assert(s[f2].0 == k2);
            assert(f2 != i);
            assert(s.update(i, (k, v))[f2] == s[f2]);
        }
    } else {
        lemma_find_key_push(s, (k, v), k2);
        lemma_find_key(s, k2);
        if k2 == k {
            assert(s.push((k, v))[s.len() as int] == (k, v));
        } else if has_key(s, k2) {
            let f2 = find_key(s, k2);
            assert(s.push((k, v))[f2] == s[f2]);
        }
    }
}

/// Binding one key never shrinks the table.
pub proof fn lemma_insert_entry_len<V>(s: Seq<(Seq<char>, V)>, k: Seq<char>, v: V)
    ensures
        insert_entry(s, k, v).len() >= s.len(),
{
    lemma_find_key(s, k);
    if has_key(s, k) {
        assert(insert_entry(s, k, v) == s.update(find_key(s, k), (k, v)));
        assert(s.update(find_key(s, k), (k, v)).len() == s.len());
    } else {
        assert(insert_entry(s, k, v) == s.push((k, v)));
        assert(s.push((k, v)).len() == s.len() + 1);
    }
}

/// Distinct keys stay distinct when one key is bound.
pub proof fn lemma_insert_entry_distinct<V>(s: Seq<(Seq<char>, V)>, k: Seq<char>, v: V)
    requires
        keys_distinct(s),
    ensures
        keys_distinct(insert_entry(s, k, v)),
{
    lemma_find_key(s, k);
    let t = insert_entry(s, k, v);
    if has_key(s, k) {
        let i = find_key(s, k);
        assert(s[i].0 == k);
        assert forall|p: int, q: int| 0 <= p < q < t.len() implies t[p].0 != t[q].0 by {
            assert(t[p].0 == s[p].0);
            assert(t[q].0 == s[q].0);
        }
    } else {
        assert forall|p: int, q: int| 0 <= p < q < t.len() implies t[p].0 != t[q].0 by {
            if q < s.len() {
            } else {
                assert(t[q].0 == k);
                assert(t[p] == s[p]);
                if s[p].0 == k {
                    lemma_find_key(s, k);
                    assert(false);
                }
            }
        }
    }
}

/// `find_key` after replacing the entry at a position with one of the same key.
pub proof fn lemma_find_key_update<V>(s: Seq<(Seq<char>, V)>, i: int, e: (Seq<char>, V), k: Seq<char>)
    requires
        0 <= i < s.len(),
        s[i].0 == e.0,
    ensures
        find_key(s.update(i, e), k) == find_key(s, k),
    decreases s.len(),
{
    let su = s.update(i, e);
    if s.len() == 0 {
    } else if i == 0 {
        assert(su[0].0 == s[0].0);
        if s[0].0 != k {
            assert(su.subrange(1, su.len() as int) =~= s.subrange(1, s.len() as int));
        }
    } else {
        assert(su[0] == s[0]);
        if s[0].0 != k {
            assert(su.subrange(1, su.len() as int) =~= s.subrange(1, s.len() as int).update(
                i - 1,
                e,
            ));
            lemma_find_key_update(s.subrange(1, s.len() as int), i - 1, e, k);
        }
    }
}

} // verus!
