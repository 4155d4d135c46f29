use egraph_serialize::ClassId;
use egraph_serialize::EGraph;
use egraph_serialize::Node;
use egraph_serialize::NodeId;
use egraph_serialize::ClassData;
use egraph_serialize::MISSING_ARG_VALUE;
use egraph_serialize::render::escape_label;
use egraph_serialize::render::html_label;

fn nid(s: &str) -> NodeId {
    NodeId::from_str(s)
}

fn cid(s: &str) -> ClassId {
    ClassId::from_str(s)
}

fn node(op: &str, children: Vec<&str>, eclass: &str, cost: u64) -> Node {
    let kids: Vec<NodeId> = children.into_iter().map(nid).collect();
    Node::new(op.to_string(), kids, cid(eclass), cost)
}

fn total_cost(eg: &EGraph, ids: &[&str]) -> u64 {
    let mut t = 0u64;
    for id in ids {
        if let Some(n) = eg.get_node(&nid(id)) {
            t += n.cost;
        }
    }
    t
}

#[test]
fn test_store_basics() {
    let mut eg = EGraph::new();
    assert_eq!(eg.num_nodes(), 0);
    eg.add_node(nid("a"), node("plus", vec!["b"], "c0", 1));
    eg.add_node(nid("b"), node("one", vec![], "c1", 2));
    assert_eq!(eg.num_nodes(), 2);
    let a = eg.get_node(&nid("a")).unwrap();
    assert_eq!(a.op, "plus");
    assert_eq!(a.cost, 1);
    assert_eq!(a.children.len(), 1);
    assert!(a.children[0].as_str() == "b");
    assert!(eg.get_node(&nid("zz")).is_none());
    assert_eq!(eg.nid_to_cid(&nid("b")).as_str(), "c1");
    assert!(!a.is_leaf());
    let b = eg.get_node(&nid("b")).unwrap();
    assert!(b.is_leaf());
}

#[test]
fn test_roots_and_class_data() {
    let mut eg = EGraph::new();
    eg.add_node(nid("n"), node("x", vec![], "c", 1));
    eg.add_root(cid("c"));
    assert_eq!(eg.roots().len(), 1);
    assert_eq!(eg.roots()[0].as_str(), "c");
    assert!(eg.get_class_data(&cid("c")).is_none());
    eg.set_class_data(cid("c"), ClassData { typ: Some("i64".to_string()) });
    let d = eg.get_class_data(&cid("c")).unwrap();
    assert_eq!(d.typ.as_deref(), Some("i64"));
    eg.set_class_data(cid("c"), ClassData { typ: None });
    assert!(eg.get_class_data(&cid("c")).unwrap().typ.is_none());
}

#[test]
fn test_classes_grouping() {
    let mut eg = EGraph::new();
    eg.add_node(nid("a"), node("x", vec![], "c1", 1));
    eg.add_node(nid("b"), node("y", vec![], "c2", 1));
    eg.add_node(nid("c"), node("z", vec![], "c1", 1));
    let classes = eg.classes();
    assert_eq!(classes.len(), 2);
    assert_eq!(classes[0].id.as_str(), "c1");
    assert_eq!(classes[0].nodes.len(), 2);
    assert_eq!(classes[0].nodes[0].as_str(), "a");
    assert_eq!(classes[0].nodes[1].as_str(), "c");
    assert_eq!(classes[1].id.as_str(), "c2");
    assert_eq!(classes[1].nodes.len(), 1);
    let cls = eg.nid_to_class(&nid("c"));
    assert_eq!(cls.id.as_str(), "c1");
    assert_eq!(cls.nodes.len(), 2);
}

#[test]
fn test_classes_recomputed_after_mutation() {
    let mut eg = EGraph::new();
    eg.add_node(nid("a"), node("x", vec![], "c1", 1));
    assert_eq!(eg.classes().len(), 1);
    eg.add_node(nid("b"), node("y", vec![], "c2", 1));
    assert_eq!(eg.classes().len(), 2);
}

// Parent `f` has children `a` (label "1", childless) and `b` (label "g",
// one child `c` of label "2", childless). One round inlines `a` into `f`
// and `c` into `b`.
#[test]
fn test_inline_example() {
    let mut eg = EGraph::new();
    eg.add_node(nid("f"), node("f", vec!["a", "b"], "cf", 1));
    eg.add_node(nid("a"), node("1", vec![], "ca", 1));
    eg.add_node(nid("b"), node("g", vec!["c"], "cb", 1));
    eg.add_node(nid("c"), node("2", vec![], "cc", 1));
    let removed = eg.inline_leaves();
    assert_eq!(removed, 2);
    let f = eg.get_node(&nid("f")).unwrap();
    assert_eq!(f.op, format!("f(1, {})", MISSING_ARG_VALUE));
    assert_eq!(f.children.len(), 1);
    assert_eq!(f.children[0].as_str(), "b");
    let b = eg.get_node(&nid("b")).unwrap();
    assert_eq!(b.op, "g(2)");
    assert!(b.children.is_empty());
    assert!(eg.get_node(&nid("a")).is_none());
    assert!(eg.get_node(&nid("c")).is_none());
}

// A second round fills the remaining placeholder in place, because the
// placeholder count now matches the argument count.
#[test]
fn test_inline_second_round_fills_placeholder() {
    let mut eg = EGraph::new();
    eg.add_node(nid("f"), node("f", vec!["a", "b"], "cf", 1));
    eg.add_node(nid("a"), node("1", vec![], "ca", 1));
    eg.add_node(nid("b"), node("g", vec!["c"], "cb", 1));
    eg.add_node(nid("c"), node("2", vec![], "cc", 1));
    eg.saturate_inline_leaves();
    let f = eg.get_node(&nid("f")).unwrap();
    assert_eq!(f.op, "f(1, g(2))");
    assert!(f.children.is_empty());
    assert_eq!(f.cost, 4);
    assert_eq!(eg.num_nodes(), 1);
}

#[test]
fn test_inline_cost_conservation_one_round() {
    let mut eg = EGraph::new();
    eg.add_node(nid("f"), node("f", vec!["a", "b"], "cf", 3));
    eg.add_node(nid("a"), node("1", vec![], "ca", 5));
    eg.add_node(nid("b"), node("g", vec!["c"], "cb", 7));
    eg.add_node(nid("c"), node("2", vec![], "cc", 11));
    eg.add_node(nid("iso"), node("lonely", vec![], "ci", 13));
    let ids = ["f", "a", "b", "c", "iso"];
    let before = total_cost(&eg, &ids);
    eg.inline_leaves();
    let after = total_cost(&eg, &ids);
    assert_eq!(before, after);
    assert_eq!(before, 39);
}

#[test]
fn test_saturate_terminates_and_is_idempotent() {
    let mut eg = EGraph::new();
    eg.add_node(nid("f"), node("f", vec!["a"], "cf", 1));
    eg.add_node(nid("a"), node("g", vec!["b"], "ca", 1));
    eg.add_node(nid("b"), node("h", vec!["c"], "cb", 1));
    eg.add_node(nid("c"), node("3", vec![], "cc", 1));
    eg.saturate_inline_leaves();
    assert_eq!(eg.num_nodes(), 1);
    assert_eq!(eg.inline_leaves(), 0);
    let f = eg.get_node(&nid("f")).unwrap();
    assert_eq!(f.op, "f(g(h(3)))");
    let op_before = f.op.clone();
    eg.saturate_inline_leaves();
    assert_eq!(eg.get_node(&nid("f")).unwrap().op, op_before);
}

// A childless node with no parent is never deleted, no matter how many
// rounds run.
#[test]
fn test_isolated_node_survives() {
    let mut eg = EGraph::new();
    eg.add_node(nid("iso"), node("island", vec![], "ci", 9));
    eg.add_node(nid("f"), node("f", vec!["a"], "cf", 1));
    eg.add_node(nid("a"), node("1", vec![], "ca", 1));
    eg.saturate_inline_leaves();
    eg.saturate_inline_leaves();
    assert_eq!(eg.inline_leaves(), 0);
    let iso = eg.get_node(&nid("iso")).unwrap();
    assert_eq!(iso.op, "island");
    assert_eq!(iso.cost, 9);
    assert!(iso.children.is_empty());
}

#[test]
fn test_inline_root_leaf_drops_root_entry() {
    let mut eg = EGraph::new();
    eg.add_node(nid("f"), node("f", vec!["a"], "cf", 1));
    eg.add_node(nid("a"), node("1", vec![], "ca", 1));
    eg.add_root(cid("ca"));
    eg.add_root(cid("cf"));
    eg.set_class_data(cid("ca"), ClassData { typ: Some("t".to_string()) });
    eg.inline_leaves();
    let roots = eg.roots();
    assert_eq!(roots.len(), 1);
    assert_eq!(roots[0].as_str(), "cf");
    assert!(eg.get_class_data(&cid("ca")).is_none());
}

// Class C holds a marked node `m` and alternatives `x` and `y`. After
// splitting, C keeps {m, x}; a fresh class holds {y, m'}; one more fresh
// class holds a copy of m alone, and the prior reference into C targets it.
#[test]
fn test_split_example() {
    let mut eg = EGraph::new();
    eg.add_node(nid("m"), node("mark", vec![], "C", 1));
    eg.add_node(nid("x"), node("x", vec![], "C", 1));
    eg.add_node(nid("y"), node("y", vec![], "C", 1));
    eg.add_node(nid("p"), node("p", vec!["x"], "P", 1));
    let r = eg.split_e_classes(|id: &NodeId, _n: &Node| id.as_str() == "m");
    assert!(r.is_ok());
    // C keeps the marked node and the first alternative
    assert_eq!(eg.nid_to_cid(&nid("m")).as_str(), "C");
    assert_eq!(eg.nid_to_cid(&nid("x")).as_str(), "C");
    // y moved into a fresh class holding a copy of m
    assert_eq!(eg.nid_to_cid(&nid("y")).as_str(), "split-0-m");
    let m1 = eg.get_node(&nid("split-0-m")).unwrap();
    assert_eq!(m1.op, "mark");
    assert_eq!(m1.eclass.as_str(), "split-0-m");
    // one further fresh class holds a copy of m alone
    let m2 = eg.get_node(&nid("split-1-m")).unwrap();
    assert_eq!(m2.op, "mark");
    assert_eq!(m2.eclass.as_str(), "split-1-m");
    // the prior reference into C now targets that copy's class
    let p = eg.get_node(&nid("p")).unwrap();
    assert_eq!(p.children.len(), 1);
    assert_eq!(p.children[0].as_str(), "split-1-m");
}

#[test]
fn test_split_copies_class_data() {
    let mut eg = EGraph::new();
    eg.add_node(nid("m"), node("mark", vec![], "C", 1));
    eg.add_node(nid("x"), node("x", vec![], "C", 1));
    eg.add_node(nid("y"), node("y", vec![], "C", 1));
    eg.set_class_data(cid("C"), ClassData { typ: Some("i64".to_string()) });
    let r = eg.split_e_classes(|id: &NodeId, _n: &Node| id.as_str() == "m");
    assert!(r.is_ok());
    let d0 = eg.get_class_data(&cid("split-0-m")).unwrap();
    assert_eq!(d0.typ.as_deref(), Some("i64"));
    let d1 = eg.get_class_data(&cid("split-1-m")).unwrap();
    assert_eq!(d1.typ.as_deref(), Some("i64"));
}

// Two marked nodes in one class are caller misuse: the round reports the
// class and both nodes and mutates nothing.
#[test]
fn test_split_conflict_aborts_without_mutation() {
    let mut eg = EGraph::new();
    eg.add_node(nid("m1"), node("mark", vec![], "C", 1));
    eg.add_node(nid("m2"), node("mark", vec![], "C", 2));
    eg.add_node(nid("x"), node("x", vec![], "C", 3));
    let marked = vec![nid("m1"), nid("m2")];
    let r = eg.split_round(&marked);
    let e = r.err().expect("conflict expected");
    assert_eq!(e.class.as_str(), "C");
    assert_eq!(e.first.as_str(), "m1");
    assert_eq!(e.second.as_str(), "m2");
    assert_eq!(eg.num_nodes(), 3);
    assert_eq!(eg.get_node(&nid("m1")).unwrap().cost, 1);
    assert_eq!(eg.get_node(&nid("m2")).unwrap().cost, 2);
    assert_eq!(eg.nid_to_cid(&nid("x")).as_str(), "C");
}

#[test]
fn test_split_conflict_through_predicate() {
    let mut eg = EGraph::new();
    eg.add_node(nid("m1"), node("mark", vec![], "C", 1));
    eg.add_node(nid("m2"), node("mark", vec![], "C", 1));
    let r = eg.split_e_classes(|_id: &NodeId, n: &Node| n.op == "mark");
    assert!(r.is_err());
    let e = r.err().unwrap();
    assert_eq!(e.class.as_str(), "C");
}

#[test]
fn test_split_nothing_marked_changes_nothing() {
    let mut eg = EGraph::new();
    eg.add_node(nid("a"), node("x", vec![], "C", 1));
    eg.add_node(nid("b"), node("y", vec![], "C", 1));
    let r = eg.split_e_classes(|_id: &NodeId, _n: &Node| false);
    assert!(r.is_ok());
    assert_eq!(eg.num_nodes(), 2);
    assert_eq!(eg.nid_to_cid(&nid("a")).as_str(), "C");
    assert_eq!(eg.nid_to_cid(&nid("b")).as_str(), "C");
}

#[test]
fn test_split_round_reports_change() {
    let mut eg = EGraph::new();
    eg.add_node(nid("m"), node("mark", vec![], "C", 1));
    eg.add_node(nid("x"), node("x", vec![], "C", 1));
    eg.add_node(nid("y"), node("y", vec![], "C", 1));
    let marked = vec![nid("m")];
    let r = eg.split_round(&marked);
    assert_eq!(r.ok(), Some(true));
    let marked2 = vec![nid("m")];
    let r2 = eg.split_round(&marked2);
    assert_eq!(r2.ok(), Some(false));
}

#[test]
fn test_placeholder_glyph() {
    assert_eq!(MISSING_ARG_VALUE, "\u{b7}");
    assert_eq!(MISSING_ARG_VALUE.chars().count(), 1);
}

#[test]
fn test_escape_label() {
    assert_eq!(escape_label("plain"), "plain");
    assert_eq!(escape_label("a<b"), "a&lt;b");
    assert_eq!(escape_label("a>b"), "a&gt;b");
    assert_eq!(escape_label("a&b"), "a&amp;b");
    assert_eq!(escape_label("a'b"), "a&#39;b");
    assert_eq!(escape_label("a\"b"), "a&quot;b");
    assert_eq!(escape_label("a\nb"), "a<br/>b");
    assert_eq!(escape_label("<&>"), "&lt;&amp;&gt;");
    assert_eq!(escape_label(""), "");
}

#[test]
fn test_cost_saturates_instead_of_overflowing() {
    let mut eg = EGraph::new();
    eg.add_node(nid("f"), node("f", vec!["a"], "cf", u64::MAX - 1));
    eg.add_node(nid("a"), node("1", vec![], "ca", 5));
    eg.inline_leaves();
    assert_eq!(eg.get_node(&nid("f")).unwrap().cost, u64::MAX);
}

#[test]
fn test_shared_leaf_counted_per_reference() {
    // one leaf with two parents: its cost flows into both parents
    let mut eg = EGraph::new();
    eg.add_node(nid("p1"), node("p1", vec!["l"], "c1", 1));
    eg.add_node(nid("p2"), node("p2", vec!["l"], "c2", 1));
    eg.add_node(nid("l"), node("7", vec![], "cl", 10));
    let removed = eg.inline_leaves();
    assert_eq!(removed, 1);
    assert_eq!(eg.get_node(&nid("p1")).unwrap().cost, 11);
    assert_eq!(eg.get_node(&nid("p2")).unwrap().cost, 11);
    assert_eq!(eg.get_node(&nid("p1")).unwrap().op, "p1(7)");
    assert_eq!(eg.get_node(&nid("p2")).unwrap().op, "p2(7)");
}

#[test]
fn test_two_member_class_is_not_a_leaf_class() {
    let mut eg = EGraph::new();
    eg.add_node(nid("f"), node("f", vec!["a"], "cf", 1));
    eg.add_node(nid("a"), node("1", vec![], "ca", 1));
    eg.add_node(nid("a2"), node("one", vec![], "ca", 1));
    assert_eq!(eg.inline_leaves(), 0);
    assert_eq!(eg.get_node(&nid("f")).unwrap().op, "f");
}

#[test]
fn test_empty_store() {
    let mut eg = EGraph::new();
    assert_eq!(eg.num_nodes(), 0);
    assert_eq!(eg.inline_leaves(), 0);
    eg.saturate_inline_leaves();
    assert!(eg.classes().is_empty());
    assert!(eg.node_ids().is_empty());
    assert!(eg.roots().is_empty());
    let r = eg.split_e_classes(|_id: &NodeId, _n: &Node| true);
    assert!(r.is_ok());
    assert_eq!(eg.num_nodes(), 0);
}

#[test]
fn test_node_ids_in_table_order() {
    let mut eg = EGraph::new();
    eg.add_node(nid("z"), node("z", vec![], "c1", 1));
    eg.add_node(nid("a"), node("a", vec![], "c2", 1));
    eg.add_node(nid("m"), node("m", vec![], "c3", 1));
    let ids: Vec<String> = eg.node_ids().iter().map(|i| i.as_str().to_string()).collect();
    assert_eq!(ids, vec!["z", "a", "m"]);
    eg.set_class_data(cid("c3"), ClassData { typ: None });
    eg.set_class_data(cid("c1"), ClassData { typ: None });
    let cids: Vec<String> = eg.class_data_ids().iter().map(|i| i.as_str().to_string()).collect();
    assert_eq!(cids, vec!["c3", "c1"]);
}

#[test]
fn test_parts_round_trip() {
    let mut eg = EGraph::new();
    eg.add_node(nid("f"), node("f", vec!["a", "b"], "cf", 3));
    eg.add_node(nid("a"), node("1", vec![], "ca", 5));
    eg.add_node(nid("b"), node("g", vec!["a"], "cb", 7));
    eg.add_root(cid("cf"));
    eg.add_root(cid("ca"));
    eg.set_class_data(cid("cf"), ClassData { typ: Some("i64".to_string()) });
    eg.set_class_data(cid("ca"), ClassData { typ: None });
    let (nodes, roots, class_data) = eg.to_parts();
    let eg2 = EGraph::from_parts(nodes, roots, class_data);
    let ids: Vec<String> = eg.node_ids().iter().map(|i| i.as_str().to_string()).collect();
    let ids2: Vec<String> = eg2.node_ids().iter().map(|i| i.as_str().to_string()).collect();
    assert_eq!(ids, ids2);
    for id in eg.node_ids() {
        let n1 = eg.get_node(&id).unwrap();
        let n2 = eg2.get_node(&id).unwrap();
        assert_eq!(n1.op, n2.op);
        assert_eq!(n1.cost, n2.cost);
        assert_eq!(n1.eclass.as_str(), n2.eclass.as_str());
        let c1: Vec<&str> = n1.children.iter().map(|c| c.as_str()).collect();
        let c2: Vec<&str> = n2.children.iter().map(|c| c.as_str()).collect();
        assert_eq!(c1, c2);
    }
    let r1: Vec<&str> = eg.roots().iter().map(|c| c.as_str()).collect();
    let r2: Vec<&str> = eg2.roots().iter().map(|c| c.as_str()).collect();
    assert_eq!(r1, r2);
    for c in eg.class_data_ids() {
        assert_eq!(
            eg.get_class_data(&c).unwrap().typ,
            eg2.get_class_data(&c).unwrap().typ
        );
    }
}

#[test]
fn test_html_label() {
    assert_eq!(
        html_label("f", 2),
        "<<TABLE BGCOLOR=\"white\" CELLBORDER=\"0\" CELLSPACING=\"0\" CELLPADDING=\"0\" style=\"rounded\"><tr><td BALIGN=\"left\" CELLPADDING=\"4\" WIDTH=\"30\" HEIGHT=\"30\" colspan=\"2\">f</td></tr><TR><TD PORT=\"0\"></TD><TD PORT=\"1\"></TD></TR></TABLE>>"
    );
    assert_eq!(
        html_label("a<b", 0),
        "<<TABLE BGCOLOR=\"white\" CELLBORDER=\"0\" CELLSPACING=\"0\" CELLPADDING=\"0\" style=\"rounded\"><tr><td BALIGN=\"left\" CELLPADDING=\"4\" WIDTH=\"30\" HEIGHT=\"30\">a&lt;b</td></tr></TABLE>>"
    );
}

// Two effective rounds: splitting C exposes a reference into D, whose
// class is split in the following round.
#[test]
fn test_split_two_rounds() {
    let mut eg = EGraph::new();
    eg.add_node(nid("m"), node("mark", vec!["d"], "C", 1));
    eg.add_node(nid("x"), node("x", vec![], "C", 1));
    eg.add_node(nid("y"), node("y", vec![], "C", 1));
    eg.add_node(nid("n"), node("mark2", vec![], "D", 1));
    eg.add_node(nid("d"), node("alt", vec![], "D", 1));
    let r = eg.split_e_classes(|_id: &NodeId, n: &Node| n.op.starts_with("mark"));
    assert!(r.is_ok());
    // C was exploded around m; D was exploded around n
    assert_eq!(eg.nid_to_cid(&nid("m")).as_str(), "C");
    assert_eq!(eg.nid_to_cid(&nid("x")).as_str(), "C");
    assert_eq!(eg.nid_to_cid(&nid("y")).as_str(), "split-0-m");
    assert!(eg.get_node(&nid("split-1-m")).is_some());
    assert_eq!(eg.nid_to_cid(&nid("n")).as_str(), "D");
    assert!(eg.get_node(&nid("split-0-n")).is_some());
    // every reference into D now targets the fresh copy's class
    let m = eg.get_node(&nid("m")).unwrap();
    assert_eq!(m.children[0].as_str(), "split-0-n");
}
