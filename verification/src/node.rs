use vstd::prelude::*;

use crate::ids::{ClassId, NodeId};

verus! {

/// The mathematical value of one node: its label, the names of its
/// children in order, the name of its owning class, and its weight.
pub ghost struct NodeModel {
    pub op: Seq<char>,
    pub children: Seq<Seq<char>>,
    pub eclass: Seq<char>,
    pub cost: u64,
}

/// One concrete term representation: an operator label, the ordered
/// node ids of its arguments, the class that owns it, and a weight.
pub struct Node {
    pub op: String,
    pub children: Vec<NodeId>,
    pub eclass: ClassId,
    pub cost: u64,
}

impl View for Node {
    type V = NodeModel;

    open spec fn view(&self) -> NodeModel {
        NodeModel {
            op: self.op@,
            children: self.children@.map_values(|c: NodeId| c@),
            eclass: self.eclass@,
            cost: self.cost,
        }
    }
}

impl Node {
    pub fn new(op: String, children: Vec<NodeId>, eclass: ClassId, cost: u64) -> (r: Node)
        ensures
            r@ == (NodeModel {
                op: op@,
                children: children@.map_values(|c: NodeId| c@),
                eclass: eclass@,
                cost: cost,
            }),
    {
        Node { op, children, eclass, cost }
    }

    /// Whether this node has no children.
    pub fn is_leaf(&self) -> (r: bool)
        ensures
            r == (self@.children.len() == 0),
    {
        self.children.len() == 0
    }

    /// A duplicate node with the same label, children, class and cost.
    pub fn dup(&self) -> (r: Node)
        ensures
            r@ == self@,
    {
        let mut children: Vec<NodeId> = Vec::new();
        for i in 0..self.children.len()
            invariant
                children@.len() == i,
                forall|j: int| 0 <= j < i ==> children@[j]@ == self.children@[j]@,
        {
            children.push(self.children[i].dup());
        }
        proof {
            assert(children@.map_values(|c: NodeId| c@) =~= self.children@.map_values(
                |c: NodeId| c@,
            ));
        }
        Node {
            op: self.op.clone(),
            children,
            eclass: self.eclass.dup(),
            cost: self.cost,
        }
    }
}

/// Optional metadata of one equivalence class: at present an optional type tag.
pub struct ClassData {
    pub typ: Option<String>,
}

impl View for ClassData {
    type V = Option<Seq<char>>;

    open spec fn view(&self) -> Option<Seq<char>> {
        match self.typ {
            Some(t) => Some(t@),
            None => None,
        }
    }
}

impl ClassData {
    pub fn new(typ: Option<String>) -> (r: ClassData)
        ensures
            r@ == (match typ {
                Some(t) => Some::<Seq<char>>(t@),
                None => None::<Seq<char>>,
            }),
    {
        ClassData { typ }
    }

    /// A duplicate record with the same tag.
    pub fn dup(&self) -> (r: ClassData)
        ensures
            r@ == self@,
    {
        match &self.typ {
            Some(t) => ClassData { typ: Some(t.clone()) },
            None => ClassData { typ: None },
        }
    }
}

/// One equivalence class of the derived class view: its id and the ids
/// of its member nodes, in the order the store lists them.
pub struct Class {
    pub id: ClassId,
    pub nodes: Vec<NodeId>,
}

/// The mathematical value of one class of the view.
pub ghost struct ClassModel {
    pub id: Seq<char>,
    pub members: Seq<Seq<char>>,
}

impl View for Class {
    type V = ClassModel;

    open spec fn view(&self) -> ClassModel {
        ClassModel { id: self.id@, members: self.nodes@.map_values(|n: NodeId| n@) }
    }
}

} // verus!
