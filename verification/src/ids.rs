use vstd::prelude::*;

verus! {

/// An immutable text handle naming one node of the graph store.
/// Two handles are equal exactly when their text is equal.
#[derive(Clone, Eq, Hash)]
pub struct NodeId(String);

impl View for NodeId {
    type V = Seq<char>;

    closed spec fn view(&self) -> Seq<char> {
        self.0@
    }
}

impl NodeId {
    pub fn new(s: String) -> (r: NodeId)
        ensures
            r@ == s@,
    {
        NodeId(s)
    }

    pub fn from_str(s: &str) -> (r: NodeId)
        ensures
            r@ == s@,
    {
        NodeId(s.to_owned())
    }

    pub fn as_str(&self) -> (r: &str)
        ensures
            r@ == self@,
    {
        self.0.as_str()
    }

    /// A duplicate handle with the same text.
    pub fn dup(&self) -> (r: NodeId)
        ensures
            r@ == self@,
    {
        NodeId(self.0.clone())
    }
}

impl PartialEq for NodeId {
    fn eq(&self, other: &NodeId) -> (r: bool) {
        self.0 == other.0
    }
}

impl vstd::std_specs::cmp::PartialEqSpecImpl for NodeId {
    open spec fn obeys_eq_spec() -> bool {
        true
    }

    open spec fn eq_spec(&self, other: &NodeId) -> bool {
        self@ == other@
    }
}

/// An immutable text handle naming one equivalence class of the graph store.
/// Two handles are equal exactly when their text is equal.
#[derive(Clone, Eq, Hash)]
pub struct ClassId(String);

impl View for ClassId {
    type V = Seq<char>;

    closed spec fn view(&self) -> Seq<char> {
        self.0@
    }
}

impl ClassId {
    pub fn new(s: String) -> (r: ClassId)
        ensures
            r@ == s@,
    {
        ClassId(s)
    }

    pub fn from_str(s: &str) -> (r: ClassId)
        ensures
            r@ == s@,
    {
        ClassId(s.to_owned())
    }

    pub fn as_str(&self) -> (r: &str)
        ensures
            r@ == self@,
    {
        self.0.as_str()
    }

    /// A duplicate handle with the same text.
    pub fn dup(&self) -> (r: ClassId)
        ensures
            r@ == self@,
    {
        ClassId(self.0.clone())
    }
}

impl PartialEq for ClassId {
    fn eq(&self, other: &ClassId) -> (r: bool) {
        self.0 == other.0
    }
}

impl vstd::std_specs::cmp::PartialEqSpecImpl for ClassId {
    open spec fn obeys_eq_spec() -> bool {
        true
    }

    open spec fn eq_spec(&self, other: &ClassId) -> bool {
        self@ == other@
    }
}

} // verus!
