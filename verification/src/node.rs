//! The executable tree model: nodes, properties, and name/key-based
//! navigation with mutation access.  Lookups are linear scans returning
//! the first match in insertion order; mutation goes through an index
//! into the owning node, resolved by the `_mut` accessors.

use vstd::prelude::*;
use crate::model::{NodeModel, PropModel};
use crate::text::str_eq;

verus! {

broadcast use
    vstd::seq::group_seq_axioms,
    vstd::std_specs::vec::group_vec_axioms;

/// One terminated statement inside a node body that is not a nested
/// node.  `value` is `None` for a boolean property and holds the exact
/// raw right-hand-side text otherwise.
#[derive(Debug)]
pub struct DtbProperty {
    pub key: String,
    pub value: Option<String>,
}

impl View for DtbProperty {
    type V = PropModel;

    open spec fn view(&self) -> PropModel {
        PropModel {
            key: self.key@,
            value: match self.value {
                Some(v) => Some(v@),
                None => None,
            },
        }
    }
}

/// The model value standing for an out-of-range child access.
pub open spec fn empty_model() -> NodeModel {
    NodeModel { name: Seq::empty(), props: Seq::empty(), children: Seq::empty() }
}

/// One brace-delimited block: a name, ordered properties, and ordered,
/// exclusively owned children.
#[derive(Debug)]
pub struct DtbNode {
    pub node_name: String,
    pub properties: Vec<DtbProperty>,
    pub child_nodes: Vec<Box<DtbNode>>,
}

/// The models of a sequence of owned properties.
pub open spec fn props_view(ps: Seq<DtbProperty>) -> Seq<PropModel> {
    Seq::new(ps.len(), |i: int| ps[i]@)
}

/// The models of a sequence of owned children.
pub open spec fn kids_view(cs: Seq<Box<DtbNode>>) -> Seq<NodeModel>
    decreases cs,
{
    Seq::new(
        cs.len(),
        |i: int|
            if 0 <= i < cs.len() {
                node_view(*cs[i])
            } else {
                empty_model()
            },
    )
}

/// The model of a node: the views of its fields, children recursively.
pub open spec fn node_view(n: DtbNode) -> NodeModel
    decreases n,
{
    NodeModel {
        name: n.node_name@,
        props: props_view(n.properties@),
        children: kids_view(n.child_nodes@),
    }
}

impl View for DtbNode {
    type V = NodeModel;

    open spec fn view(&self) -> NodeModel {
        node_view(*self)
    }
}

impl DtbNode {
    /// The node's textual label.
    pub fn name(&self) -> (r: &String)
        ensures
            r@ == self@.name,
    {
        &self.node_name
    }

    /// How many properties this node holds.
    pub fn num_properties(&self) -> (r: usize)
        ensures
            r == self@.props.len(),
    {
        self.properties.len()
    }

    /// How many children this node holds.
    pub fn num_children(&self) -> (r: usize)
        ensures
            r == self@.children.len(),
    {
        self.child_nodes.len()
    }

    /// Index of the first property whose key equals `key` exactly, or
    /// `None` if no property matches.  A miss is an ordinary empty
    /// result, never a failure.
    pub fn find_property(&self, key: &str) -> (r: Option<usize>)
        ensures
            match r {
                Some(i) => 0 <= i < self@.props.len() && self@.props[i as int].key == key@
                    && forall|j: int| 0 <= j < i ==> self@.props[j].key != key@,
                None => forall|j: int| 0 <= j < self@.props.len() ==> self@.props[j].key != key@,
            },
    {
        let n = self.properties.len();
        let mut i: usize = 0;
        while i < n
            invariant
                0 <= i <= n,
                n == self@.props.len(),
                n == self.properties@.len(),
                forall|j: int| 0 <= j < i ==> self@.props[j].key != key@,
            decreases n - i,
        {
            if str_eq(self.properties[i].key.as_str(), key) {
                return Some(i);
            }
            i = i + 1;
        }
        None
    }

    /// Index of the first child whose name equals `name` exactly, or
    /// `None` if no child matches.
    pub fn find_childnode(&self, name: &str) -> (r: Option<usize>)
        ensures
            match r {
                Some(i) => 0 <= i < self@.children.len() && self@.children[i as int].name
                    == name@ && forall|j: int| 0 <= j < i ==> self@.children[j].name != name@,
                None => forall|j: int|
                    0 <= j < self@.children.len() ==> self@.children[j].name != name@,
            },
    {
        let n = self.child_nodes.len();
        let mut i: usize = 0;
        while i < n
            invariant
                0 <= i <= n,
                n == self@.children.len(),
                n == self.child_nodes@.len(),
                forall|j: int| 0 <= j < i ==> self@.children[j].name != name@,
            decreases n - i,
        {
            if str_eq(self.child_nodes[i].name().as_str(), name) {
                return Some(i);
            }
            i = i + 1;
        }
        None
    }

    /// Exclusive mutable access to the property at index `i`.  Only that
    /// property changes; the node's name, children, and other properties
    /// keep their values.
    pub fn property_mut(&mut self, i: usize) -> (r: &mut DtbProperty)
        requires
            i < old(self)@.props.len(),
        ensures
            r@ == old(self)@.props[i as int],
            final(self)@ == (NodeModel {
                props: old(self)@.props.update(i as int, final(r)@),
                ..old(self)@
            }),
    {
        let r = &mut self.properties[i];
        proof {
            assert(after_borrow(self)@.props =~= old(self)@.props.update(
                i as int,
                final(r)@,
            ));
            assert(after_borrow(self)@.children =~= old(self)@.children);
        }
        r
    }

    /// Exclusive mutable access to the subtree rooted at child `i`.  Only
    /// that child changes; the node's name, properties, and the other
    /// children keep their values.
    pub fn child_mut(&mut self, i: usize) -> (r: &mut Box<DtbNode>)
        requires
            i < old(self)@.children.len(),
        ensures
            r@ == old(self)@.children[i as int],
            final(self)@ == (NodeModel {
                children: old(self)@.children.update(i as int, final(r)@),
                ..old(self)@
            }),
    {
        let r = &mut self.child_nodes[i];
        proof {
            assert(after_borrow(self)@.children =~= old(self)@.children.update(
                i as int,
                final(r)@,
            ));
            assert(after_borrow(self)@.props =~= old(self)@.props);
        }
        r
    }
}

} // verus!
