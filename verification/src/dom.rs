//! The tree of nodes that a traversal walks, with the style state of each node.

use vstd::prelude::*;

use crate::data::ElementData;

verus! {

/// The name of a node within its tree.
pub type NodeId = usize;

/// The place of a node in the tree.
pub struct NodeShape {
    /// The parent element, unless the node is a root.
    pub parent: Option<NodeId>,
    /// The children, in document order.
    pub children: Vec<NodeId>,
    /// Whether the node is an element; otherwise it is a text node.
    pub is_element: bool,
    /// Whether the node is part of the document.
    pub is_in_doc: bool,
}

/// A forest of elements and text nodes. The shape never changes under a traversal;
/// the style data and the dirty-descendants bits do.
pub struct Dom {
    tree: Vec<NodeShape>,
    data: Vec<Option<ElementData>>,
    dirty: Vec<bool>,
}

/// The contents of a `Dom`.
#[verifier::ext_equal]
pub struct DomView {
    /// The place of each node.
    pub tree: Seq<NodeShape>,
    /// The style data of each node.
    pub data: Seq<Option<ElementData>>,
    /// The dirty-descendants bit of each node.
    pub dirty: Seq<bool>,
}

impl View for Dom {
    type V = DomView;

    closed spec fn view(&self) -> DomView {
        DomView { tree: self.tree@, data: self.data@, dirty: self.dirty@ }
    }
}

impl DomView {
    /// The number of nodes.
    pub open spec fn len(self) -> nat {
        self.tree.len()
    }

    /// Whether `node` names a node.
    pub open spec fn has(self, node: NodeId) -> bool {
        node < self.len()
    }

    /// Whether `node` names an element.
    pub open spec fn has_element(self, node: NodeId) -> bool {
        self.has(node) && self.tree[node as int].is_element
    }

    /// The parent of a node.
    pub open spec fn parent(self, node: NodeId) -> Option<NodeId> {
        self.tree[node as int].parent
    }

    /// The children of a node, in document order.
    pub open spec fn children(self, node: NodeId) -> Seq<NodeId> {
        self.tree[node as int].children@
    }

    /// The style data of a node.
    pub open spec fn data_of(self, node: NodeId) -> Option<ElementData> {
        self.data[node as int]
    }

    /// Whether a node has style data with styles in it.
    pub open spec fn styled(self, node: NodeId) -> bool {
        self.data_of(node) is Some && self.data_of(node)->0.styles is Some
    }

    /// Whether a node has styles that compute `display: none`.
    pub open spec fn hides(self, node: NodeId) -> bool {
        self.data_of(node) is Some && self.data_of(node)->0.hides()
    }

    /// The dirty-descendants bit of a node.
    pub open spec fn dirty_of(self, node: NodeId) -> bool {
        self.dirty[node as int]
    }

    /// The tree with the style data of one node replaced.
    pub open spec fn with_data(self, node: NodeId, data: Option<ElementData>) -> DomView {
        DomView { data: self.data.update(node as int, data), ..self }
    }

    /// The tree with the dirty-descendants bit of one node replaced.
    pub open spec fn with_dirty(self, node: NodeId, dirty: bool) -> DomView {
        DomView { dirty: self.dirty.update(node as int, dirty), ..self }
    }

    /// The tree with style data on `node`: what it has, or blank data.
    pub open spec fn with_ensured(self, node: NodeId) -> DomView {
        if self.data_of(node) is Some {
            self
        } else {
            self.with_data(node, Some(ElementData::blank()))
        }
    }

    /// The position of each child agrees with its parent, names grow from a parent to
    /// its children, and only elements have children or style data.
    pub open spec fn well_formed(self) -> bool {
        &&& self.len() <= usize::MAX
        &&& self.data.len() == self.tree.len()
        &&& self.dirty.len() == self.tree.len()
        &&& forall|n: NodeId|
            #![trigger self.tree[n as int]]
            self.has(n) && self.parent(n) is Some ==> {
                &&& self.parent(n)->0 < n
                &&& self.children(self.parent(n)->0).contains(n)
            }
        &&& forall|n: NodeId, i: int|
            #![trigger self.children(n)[i]]
            self.has(n) && 0 <= i < self.children(n).len() ==> {
                &&& n < self.children(n)[i] < self.len()
                &&& self.parent(self.children(n)[i]) == Some(n)
            }
        &&& forall|n: NodeId|
            #![trigger self.children(n)]
            self.has(n) ==> self.children(n).no_duplicates()
        &&& forall|n: NodeId|
            #![trigger self.tree[n as int]]
            #![trigger self.data[n as int]]
            self.has(n) && !self.tree[n as int].is_element ==> {
                &&& self.children(n).len() == 0
                &&& self.data[n as int] is None
            }
    }

    /// Whether `ancestor` lies on the way from `node` up to its root, `node` left out.
    pub open spec fn is_ancestor(self, ancestor: NodeId, node: NodeId) -> bool
        decreases node,
    {
        match self.parent(node) {
            Some(p) => p < node && (p == ancestor || self.is_ancestor(ancestor, p)),
            None => false,
        }
    }

    /// Whether `ancestor` lies on the way from `node` up to its root, `node` included.
    pub open spec fn is_inclusive_ancestor(self, ancestor: NodeId, node: NodeId) -> bool {
        ancestor == node || self.is_ancestor(ancestor, node)
    }

    /// Whether every element that has style data has a parent with style data, if it has
    /// a parent at all.
    pub open spec fn data_is_rooted(self) -> bool {
        forall|n: NodeId|
            #![trigger self.data_of(n)]
            self.has(n) && self.data_of(n) is Some && self.parent(n) is Some ==> self.data_of(
                self.parent(n)->0,
            ) is Some
    }

    /// The first element among the later siblings from position `from` on.
    pub open spec fn element_from(self, siblings: Seq<NodeId>, from: int) -> Option<NodeId>
        decreases siblings.len() - from,
    {
        if from < 0 || from >= siblings.len() {
            None
        } else if self.tree[siblings[from] as int].is_element {
            Some(siblings[from])
        } else {
            self.element_from(siblings, from + 1)
        }
    }

    /// The next element among the siblings of `node`.
    pub open spec fn next_sibling_element(self, node: NodeId) -> Option<NodeId> {
        match self.parent(node) {
            Some(p) => self.element_from(
                self.children(p),
                self.children(p).index_of(node) + 1,
            ),
            None => None,
        }
    }

    /// Whether `after` has `node` as a new node at the end, with neither style data nor
    /// children, and the same style data and dirty bits everywhere else.
    pub open spec fn grows_to(self, after: DomView, node: NodeId) -> bool {
        &&& node == self.len()
        &&& after.len() == self.len() + 1
        &&& after.children(node).len() == 0
        &&& after.data == self.data.push(None)
        &&& after.dirty == self.dirty.push(false)
    }

    /// Being well-formed does not depend on dirty bits, nor on which element has data.
    pub proof fn lemma_well_formed_update(self, other: DomView)
        requires
            self.well_formed(),
            other.tree == self.tree,
            other.data.len() == self.data.len(),
            other.dirty.len() == self.dirty.len(),
            forall|n: NodeId|
                #![trigger other.data[n as int]]
                self.has(n) && !self.tree[n as int].is_element ==> other.data[n as int] is None,
        ensures
            other.well_formed(),
    {
        assert(forall|n: NodeId| self.children(n) == other.children(n));
        assert forall|n: NodeId, i: int|
            #![trigger other.children(n)[i]]
            other.has(n) && 0 <= i < other.children(n).len() implies {
            &&& n < other.children(n)[i] < other.len()
            &&& other.parent(other.children(n)[i]) == Some(n)
        } by {
            assert(self.children(n)[i] == other.children(n)[i]);
        }
        assert forall|n: NodeId| other.has(n) && #[trigger] other.tree[n as int].parent
            is Some implies {
            &&& other.parent(n)->0 < n
            &&& other.children(other.parent(n)->0).contains(n)
        } by {
            assert(self.tree[n as int] == other.tree[n as int]);
        }
    }
}

impl Dom {
    /// A forest without nodes.
    pub fn new() -> (dom: Dom)
        ensures
            dom@.well_formed(),
            dom@.len() == 0,
    {
        Dom { tree: Vec::new(), data: Vec::new(), dirty: Vec::new() }
    }

    /// Adds a root element, inside or outside of the document.
    pub fn add_root(&mut self, is_in_doc: bool) -> (root: NodeId)
        requires
            old(self)@.well_formed(),
            old(self)@.len() < usize::MAX,
        ensures
            final(self)@.well_formed(),
            old(self)@.grows_to(final(self)@, root),
            final(self)@.parent(root) is None,
            final(self)@.tree[root as int].is_element,
            final(self)@.tree[root as int].is_in_doc == is_in_doc,
            final(self)@.tree.drop_last() == old(self)@.tree,
    {
        let root = self.tree.len();
        self.tree.push(NodeShape { parent: None, children: Vec::new(), is_element: true, is_in_doc });
        self.data.push(None);
        self.dirty.push(false);
        proof {
            let (before, after) = (old(self)@, self@);
            assert forall|n: NodeId| before.has(n) implies #[trigger] after.tree[n as int]
                == before.tree[n as int] by {}
            assert forall|n: NodeId, i: int|
                #![trigger after.children(n)[i]]
                after.has(n) && 0 <= i < after.children(n).len() implies {
                &&& n < after.children(n)[i] < after.len()
                &&& after.parent(after.children(n)[i]) == Some(n)
            } by {
                assert(before.children(n)[i] == after.children(n)[i]);
            }
        }
        root
    }

    /// Adds an element or a text node as the last child of an element, inside the
    /// document if the parent is.
    pub fn append_child(&mut self, parent: NodeId, is_element: bool) -> (child: NodeId)
        requires
            old(self)@.well_formed(),
            old(self)@.has_element(parent),
            old(self)@.len() < usize::MAX,
        ensures
            final(self)@.well_formed(),
            old(self)@.grows_to(final(self)@, child),
            final(self)@.parent(child) == Some(parent),
            final(self)@.tree[child as int].is_element == is_element,
            final(self)@.tree[child as int].is_in_doc == old(self)@.tree[parent as int].is_in_doc,
            final(self)@.children(parent) == old(self)@.children(parent).push(child),
            final(self)@.parent(parent) == old(self)@.parent(parent),
            final(self)@.tree[parent as int].is_element,
            final(self)@.tree[parent as int].is_in_doc == old(self)@.tree[parent as int].is_in_doc,
            forall|n: NodeId|
                #![trigger final(self)@.tree[n as int]]
                old(self)@.has(n) && n != parent ==> final(self)@.tree[n as int] == old(
                    self,
                )@.tree[n as int],
    {
        let child = self.tree.len();
        let is_in_doc = self.tree[parent].is_in_doc;
        self.tree[parent].children.push(child);
        self.tree.push(
            NodeShape { parent: Some(parent), children: Vec::new(), is_element, is_in_doc },
        );
        self.data.push(None);
        self.dirty.push(false);
        proof {
            let (before, after) = (old(self)@, self@);
            assert(after.children(parent) == before.children(parent).push(child));
            assert(after.children(parent)[before.children(parent).len() as int] == child);
            assert forall|n: NodeId, i: int|
                #![trigger after.children(n)[i]]
                after.has(n) && 0 <= i < after.children(n).len() implies {
                &&& n < after.children(n)[i] < after.len()
                &&& after.parent(after.children(n)[i]) == Some(n)
            } by {
                if n != child && i < before.children(n).len() {
                    assert(before.children(n)[i] == after.children(n)[i]);
                }
            }
            assert forall|n: NodeId|
                #![trigger after.tree[n as int]]
                after.has(n) && after.parent(n) is Some implies {
                &&& after.parent(n)->0 < n
                &&& after.children(after.parent(n)->0).contains(n)
            } by {
                if n != child {
                    let p = before.tree[n as int].parent->0;
                    let i = before.children(p).index_of(n);
                    assert(after.children(p)[i] == n);
                }
            }
            assert forall|n: NodeId|
                #![trigger after.children(n)]
                after.has(n) implies after.children(n).no_duplicates() by {
                if n == parent {
                    assert(!before.children(n).contains(child)) by {
                        if before.children(n).contains(child) {
                            let i = before.children(n).index_of(child);
                            assert(before.children(n)[i] < before.len());
                        }
                    }
                } else if n != child {
                    assert(after.children(n) == before.children(n));
                }
            }
        }
        child
    }

    /// The next element among the siblings of a node.
    pub fn next_sibling_element(&self, node: NodeId) -> (next: Option<NodeId>)
        requires
            self@.well_formed(),
            self@.has(node),
        ensures
            next == self@.next_sibling_element(node),
    {
        let parent = match self.tree[node].parent {
            Some(parent) => parent,
            None => return None,
        };
        assert(self@.tree[node as int].parent == Some(parent));
        let ghost siblings = self@.children(parent);
        let ghost place = siblings.index_of(node);
        let count = self.child_count(parent);
        let mut i: usize = 0;
        while i < count && self.child(parent, i) != node
            invariant
                self@.well_formed(),
                self@.has(parent),
                siblings == self@.children(parent),
                siblings.contains(node),
                place == siblings.index_of(node),
                count == siblings.len(),
                i <= place,
            decreases count - i,
        {
            i += 1;
        }
        i += 1;
        while i < count
            invariant
                self@.well_formed(),
                self@.has(parent),
                siblings == self@.children(parent),
                place == siblings.index_of(node),
                self@.parent(node) == Some(parent),
                count == siblings.len(),
                i <= count,
                self@.element_from(siblings, place + 1) == self@.element_from(siblings, i as int),
            decreases count - i,
        {
            let sibling = self.child(parent, i);
            if self.is_element(sibling) {
                return Some(sibling);
            }
            i += 1;
        }
        None
    }

    /// The number of nodes.
    pub fn len(&self) -> (len: usize)
        ensures
            len == self@.len(),
    {
        self.tree.len()
    }

    /// Whether `node` names an element.
    pub fn is_element(&self, node: NodeId) -> (is: bool)
        requires
            self@.has(node),
        ensures
            is == self@.has_element(node),
    {
        self.tree[node].is_element
    }

    /// Whether a node is part of the document.
    pub fn is_in_doc(&self, node: NodeId) -> (is: bool)
        requires
            self@.has(node),
        ensures
            is == self@.tree[node as int].is_in_doc,
    {
        self.tree[node].is_in_doc
    }

    /// The parent element of a node.
    pub fn parent_element(&self, node: NodeId) -> (parent: Option<NodeId>)
        requires
            self@.has(node),
        ensures
            parent == self@.parent(node),
    {
        self.tree[node].parent
    }

    /// The number of children of a node.
    pub fn child_count(&self, node: NodeId) -> (count: usize)
        requires
            self@.has(node),
        ensures
            count == self@.children(node).len(),
    {
        self.tree[node].children.len()
    }

    /// The child of a node at a position.
    pub fn child(&self, node: NodeId, position: usize) -> (child: NodeId)
        requires
            self@.has(node),
            position < self@.children(node).len(),
        ensures
            child == self@.children(node)[position as int],
    {
        self.tree[node].children[position]
    }

    /// The style data of a node.
    pub fn data(&self, node: NodeId) -> (data: Option<ElementData>)
        requires
            self@.well_formed(),
            self@.has(node),
        ensures
            data == self@.data_of(node),
    {
        self.data[node]
    }

    /// The dirty-descendants bit of a node.
    pub fn has_dirty_descendants(&self, node: NodeId) -> (dirty: bool)
        requires
            self@.well_formed(),
            self@.has(node),
        ensures
            dirty == self@.dirty_of(node),
    {
        self.dirty[node]
    }

    /// Replaces the style data of an element.
    pub fn set_data(&mut self, element: NodeId, data: ElementData)
        requires
            old(self)@.well_formed(),
            old(self)@.has_element(element),
        ensures
            final(self)@ == old(self)@.with_data(element, Some(data)),
            final(self)@.well_formed(),
    {
        self.data.set(element, Some(data));
        proof {
            old(self)@.lemma_well_formed_update(self@);
        }
    }

    /// Makes sure that an element has style data, and returns it.
    pub fn ensure_element_data(&mut self, element: NodeId) -> (data: ElementData)
        requires
            old(self)@.well_formed(),
            old(self)@.has_element(element),
        ensures
            final(self)@ == old(self)@.with_ensured(element),
            final(self)@.data_of(element) == Some(data),
            final(self)@.well_formed(),
    {
        match self.data[element] {
            Some(data) => data,
            None => {
                let data = ElementData::new();
                self.set_data(element, data);
                data
            },
        }
    }

    /// Clears the style data of an element, if there is any.
    pub fn clear_element_data(&mut self, element: NodeId)
        requires
            old(self)@.well_formed(),
            old(self)@.has_element(element),
        ensures
            final(self)@ == old(self)@.with_data(element, None),
            final(self)@.well_formed(),
    {
        self.data.set(element, None);
        proof {
            old(self)@.lemma_well_formed_update(self@);
        }
    }

    /// Sets the dirty-descendants bit of an element.
    pub fn set_dirty_descendants(&mut self, element: NodeId)
        requires
            old(self)@.well_formed(),
            old(self)@.has_element(element),
        ensures
            final(self)@ == old(self)@.with_dirty(element, true),
            final(self)@.well_formed(),
    {
        self.dirty.set(element, true);
        proof {
            old(self)@.lemma_well_formed_update(self@);
        }
    }

    /// Clears the dirty-descendants bit of an element.
    pub fn unset_dirty_descendants(&mut self, element: NodeId)
        requires
            old(self)@.well_formed(),
            old(self)@.has_element(element),
        ensures
            final(self)@ == old(self)@.with_dirty(element, false),
            final(self)@.well_formed(),
    {
        self.dirty.set(element, false);
        proof {
            old(self)@.lemma_well_formed_update(self@);
        }
    }
}

} // verus!
