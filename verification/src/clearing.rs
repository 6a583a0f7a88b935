//! Throwing away the style data below an element.

use vstd::prelude::*;

use crate::dom::{Dom, DomView, NodeId};

verus! {

impl DomView {
    /// Whether `node` lies below `top`, and it and everything on the way up to `top`,
    /// `top` left out, has style data.
    pub open spec fn data_leads_to(self, top: NodeId, node: NodeId) -> bool
        decreases node,
    {
        &&& self.data_of(node) is Some
        &&& match self.parent(node) {
            Some(p) => p < node && (p == top || self.data_leads_to(top, p)),
            None => false,
        }
    }

    /// The tree without the style data and dirty bits below `top`, and without the dirty
    /// bit of `top` itself.
    pub open spec fn cleared_below(self, top: NodeId) -> DomView {
        DomView {
            tree: self.tree,
            data: Seq::new(
                self.len(),
                |n: int|
                    if self.data_leads_to(top, n as NodeId) {
                        None
                    } else {
                        self.data[n]
                    },
            ),
            dirty: Seq::new(
                self.len(),
                |n: int|
                    self.dirty[n] && n != top && !self.data_leads_to(top, n as NodeId),
            ),
        }
    }

    /// The elements that lose their data below the children of `top` from position `from`
    /// on, in document order.
    pub open spec fn clear_order_from(self, top: NodeId, from: int) -> Seq<NodeId>
        decreases self.len() - top, self.children(top).len() - from,
    {
        if !self.has(top) || from < 0 || from >= self.children(top).len() {
            Seq::empty()
        } else {
            let kid = self.children(top)[from];
            if top < kid && self.has(kid) && self.data_of(kid) is Some {
                seq![kid] + self.clear_order_from(kid, 0) + self.clear_order_from(top, from + 1)
            } else {
                self.clear_order_from(top, from + 1)
            }
        }
    }

    /// The elements below `top` that lose their data, in document order.
    pub open spec fn clear_order(self, top: NodeId) -> Seq<NodeId> {
        self.clear_order_from(top, 0)
    }

    /// Whether `node` is `kid`, or is reached below it, on a way where all have data.
    pub open spec fn in_branch(self, kid: NodeId, node: NodeId) -> bool {
        self.data_of(kid) is Some && (node == kid || self.data_leads_to(kid, node))
    }

    /// Whether `node` is in the branch of one of the first `count` children of `top`.
    pub open spec fn in_branches(self, top: NodeId, count: int, node: NodeId) -> bool {
        exists|j: int|
            0 <= j < count && #[trigger] self.in_branch(self.children(top)[j], node)
    }

    /// Ancestors have smaller names, and a way of data leads from ancestors only.
    pub proof fn lemma_leads_from_ancestor(self, top: NodeId, node: NodeId)
        ensures
            self.data_leads_to(top, node) ==> self.is_ancestor(top, node),
            self.is_ancestor(top, node) ==> top < node,
        decreases node,
    {
        if let Some(p) = self.parent(node) {
            if p < node {
                self.lemma_leads_from_ancestor(top, p);
            }
        }
    }

    /// Clearing below an element leaves its own data alone.
    pub proof fn lemma_clearing_keeps_top(self, top: NodeId)
        requires
            self.well_formed(),
            self.has(top),
        ensures
            self.cleared_below(top).data_of(top) == self.data_of(top),
    {
        self.lemma_leads_from_ancestor(top, top);
    }

    /// No node lies below two different children of the same element.
    pub proof fn lemma_siblings_are_apart(self, a: NodeId, b: NodeId, node: NodeId)
        requires
            self.parent(a) is Some,
            self.parent(a) == self.parent(b),
            self.parent(a)->0 < a,
            self.parent(b)->0 < b,
            a != b,
            self.is_ancestor(a, node),
        ensures
            !self.is_inclusive_ancestor(b, node),
        decreases node,
    {
        let top = self.parent(a)->0;
        self.lemma_leads_from_ancestor(a, top);
        self.lemma_leads_from_ancestor(b, top);
        let p = self.parent(node)->0;
        if p == a {
            assert(!self.is_ancestor(b, a));
        } else {
            self.lemma_siblings_are_apart(a, b, p);
        }
    }

    /// A way of data below `top` depends on the data below `top` only.
    proof fn lemma_leads_depends_on_subtree(self, other: DomView, top: NodeId, node: NodeId)
        requires
            self.tree == other.tree,
            self.has(node),
            forall|n: NodeId|
                #![trigger other.data_of(n)]
                self.has(n) && self.is_ancestor(top, n) ==> self.data_of(n) == other.data_of(n),
        ensures
            self.data_leads_to(top, node) == other.data_leads_to(top, node),
        decreases node,
    {
        self.lemma_leads_from_ancestor(top, node);
        other.lemma_leads_from_ancestor(top, node);
        self.lemma_ancestors_depend_on_tree(other, top, node);
        if let Some(p) = self.parent(node) {
            if p < node {
                self.lemma_leads_depends_on_subtree(other, top, p);
            }
        }
        assert(self.is_ancestor(top, node) ==> self.data_of(node) == other.data_of(node));
    }

    /// Ancestors depend on the shape of the tree only.
    pub proof fn lemma_ancestors_depend_on_tree(self, other: DomView, top: NodeId, node: NodeId)
        requires
            self.tree == other.tree,
        ensures
            self.is_ancestor(top, node) == other.is_ancestor(top, node),
        decreases node,
    {
        if let Some(p) = self.parent(node) {
            if p < node {
                self.lemma_ancestors_depend_on_tree(other, top, p);
            }
        }
    }

    /// The order of clearing below `top` depends on the data below `top` only.
    proof fn lemma_order_depends_on_subtree(self, other: DomView, top: NodeId, from: int)
        requires
            self.well_formed(),
            self.tree == other.tree,
            forall|n: NodeId|
                #![trigger other.data_of(n)]
                self.has(n) && self.is_ancestor(top, n) ==> self.data_of(n) == other.data_of(n),
        ensures
            self.clear_order_from(top, from) == other.clear_order_from(top, from),
        decreases self.len() - top, self.children(top).len() - from,
    {
        if self.has(top) && 0 <= from < self.children(top).len() {
            let kid = self.children(top)[from];
            assert(self.is_ancestor(top, kid));
            assert(self.data_of(kid) == other.data_of(kid));
            assert forall|n: NodeId|
                #![trigger other.data_of(n)]
                self.has(n) && self.is_ancestor(kid, n) implies self.data_of(n) == other.data_of(n) by {
                self.lemma_ancestor_of_ancestor(top, kid, n);
            }
            self.lemma_order_depends_on_subtree(other, kid, 0);
            self.lemma_order_depends_on_subtree(other, top, from + 1);
        }
    }

    /// What lies above an ancestor is an ancestor.
    pub proof fn lemma_ancestor_of_ancestor(self, top: NodeId, middle: NodeId, node: NodeId)
        requires
            self.is_ancestor(top, middle),
            self.is_ancestor(middle, node),
        ensures
            self.is_ancestor(top, node),
        decreases node,
    {
        let p = self.parent(node)->0;
        if p != middle {
            self.lemma_ancestor_of_ancestor(top, middle, p);
        }
    }

    /// The branches of all children together are what is reached below their parent.
    pub proof fn lemma_branches_are_all(self, top: NodeId, node: NodeId)
        requires
            self.well_formed(),
            self.has(top),
            self.has(node),
        ensures
            self.in_branches(top, self.children(top).len() as int, node) == self.data_leads_to(
                top,
                node,
            ),
        decreases node,
    {
        let kids = self.children(top);
        if let Some(p) = self.parent(node) {
            assert(self.tree[node as int].parent == Some(p));
            if p == top {
                let j = kids.index_of(node);
                assert(kids[j] == node);
                if self.data_of(node) is Some {
                    assert(self.in_branch(kids[j], node));
                } else if self.in_branches(top, kids.len() as int, node) {
                    let j = choose|j: int|
                        0 <= j < kids.len() && #[trigger] self.in_branch(kids[j], node);
                    assert(self.in_branch(kids[j], node));
                }
            } else {
                self.lemma_branches_are_all(top, p);
                if self.data_leads_to(top, node) {
                    let j = choose|j: int|
                        0 <= j < kids.len() && #[trigger] self.in_branch(kids[j], p);
                    assert(self.in_branch(kids[j], node));
                }
                if self.in_branches(top, kids.len() as int, node) {
                    let j = choose|j: int|
                        0 <= j < kids.len() && #[trigger] self.in_branch(kids[j], node);
                    assert(self.parent(kids[j]) == Some(top));
                    assert(self.in_branch(kids[j], p));
                }
            }
        } else if self.in_branches(top, kids.len() as int, node) {
            let j = choose|j: int| 0 <= j < kids.len() && #[trigger] self.in_branch(kids[j], node);
            assert(self.parent(kids[j]) == Some(top));
        }
    }

    /// A child is in no branch of another child, nor is anything below it.
    proof fn lemma_branch_is_untouched(self, top: NodeId, count: int, node: NodeId)
        requires
            self.well_formed(),
            self.has(top),
            0 <= count < self.children(top).len(),
            self.is_inclusive_ancestor(self.children(top)[count], node),
        ensures
            !self.in_branches(top, count, node),
    {
        let kids = self.children(top);
        let kid = kids[count];
        assert(self.parent(kid) == Some(top) && top < kid);
        if self.in_branches(top, count, node) {
            let j = choose|j: int| 0 <= j < count && #[trigger] self.in_branch(kids[j], node);
            let other = kids[j];
            assert(self.parent(other) == Some(top) && top < other);
            assert(other != kid);
            self.lemma_leads_from_ancestor(other, node);
            if node == kid {
                self.lemma_siblings_are_apart(other, kid, node);
            } else {
                self.lemma_siblings_are_apart(kid, other, node);
            }
        }
    }
}

/// Clears the style data and the dirty bits of all elements below `element` that are
/// reached from it through elements with data, then the dirty bit of `element` itself.
/// Returns the elements whose data was cleared, in the order of clearing.
///
/// An element without data is not looked into: where every element with data has a
/// parent with data, nothing below it can have any.
pub fn clear_descendant_data(dom: &mut Dom, element: NodeId) -> (cleared: Vec<NodeId>)
    requires
        old(dom)@.well_formed(),
        old(dom)@.has_element(element),
    ensures
        final(dom)@ == old(dom)@.cleared_below(element),
        final(dom)@.well_formed(),
        cleared@ == old(dom)@.clear_order(element),
    decreases old(dom)@.len() - element,
{
    let ghost before = dom@;
    let ghost kids = before.children(element);
    let mut cleared: Vec<NodeId> = Vec::new();
    let count = dom.child_count(element);
    let mut i: usize = 0;
    assert(Seq::<NodeId>::empty() + before.clear_order(element) == before.clear_order(element));
    while i < count
        invariant
            before == old(dom)@,
            before.well_formed(),
            before.has_element(element),
            kids == before.children(element),
            count == kids.len(),
            i <= count,
            dom@.well_formed(),
            dom@.tree == before.tree,
            forall|n: NodeId|
                #![trigger dom@.data_of(n)]
                before.has(n) ==> dom@.data_of(n) == if before.in_branches(element, i as int, n) {
                    None
                } else {
                    before.data_of(n)
                },
            forall|n: NodeId|
                #![trigger dom@.dirty_of(n)]
                before.has(n) ==> dom@.dirty_of(n) == (before.dirty_of(n) && !before.in_branches(
                    element,
                    i as int,
                    n,
                )),
            cleared@ + before.clear_order_from(element, i as int) == before.clear_order(element),
        decreases count - i,
    {
        let ghost state = dom@;
        let ghost list = cleared@;
        let kid = dom.child(element, i);
        assert(kid == kids[i as int] && element < kid < before.len());
        assert(before.parent(kid) == Some(element));
        proof {
            before.lemma_branch_is_untouched(element, i as int, kid);
            assert(state.data_of(kid) == before.data_of(kid));
        }
        if dom.is_element(kid) && dom.data(kid).is_some() {
            dom.clear_element_data(kid);
            cleared.push(kid);
            let ghost middle = dom@;
            proof {
                assert forall|n: NodeId|
                    #![trigger middle.data_of(n)]
                    before.has(n) && before.is_ancestor(kid, n) implies before.data_of(n)
                    == middle.data_of(n) by {
                    before.lemma_leads_from_ancestor(kid, n);
                    before.lemma_branch_is_untouched(element, i as int, n);
                    assert(state.data_of(n) == before.data_of(n));
                }
                before.lemma_order_depends_on_subtree(middle, kid, 0);
            }
            let mut below = clear_descendant_data(dom, kid);
            cleared.append(&mut below);
            proof {
                assert(cleared@ == list + seq![kid] + before.clear_order_from(kid, 0));
                assert(cleared@ + before.clear_order_from(element, i + 1) == list
                    + before.clear_order_from(element, i as int));
                assert forall|n: NodeId| before.has(n) implies #[trigger] before.in_branches(
                    element,
                    i + 1,
                    n,
                ) == (before.in_branches(element, i as int, n) || before.in_branch(kid, n)) by {
                    assert(before.in_branch(kids[i as int], n) == before.in_branch(kid, n));
                }
                assert forall|n: NodeId| before.has(n) implies before.data_leads_to(kid, n)
                    == #[trigger] middle.data_leads_to(kid, n) by {
                    before.lemma_leads_depends_on_subtree(middle, kid, n);
                }
                assert forall|n: NodeId| #![trigger dom@.data_of(n)] before.has(n) implies
                    dom@.data_of(n) == if before.in_branches(element, i + 1, n) {
                    None
                } else {
                    before.data_of(n)
                } by {
                    assert(before.data_leads_to(kid, n) == middle.data_leads_to(kid, n));
                    assert(state.data_of(n) == state.data[n as int]);
                }
                assert forall|n: NodeId| #![trigger dom@.dirty_of(n)] before.has(n) implies
                    dom@.dirty_of(n) == (before.dirty_of(n) && !before.in_branches(
                    element,
                    i + 1,
                    n,
                )) by {
                    assert(before.data_leads_to(kid, n) == middle.data_leads_to(kid, n));
                    assert(state.dirty_of(n) == state.dirty[n as int]);
                }
            }
        } else {
            proof {
                assert forall|n: NodeId| before.has(n) implies #[trigger] before.in_branches(
                    element,
                    i + 1,
                    n,
                ) == before.in_branches(element, i as int, n) by {
                    assert(!before.in_branch(kids[i as int], n));
                }
            }
        }
        i += 1;
    }
    let ghost state = dom@;
    dom.unset_dirty_descendants(element);
    proof {
        let after = before.cleared_below(element);
        assert forall|n: int|
            #![trigger dom@.data[n]]
            #![trigger dom@.dirty[n]]
            0 <= n < before.len() implies dom@.data[n] == after.data[n] && dom@.dirty[n]
            == after.dirty[n] by {
            before.lemma_branches_are_all(element, n as NodeId);
            assert(state.data_of(n as NodeId) == state.data[n]);
            assert(state.dirty_of(n as NodeId) == state.dirty[n]);
        }
        assert(dom@ =~= after);
        assert(cleared@ == cleared@ + before.clear_order_from(element, count as int));
    }
    cleared
}

} // verus!
