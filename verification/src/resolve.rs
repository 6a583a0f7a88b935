//! Resolving the style of an element on demand.
//!
//! The styles are computed up the parent chain as far as they are missing, shown to
//! whoever asked for them, and cleared again where the tree must not keep them. Selector
//! matching and the cascade belong to the style engine: `resolve_style` states the first
//! request, and `ResolveStyle` takes the replies and states the next ones.

use vstd::prelude::*;

use crate::context::MatchResults;
use crate::data::{ElementData, ElementStyles};
use crate::dom::{Dom, DomView, NodeId};

verus! {

/// What has to happen next for a style that is being resolved.
#[derive(Clone, Copy, Debug, PartialEq, Eq, Structural)]
pub enum ResolveRequest {
    /// The style engine is to perform selector matching, without a bloom filter.
    Match { element: NodeId },
    /// The style engine is to perform the cascade.
    Cascade { element: NodeId, parent: Option<NodeId>, results: MatchResults, shareable: bool },
    /// The resolved styles are to be used, before `finish` clears what must not stay.
    Callback { styles: ElementStyles },
}

/// A style resolution that is under way.
pub struct ResolveStyle {
    element: NodeId,
    unstyled: Vec<NodeId>,
    display_none_root: Option<NodeId>,
    request: ResolveRequest,
}

/// A style resolution with the tree that it works on.
#[verifier::ext_equal]
pub struct ResolveState {
    /// The element whose style is resolved.
    pub element: NodeId,
    /// The elements that have still to be styled, from the inside out.
    pub unstyled: Seq<NodeId>,
    /// The outermost element that was found to be hidden.
    pub display_none_root: Option<NodeId>,
    /// What has to happen next.
    pub request: ResolveRequest,
    /// The tree.
    pub dom: DomView,
}

impl DomView {
    /// The elements without styles from `element` up to the first one that has styles, or
    /// to the root.
    pub open spec fn unstyled_chain(self, element: NodeId) -> Seq<NodeId>
        decreases element,
    {
        if self.styled(element) {
            Seq::empty()
        } else {
            seq![element] + match self.parent(element) {
                Some(p) if p < element => self.unstyled_chain(p),
                _ => Seq::empty(),
            }
        }
    }

    /// The first element with styles from `element` on up.
    pub open spec fn first_styled(self, element: NodeId) -> Option<NodeId>
        decreases element,
    {
        if self.styled(element) {
            Some(element)
        } else {
            match self.parent(element) {
                Some(p) if p < element => self.first_styled(p),
                _ => None,
            }
        }
    }

    /// The tree with style data on all of `elements`: what they have, or blank data.
    pub open spec fn with_all_ensured(self, elements: Seq<NodeId>) -> DomView {
        DomView {
            data: Seq::new(
                self.data.len(),
                |n: int|
                    if elements.contains(n as NodeId) && self.data[n] is None {
                        Some(ElementData::blank())
                    } else {
                        self.data[n]
                    },
            ),
            ..self
        }
    }

    /// What `with_all_ensured` does for one element more.
    proof fn lemma_one_more_ensured(self, elements: Seq<NodeId>, element: NodeId)
        requires
            self.well_formed(),
            self.has(element),
            !elements.contains(element),
        ensures
            self.with_all_ensured(elements.push(element)) == self.with_all_ensured(
                elements,
            ).with_ensured(element),
    {
        let more = elements.push(element);
        assert(more[elements.len() as int] == element);
        assert forall|n: NodeId| #[trigger] more.contains(n) == (elements.contains(n) || n
            == element) by {
            if elements.contains(n) {
                assert(more[elements.index_of(n)] == n);
            }
        }
        assert(self.with_all_ensured(more) =~= self.with_all_ensured(elements).with_ensured(
            element,
        ));
    }

    /// The parent of an element on the way up is on the way up.
    proof fn lemma_parent_of_inclusive_ancestor(self, ancestor: NodeId, node: NodeId)
        requires
            self.is_inclusive_ancestor(ancestor, node),
            self.parent(ancestor) is Some,
            self.parent(ancestor)->0 < ancestor,
        ensures
            self.is_inclusive_ancestor(self.parent(ancestor)->0, node),
    {
        let p = self.parent(ancestor)->0;
        assert(self.is_ancestor(p, ancestor));
        if ancestor != node {
            self.lemma_ancestor_of_ancestor(p, ancestor, node);
        }
    }

    /// The elements from `element` up to the root, or up to `stop`, which is left out.
    pub open spec fn path_up(self, element: NodeId, stop: Option<NodeId>) -> Seq<NodeId>
        decreases element,
    {
        if stop == Some(element) {
            Seq::empty()
        } else {
            seq![element] + match self.parent(element) {
                Some(p) if p < element => self.path_up(p, stop),
                _ => Seq::empty(),
            }
        }
    }

    /// The tree without the style data and dirty bits of `elements`, and without the dirty
    /// bit of `stop`.
    pub open spec fn without(self, elements: Seq<NodeId>, stop: Option<NodeId>) -> DomView {
        DomView {
            tree: self.tree,
            data: Seq::new(
                self.data.len(),
                |n: int|
                    if elements.contains(n as NodeId) {
                        None
                    } else {
                        self.data[n]
                    },
            ),
            dirty: Seq::new(
                self.dirty.len(),
                |n: int|
                    self.dirty[n] && !elements.contains(n as NodeId) && stop != Some(n as NodeId),
            ),
        }
    }

    /// What `without` does for one element more.
    proof fn lemma_without_one_more(self, elements: Seq<NodeId>, element: NodeId)
        requires
            self.well_formed(),
            self.has(element),
        ensures
            self.without(elements.push(element), None) == self.without(elements, None).with_dirty(
                element,
                false,
            ).with_data(element, None),
            self.without(elements, Some(element)) == self.without(elements, None).with_dirty(
                element,
                false,
            ),
    {
        let more = elements.push(element);
        assert(more[elements.len() as int] == element);
        assert forall|n: NodeId| #[trigger] more.contains(n) == (elements.contains(n) || n
            == element) by {
            if elements.contains(n) {
                assert(more[elements.index_of(n)] == n);
            }
        }
        assert(self.without(more, None) =~= self.without(elements, None).with_dirty(
            element,
            false,
        ).with_data(element, None));
        assert(self.without(elements, Some(element)) =~= self.without(elements, None).with_dirty(
            element,
            false,
        ));
    }
}

impl ResolveState {
    /// The state with the next element to style asked for, or else the callback.
    pub open spec fn asking(self) -> ResolveState {
        ResolveState {
            request: if self.unstyled.len() > 0 {
                ResolveRequest::Match { element: self.unstyled.last() }
            } else {
                ResolveRequest::Callback { styles: self.dom.data_of(self.element)->0.styles->0 }
            },
            ..self
        }
    }

    /// The state in which the resolution of the style of `element` begins.
    pub open spec fn begun(dom: DomView, element: NodeId) -> ResolveState {
        let unstyled = dom.unstyled_chain(element);
        ResolveState {
            element,
            unstyled,
            display_none_root: match dom.first_styled(element) {
                Some(top) if dom.hides(top) => Some(top),
                _ => None,
            },
            request: ResolveRequest::Match { element },
            dom: dom.with_all_ensured(unstyled),
        }.asking()
    }

    /// The state after selector matching.
    pub open spec fn matched(self, results: MatchResults) -> ResolveState {
        let element = self.unstyled.last();
        ResolveState {
            request: ResolveRequest::Cascade {
                element,
                parent: self.dom.parent(element),
                results,
                shareable: results.primary_is_shareable,
            },
            ..self
        }
    }

    /// The state after the cascade left `data` on the element. It is conservatively marked
    /// as having dirty descendants, since there might be other unstyled siblings that are
    /// missed on the way straight up the parent chain. If it is hidden and no element
    /// outside of it is, it is the root of a `display: none` subtree.
    pub open spec fn cascaded(self, data: ElementData) -> ResolveState {
        let element = self.unstyled.last();
        ResolveState {
            unstyled: self.unstyled.drop_last(),
            display_none_root: if self.display_none_root is None && data.hides() {
                Some(element)
            } else {
                self.display_none_root
            },
            dom: self.dom.with_data(element, Some(data)).with_dirty(element, true),
            ..self
        }.asking()
    }

    /// Whether styles have to be cleared after the callback.
    pub open spec fn must_clear(self) -> bool {
        !self.dom.tree[self.element as int].is_in_doc || self.display_none_root is Some
    }

    /// Where clearing stops: at the root of the `display: none` subtree in a document, and
    /// nowhere outside of one.
    pub open spec fn clear_stop(self) -> Option<NodeId> {
        if self.dom.tree[self.element as int].is_in_doc {
            self.display_none_root
        } else {
            None
        }
    }

    /// The tree in the end.
    pub open spec fn finished(self) -> DomView {
        if self.must_clear() {
            self.dom.without(
                self.dom.path_up(self.element, self.clear_stop()),
                self.clear_stop(),
            )
        } else {
            self.dom
        }
    }

    /// The elements that lose their style data in the end, from the inside out.
    pub open spec fn cleared(self) -> Seq<NodeId> {
        if self.must_clear() {
            self.dom.path_up(self.element, self.clear_stop())
        } else {
            Seq::empty()
        }
    }

    /// What holds between two replies: the elements to style are a piece of the parent
    /// chain that starts at the element, below a styled element or a root, and the
    /// hidden element lies on the chain above them.
    pub open spec fn fits(self) -> bool {
        &&& self.dom.well_formed()
        &&& self.dom.has_element(self.element)
        &&& forall|i: int|
            0 <= i < self.unstyled.len() ==> {
                &&& self.dom.has_element(#[trigger] self.unstyled[i])
                &&& self.dom.data_of(self.unstyled[i]) is Some
                &&& self.dom.is_inclusive_ancestor(self.unstyled[i], self.element)
            }
        &&& self.unstyled.no_duplicates()
        &&& self.unstyled.len() > 0 ==> self.unstyled[0] == self.element
        &&& self.unstyled.len() == 0 ==> self.dom.styled(self.element)
        &&& self.display_none_root is Some ==> self.dom.is_inclusive_ancestor(
            self.display_none_root->0,
            self.element,
        )
        &&& match self.request {
            ResolveRequest::Callback { .. } => self.unstyled.len() == 0,
            _ => self.unstyled.len() > 0,
        }
    }

    /// What has to hold after the callback: it may have changed any style data, but the
    /// hidden element is still the element or an ancestor of it.
    pub open spec fn can_finish(self) -> bool {
        &&& self.request is Callback
        &&& self.dom.well_formed()
        &&& self.dom.has_element(self.element)
        &&& self.display_none_root is Some ==> self.dom.is_inclusive_ancestor(
            self.display_none_root->0,
            self.element,
        )
    }
}

impl ResolveStyle {
    /// The resolution together with the tree that it works on.
    pub closed spec fn state(self, dom: DomView) -> ResolveState {
        ResolveState {
            element: self.element,
            unstyled: self.unstyled@,
            display_none_root: self.display_none_root,
            request: self.request,
            dom,
        }
    }

    /// The parts of the state belong to the resolution, but for the tree.
    pub proof fn lemma_state(self, dom: DomView, other: DomView)
        ensures
            self.state(dom).dom == dom,
            self.state(other) == (ResolveState { dom: other, ..self.state(dom) }),
    {
    }

    /// What has to happen next.
    pub fn request(&self) -> (request: ResolveRequest)
        ensures
            forall|dom: DomView| request == (#[trigger] self.state(dom)).request,
    {
        self.request
    }

    /// States the next request: matching for the outermost unstyled element, or else the
    /// callback.
    fn ask(&mut self, dom: &Dom)
        requires
            dom@.well_formed(),
            dom@.has(old(self).element),
            forall|i: int|
                0 <= i < old(self).unstyled@.len() ==> dom@.has(
                    #[trigger] old(self).unstyled@[i],
                ),
            old(self).unstyled@.len() == 0 ==> dom@.styled(old(self).element),
        ensures
            final(self).state(dom@) == old(self).state(dom@).asking(),
    {
        let count = self.unstyled.len();
        if count > 0 {
            self.request = ResolveRequest::Match { element: self.unstyled[count - 1] };
        } else if let Some(data) = dom.data(self.element) {
            if let Some(styles) = data.styles {
                self.request = ResolveRequest::Callback { styles };
            }
        }
    }

    /// Takes the results of selector matching.
    pub fn matched(&mut self, dom: &Dom, results: MatchResults)
        requires
            old(self).state(dom@).fits(),
            old(self).state(dom@).request is Match,
        ensures
            final(self).state(dom@) == old(self).state(dom@).matched(results),
            final(self).state(dom@).fits(),
    {
        let element = self.unstyled[self.unstyled.len() - 1];
        self.request = ResolveRequest::Cascade {
            element,
            parent: dom.parent_element(element),
            results,
            shareable: results.primary_is_shareable,
        };
    }

    /// Takes the data of the element as the cascade left them.
    pub fn cascaded(&mut self, dom: &mut Dom, data: ElementData)
        requires
            old(self).state(old(dom)@).fits(),
            old(self).state(old(dom)@).request is Cascade,
            data.styles is Some,
        ensures
            final(self).state(final(dom)@) == old(self).state(old(dom)@).cascaded(data),
            final(self).state(final(dom)@).dom == final(dom)@,
            final(self).state(final(dom)@).fits(),
    {
        let ghost before = self.state(dom@);
        if let Some(element) = self.unstyled.pop() {
            assert(element == before.unstyled.last());
            assert(before.dom.has_element(before.unstyled[before.unstyled.len() - 1]));
            dom.set_data(element, data);
            dom.set_dirty_descendants(element);
            if self.display_none_root.is_none() && data.is_display_none() {
                self.display_none_root = Some(element);
            }
            self.ask(dom);
        }
        proof {
            let after = self.state(dom@);
            assert(after =~= before.cascaded(data));
            assert forall|n: NodeId| after.dom.is_ancestor(n, after.element)
                == #[trigger] before.dom.is_ancestor(n, after.element) by {
                after.dom.lemma_ancestors_depend_on_tree(before.dom, n, after.element);
            }
            assert forall|i: int| 0 <= i < after.unstyled.len() implies {
                &&& after.dom.has_element(#[trigger] after.unstyled[i])
                &&& after.dom.data_of(after.unstyled[i]) is Some
                &&& after.dom.is_inclusive_ancestor(after.unstyled[i], after.element)
            } by {
                assert(before.unstyled[i] == after.unstyled[i]);
            }
        }
    }

    /// Clears any styles in `display: none` subtrees or subtrees not in the document, to
    /// leave the tree in a valid state. For `display: none` subtrees, the styles stay on
    /// the root of the subtree, but for subtrees not in the document, styles are cleared
    /// all the way up to the root of the disconnected subtree. Returns the elements whose
    /// data was cleared, in the order of clearing.
    pub fn finish(self, dom: &mut Dom) -> (cleared: Vec<NodeId>)
        requires
            self.state(old(dom)@).can_finish(),
        ensures
            final(dom)@ == self.state(old(dom)@).finished(),
            final(dom)@.well_formed(),
            cleared@ == self.state(old(dom)@).cleared(),
    {
        let ghost before = dom@;
        let mut cleared: Vec<NodeId> = Vec::new();
        let in_doc = dom.is_in_doc(self.element);
        let stop = if in_doc {
            self.display_none_root
        } else {
            None
        };
        if in_doc && stop.is_none() {
            return cleared;
        }
        let ghost path = before.path_up(self.element, stop);
        let mut current = self.element;
        proof {
            assert(before.without(cleared@, None) =~= before);
            assert(cleared@ + path == path);
        }
        loop
            invariant_except_break
                before.has_element(current),
                stop is Some ==> before.is_inclusive_ancestor(stop->0, current),
                cleared@ + before.path_up(current, stop) == path,
                dom@ == before.without(cleared@, None),
            invariant
                before == old(dom)@,
                before.well_formed(),
                dom@.well_formed(),
            ensures
                cleared@ == path,
                dom@ == before.without(cleared@, stop),
            decreases current,
        {
            let ghost list = cleared@;
            proof {
                before.lemma_without_one_more(list, current);
            }
            dom.unset_dirty_descendants(current);
            if stop == Some(current) {
                assert(list + before.path_up(current, stop) == list);
                break ;
            }
            dom.clear_element_data(current);
            cleared.push(current);
            let parent = dom.parent_element(current);
            proof {
                assert(before.tree[current as int].parent == parent);
                if parent is Some {
                    assert(before.has_element(parent->0)) by {
                        assert(before.children(parent->0).contains(current));
                        assert(before.tree[parent->0 as int].children@.len() > 0);
                    }
                    assert(cleared@ + before.path_up(parent->0, stop) == list
                        + before.path_up(current, stop));
                } else {
                    assert(cleared@ == list + before.path_up(current, stop));
                }
            }
            current = match parent {
                Some(parent) => parent,
                None => break ,
            };
        }
        cleared
    }
}

/// Manually resolve style by sequentially walking up the parent chain to the first styled
/// element, ignoring pending restyles. Returns the resolution with its first request;
/// once `matched` and `cascaded` have led it to the callback, `finish` ends it.
pub fn resolve_style(dom: &mut Dom, element: NodeId) -> (resolve: ResolveStyle)
    requires
        old(dom)@.well_formed(),
        old(dom)@.has_element(element),
    ensures
        resolve.state(final(dom)@) == ResolveState::begun(old(dom)@, element),
        resolve.state(final(dom)@).dom == final(dom)@,
        resolve.state(final(dom)@).fits(),
{
    let ghost before = dom@;
    let ghost chain = before.unstyled_chain(element);
    let mut unstyled: Vec<NodeId> = Vec::new();
    let mut display_none_root: Option<NodeId> = None;
    let mut current = element;
    proof {
        assert(before.with_all_ensured(unstyled@) =~= before);
        assert(unstyled@ + chain == chain);
    }
    loop
        invariant_except_break
            before.has_element(current),
            before.is_inclusive_ancestor(current, element),
            unstyled@ + before.unstyled_chain(current) == chain,
            before.first_styled(current) == before.first_styled(element),
            display_none_root is None,
            unstyled@.len() == 0 ==> current == element,
            forall|i: int| 0 <= i < unstyled@.len() ==> current < #[trigger] unstyled@[i],
        invariant
            before == old(dom)@,
            before.well_formed(),
            before.has_element(element),
            dom@.well_formed(),
            dom@ == before.with_all_ensured(unstyled@),
            unstyled@.len() > 0 ==> unstyled@[0] == element,
            forall|i: int, j: int|
                0 <= i < j < unstyled@.len() ==> #[trigger] unstyled@[i] > #[trigger] unstyled@[j],
            forall|i: int|
                0 <= i < unstyled@.len() ==> before.has_element(#[trigger] unstyled@[i])
                    && before.is_inclusive_ancestor(unstyled@[i], element),
        ensures
            unstyled@ == chain,
            unstyled@.len() == 0 ==> before.styled(element),
            display_none_root == match before.first_styled(element) {
                Some(top) if before.hides(top) => Some(top),
                _ => None,
            },
            display_none_root is Some ==> before.is_inclusive_ancestor(
                display_none_root->0,
                element,
            ),
        decreases current,
    {
        let ghost list = unstyled@;
        assert(!list.contains(current));
        assert(dom@.data_of(current) == before.data_of(current));
        let data = dom.ensure_element_data(current);
        if data.has_styles() {
            if data.is_display_none() {
                display_none_root = Some(current);
            }
            assert(list + before.unstyled_chain(current) == list);
            break ;
        }
        unstyled.push(current);
        let parent = dom.parent_element(current);
        proof {
            before.lemma_one_more_ensured(list, current);
            assert(!before.styled(current));
            assert(before.tree[current as int].parent == parent);
            if parent is Some {
                assert(before.has_element(parent->0)) by {
                    assert(before.children(parent->0).contains(current));
                    assert(before.tree[parent->0 as int].children@.len() > 0);
                }
                before.lemma_parent_of_inclusive_ancestor(current, element);
                assert(unstyled@ + before.unstyled_chain(parent->0) == list
                    + before.unstyled_chain(current));
            } else {
                assert(unstyled@ == list + before.unstyled_chain(current));
            }
        }
        current = match parent {
            Some(parent) => parent,
            None => break ,
        };
    }
    let mut resolve = ResolveStyle {
        element,
        unstyled,
        display_none_root,
        request: ResolveRequest::Match { element },
    };
    resolve.ask(dom);
    proof {
        let state = resolve.state(dom@);
        assert forall|n: NodeId| before.is_ancestor(n, element) == #[trigger] dom@.is_ancestor(
            n,
            element,
        ) by {
            before.lemma_ancestors_depend_on_tree(dom@, n, element);
        }
        assert forall|i: int| 0 <= i < state.unstyled.len() implies {
            &&& state.dom.has_element(#[trigger] state.unstyled[i])
            &&& state.dom.data_of(state.unstyled[i]) is Some
            &&& state.dom.is_inclusive_ancestor(state.unstyled[i], state.element)
        } by {
            assert(unstyled@.contains(unstyled@[i]));
        }
    }
    resolve
}

} // verus!
