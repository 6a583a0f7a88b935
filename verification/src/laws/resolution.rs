//! What holds of a style resolution, whatever the style engine replies.

use vstd::prelude::*;

use crate::context::MatchResults;
use crate::data::ElementData;
use crate::dom::{DomView, NodeId};
use crate::resolve::{ResolveRequest, ResolveState, ResolveStyle};

verus! {

impl ResolveState {
    /// The state after the engine has matched and cascaded one element for each pair of
    /// replies.
    pub open spec fn run(self, replies: Seq<(MatchResults, ElementData)>) -> ResolveState
        decreases replies.len(),
    {
        if replies.len() == 0 {
            self
        } else {
            self.run(replies.drop_last()).matched(replies.last().0).cascaded(replies.last().1)
        }
    }

    /// The state of the resolution of the style of `element` when the callback is due.
    pub open spec fn resolved(
        dom: DomView,
        element: NodeId,
        replies: Seq<(MatchResults, ElementData)>,
    ) -> ResolveState {
        ResolveState::begun(dom, element).run(replies)
    }
}

/// Whether the replies of the engine style all elements that have to be styled.
pub open spec fn styles_the_chain(
    dom: DomView,
    element: NodeId,
    replies: Seq<(MatchResults, ElementData)>,
) -> bool {
    &&& dom.well_formed()
    &&& dom.has_element(element)
    &&& replies.len() == dom.unstyled_chain(element).len()
    &&& forall|i: int| 0 <= i < replies.len() ==> (#[trigger] replies[i]).1.styles is Some
}

/// The chain of unstyled elements: each is the parent of the one before it, and what
/// follows the last one is the first styled element, if there is one.
proof fn lemma_chain(dom: DomView, element: NodeId)
    requires
        dom.well_formed(),
        dom.has_element(element),
    ensures
        ({
            let chain = dom.unstyled_chain(element);
            let top = dom.first_styled(element);
            &&& chain.len() > 0 ==> chain[0] == element
            &&& chain.len() == 0 ==> top == Some(element)
            &&& forall|i: int|
                0 <= i < chain.len() ==> {
                    &&& dom.has_element(#[trigger] chain[i])
                    &&& !dom.styled(chain[i])
                    &&& dom.is_inclusive_ancestor(chain[i], element)
                    &&& top is Some ==> dom.is_ancestor(top->0, chain[i])
                }
            &&& forall|i: int, j: int|
                0 <= i < j < chain.len() ==> {
                    &&& #[trigger] chain[i] > #[trigger] chain[j]
                    &&& dom.is_ancestor(chain[j], chain[i])
                }
            &&& top is Some ==> {
                &&& dom.has_element(top->0)
                &&& dom.styled(top->0)
                &&& dom.is_inclusive_ancestor(top->0, element)
            }
        }),
    decreases element,
{
    let chain = dom.unstyled_chain(element);
    if !dom.styled(element) {
        if let Some(p) = dom.parent(element) {
            assert(dom.tree[element as int].parent == Some(p));
            assert(dom.has_element(p)) by {
                assert(dom.children(p).contains(element));
                assert(dom.tree[p as int].children@.len() > 0);
            }
            lemma_chain(dom, p);
            let rest = dom.unstyled_chain(p);
            assert(chain == seq![element] + rest);
            assert(dom.is_ancestor(p, element));
            assert forall|i: int| 0 <= i < chain.len() implies {
                &&& dom.has_element(#[trigger] chain[i])
                &&& !dom.styled(chain[i])
                &&& dom.is_inclusive_ancestor(chain[i], element)
                &&& dom.first_styled(element) is Some ==> dom.is_ancestor(
                    dom.first_styled(element)->0,
                    chain[i],
                )
            } by {
                if i > 0 {
                    assert(chain[i] == rest[i - 1]);
                    if rest[i - 1] != p {
                        dom.lemma_ancestor_of_ancestor(rest[i - 1], p, element);
                    }
                } else if dom.first_styled(element) is Some {
                    let top = dom.first_styled(element)->0;
                    if top != p {
                        dom.lemma_ancestor_of_ancestor(top, p, element);
                    }
                }
            }
            assert forall|i: int, j: int| 0 <= i < j < chain.len() implies {
                &&& #[trigger] chain[i] > #[trigger] chain[j]
                &&& dom.is_ancestor(chain[j], chain[i])
            } by {
                assert(chain[j] == rest[j - 1]);
                if i > 0 {
                    assert(chain[i] == rest[i - 1]);
                } else {
                    if rest[j - 1] != p {
                        dom.lemma_ancestor_of_ancestor(rest[j - 1], p, element);
                    }
                    dom.lemma_leads_from_ancestor(rest[j - 1], element);
                }
            }
        } else {
            assert(chain == seq![element]);
        }
    }
}

/// The state after the engine has styled some elements: those at the outer end of the
/// chain have the data of the replies and a dirty bit, the others blank data if they had
/// none.
proof fn lemma_run(dom: DomView, element: NodeId, replies: Seq<(MatchResults, ElementData)>)
    requires
        dom.well_formed(),
        dom.has_element(element),
        replies.len() <= dom.unstyled_chain(element).len(),
        forall|i: int| 0 <= i < replies.len() ==> (#[trigger] replies[i]).1.styles is Some,
    ensures
        ({
            let chain = dom.unstyled_chain(element);
            let begun = ResolveState::begun(dom, element);
            let state = begun.run(replies);
            let left = chain.len() - replies.len();
            &&& state.element == element
            &&& state.unstyled == chain.take(left)
            &&& state.dom.tree == dom.tree
            &&& state.dom.data.len() == dom.data.len()
            &&& state.dom.dirty.len() == dom.dirty.len()
            &&& state == state.asking()
            &&& forall|i: int|
                0 <= i < chain.len() ==> state.dom.data_of(#[trigger] chain[i]) == if i < left {
                    begun.dom.data_of(chain[i])
                } else {
                    Some(replies[chain.len() - 1 - i].1)
                }
            &&& forall|i: int|
                0 <= i < chain.len() ==> state.dom.dirty_of(#[trigger] chain[i]) == (i >= left
                    || dom.dirty_of(chain[i]))
            &&& forall|n: NodeId|
                #![trigger state.dom.data_of(n)]
                dom.has(n) && !chain.contains(n) ==> state.dom.data_of(n) == dom.data_of(n)
            &&& forall|n: NodeId|
                #![trigger state.dom.dirty_of(n)]
                dom.has(n) && !chain.contains(n) ==> state.dom.dirty_of(n) == dom.dirty_of(n)
        }),
    decreases replies.len(),
{
    let chain = dom.unstyled_chain(element);
    let begun = ResolveState::begun(dom, element);
    lemma_chain(dom, element);
    if replies.len() == 0 {
        assert(chain.take(chain.len() as int) == chain);
    } else {
        let fewer = replies.drop_last();
        assert forall|i: int| 0 <= i < fewer.len() implies (#[trigger] fewer[i]).1.styles is Some by {
            assert(replies[i] == fewer[i]);
        }
        lemma_run(dom, element, fewer);
        let before = begun.run(fewer);
        let state = begun.run(replies);
        let left = chain.len() - replies.len();
        let styled = chain[left];
        assert(before.unstyled == chain.take(left + 1));
        assert(before.unstyled.last() == styled);
        assert(before.unstyled.drop_last() == chain.take(left));
        assert(dom.has_element(chain[left]));
        assert(chain.contains(styled));
        assert(replies[chain.len() - 1 - left] == replies.last());
        assert forall|i: int| 0 <= i < chain.len() implies state.dom.data_of(#[trigger] chain[i])
            == if i < left {
            begun.dom.data_of(chain[i])
        } else {
            Some(replies[chain.len() - 1 - i].1)
        } by {
            assert(before.dom.data_of(chain[i]) == before.dom.data[chain[i] as int]);
            if i > left {
                assert(chain[left] > chain[i]);
                assert(fewer[chain.len() - 1 - i] == replies[chain.len() - 1 - i]);
            } else if i < left {
                assert(chain[i] > chain[left]);
            }
        }
        assert forall|i: int| 0 <= i < chain.len() implies state.dom.dirty_of(#[trigger] chain[i])
            == (i >= left || dom.dirty_of(chain[i])) by {
            assert(before.dom.dirty_of(chain[i]) == before.dom.dirty[chain[i] as int]);
            if i > left {
                assert(chain[left] > chain[i]);
            } else if i < left {
                assert(chain[i] > chain[left]);
            }
        }
        assert forall|n: NodeId|
            #![trigger state.dom.data_of(n)]
            dom.has(n) && !chain.contains(n) implies state.dom.data_of(n) == dom.data_of(n) by {
            assert(before.dom.data_of(n) == dom.data_of(n));
        }
        assert forall|n: NodeId|
            #![trigger state.dom.dirty_of(n)]
            dom.has(n) && !chain.contains(n) implies state.dom.dirty_of(n) == dom.dirty_of(n) by {
            assert(before.dom.dirty_of(n) == dom.dirty_of(n));
        }
    }
}

/// When the callback is due, every element from the resolved one up to the first that was
/// styled before has the styles that the engine computed for it, outermost first, and is
/// marked as having dirty descendants. Nothing else has changed, the callback gets the
/// styles of the element, and the resolution can be finished.
pub proof fn law_resolution_styles_the_chain(
    dom: DomView,
    element: NodeId,
    replies: Seq<(MatchResults, ElementData)>,
)
    requires
        styles_the_chain(dom, element, replies),
    ensures
        ({
            let chain = dom.unstyled_chain(element);
            let state = ResolveState::resolved(dom, element, replies);
            &&& state.element == element
            &&& state.can_finish()
            &&& state.dom.tree == dom.tree
            &&& state.dom.styled(element)
            &&& state.request == ResolveRequest::Callback {
                styles: state.dom.data_of(element)->0.styles->0,
            }
            &&& forall|i: int|
                0 <= i < chain.len() ==> {
                    &&& state.dom.data_of(#[trigger] chain[i]) == Some(
                        replies[chain.len() - 1 - i].1,
                    )
                    &&& state.dom.dirty_of(chain[i])
                }
            &&& forall|n: NodeId|
                #![trigger state.dom.data_of(n)]
                #![trigger state.dom.dirty_of(n)]
                dom.has(n) && !chain.contains(n) ==> {
                    &&& state.dom.data_of(n) == dom.data_of(n)
                    &&& state.dom.dirty_of(n) == dom.dirty_of(n)
                }
        }),
{
    let chain = dom.unstyled_chain(element);
    let state = ResolveState::resolved(dom, element, replies);
    lemma_chain(dom, element);
    lemma_run(dom, element, replies);
    if chain.len() > 0 {
        assert(state.dom.data_of(chain[0]) == Some(replies[chain.len() - 1].1));
    } else {
        assert(state.dom.data_of(element) == dom.data_of(element));
    }
    lemma_resolved_fits(dom, element, replies);
    if state.display_none_root is Some {
        law_display_none_root_is_hidden(dom, element, replies);
        dom.lemma_ancestors_depend_on_tree(state.dom, state.display_none_root->0, element);
    }
}

/// Whenever the engine is asked to style an element, its parent, if it has one, is styled.
pub proof fn law_parent_is_styled_first(
    dom: DomView,
    element: NodeId,
    replies: Seq<(MatchResults, ElementData)>,
)
    requires
        dom.well_formed(),
        dom.has_element(element),
        replies.len() < dom.unstyled_chain(element).len(),
        forall|i: int| 0 <= i < replies.len() ==> (#[trigger] replies[i]).1.styles is Some,
    ensures
        ({
            let state = ResolveState::resolved(dom, element, replies);
            &&& state.request matches ResolveRequest::Match { element: next } && {
                state.dom.parent(next) is Some ==> state.dom.styled(state.dom.parent(next)->0)
            }
        }),
{
    let chain = dom.unstyled_chain(element);
    let state = ResolveState::resolved(dom, element, replies);
    lemma_chain(dom, element);
    lemma_run(dom, element, replies);
    let last = chain.len() - replies.len() - 1;
    let next = chain[last];
    assert(state.unstyled.last() == next);
    assert(dom.has_element(chain[last]));
    if let Some(p) = dom.parent(next) {
        assert(dom.tree[next as int].parent == Some(p));
        assert(chain.contains(next));
        lemma_chain_goes_on(dom, element, next);
        if chain.contains(p) {
            let i = chain.index_of(p);
            assert(chain[i] == p);
            if i < last {
                assert(chain[i] > chain[last]);
            }
            assert(state.dom.data_of(chain[i]) == Some(replies[chain.len() - 1 - i].1));
        } else {
            assert(state.dom.data_of(p) == dom.data_of(p));
        }
    }
}

/// If any element on the way from the resolved one to the first that was styled before is
/// hidden, there is a root of a `display: none` subtree: it is hidden, it is the resolved
/// element or an ancestor of it, and no element outside of it on that way is hidden.
pub proof fn law_display_none_root_is_outermost(
    dom: DomView,
    element: NodeId,
    replies: Seq<(MatchResults, ElementData)>,
    node: NodeId,
)
    requires
        styles_the_chain(dom, element, replies),
        dom.unstyled_chain(element).contains(node) || dom.first_styled(element) == Some(node),
        ResolveState::resolved(dom, element, replies).dom.hides(node),
    ensures
        ({
            let state = ResolveState::resolved(dom, element, replies);
            &&& state.display_none_root is Some
            &&& state.dom.hides(state.display_none_root->0)
            &&& dom.is_inclusive_ancestor(state.display_none_root->0, element)
            &&& dom.is_inclusive_ancestor(state.display_none_root->0, node)
        }),
{
    let chain = dom.unstyled_chain(element);
    let top = dom.first_styled(element);
    let state = ResolveState::resolved(dom, element, replies);
    lemma_chain(dom, element);
    lemma_run(dom, element, replies);
    lemma_root(dom, element, replies);
    if top is Some {
        assert(!chain.contains(top->0)) by {
            if chain.contains(top->0) {
                assert(!dom.styled(chain[chain.index_of(top->0)]));
            }
        }
        assert(state.dom.data_of(top->0) == dom.data_of(top->0));
    }
    if chain.contains(node) {
        let i = chain.index_of(node);
        assert(chain[i] == node);
        assert(state.dom.data_of(chain[i]) == Some(replies[chain.len() - 1 - i].1));
        assert(replies[chain.len() - 1 - i].1.hides());
    }
}

/// Where the root of the `display: none` subtree comes from: the first styled element, or
/// else the outermost element on the chain that the engine found to be hidden.
proof fn lemma_root(dom: DomView, element: NodeId, replies: Seq<(MatchResults, ElementData)>)
    requires
        dom.well_formed(),
        dom.has_element(element),
        replies.len() <= dom.unstyled_chain(element).len(),
        forall|i: int| 0 <= i < replies.len() ==> (#[trigger] replies[i]).1.styles is Some,
    ensures
        ({
            let chain = dom.unstyled_chain(element);
            let top = dom.first_styled(element);
            let root = ResolveState::begun(dom, element).run(replies).display_none_root;
            if top is Some && dom.hides(top->0) {
                root == top
            } else {
                &&& root is Some ==> exists|k: int|
                    {
                        &&& 0 <= k < replies.len()
                        &&& (#[trigger] replies[k]).1.hides()
                        &&& root == Some(chain[chain.len() - 1 - k])
                        &&& forall|i: int|
                            0 <= i < k ==> !(#[trigger] replies[i]).1.hides()
                    }
                &&& root is None ==> forall|i: int|
                    0 <= i < replies.len() ==> !(#[trigger] replies[i]).1.hides()
            }
        }),
    decreases replies.len(),
{
    let chain = dom.unstyled_chain(element);
    let top = dom.first_styled(element);
    if replies.len() > 0 {
        let fewer = replies.drop_last();
        assert forall|i: int| 0 <= i < fewer.len() implies (#[trigger] fewer[i]).1.styles is Some by {
            assert(replies[i] == fewer[i]);
        }
        lemma_root(dom, element, fewer);
        lemma_run(dom, element, fewer);
        lemma_chain(dom, element);
        let before = ResolveState::begun(dom, element).run(fewer);
        let last = replies.len() - 1;
        assert(before.unstyled.last() == chain[chain.len() - 1 - last]);
        assert(replies[last] == replies.last());
        if !(top is Some && dom.hides(top->0)) {
            if before.display_none_root is Some {
                let k = choose|k: int|
                    {
                        &&& 0 <= k < fewer.len()
                        &&& (#[trigger] fewer[k]).1.hides()
                        &&& before.display_none_root == Some(chain[chain.len() - 1 - k])
                        &&& forall|i: int| 0 <= i < k ==> !(#[trigger] fewer[i]).1.hides()
                    };
                assert(replies[k] == fewer[k]);
                assert forall|i: int| 0 <= i < k implies !(#[trigger] replies[i]).1.hides() by {
                    assert(replies[i] == fewer[i]);
                }
            } else {
                assert forall|i: int| 0 <= i < last implies !(#[trigger] replies[i]).1.hides() by {
                    assert(replies[i] == fewer[i]);
                }
            }
        }
    }
}

/// The element that counts as the root of a `display: none` subtree is hidden, and lies on
/// the way from the resolved element to the first one that was styled before.
pub proof fn law_display_none_root_is_hidden(
    dom: DomView,
    element: NodeId,
    replies: Seq<(MatchResults, ElementData)>,
)
    requires
        styles_the_chain(dom, element, replies),
        ResolveState::resolved(dom, element, replies).display_none_root is Some,
    ensures
        ({
            let state = ResolveState::resolved(dom, element, replies);
            let root = state.display_none_root->0;
            &&& state.dom.hides(root)
            &&& dom.unstyled_chain(element).contains(root) || dom.first_styled(element) == Some(
                root,
            )
            &&& dom.is_inclusive_ancestor(root, element)
        }),
{
    let chain = dom.unstyled_chain(element);
    let top = dom.first_styled(element);
    let state = ResolveState::resolved(dom, element, replies);
    lemma_chain(dom, element);
    lemma_run(dom, element, replies);
    lemma_root(dom, element, replies);
    if top is Some && dom.hides(top->0) {
        assert(!chain.contains(top->0)) by {
            if chain.contains(top->0) {
                assert(!dom.styled(chain[chain.index_of(top->0)]));
            }
        }
        assert(state.dom.data_of(top->0) == dom.data_of(top->0));
    } else {
        let k = choose|k: int|
            {
                &&& 0 <= k < replies.len()
                &&& (#[trigger] replies[k]).1.hides()
                &&& state.display_none_root == Some(chain[chain.len() - 1 - k])
                &&& forall|i: int| 0 <= i < k ==> !(#[trigger] replies[i]).1.hides()
            };
        let i = chain.len() - 1 - k;
        assert(state.dom.data_of(chain[i]) == Some(replies[chain.len() - 1 - i].1));
    }
}

/// The way up from an element holds the element and its ancestors, as far as they lie
/// below the place where it stops.
proof fn lemma_path_up(dom: DomView, element: NodeId, stop: Option<NodeId>, node: NodeId)
    requires
        dom.well_formed(),
        dom.has(element),
        stop is Some ==> dom.is_inclusive_ancestor(stop->0, element),
    ensures
        dom.path_up(element, stop).contains(node) == (dom.is_inclusive_ancestor(node, element) && (
        stop is Some ==> dom.is_ancestor(stop->0, node))),
    decreases element,
{
    let path = dom.path_up(element, stop);
    dom.lemma_leads_from_ancestor(element, node);
    dom.lemma_leads_from_ancestor(node, element);
    if stop != Some(element) {
        if let Some(p) = dom.parent(element) {
            assert(dom.tree[element as int].parent == Some(p));
            lemma_path_up(dom, p, stop, node);
            let rest = dom.path_up(p, stop);
            assert(path == seq![element] + rest);
            if rest.contains(node) {
                assert(path[rest.index_of(node) + 1] == node);
            }
            if node == element {
                assert(path[0] == node);
            }
            if path.contains(node) && node != element {
                assert(rest[path.index_of(node) - 1] == node);
            }
        } else {
            assert(path == seq![element]);
            if node == element {
                assert(path[0] == node);
            }
        }
    }
}

/// Outside of a document, styles are cleared all the way up to the root: in the end neither
/// the resolved element nor an ancestor of it has data or a dirty bit, and everything else
/// is as it was before. Where none of them had data before, no data has changed.
pub proof fn law_disconnected_resolution_leaves_no_trace(
    dom: DomView,
    element: NodeId,
    replies: Seq<(MatchResults, ElementData)>,
)
    requires
        styles_the_chain(dom, element, replies),
        !dom.tree[element as int].is_in_doc,
    ensures
        ({
            let after = ResolveState::resolved(dom, element, replies).finished();
            &&& after.tree == dom.tree
            &&& forall|n: NodeId|
                #![trigger after.data_of(n)]
                #![trigger after.dirty_of(n)]
                dom.has(n) ==> {
                    &&& after.data_of(n) == if dom.is_inclusive_ancestor(n, element) {
                        None
                    } else {
                        dom.data_of(n)
                    }
                    &&& after.dirty_of(n) == (dom.dirty_of(n) && !dom.is_inclusive_ancestor(
                        n,
                        element,
                    ))
                }
            &&& (forall|n: NodeId|
                #![trigger dom.data_of(n)]
                dom.is_inclusive_ancestor(n, element) ==> dom.data_of(n) is None) ==> after.data
                == dom.data
        }),
{
    let chain = dom.unstyled_chain(element);
    let state = ResolveState::resolved(dom, element, replies);
    let after = state.finished();
    lemma_chain(dom, element);
    lemma_run(dom, element, replies);
    lemma_resolved_fits(dom, element, replies);
    assert forall|n: NodeId|
        #![trigger after.data_of(n)]
        #![trigger after.dirty_of(n)]
        dom.has(n) implies {
        &&& after.data_of(n) == if dom.is_inclusive_ancestor(n, element) {
            None
        } else {
            dom.data_of(n)
        }
        &&& after.dirty_of(n) == (dom.dirty_of(n) && !dom.is_inclusive_ancestor(n, element))
    } by {
        lemma_path_up(state.dom, element, None, n);
        state.dom.lemma_ancestors_depend_on_tree(dom, n, element);
        if chain.contains(n) {
            assert(dom.is_inclusive_ancestor(chain[chain.index_of(n)], element));
        } else {
            assert(state.dom.data_of(n) == dom.data_of(n));
            assert(state.dom.dirty_of(n) == dom.dirty_of(n));
        }
    }
    if forall|n: NodeId|
        #![trigger dom.data_of(n)]
        dom.is_inclusive_ancestor(n, element) ==> dom.data_of(n) is None {
        assert forall|n: int| 0 <= n < dom.len() implies #[trigger] after.data[n] == dom.data[n] by {
            assert(after.data_of(n as NodeId) == after.data[n]);
            assert(dom.data_of(n as NodeId) == dom.data[n]);
        }
        assert(after.data =~= dom.data);
    }
}

/// The tree stays well-formed while a style is resolved.
proof fn lemma_resolved_fits(
    dom: DomView,
    element: NodeId,
    replies: Seq<(MatchResults, ElementData)>,
)
    requires
        styles_the_chain(dom, element, replies),
    ensures
        ResolveState::resolved(dom, element, replies).dom.well_formed(),
{
    let chain = dom.unstyled_chain(element);
    let state = ResolveState::resolved(dom, element, replies);
    lemma_chain(dom, element);
    lemma_run(dom, element, replies);
    assert forall|n: NodeId|
        #![trigger state.dom.data[n as int]]
        dom.has(n) && !dom.tree[n as int].is_element implies state.dom.data[n as int] is None by {
        assert(!chain.contains(n)) by {
            if chain.contains(n) {
                assert(dom.has_element(chain[chain.index_of(n)]));
            }
        }
        assert(state.dom.data_of(n) == dom.data_of(n));
        assert(dom.data[n as int] is None);
    }
    dom.lemma_well_formed_update(state.dom);
}

/// In a document, if a `display: none` root was found, the styles stay on it and are
/// cleared on the resolved element and its ancestors below the root. The dirty bits are
/// unset there and on the root. Everything else is as it was when the callback came.
pub proof fn law_hidden_resolution_keeps_the_root(
    dom: DomView,
    element: NodeId,
    replies: Seq<(MatchResults, ElementData)>,
    node: NodeId,
)
    requires
        styles_the_chain(dom, element, replies),
        dom.tree[element as int].is_in_doc,
        ResolveState::resolved(dom, element, replies).display_none_root is Some,
        dom.has(node),
    ensures
        ({
            let state = ResolveState::resolved(dom, element, replies);
            let root = state.display_none_root->0;
            let after = state.finished();
            let below = dom.is_inclusive_ancestor(node, element) && dom.is_ancestor(root, node);
            &&& after.hides(root)
            &&& after.data_of(root) == state.dom.data_of(root)
            &&& after.data_of(node) == if below {
                None
            } else {
                state.dom.data_of(node)
            }
            &&& after.dirty_of(node) == (state.dom.dirty_of(node) && !below && node != root)
        }),
{
    let state = ResolveState::resolved(dom, element, replies);
    let root = state.display_none_root->0;
    lemma_run(dom, element, replies);
    lemma_resolved_fits(dom, element, replies);
    law_display_none_root_is_hidden(dom, element, replies);
    state.dom.lemma_ancestors_depend_on_tree(dom, root, element);
    state.dom.lemma_ancestors_depend_on_tree(dom, node, element);
    state.dom.lemma_ancestors_depend_on_tree(dom, root, node);
    state.dom.lemma_ancestors_depend_on_tree(dom, root, root);
    dom.lemma_leads_from_ancestor(root, root);
    dom.lemma_leads_from_ancestor(root, element);
    lemma_path_up(state.dom, element, Some(root), node);
    lemma_path_up(state.dom, element, Some(root), root);
}

/// In a document, resolving the style of an element below one that is known to be hidden
/// leaves no styles behind: in the end no element that had to be styled has data, and all
/// other data is as before. Where none of them had data before, no data has changed.
pub proof fn law_resolution_below_hidden_element_leaves_no_trace(
    dom: DomView,
    element: NodeId,
    replies: Seq<(MatchResults, ElementData)>,
)
    requires
        styles_the_chain(dom, element, replies),
        dom.tree[element as int].is_in_doc,
        dom.first_styled(element) is Some,
        dom.hides(dom.first_styled(element)->0),
    ensures
        ({
            let chain = dom.unstyled_chain(element);
            let after = ResolveState::resolved(dom, element, replies).finished();
            &&& after.tree == dom.tree
            &&& forall|n: NodeId|
                #![trigger after.data_of(n)]
                dom.has(n) ==> after.data_of(n) == if chain.contains(n) {
                    None
                } else {
                    dom.data_of(n)
                }
            &&& (forall|i: int|
                0 <= i < chain.len() ==> dom.data_of(#[trigger] chain[i]) is None) ==> after.data
                == dom.data
        }),
{
    let chain = dom.unstyled_chain(element);
    let root = dom.first_styled(element)->0;
    let state = ResolveState::resolved(dom, element, replies);
    let after = state.finished();
    lemma_chain(dom, element);
    lemma_run(dom, element, replies);
    lemma_root(dom, element, replies);
    assert forall|n: NodeId|
        #![trigger after.data_of(n)]
        dom.has(n) implies after.data_of(n) == if chain.contains(n) {
        None
    } else {
        dom.data_of(n)
    } by {
        law_hidden_resolution_keeps_the_root(dom, element, replies, n);
        if chain.contains(n) {
            let i = chain.index_of(n);
            assert(chain[i] == n);
            assert(dom.is_ancestor(root, chain[i]));
        } else {
            assert(state.dom.data_of(n) == dom.data_of(n));
            if dom.is_inclusive_ancestor(n, element) && dom.is_ancestor(root, n) {
                lemma_between_is_chain(dom, element, n);
            }
        }
    }
    if forall|i: int| 0 <= i < chain.len() ==> dom.data_of(#[trigger] chain[i]) is None {
        assert forall|n: int| 0 <= n < dom.len() implies #[trigger] after.data[n] == dom.data[n] by {
            assert(after.data_of(n as NodeId) == after.data[n]);
            if chain.contains(n as NodeId) {
                assert(dom.data_of(chain[chain.index_of(n as NodeId)]) is None);
            }
        }
        assert(after.data =~= dom.data);
    }
}

/// What lies between an element and the first styled one above it is on the chain of
/// unstyled elements.
proof fn lemma_between_is_chain(dom: DomView, element: NodeId, node: NodeId)
    requires
        dom.well_formed(),
        dom.has_element(element),
        dom.first_styled(element) is Some,
        dom.is_inclusive_ancestor(node, element),
        dom.is_ancestor(dom.first_styled(element)->0, node),
    ensures
        dom.unstyled_chain(element).contains(node),
    decreases element,
{
    let chain = dom.unstyled_chain(element);
    dom.lemma_leads_from_ancestor(element, node);
    dom.lemma_leads_from_ancestor(node, element);
    if !dom.styled(element) {
        let p = dom.tree[element as int].parent->0;
        assert(dom.has_element(p)) by {
            assert(dom.children(p).contains(element));
            assert(dom.tree[p as int].children@.len() > 0);
        }
        if node == element {
            assert(chain[0] == node);
        } else {
            lemma_between_is_chain(dom, p, node);
            let rest = dom.unstyled_chain(p);
            assert(chain == seq![element] + rest);
            assert(chain[rest.index_of(node) + 1] == node);
        }
    }
}

/// In a document where nothing on the way is hidden, nothing is cleared.
pub proof fn law_visible_resolution_clears_nothing(
    dom: DomView,
    element: NodeId,
    replies: Seq<(MatchResults, ElementData)>,
)
    requires
        styles_the_chain(dom, element, replies),
        dom.tree[element as int].is_in_doc,
        ResolveState::resolved(dom, element, replies).display_none_root is None,
    ensures
        ({
            let state = ResolveState::resolved(dom, element, replies);
            &&& state.finished() == state.dom
            &&& state.cleared().len() == 0
        }),
{
    lemma_run(dom, element, replies);
}

/// When the callback is due, the data of the tree is rooted if it was before.
pub proof fn law_resolution_keeps_data_rooted(
    dom: DomView,
    element: NodeId,
    replies: Seq<(MatchResults, ElementData)>,
)
    requires
        styles_the_chain(dom, element, replies),
        dom.data_is_rooted(),
    ensures
        ResolveState::resolved(dom, element, replies).dom.data_is_rooted(),
{
    let chain = dom.unstyled_chain(element);
    let after = ResolveState::resolved(dom, element, replies).dom;
    lemma_chain(dom, element);
    lemma_run(dom, element, replies);
    assert forall|n: NodeId|
        #![trigger after.data_of(n)]
        after.has(n) && after.data_of(n) is Some && after.parent(n) is Some implies after.data_of(
        after.parent(n)->0,
    ) is Some by {
        let p = dom.tree[n as int].parent->0;
        if chain.contains(p) {
            let i = chain.index_of(p);
            assert(chain[i] == p);
            assert(after.data_of(chain[i]) is Some);
        } else {
            assert(after.data_of(p) == dom.data_of(p));
            if chain.contains(n) {
                lemma_chain_goes_on(dom, element, n);
            } else {
                assert(dom.data_of(n) is Some);
                assert(dom.data_of(p) is Some);
            }
        }
    }
}

/// The parent of an element on the chain is on the chain, or is styled.
proof fn lemma_chain_goes_on(dom: DomView, element: NodeId, node: NodeId)
    requires
        dom.well_formed(),
        dom.has_element(element),
        dom.unstyled_chain(element).contains(node),
        dom.parent(node) is Some,
    ensures
        dom.unstyled_chain(element).contains(dom.parent(node)->0) || dom.styled(
            dom.parent(node)->0,
        ),
    decreases element,
{
    let chain = dom.unstyled_chain(element);
    if let Some(p) = dom.parent(element) {
        assert(dom.tree[element as int].parent == Some(p));
        assert(dom.has_element(p)) by {
            assert(dom.children(p).contains(element));
            assert(dom.tree[p as int].children@.len() > 0);
        }
        let rest = dom.unstyled_chain(p);
        assert(chain == seq![element] + rest);
        if node == element {
            if !dom.styled(p) {
                assert(chain[1] == p);
            }
        } else {
            assert(rest[chain.index_of(node) - 1] == node);
            lemma_chain_goes_on(dom, p, node);
            let q = dom.parent(node)->0;
            if rest.contains(q) {
                assert(chain[rest.index_of(q) + 1] == q);
            }
        }
    } else {
        assert(chain == seq![element]);
    }
}

/// In the end the data of the tree is rooted, if it was before the clearing and nothing
/// that loses its data has a child with data that keeps it.
pub proof fn law_finished_resolution_keeps_data_rooted(state: ResolveState)
    requires
        state.dom.well_formed(),
        state.dom.data_is_rooted(),
        forall|n: NodeId|
            #![trigger state.dom.data_of(n)]
            state.dom.has(n) && state.dom.data_of(n) is Some && state.dom.parent(n) is Some
                && state.cleared().contains(state.dom.parent(n)->0) ==> state.cleared().contains(n),
    ensures
        state.finished().data_is_rooted(),
{
    let after = state.finished();
    assert forall|n: NodeId|
        #![trigger after.data_of(n)]
        after.has(n) && after.data_of(n) is Some && after.parent(n) is Some implies after.data_of(
        after.parent(n)->0,
    ) is Some by {
        let p = state.dom.tree[n as int].parent->0;
        assert(state.dom.data_of(n) is Some);
        assert(state.dom.data_of(p) is Some);
    }
}

/// Where no element on the way up has styles, the whole way up is the chain of unstyled
/// elements.
proof fn lemma_whole_way_is_chain(dom: DomView, element: NodeId, node: NodeId)
    requires
        dom.well_formed(),
        dom.has_element(element),
        dom.first_styled(element) is None,
        dom.is_inclusive_ancestor(node, element),
    ensures
        dom.unstyled_chain(element).contains(node),
    decreases element,
{
    let chain = dom.unstyled_chain(element);
    if node == element {
        assert(chain[0] == node);
    } else {
        let p = dom.tree[element as int].parent->0;
        assert(dom.has_element(p)) by {
            assert(dom.children(p).contains(element));
            assert(dom.tree[p as int].children@.len() > 0);
        }
        lemma_whole_way_is_chain(dom, p, node);
        let rest = dom.unstyled_chain(p);
        assert(chain == seq![element] + rest);
        assert(chain[rest.index_of(node) + 1] == node);
    }
}

/// In a document, resolving a style from beginning to end keeps the data of the tree rooted,
/// whether or not a hidden element is found, where no element that has to be styled has a
/// child with data aside from the way up.
pub proof fn law_resolution_in_document_keeps_data_rooted(
    dom: DomView,
    element: NodeId,
    replies: Seq<(MatchResults, ElementData)>,
)
    requires
        styles_the_chain(dom, element, replies),
        dom.tree[element as int].is_in_doc,
        dom.data_is_rooted(),
        forall|n: NodeId|
            #![trigger dom.data_of(n)]
            dom.has(n) && dom.data_of(n) is Some && dom.parent(n) is Some && dom.unstyled_chain(
                element,
            ).contains(dom.parent(n)->0) ==> dom.unstyled_chain(element).contains(n),
    ensures
        ResolveState::resolved(dom, element, replies).finished().data_is_rooted(),
{
    let chain = dom.unstyled_chain(element);
    let top = dom.first_styled(element);
    let state = ResolveState::resolved(dom, element, replies);
    lemma_chain(dom, element);
    lemma_run(dom, element, replies);
    lemma_resolved_fits(dom, element, replies);
    law_resolution_keeps_data_rooted(dom, element, replies);
    if state.display_none_root is Some {
        let root = state.display_none_root->0;
        law_display_none_root_is_hidden(dom, element, replies);
        state.dom.lemma_ancestors_depend_on_tree(dom, root, element);
        assert forall|n: NodeId|
            #![trigger state.dom.data_of(n)]
            state.dom.has(n) && state.dom.data_of(n) is Some && state.dom.parent(n) is Some
                && state.cleared().contains(
                state.dom.parent(n)->0,
            ) implies state.cleared().contains(n) by {
            let p = dom.tree[n as int].parent->0;
            lemma_path_up(state.dom, element, Some(root), p);
            lemma_path_up(state.dom, element, Some(root), n);
            state.dom.lemma_ancestors_depend_on_tree(dom, p, element);
            state.dom.lemma_ancestors_depend_on_tree(dom, root, p);
            state.dom.lemma_ancestors_depend_on_tree(dom, root, n);
            state.dom.lemma_ancestors_depend_on_tree(dom, n, element);
            if top is Some {
                if chain.contains(root) {
                    assert(dom.is_ancestor(top->0, chain[chain.index_of(root)]));
                    dom.lemma_ancestor_of_ancestor(top->0, root, p);
                }
                lemma_between_is_chain(dom, element, p);
            } else {
                lemma_whole_way_is_chain(dom, element, p);
            }
            if !chain.contains(n) {
                assert(state.dom.data_of(n) == dom.data_of(n));
            }
            assert(chain.contains(n));
            assert(dom.is_inclusive_ancestor(chain[chain.index_of(n)], element));
        }
        law_finished_resolution_keeps_data_rooted(state);
    }
}

/// The callback may do anything to the style data and dirty bits of the tree: the resolution
/// can be finished afterwards.
pub proof fn law_callback_may_change_style_state(
    resolve: ResolveStyle,
    dom: DomView,
    changed: DomView,
)
    requires
        resolve.state(dom).fits(),
        resolve.state(dom).request is Callback,
        changed.well_formed(),
        changed.tree == dom.tree,
    ensures
        resolve.state(changed).can_finish(),
        resolve.state(changed) == (ResolveState { dom: changed, ..resolve.state(dom) }),
{
    resolve.lemma_state(dom, changed);
    if let Some(root) = resolve.state(dom).display_none_root {
        dom.lemma_ancestors_depend_on_tree(changed, root, resolve.state(dom).element);
    }
}

/// The way from an element up to the first styled one: it starts with the element, each step
/// goes to the parent, nothing on it has styles, and it ends below a styled parent or at a
/// root. It is empty exactly if the element has styles.
pub proof fn law_way_up_to_the_first_styled(dom: DomView, element: NodeId)
    requires
        dom.well_formed(),
        dom.has_element(element),
    ensures
        ({
            let chain = dom.unstyled_chain(element);
            let top = dom.first_styled(element);
            &&& chain.len() == 0 <==> dom.styled(element)
            &&& chain.len() == 0 ==> top == Some(element)
            &&& chain.len() > 0 ==> {
                &&& chain[0] == element
                &&& top == dom.tree[chain.last() as int].parent
                &&& top matches Some(top) ==> dom.styled(top)
            }
            &&& forall|i: int| 0 <= i < chain.len() ==> !dom.styled(#[trigger] chain[i])
            &&& forall|i: int|
                0 <= i < chain.len() - 1 ==> dom.tree[#[trigger] chain[i] as int].parent == Some(
                    chain[i + 1],
                )
        }),
    decreases element,
{
    let chain = dom.unstyled_chain(element);
    if !dom.styled(element) {
        if let Some(p) = dom.parent(element) {
            assert(dom.tree[element as int].parent == Some(p));
            assert(dom.has_element(p)) by {
                assert(dom.children(p).contains(element));
                assert(dom.tree[p as int].children@.len() > 0);
            }
            law_way_up_to_the_first_styled(dom, p);
            let rest = dom.unstyled_chain(p);
            assert(chain == seq![element] + rest);
            assert forall|i: int| 0 <= i < chain.len() implies !dom.styled(#[trigger] chain[i]) by {
                if i > 0 {
                    assert(chain[i] == rest[i - 1]);
                }
            }
            assert forall|i: int| 0 <= i < chain.len() - 1 implies dom.tree[#[trigger] chain[i] as int].parent
                == Some(chain[i + 1]) by {
                if i > 0 {
                    assert(chain[i] == rest[i - 1] && chain[i + 1] == rest[i]);
                }
            }
            if rest.len() > 0 {
                assert(chain.last() == rest.last());
            } else {
                assert(chain.last() == element);
            }
        } else {
            assert(chain == seq![element]);
        }
    }
}

/// A resolution begins by making sure that every element that has to be styled has data:
/// what it has, or blank data. Nothing else changes. The outermost of them is matched first;
/// where there is none, the styles of the element are shown. The first styled element counts
/// as the root of a `display: none` subtree if it is hidden.
pub proof fn law_resolution_begins_outermost(dom: DomView, element: NodeId, node: NodeId)
    requires
        dom.well_formed(),
        dom.has_element(element),
        dom.has(node),
    ensures
        ({
            let chain = dom.unstyled_chain(element);
            let top = dom.first_styled(element);
            let begun = ResolveState::begun(dom, element);
            &&& begun.element == element
            &&& begun.unstyled == chain
            &&& begun.dom.tree == dom.tree
            &&& begun.dom.dirty == dom.dirty
            &&& begun.dom.data[node as int] == if chain.contains(node) && dom.data[node as int]
                is None {
                Some(ElementData { styles: None, restyle: None })
            } else {
                dom.data[node as int]
            }
            &&& begun.request == if chain.len() > 0 {
                ResolveRequest::Match { element: chain.last() }
            } else {
                ResolveRequest::Callback { styles: dom.data[element as int]->0.styles->0 }
            }
            &&& begun.display_none_root == if top is Some && dom.data[top->0 as int]->0.styles->0.display_none {
                top
            } else {
                None
            }
        }),
{
    law_way_up_to_the_first_styled(dom, element);
    lemma_chain(dom, element);
}

/// Whenever a resolution asks for a cascade, it runs against the parent of that element in the
/// tree, hidden or not, on the results that matching gave for that element, and is shareable
/// if these are. The tree and everything else is as before.
pub proof fn law_resolution_cascades_against_the_parent(state: ResolveState, results: MatchResults)
    requires
        state.fits(),
        state.request is Match,
    ensures
        ({
            let after = state.matched(results);
            let element = state.unstyled.last();
            &&& after.request == ResolveRequest::Cascade {
                element,
                parent: state.dom.tree[element as int].parent,
                results,
                shareable: results.primary_is_shareable,
            }
            &&& after.dom == state.dom
            &&& after.element == state.element
            &&& after.unstyled == state.unstyled
            &&& after.display_none_root == state.display_none_root
        }),
{
}

/// In the course of a resolution the elements are matched and cascaded from the outside in:
/// the one that is matched is the outermost that is still unstyled, and the cascade that
/// follows is for that same element.
pub proof fn law_matched_element_is_cascaded(
    dom: DomView,
    element: NodeId,
    replies: Seq<(MatchResults, ElementData)>,
    results: MatchResults,
)
    requires
        dom.well_formed(),
        dom.has_element(element),
        replies.len() < dom.unstyled_chain(element).len(),
        forall|i: int| 0 <= i < replies.len() ==> (#[trigger] replies[i]).1.styles is Some,
    ensures
        ({
            let chain = dom.unstyled_chain(element);
            let next = chain[chain.len() - 1 - replies.len()];
            let state = ResolveState::resolved(dom, element, replies);
            &&& state.request == ResolveRequest::Match { element: next }
            &&& state.matched(results).request == ResolveRequest::Cascade {
                element: next,
                parent: dom.tree[next as int].parent,
                results,
                shareable: results.primary_is_shareable,
            }
        }),
{
    let chain = dom.unstyled_chain(element);
    let state = ResolveState::resolved(dom, element, replies);
    lemma_run(dom, element, replies);
    assert(state.unstyled.last() == chain[chain.len() - 1 - replies.len()]);
}

/// After the cascade the element has the data that the engine left on it, and a dirty bit.
/// It counts as the root of a `display: none` subtree if it is hidden and none was found
/// outside of it. The next element inwards is matched, and after the last one the styles of
/// the element are shown. Nothing else changes.
pub proof fn law_cascaded_element_is_styled_and_marked(
    state: ResolveState,
    data: ElementData,
    node: NodeId,
)
    requires
        state.fits(),
        state.request is Cascade,
        data.styles is Some,
        state.dom.has(node),
    ensures
        ({
            let after = state.cascaded(data);
            let done = state.unstyled.last();
            let left = state.unstyled.drop_last();
            &&& after.element == state.element
            &&& after.unstyled == left
            &&& after.dom.tree == state.dom.tree
            &&& after.dom.data[node as int] == if node == done {
                Some(data)
            } else {
                state.dom.data[node as int]
            }
            &&& after.dom.dirty[node as int] <==> (state.dom.dirty[node as int] || node == done)
            &&& after.display_none_root == if state.display_none_root is Some {
                state.display_none_root
            } else if data.styles->0.display_none {
                Some(done)
            } else {
                None
            }
            &&& left.len() > 0 ==> after.request == ResolveRequest::Match { element: left.last() }
            &&& left.len() == 0 ==> after.request == ResolveRequest::Callback {
                styles: data.styles->0,
            }
        }),
{
    assert(state.dom.has_element(state.unstyled[state.unstyled.len() - 1]));
    if state.unstyled.len() == 1 {
        assert(state.unstyled[0] == state.unstyled.last());
    }
}

/// What the end of a resolution clears. In a document without a `display: none` root nothing
/// is cleared. In a document with one, the element and its ancestors below the root lose
/// their data and dirty bits, and the root its dirty bit. Outside of a document the element
/// and all its ancestors do, whatever is hidden. The elements that are reported are those that
/// lose their data.
pub proof fn law_end_of_a_resolution(state: ResolveState, node: NodeId)
    requires
        state.can_finish(),
        state.dom.has(node),
    ensures
        ({
            let element = state.element;
            let root = state.display_none_root;
            let in_doc = state.dom.tree[element as int].is_in_doc;
            let on_the_way = state.dom.is_inclusive_ancestor(node, element);
            let loses = if in_doc {
                root is Some && on_the_way && state.dom.is_ancestor(root->0, node)
            } else {
                on_the_way
            };
            &&& state.finished().tree == state.dom.tree
            &&& state.finished().data[node as int] == if loses {
                None
            } else {
                state.dom.data[node as int]
            }
            &&& state.finished().dirty[node as int] <==> (state.dom.dirty[node as int] && !loses
                && !(in_doc && root == Some(node)))
            &&& state.cleared().contains(node) <==> loses
        }),
{
    lemma_path_up(state.dom, state.element, state.clear_stop(), node);
}

/// The elements that the end of a resolution clears are reported from the inside out: the
/// first is the element itself, and each is followed by its parent, up to the root, or up to
/// the `display: none` root in a document, which is left out.
pub proof fn law_cleared_from_the_inside_out(state: ResolveState)
    requires
        state.can_finish(),
    ensures
        ({
            let cleared = state.cleared();
            let in_doc = state.dom.tree[state.element as int].is_in_doc;
            let stop = if in_doc {
                state.display_none_root
            } else {
                None
            };
            &&& cleared.len() > 0 ==> {
                &&& cleared[0] == state.element
                &&& state.dom.tree[cleared.last() as int].parent == stop
            }
            &&& cleared.len() == 0 <==> in_doc && (state.display_none_root is None
                || state.display_none_root == Some(state.element))
            &&& forall|i: int|
                0 <= i < cleared.len() - 1 ==> state.dom.tree[#[trigger] cleared[i] as int].parent
                    == Some(cleared[i + 1])
        }),
{
    lemma_path_goes_by_parents(state.dom, state.element, state.clear_stop());
}

/// The way up goes from each element to its parent.
proof fn lemma_path_goes_by_parents(dom: DomView, element: NodeId, stop: Option<NodeId>)
    requires
        dom.well_formed(),
        dom.has(element),
        stop is Some ==> dom.is_inclusive_ancestor(stop->0, element),
    ensures
        ({
            let path = dom.path_up(element, stop);
            &&& path.len() == 0 <==> stop == Some(element)
            &&& path.len() > 0 ==> path[0] == element && dom.tree[path.last() as int].parent == stop
            &&& forall|i: int|
                0 <= i < path.len() - 1 ==> dom.tree[#[trigger] path[i] as int].parent == Some(
                    path[i + 1],
                )
        }),
    decreases element,
{
    let path = dom.path_up(element, stop);
    if stop != Some(element) {
        if let Some(p) = dom.parent(element) {
            assert(dom.tree[element as int].parent == Some(p));
            lemma_path_goes_by_parents(dom, p, stop);
            let rest = dom.path_up(p, stop);
            assert(path == seq![element] + rest);
            assert forall|i: int| 0 <= i < path.len() - 1 implies dom.tree[#[trigger] path[i] as int].parent
                == Some(path[i + 1]) by {
                if i > 0 {
                    assert(path[i] == rest[i - 1] && path[i + 1] == rest[i]);
                }
            }
            if rest.len() > 0 {
                assert(path.last() == rest.last());
            } else {
                assert(path.last() == element);
            }
        } else {
            assert(path == seq![element]);
        }
    }
}

} // verus!
