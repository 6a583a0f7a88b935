//! What a recalculation leaves alone.

use vstd::prelude::*;

use crate::context::{SharedStyleContext, ThreadLocalStyleContext};
use crate::dom::{DomView, NodeId};
use crate::recalc::{RecalcReply, RecalcState};
use crate::restyle_hints::StoredRestyleHint;
use crate::traversal::PerLevelTraversalData;

verus! {

/// Whether two trees have the same style state outside of the subtree of `element`.
pub open spec fn agree_outside(before: DomView, after: DomView, element: NodeId) -> bool {
    &&& before.tree == after.tree
    &&& forall|n: NodeId|
        #![trigger after.data_of(n)]
        #![trigger after.dirty_of(n)]
        before.has(n) && !before.is_inclusive_ancestor(element, n) ==> {
            &&& after.data_of(n) == before.data_of(n)
            &&& after.dirty_of(n) == before.dirty_of(n)
        }
}

/// Agreement outside of a subtree is transitive.
proof fn lemma_agree_transitive(a: DomView, b: DomView, c: DomView, element: NodeId)
    requires
        agree_outside(a, b, element),
        agree_outside(b, c, element),
    ensures
        agree_outside(a, c, element),
{
    assert forall|n: NodeId|
        #![trigger c.data_of(n)]
        #![trigger c.dirty_of(n)]
        a.has(n) && !a.is_inclusive_ancestor(element, n) implies {
        &&& c.data_of(n) == a.data_of(n)
        &&& c.dirty_of(n) == a.dirty_of(n)
    } by {
        a.lemma_ancestors_depend_on_tree(b, element, n);
        assert(b.data_of(n) == a.data_of(n));
    }
}

/// The end of a recalculation, and its way through the children, stay in the subtree.
proof fn lemma_preprocessed_is_local(
    state: RecalcState,
    from: int,
    hint: StoredRestyleHint,
    changed: bool,
)
    requires
        state.dom.well_formed(),
        state.dom.has_element(state.recalc.element),
        0 <= from <= state.dom.children(state.recalc.element).len(),
    ensures
        agree_outside(
            state.dom,
            state.preprocessed(from, hint, changed).dom,
            state.recalc.element,
        ),
        agree_outside(state.dom, state.finished().dom, state.recalc.element),
{
    let element = state.recalc.element;
    let kids = state.dom.children(element);
    let stop = state.dom.next_snapshot(element, from);
    let prepared = state.dom.with_children_prepared(element, from, stop, hint, changed);
    let after = state.preprocessed(from, hint, changed).dom;
    state.dom.lemma_next_snapshot(element, from);
    assert forall|n: NodeId|
        #![trigger after.data_of(n)]
        #![trigger after.dirty_of(n)]
        state.dom.has(n) && !state.dom.is_inclusive_ancestor(element, n) implies {
        &&& after.data_of(n) == state.dom.data_of(n)
        &&& after.dirty_of(n) == state.dom.dirty_of(n)
    } by {
        if state.dom.is_child_in(element, from, stop, n) {
            let j = choose|j: int| from <= j < stop && #[trigger] kids[j] == n;
            assert(state.dom.parent(kids[j]) == Some(element));
            assert(state.dom.is_ancestor(element, n));
        }
        assert(prepared.data_of(n) == state.dom.data_of(n));
        if stop < kids.len() {
            assert(state.dom.parent(kids[stop]) == Some(element) && element < kids[stop]);
            assert(state.dom.is_ancestor(element, kids[stop]));
        }
    }
}

/// Settling the element stays in the subtree.
proof fn lemma_settled_is_local(state: RecalcState, shared: SharedStyleContext, changed: bool)
    requires
        state.dom.well_formed(),
        state.dom.has_element(state.recalc.element),
        state.dom.data_of(state.recalc.element) is Some,
    ensures
        agree_outside(state.dom, state.settled(shared, changed).dom, state.recalc.element),
{
    let element = state.recalc.element;
    let data = state.dom.data_of(element)->0;
    let next = state.with_data(data.settled());
    state.dom.lemma_well_formed_update(next.dom);
    lemma_preprocessed_is_local(next, 0, data.pending().hint.for_children(), changed);
    assert(agree_outside(state.dom, next.dom, element));
    lemma_agree_transitive(state.dom, next.dom, state.settled(shared, changed).dom, element);
}

/// Taking new styles into account stays in the subtree.
proof fn lemma_computed_is_local(state: RecalcState, shared: SharedStyleContext)
    requires
        state.dom.well_formed(),
        state.dom.has_element(state.recalc.element),
        state.dom.data_of(state.recalc.element) is Some,
    ensures
        agree_outside(state.dom, state.computed(shared).dom, state.recalc.element),
{
    let element = state.recalc.element;
    let cleared = state.dom.cleared_below(element);
    if state.dom.hides(element) {
        state.dom.lemma_clearing_keeps_top(element);
        state.dom.lemma_well_formed_update(cleared);
        assert forall|n: NodeId|
            #![trigger cleared.data_of(n)]
            #![trigger cleared.dirty_of(n)]
            state.dom.has(n) && !state.dom.is_inclusive_ancestor(element, n) implies {
            &&& cleared.data_of(n) == state.dom.data_of(n)
            &&& cleared.dirty_of(n) == state.dom.dirty_of(n)
        } by {
            crate::laws::clearing::law_clearing_is_local(state.dom, element, n);
        }
        lemma_settled_is_local(RecalcState { dom: cleared, ..state }, shared, true);
        lemma_agree_transitive(state.dom, cleared, state.computed(shared).dom, element);
    } else {
        assert((RecalcState { dom: state.dom, ..state }) == state);
        lemma_settled_is_local(state, shared, true);
    }
}

/// A step of a recalculation stays in the subtree.
proof fn lemma_step_is_local(state: RecalcState, shared: SharedStyleContext, reply: RecalcReply)
    requires
        state.consistent(),
        state.recalc.accepts(state.thread_local, reply),
    ensures
        agree_outside(state.dom, state.step(shared, reply).dom, state.recalc.element),
{
    let element = state.recalc.element;
    let after = state.step(shared, reply);
    crate::laws::recalculation::lemma_step_cases(state, shared, reply);
    if let Some(done) = state.completing(reply) {
        assert(agree_outside(state.dom, done.dom, element));
        lemma_computed_is_local(done, shared);
        lemma_agree_transitive(state.dom, done.dom, after.dom, element);
    } else if state.recalc.request is ExpandSnapshot {
        let computed = reply->SnapshotHint_0;
        let child = state.dom.children(element)[state.recalc.position as int];
        let next = state.expanded(child, computed);
        assert(state.dom.parent(child) == Some(element));
        assert(state.dom.is_ancestor(element, child));
        crate::laws::recalculation::lemma_expanded(state, computed);
        assert(agree_outside(state.dom, next.dom, element));
        lemma_preprocessed_is_local(
            next,
            state.recalc.position + 1,
            state.recalc.hint_after(computed),
            state.recalc.inherited_style_changed,
        );
        lemma_agree_transitive(state.dom, next.dom, after.dom, element);
    }
}

/// A recalculation that goes on changes nothing outside of the subtree of its element.
proof fn lemma_run_is_local(
    state: RecalcState,
    shared: SharedStyleContext,
    replies: Seq<RecalcReply>,
)
    requires
        state.consistent(),
        state.is_served_by(shared, replies),
    ensures
        agree_outside(state.dom, state.run(shared, replies).dom, state.recalc.element),
    decreases replies.len(),
{
    if replies.len() > 0 {
        let next = state.step(shared, replies[0]);
        lemma_step_is_local(state, shared, replies[0]);
        crate::laws::recalculation::law_recalculation_stays_consistent(state, shared, replies[0]);
        lemma_run_is_local(next, shared, replies.skip(1));
        lemma_agree_transitive(
            state.dom,
            next.dom,
            state.run(shared, replies).dom,
            state.recalc.element,
        );
    }
}

/// Recalculating the style of an element changes no style data and no dirty bit outside of
/// the subtree of the element, and never the shape of the tree.
pub proof fn law_recalculation_is_local(
    shared: SharedStyleContext,
    dom: DomView,
    thread_local: ThreadLocalStyleContext,
    level: PerLevelTraversalData,
    element: NodeId,
    replies: Seq<RecalcReply>,
)
    requires
        dom.well_formed(),
        dom.has_element(element),
        dom.data_of(element) is Some,
        !dom.data_of(element)->0.has_snapshot_spec(),
        RecalcState::begun(shared, dom, thread_local, level, element).is_served_by(
            shared,
            replies,
        ),
    ensures
        agree_outside(
            dom,
            RecalcState::begun(shared, dom, thread_local, level, element).run(shared, replies).dom,
            element,
        ),
{
    let begun = RecalcState::begun(shared, dom, thread_local, level, element);
    crate::laws::recalculation::law_recalculation_begins_consistent(
        shared,
        dom,
        thread_local,
        level,
        element,
    );
    if dom.data_of(element)->0.current() {
        lemma_settled_is_local(
            RecalcState::entered(dom, thread_local, level, element),
            shared,
            false,
        );
    }
    assert(agree_outside(dom, begun.dom, element));
    lemma_run_is_local(begun, shared, replies);
    lemma_agree_transitive(dom, begun.dom, begun.run(shared, replies).dom, element);
}

} // verus!
