//! What the children of a recalculated element are told.

use vstd::prelude::*;

use crate::context::{SharedStyleContext, ThreadLocalStyleContext};
use crate::data::ElementData;
use crate::dom::{DomView, NodeId};
use crate::recalc::{RecalcReply, RecalcRequest, RecalcState};
use crate::restyle_hints::{RestyleHint, StoredRestyleHint};
use crate::traversal::PerLevelTraversalData;

verus! {

/// Whether a child has been told `hint` and, if `changed` holds, that inherited properties
/// changed. A styled child keeps its styles, has its snapshot expanded, and is to be
/// restyled for what it was to be restyled before and for what `hint` asks. An unstyled
/// child has data, and nothing else to look at: it will be styled from scratch. A text
/// node is left alone.
pub open spec fn is_told(
    before: DomView,
    after: DomView,
    child: NodeId,
    hint: StoredRestyleHint,
    changed: bool,
) -> bool {
    if before.has_element(child) && before.styled(child) {
        let (old_data, new_data) = (before.data_of(child)->0, after.data_of(child)->0);
        &&& after.data_of(child) is Some
        &&& new_data.styles == old_data.styles
        &&& !new_data.has_snapshot_spec()
        &&& new_data.pending().hint.covers(hint)
        &&& new_data.pending().hint.covers(old_data.pending().hint)
        &&& new_data.pending().recascade == (old_data.pending().recascade || changed)
    } else if before.has_element(child) {
        after.data_of(child) == before.with_ensured(child).data_of(child)
    } else {
        after.data_of(child) == before.data_of(child)
    }
}

/// How far the children of the element have been told, from position `from` on, compared
/// to the tree `before`.
spec fn is_telling(
    before: DomView,
    state: RecalcState,
    from: int,
    hint: StoredRestyleHint,
    changed: bool,
) -> bool {
    let kids = before.children(state.recalc.element);
    &&& state.dom.tree == before.tree
    &&& match state.recalc.request {
        RecalcRequest::Done => forall|j: int|
            from <= j < kids.len() ==> is_told(before, state.dom, #[trigger] kids[j], hint, changed),
        RecalcRequest::ExpandSnapshot { child, .. } => {
            let position = state.recalc.position;
            let (old_data, new_data) = (before.data_of(child)->0, state.dom.data_of(child)->0);
            &&& from <= position
            &&& state.recalc.propagated_hint.covers(hint)
            &&& state.recalc.inherited_style_changed == changed
            &&& before.styled(child)
            &&& new_data.styles == old_data.styles
            &&& new_data.pending().hint.covers(hint)
            &&& new_data.pending().hint.covers(old_data.pending().hint)
            &&& new_data.pending().recascade == old_data.pending().recascade
            &&& forall|j: int|
                from <= j < position ==> is_told(
                    before,
                    state.dom,
                    #[trigger] kids[j],
                    hint,
                    changed,
                )
            &&& forall|j: int|
                position < j < kids.len() ==> state.dom.data_of(#[trigger] kids[j])
                    == before.data_of(kids[j])
        },
        _ => false,
    }
}

/// What covers a hint covers what that one covers.
proof fn lemma_covers_transitive(a: StoredRestyleHint, b: StoredRestyleHint, c: StoredRestyleHint)
    requires
        a.covers(b),
        b.covers(c),
    ensures
        a.covers(c),
{
    let (x, y, z) = (a.replacements, b.replacements, c.replacements);
    assert(x | y == x ==> y | z == y ==> x | z == x) by (bit_vector);
}

/// A child that is prepared has been told.
proof fn lemma_prepared_is_told(
    before: DomView,
    after: DomView,
    child: NodeId,
    given: StoredRestyleHint,
    hint: StoredRestyleHint,
    changed: bool,
)
    requires
        before.has(child),
        before.data.len() == before.tree.len(),
        !before.awaits_expansion(child),
        given.covers(hint),
        after.data_of(child) == before.prepared_data(child, given, changed),
    ensures
        is_told(before, after, child, hint, changed),
{
    if before.has_element(child) && before.styled(child) {
        let old_hint = before.data_of(child)->0.pending().hint;
        old_hint.lemma_union_covers(given, given);
        old_hint.lemma_union_unit();
        lemma_covers_transitive(old_hint.union(given), given, hint);
        if given == StoredRestyleHint::none() {
            old_hint.lemma_union_unit();
        }
    }
}

/// Preparing the children from a position on, where those before it have been told.
proof fn lemma_preprocessing_tells(
    before: DomView,
    state: RecalcState,
    first: int,
    from: int,
    given: StoredRestyleHint,
    hint: StoredRestyleHint,
    changed: bool,
)
    requires
        before.well_formed(),
        state.ready(),
        state.dom.data_of(state.recalc.element)->0.settled() == state.dom.data_of(
            state.recalc.element,
        )->0,
        state.dom.tree == before.tree,
        0 <= first <= from <= before.children(state.recalc.element).len(),
        given.covers(hint),
        forall|j: int|
            first <= j < from ==> is_told(
                before,
                state.dom,
                #[trigger] before.children(state.recalc.element)[j],
                hint,
                changed,
            ),
        forall|j: int|
            from <= j < before.children(state.recalc.element).len() ==> state.dom.data_of(
                #[trigger] before.children(state.recalc.element)[j],
            ) == before.data_of(before.children(state.recalc.element)[j]),
    ensures
        is_telling(before, state.preprocessed(from, given, changed), first, hint, changed),
{
    let element = state.recalc.element;
    let kids = before.children(element);
    let stop = state.dom.next_snapshot(element, from);
    let prepared = state.dom.with_children_prepared(element, from, stop, given, changed);
    let after = state.preprocessed(from, given, changed);
    state.dom.lemma_next_snapshot(element, from);
    assert(kids.len() == before.tree[element as int].children.len());
    assert(kids == state.dom.children(element));
    assert forall|j: int| 0 <= j < kids.len() implies prepared.data_of(#[trigger] kids[j])
        == if from <= j < stop {
        state.dom.prepared_data(kids[j], given, changed)
    } else {
        state.dom.data_of(kids[j])
    } by {
        assert(element < kids[j] < before.len());
        if from <= j < stop {
            assert(state.dom.is_child_in(element, from, stop, kids[j]));
        } else if state.dom.is_child_in(element, from, stop, kids[j]) {
            let i = choose|i: int|
                from <= i < stop && #[trigger] state.dom.children(element)[i] == kids[j];
            assert(kids[i] == kids[j]);
        }
    }
    assert forall|j: int| first <= j < stop implies is_told(
        before,
        after.dom,
        #[trigger] kids[j],
        hint,
        changed,
    ) by {
        assert(element < kids[j] < before.len());
        if stop < kids.len() {
            assert(kids[stop] != kids[j]);
        }
        assert(after.dom.data_of(kids[j]) == prepared.data_of(kids[j]));
        if from <= j {
            assert(state.dom.data_of(kids[j]) == before.data_of(kids[j]));
            assert(before.prepared_data(kids[j], given, changed) == state.dom.prepared_data(
                kids[j],
                given,
                changed,
            ));
            lemma_prepared_is_told(before, after.dom, kids[j], given, hint, changed);
        } else {
            assert(is_told(before, state.dom, kids[j], hint, changed));
        }
    }
    if stop < kids.len() {
        let child = kids[stop];
        assert(element < child < before.len());
        assert(state.dom.data_of(kids[stop]) == before.data_of(kids[stop]));
        let old_hint = before.data_of(child)->0.pending().hint;
        old_hint.lemma_union_covers(given, given);
        lemma_covers_transitive(old_hint.union(given), given, hint);
        assert forall|j: int| stop < j < kids.len() implies after.dom.data_of(#[trigger] kids[j])
            == before.data_of(kids[j]) by {
            assert(element < kids[j] < before.len());
            assert(kids[stop] != kids[j]);
        }
    }
}

/// The telling goes on with every snapshot that is expanded.
proof fn lemma_telling_goes_on(
    before: DomView,
    state: RecalcState,
    shared: SharedStyleContext,
    reply: RecalcReply,
    first: int,
    hint: StoredRestyleHint,
    changed: bool,
)
    requires
        before.well_formed(),
        0 <= first,
        state.consistent(),
        state.recalc.accepts(state.thread_local, reply),
        is_telling(before, state, first, hint, changed),
    ensures
        is_telling(before, state.step(shared, reply), first, hint, changed),
{
    let element = state.recalc.element;
    let kids = before.children(element);
    let position = state.recalc.position as int;
    let child = kids[position];
    if let RecalcReply::SnapshotHint(computed) = reply {
        let data = state.dom.data_of(child)->0;
        let middle = state.expanded(child, computed);
        assert(kids == state.dom.children(element));
        assert(element < kids[position] < before.len());
        crate::laws::recalculation::lemma_expanded(state, computed);
        let given = state.recalc.hint_after(computed);
        state.recalc.propagated_hint.lemma_union_covers(StoredRestyleHint::whole_subtree(), hint);
        assert forall|j: int| first <= j < position + 1 implies is_told(
            before,
            middle.dom,
            #[trigger] kids[j],
            hint,
            changed,
        ) by {
            assert(element < kids[j] < before.len());
            if j == position {
                let old_hint = before.data_of(child)->0.pending().hint;
                data.pending().hint.lemma_union_covers(computed.stored(), hint);
                data.pending().hint.lemma_union_covers(computed.stored(), old_hint);
            } else {
                assert(kids[j] != child);
                assert(is_told(before, state.dom, kids[j], hint, changed));
            }
        }
        assert forall|j: int| position + 1 <= j < kids.len() implies middle.dom.data_of(
            #[trigger] kids[j],
        ) == before.data_of(kids[j]) by {
            assert(element < kids[j] < before.len());
            assert(kids[j] != child);
        }
        lemma_preprocessing_tells(before, middle, first, position + 1, given, hint, changed);
    }
}

/// Once the recalculation is over, everybody has been told.
proof fn lemma_telling_ends(
    before: DomView,
    state: RecalcState,
    shared: SharedStyleContext,
    replies: Seq<RecalcReply>,
    first: int,
    hint: StoredRestyleHint,
    changed: bool,
)
    requires
        before.well_formed(),
        0 <= first,
        state.consistent(),
        state.is_served_by(shared, replies),
        is_telling(before, state, first, hint, changed),
    ensures
        is_telling(before, state.run(shared, replies), first, hint, changed),
        state.run(shared, replies).recalc.element == state.recalc.element,
    decreases replies.len(),
{
    if replies.len() > 0 {
        lemma_telling_goes_on(before, state, shared, replies[0], first, hint, changed);
        crate::laws::recalculation::law_recalculation_stays_consistent(state, shared, replies[0]);
        lemma_telling_ends(
            before,
            state.step(shared, replies[0]),
            shared,
            replies.skip(1),
            first,
            hint,
            changed,
        );
    }
}

/// Once the styles of an element are up to date and its children may be traversed, every
/// child is told the hint that the element propagates and whether inherited properties
/// changed, whatever hints their snapshots give rise to.
pub proof fn law_every_child_is_told(
    state: RecalcState,
    shared: SharedStyleContext,
    changed: bool,
    replies: Seq<RecalcReply>,
    position: int,
)
    requires
        state.ready(),
        crate::traversal::cull_reason_spec(
            shared,
            state.thread_local,
            state.dom.data_of(state.recalc.element)->0.settled(),
        ) is None,
        ({
            let hint = state.dom.data_of(state.recalc.element)->0.pending().hint.for_children();
            state.dom.dirty_of(state.recalc.element) || hint != StoredRestyleHint::none() || changed
        }),
        state.settled(shared, changed).is_served_by(shared, replies),
        state.settled(shared, changed).run(shared, replies).recalc.request is Done,
        0 <= position < state.dom.children(state.recalc.element).len(),
    ensures
        is_told(
            state.dom,
            state.settled(shared, changed).run(shared, replies).dom,
            state.dom.children(state.recalc.element)[position],
            state.dom.data_of(state.recalc.element)->0.pending().hint.for_children(),
            changed,
        ),
{
    let element = state.recalc.element;
    let data = state.dom.data_of(element)->0;
    let hint = data.pending().hint.for_children();
    let next = state.with_data(data.settled());
    let kids = state.dom.children(element);
    state.dom.lemma_well_formed_update(next.dom);
    state.lemma_settled(shared, changed);
    hint.lemma_union_unit();
    assert(kids == next.dom.children(element));
    assert forall|j: int| 0 <= j < kids.len() implies next.dom.data_of(#[trigger] kids[j])
        == state.dom.data_of(kids[j]) by {
        assert(element < kids[j] < state.dom.len());
    }
    lemma_preprocessing_tells(state.dom, next, 0, 0, hint, hint, changed);
    lemma_telling_ends(
        state.dom,
        state.settled(shared, changed),
        shared,
        replies,
        0,
        hint,
        changed,
    );
}

/// Once the styles of an element are up to date and its children may not be traversed, the
/// recalculation is over, and no node but the element has changed.
pub proof fn law_culled_children_are_left_alone(
    state: RecalcState,
    shared: SharedStyleContext,
    changed: bool,
    node: NodeId,
)
    requires
        state.ready(),
        crate::traversal::cull_reason_spec(
            shared,
            state.thread_local,
            state.dom.data_of(state.recalc.element)->0.settled(),
        ) is Some,
        state.dom.has(node),
        node != state.recalc.element,
    ensures
        ({
            let after = state.settled(shared, changed);
            &&& after.recalc.request is Done
            &&& after.dom.data_of(node) == state.dom.data_of(node)
            &&& after.dom.dirty_of(node) == state.dom.dirty_of(node)
        }),
{
}

impl RecalcState {
    /// The data of the element at the moment when its styles are complete, in the course of a
    /// series of replies.
    pub open spec fn completed_data(
        self,
        shared: SharedStyleContext,
        replies: Seq<RecalcReply>,
    ) -> ElementData
        decreases replies.len(),
    {
        if replies.len() == 0 {
            self.dom.data_of(self.recalc.element)->0
        } else {
            match self.completing(replies[0]) {
                Some(done) => done.dom.data_of(done.recalc.element)->0,
                None => self.step(shared, replies[0]).completed_data(shared, replies.skip(1)),
            }
        }
    }
}

/// Once the styles are complete, the children are being told, or it is over and they may not
/// be traversed.
proof fn lemma_computed_tells(before: DomView, state: RecalcState, shared: SharedStyleContext)
    requires
        before.well_formed(),
        state.ready(),
        state.dom.tree == before.tree,
        forall|j: int|
            0 <= j < before.children(state.recalc.element).len() ==> state.dom.data_of(
                #[trigger] before.children(state.recalc.element)[j],
            ) == before.data_of(before.children(state.recalc.element)[j]),
    ensures
        ({
            let after = state.computed(shared);
            let data = state.dom.data_of(state.recalc.element)->0;
            ||| is_telling(before, after, 0, data.pending().hint.for_children(), true)
            ||| {
                &&& after.recalc.request is Done
                &&& crate::traversal::cull_reason_spec(
                    shared,
                    after.thread_local,
                    after.dom.data_of(state.recalc.element)->0,
                ) is Some
            }
        }),
{
    let element = state.recalc.element;
    let kids = before.children(element);
    let data = state.dom.data_of(element)->0;
    state.dom.lemma_clearing_keeps_top(element);
    if !state.dom.hides(element) {
        assert((RecalcState { dom: state.dom, ..state }) == state);
        let next = state.with_data(data.settled());
        let hint = data.pending().hint.for_children();
        if crate::traversal::cull_reason_spec(shared, state.thread_local, data.settled()) is None {
            state.dom.lemma_well_formed_update(next.dom);
            hint.lemma_union_unit();
            assert forall|j: int| 0 <= j < kids.len() implies next.dom.data_of(#[trigger] kids[j])
                == before.data_of(kids[j]) by {
                assert(element < kids[j] < before.len());
            }
            lemma_preprocessing_tells(before, next, 0, 0, hint, hint, true);
        }
    }
}

/// A recalculation that still has to complete the styles ends with every child told.
proof fn lemma_new_styles_tell(
    before: DomView,
    state: RecalcState,
    shared: SharedStyleContext,
    replies: Seq<RecalcReply>,
)
    requires
        before.well_formed(),
        state.consistent(),
        state.is_served_by(shared, replies),
        !(state.recalc.request is Done),
        !(state.recalc.request is ExpandSnapshot),
        state.dom.tree == before.tree,
        forall|j: int|
            0 <= j < before.children(state.recalc.element).len() ==> state.dom.data_of(
                #[trigger] before.children(state.recalc.element)[j],
            ) == before.data_of(before.children(state.recalc.element)[j]),
        ({
            let after = state.run(shared, replies);
            &&& after.recalc.request is Done
            &&& crate::traversal::cull_reason_spec(
                shared,
                after.thread_local,
                after.dom.data_of(state.recalc.element)->0,
            ) is None
        }),
    ensures
        is_telling(
            before,
            state.run(shared, replies),
            0,
            state.completed_data(shared, replies).pending().hint.for_children(),
            true,
        ),
        state.run(shared, replies).recalc.element == state.recalc.element,
    decreases replies.len(),
{
    let element = state.recalc.element;
    let kids = before.children(element);
    let next = state.step(shared, replies[0]);
    let rest = replies.skip(1);
    crate::laws::recalculation::law_recalculation_stays_consistent(state, shared, replies[0]);
    crate::laws::recalculation::lemma_step_cases(state, shared, replies[0]);
    assert forall|j: int, data: ElementData| 0 <= j < kids.len() implies #[trigger] state.with_data(
        data,
    ).dom.data_of(kids[j]) == before.data_of(kids[j]) by {
        assert(element < kids[j] < before.len());
    }
    assert(next.is_served_by(shared, rest));
    if let Some(done) = state.completing(replies[0]) {
        let hint = done.dom.data_of(element)->0.pending().hint.for_children();
        lemma_computed_tells(before, done, shared);
        if !is_telling(before, next, 0, hint, true) && rest.len() > 0 {
            assert(next.recalc.accepts(next.thread_local, rest[0]));
        }
        lemma_telling_ends(before, next, shared, rest, 0, hint, true);
    } else {
        lemma_new_styles_tell(before, next, shared, rest);
    }
}

/// If the styles of an element had to be computed and its children may be traversed
/// afterwards, every child is told the hint that the element propagated when its styles were
/// complete, and that inherited properties changed: every styled child has to run the
/// cascade again, with its snapshot expanded and nothing lost of what was pending for it,
/// and every other child element has data.
pub proof fn law_new_styles_reach_every_child(
    shared: SharedStyleContext,
    dom: DomView,
    thread_local: ThreadLocalStyleContext,
    level: PerLevelTraversalData,
    element: NodeId,
    replies: Seq<RecalcReply>,
    position: int,
)
    requires
        dom.well_formed(),
        dom.has_element(element),
        dom.data_of(element) is Some,
        !dom.data_of(element)->0.has_snapshot_spec(),
        !dom.data_of(element)->0.current(),
        RecalcState::begun(shared, dom, thread_local, level, element).is_served_by(
            shared,
            replies,
        ),
        ({
            let after = RecalcState::begun(shared, dom, thread_local, level, element).run(
                shared,
                replies,
            );
            &&& after.recalc.request is Done
            &&& crate::traversal::cull_reason_spec(
                shared,
                after.thread_local,
                after.dom.data_of(element)->0,
            ) is None
        }),
        0 <= position < dom.children(element).len(),
    ensures
        ({
            let begun = RecalcState::begun(shared, dom, thread_local, level, element);
            is_told(
                dom,
                begun.run(shared, replies).dom,
                dom.children(element)[position],
                begun.completed_data(shared, replies).pending().hint.for_children(),
                true,
            )
        }),
{
    let begun = RecalcState::begun(shared, dom, thread_local, level, element);
    crate::laws::recalculation::law_recalculation_begins_consistent(
        shared,
        dom,
        thread_local,
        level,
        element,
    );
    lemma_new_styles_tell(dom, begun, shared, replies);
}

/// If the snapshot of a child gives rise to a hint for its later siblings, all of these
/// are told to be restyled, with everything below them.
pub proof fn law_later_siblings_are_told(
    state: RecalcState,
    shared: SharedStyleContext,
    computed: RestyleHint,
    replies: Seq<RecalcReply>,
    position: int,
)
    requires
        state.consistent(),
        state.recalc.request is ExpandSnapshot,
        computed.restyle_later_siblings,
        state.is_served_by(shared, seq![RecalcReply::SnapshotHint(computed)] + replies),
        state.run(
            shared,
            seq![RecalcReply::SnapshotHint(computed)] + replies,
        ).recalc.request is Done,
        state.recalc.position < position < state.dom.children(state.recalc.element).len(),
    ensures
        is_told(
            state.dom,
            state.run(shared, seq![RecalcReply::SnapshotHint(computed)] + replies).dom,
            state.dom.children(state.recalc.element)[position],
            StoredRestyleHint::whole_subtree(),
            state.recalc.inherited_style_changed,
        ),
{
    let all = seq![RecalcReply::SnapshotHint(computed)] + replies;
    let element = state.recalc.element;
    let kids = state.dom.children(element);
    let start = state.recalc.position as int;
    let child = kids[start];
    let changed = state.recalc.inherited_style_changed;
    let whole = StoredRestyleHint::whole_subtree();
    let middle = state.expanded(child, computed);
    let given = state.recalc.hint_after(computed);
    assert(all[0] == RecalcReply::SnapshotHint(computed));
    assert(all.skip(1) == replies);
    crate::laws::recalculation::law_recalculation_stays_consistent(state, shared, all[0]);
    assert(element < kids[start] < state.dom.len());
    assert(kids == middle.dom.children(element));
    crate::laws::recalculation::lemma_expanded(state, computed);
    state.recalc.propagated_hint.lemma_union_covers(whole, whole);
    assert forall|j: int| start + 1 <= j < kids.len() implies middle.dom.data_of(
        #[trigger] kids[j],
    ) == state.dom.data_of(kids[j]) by {
        assert(element < kids[j] < state.dom.len());
        assert(kids[j] != child);
    }
    lemma_preprocessing_tells(state.dom, middle, start + 1, start + 1, given, whole, changed);
    lemma_telling_ends(
        state.dom,
        state.step(shared, all[0]),
        shared,
        replies,
        start + 1,
        whole,
        changed,
    );
}

/// A child that has been told of a hint or of changed inherited properties is visited by
/// the traversal, and so is a child without styles.
pub proof fn law_told_child_is_visited(
    before: DomView,
    after: DomView,
    shared: SharedStyleContext,
    child: NodeId,
    hint: StoredRestyleHint,
    changed: bool,
)
    requires
        before.well_formed(),
        before.has_element(child),
        is_told(before, after, child, hint, changed),
        hint != StoredRestyleHint::none() || changed || !before.styled(child),
    ensures
        after.element_needs_traversal(shared, child),
{
    if before.styled(child) && hint != StoredRestyleHint::none() {
        let new_hint = after.data_of(child)->0.pending().hint;
        let (x, y) = (new_hint.replacements, hint.replacements);
        assert(x | y == x && y != 0 ==> x != 0) by (bit_vector);
    }
}

} // verus!
