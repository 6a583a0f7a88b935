//! What each child has to be restyled for when the recalculation of its parent is over.

use vstd::prelude::*;

use crate::context::{Product, SharedStyleContext, ThreadLocalStyleContext};
use crate::data::ElementData;
use crate::dom::{DomView, NodeId};
use crate::recalc::{RecalcReply, RecalcRequest, RecalcState};
use crate::restyle_hints::{RestyleHint, StoredRestyleHint};
use crate::traversal::PerLevelTraversalData;

verus! {

impl RecalcState {
    /// The hint that the engine computed for the snapshot of a child, in the course of a
    /// series of replies.
    pub open spec fn hint_computed_for(
        self,
        shared: SharedStyleContext,
        replies: Seq<RecalcReply>,
        child: NodeId,
    ) -> Option<RestyleHint>
        decreases replies.len(),
    {
        if replies.len() == 0 {
            None
        } else {
            match (self.recalc.request, replies[0]) {
                (
                    RecalcRequest::ExpandSnapshot { child: asked, .. },
                    RecalcReply::SnapshotHint(computed),
                ) if asked == child => Some(computed),
                _ => self.step(shared, replies[0]).hint_computed_for(
                    shared,
                    replies.skip(1),
                    child,
                ),
            }
        }
    }

    /// Whether the snapshot of one of the children at the positions from `from` up to `to`
    /// gives rise to a hint for its later siblings.
    pub open spec fn siblings_are_asked_for(
        self,
        shared: SharedStyleContext,
        replies: Seq<RecalcReply>,
        from: int,
        to: int,
    ) -> bool {
        let kids = self.dom.tree[self.recalc.element as int].children@;
        exists|i: int|
            {
                &&& from <= i < to
                &&& self.hint_computed_for(shared, replies, #[trigger] kids[i]) matches Some(
                    computed,
                )
                &&& computed.restyle_later_siblings
            }
    }
}

/// What becomes of the data of a styled child that is told `given` and, if `changed` holds,
/// that inherited properties changed, and for whose snapshot `own` was computed. It keeps its
/// styles and damage, and has no snapshot left. Its hint asks for what it asked for before,
/// for what `given` asks, and for what `own` asks of the element and its descendants, and for
/// nothing more.
pub open spec fn is_owed(
    was: ElementData,
    is: Option<ElementData>,
    given: StoredRestyleHint,
    changed: bool,
    own: Option<RestyleHint>,
) -> bool {
    let old_hint = match was.restyle {
        Some(restyle) => restyle.hint,
        None => StoredRestyleHint {
            restyle_self: false,
            restyle_descendants: false,
            replacements: 0,
        },
    };
    let own_hint = match own {
        Some(own) => own,
        None => RestyleHint {
            restyle_self: false,
            restyle_descendants: false,
            restyle_later_siblings: false,
            replacements: 0,
        },
    };
    let told = given.restyle_self || given.restyle_descendants || given.replacements != 0 || changed;
    &&& is is Some
    &&& is->0.styles == was.styles
    &&& is->0.restyle is Some <==> was.restyle is Some || told
    &&& is->0.restyle matches Some(restyle) ==> {
        &&& restyle.hint.restyle_self <==> (old_hint.restyle_self || given.restyle_self
            || own_hint.restyle_self)
        &&& restyle.hint.restyle_descendants <==> (old_hint.restyle_descendants
            || given.restyle_descendants || own_hint.restyle_descendants)
        &&& restyle.hint.replacements == (old_hint.replacements | given.replacements)
            | own_hint.replacements
        &&& restyle.recascade <==> changed || (was.restyle is Some && was.restyle->0.recascade)
        &&& restyle.damage.bits == if was.restyle is Some {
            was.restyle->0.damage.bits
        } else {
            0
        }
        &&& restyle.snapshot is None
    }
}

/// A hint, joined by the restyling of whole subtrees if later siblings were asked for.
pub open spec fn joined_for_siblings(hint: StoredRestyleHint, asked: bool) -> StoredRestyleHint {
    StoredRestyleHint {
        restyle_self: hint.restyle_self || asked,
        restyle_descendants: hint.restyle_descendants || asked,
        replacements: hint.replacements,
    }
}

/// A child that the recalculation has passed is neither asked about nor changed any more.
proof fn lemma_passed_child_stays(
    state: RecalcState,
    shared: SharedStyleContext,
    replies: Seq<RecalcReply>,
    position: int,
)
    requires
        state.consistent(),
        state.recalc.request is Done || state.recalc.request is ExpandSnapshot,
        state.is_served_by(shared, replies),
        0 <= position < state.dom.children(state.recalc.element).len(),
        state.recalc.request is ExpandSnapshot ==> position < state.recalc.position,
    ensures
        ({
            let child = state.dom.children(state.recalc.element)[position];
            &&& state.run(shared, replies).dom.data_of(child) == state.dom.data_of(child)
            &&& state.hint_computed_for(shared, replies, child) is None
        }),
    decreases replies.len(),
{
    if replies.len() > 0 {
        let element = state.recalc.element;
        let kids = state.dom.children(element);
        let child = kids[position];
        let next = state.step(shared, replies[0]);
        let computed = replies[0]->SnapshotHint_0;
        assert(state.recalc.accepts(state.thread_local, replies[0]));
        crate::laws::recalculation::law_recalculation_stays_consistent(state, shared, replies[0]);
        crate::laws::requests::law_expanded_child_keeps_the_computed_hint(state, shared, computed);
        assert(replies[0] == RecalcReply::SnapshotHint(computed));
        assert(element < kids[position] < state.dom.len());
        assert forall|j: int| state.recalc.position <= j < kids.len() implies #[trigger] kids[j]
            != child by {}
        assert(next.dom.data[child as int] == state.dom.data[child as int]);
        assert(next.dom.children(element) == kids);
        lemma_passed_child_stays(next, shared, replies.skip(1), position);
    }
}

/// Every child from a position on gets what it is owed, where the children are being prepared
/// from there on.
proof fn lemma_children_get_what_they_are_owed(
    before: DomView,
    state: RecalcState,
    shared: SharedStyleContext,
    from: int,
    hint: StoredRestyleHint,
    changed: bool,
    except: NodeId,
    replies: Seq<RecalcReply>,
    position: int,
)
    requires
        before.well_formed(),
        state.consistent(),
        state.is_served_by(shared, replies),
        state.run(shared, replies).recalc.request is Done,
        crate::laws::requests::is_preparing(before, state, from, hint, changed, Some(except)),
        0 <= from <= position < before.children(state.recalc.element).len(),
        forall|j: int|
            from <= j < before.children(state.recalc.element).len() ==> #[trigger] before.children(
                state.recalc.element,
            )[j] != except,
        before.styled(before.children(state.recalc.element)[position]),
    ensures
        ({
            let child = before.children(state.recalc.element)[position];
            let own = state.hint_computed_for(shared, replies, child);
            let asked = state.siblings_are_asked_for(shared, replies, from, position);
            &&& own is Some <==> crate::laws::requests::waits_for_expansion(before, child)
            &&& is_owed(
                before.data[child as int]->0,
                state.run(shared, replies).dom.data[child as int],
                joined_for_siblings(hint, asked),
                changed,
                own,
            )
        }),
    decreases replies.len(),
{
    let element = state.recalc.element;
    let kids = before.children(element);
    let child = kids[position];
    let last = state.run(shared, replies);
    assert(kids == state.dom.children(element));
    assert(element < kids[position] < before.len());
    assert(before.tree[child as int].is_element) by {
        assert(before.data[child as int] is Some);
    }
    let bits = match before.data_of(child)->0.restyle {
        Some(restyle) => restyle.hint.replacements,
        None => 0,
    };
    let given = hint.replacements;
    assert((bits | given) | 0u8 == bits | given && 0u8 | given == given) by (bit_vector);
    let stop = if state.recalc.request is ExpandSnapshot {
        state.recalc.position as int
    } else {
        kids.len() as int
    };
    assert forall|i: int| from <= i < stop implies state.hint_computed_for(
        shared,
        replies,
        #[trigger] kids[i],
    ) is None by {
        lemma_passed_child_stays(state, shared, replies, i);
    }
    if position < stop {
        lemma_passed_child_stays(state, shared, replies, position);
        assert(crate::laws::requests::is_prepared(before, state.dom, kids[position], hint, changed));
        assert(!crate::laws::requests::waits_for_expansion(before, kids[position]));
        assert(!state.siblings_are_asked_for(shared, replies, from, position));
    } else {
        let next = state.step(shared, replies[0]);
        let rest = replies.skip(1);
        let computed = replies[0]->SnapshotHint_0;
        let asked_child = kids[stop];
        let later = computed.restyle_later_siblings;
        assert(replies.len() > 0);
        assert(state.recalc.accepts(state.thread_local, replies[0]));
        assert(replies[0] == RecalcReply::SnapshotHint(computed));
        assert(next.is_served_by(shared, rest));
        assert(last == next.run(shared, rest));
        crate::laws::recalculation::law_recalculation_stays_consistent(state, shared, replies[0]);
        crate::laws::requests::law_expanded_child_keeps_the_computed_hint(state, shared, computed);
        assert(next.dom.children(element) == kids);
        assert(element < kids[stop] < before.len());
        assert(state.hint_computed_for(shared, replies, kids[stop]) == Some(computed));
        if position == stop {
            lemma_passed_child_stays(next, shared, rest, position);
            assert(!state.siblings_are_asked_for(shared, replies, from, position));
        } else {
            assert(state.dom.data[child as int] == before.data[child as int]) by {
                assert forall|j: int| from <= j < stop + 1 implies #[trigger] kids[j] != child by {}
            }
            assert forall|j: int| stop + 1 <= j < kids.len() implies #[trigger] kids[j]
                != asked_child by {}
            lemma_children_get_what_they_are_owed(
                state.dom,
                next,
                shared,
                stop + 1,
                joined_for_siblings(hint, later),
                changed,
                asked_child,
                rest,
                position,
            );
            assert forall|j: int| stop < j < kids.len() implies state.hint_computed_for(
                shared,
                replies,
                #[trigger] kids[j],
            ) == next.hint_computed_for(shared, rest, kids[j]) by {
                assert(kids[j] != kids[stop]);
            }
            lemma_siblings_asked_for(state, shared, replies, from, stop, position);
            assert(joined_for_siblings(
                joined_for_siblings(hint, later),
                next.siblings_are_asked_for(shared, rest, stop + 1, position),
            ) == joined_for_siblings(
                hint,
                state.siblings_are_asked_for(shared, replies, from, position),
            ));
        }
    }
}

/// Later siblings are asked for by the child that is asked about first, or by one after it.
proof fn lemma_siblings_asked_for(
    state: RecalcState,
    shared: SharedStyleContext,
    replies: Seq<RecalcReply>,
    from: int,
    stop: int,
    to: int,
)
    requires
        replies.len() > 0,
        0 <= from <= stop < to <= state.dom.children(state.recalc.element).len(),
        replies[0] is SnapshotHint,
        state.step(shared, replies[0]).dom.tree == state.dom.tree,
        state.step(shared, replies[0]).recalc.element == state.recalc.element,
        forall|i: int|
            from <= i < stop ==> state.hint_computed_for(
                shared,
                replies,
                #[trigger] state.dom.children(state.recalc.element)[i],
            ) is None,
        state.hint_computed_for(
            shared,
            replies,
            state.dom.children(state.recalc.element)[stop],
        ) == Some(replies[0]->SnapshotHint_0),
        forall|i: int|
            stop < i < to ==> state.hint_computed_for(
                shared,
                replies,
                #[trigger] state.dom.children(state.recalc.element)[i],
            ) == state.step(shared, replies[0]).hint_computed_for(
                shared,
                replies.skip(1),
                state.dom.children(state.recalc.element)[i],
            ),
    ensures
        state.siblings_are_asked_for(shared, replies, from, to) == (
        replies[0]->SnapshotHint_0.restyle_later_siblings || state.step(
            shared,
            replies[0],
        ).siblings_are_asked_for(shared, replies.skip(1), stop + 1, to)),
{
    let kids = state.dom.children(state.recalc.element);
    let next = state.step(shared, replies[0]);
    let rest = replies.skip(1);
    assert(next.dom.tree[next.recalc.element as int].children@ == kids);
    if replies[0]->SnapshotHint_0.restyle_later_siblings {
        assert(state.hint_computed_for(shared, replies, kids[stop]) is Some);
    }
    if next.siblings_are_asked_for(shared, rest, stop + 1, to) {
        let i = choose|i: int|
            {
                &&& stop + 1 <= i < to
                &&& next.hint_computed_for(shared, rest, #[trigger] kids[i]) matches Some(computed)
                &&& computed.restyle_later_siblings
            };
        assert(state.hint_computed_for(shared, replies, kids[i]) is Some);
    }
    if state.siblings_are_asked_for(shared, replies, from, to) {
        let i = choose|i: int|
            {
                &&& from <= i < to
                &&& state.hint_computed_for(shared, replies, #[trigger] kids[i]) matches Some(
                    computed,
                )
                &&& computed.restyle_later_siblings
            };
        if i > stop {
            assert(next.hint_computed_for(shared, rest, kids[i]) is Some);
        }
    }
}

/// Where the children of a settled element are looked at, each styled one gets exactly what
/// it is owed in the end.
proof fn lemma_settled_children_get_what_they_are_owed(
    state: RecalcState,
    shared: SharedStyleContext,
    changed: bool,
    replies: Seq<RecalcReply>,
    position: int,
)
    requires
        state.ready(),
        crate::traversal::cull_reason_spec(
            shared,
            state.thread_local,
            state.dom.data_of(state.recalc.element)->0,
        ) is None,
        ({
            let data = state.dom.data_of(state.recalc.element)->0;
            state.dom.dirty_of(state.recalc.element) || data.pending().hint.restyle_descendants
                || changed
        }),
        state.settled(shared, changed).is_served_by(shared, replies),
        state.settled(shared, changed).run(shared, replies).recalc.request is Done,
        0 <= position < state.dom.children(state.recalc.element).len(),
        state.dom.styled(state.dom.children(state.recalc.element)[position]),
    ensures
        ({
            let child = state.dom.children(state.recalc.element)[position];
            let after = state.settled(shared, changed);
            let below = state.dom.data_of(
                state.recalc.element,
            )->0.pending().hint.restyle_descendants;
            let asked = after.siblings_are_asked_for(shared, replies, 0, position);
            let own = after.hint_computed_for(shared, replies, child);
            &&& own is Some <==> crate::laws::requests::waits_for_expansion(state.dom, child)
            &&& is_owed(
                state.dom.data[child as int]->0,
                after.run(shared, replies).dom.data[child as int],
                StoredRestyleHint {
                    restyle_self: below || asked,
                    restyle_descendants: below || asked,
                    replacements: 0,
                },
                changed,
                own,
            )
        }),
{
    let element = state.recalc.element;
    let kids = state.dom.children(element);
    let below = state.dom.data_of(element)->0.pending().hint.restyle_descendants;
    let hint = StoredRestyleHint {
        restyle_self: below,
        restyle_descendants: below,
        replacements: 0,
    };
    crate::laws::requests::law_settled_element_prepares_its_children(state, shared, changed);
    state.lemma_settled(shared, changed);
    assert forall|j: int| 0 <= j < kids.len() implies #[trigger] kids[j] != element by {
        assert(element < kids[j]);
    }
    lemma_children_get_what_they_are_owed(
        state.dom,
        state.settled(shared, changed),
        shared,
        0,
        hint,
        changed,
        element,
        replies,
        position,
    );
}

/// Where an element is recalculated although its styles are current, it has dirty descendants
/// or a hint for them, and its children may be traversed, each styled child has in the end
/// exactly what it is owed: its own hint, joined by the restyling of its subtree if the
/// descendants of the element are to be restyled or an earlier sibling asks for it, and by
/// what the engine computed for its snapshot.
pub proof fn law_children_of_a_current_element_get_what_they_are_owed(
    shared: SharedStyleContext,
    dom: DomView,
    thread_local: ThreadLocalStyleContext,
    level: PerLevelTraversalData,
    element: NodeId,
    replies: Seq<RecalcReply>,
    position: int,
)
    requires
        dom.well_formed(),
        dom.has_element(element),
        dom.data_of(element) is Some,
        dom.data_of(element)->0.current(),
        !dom.data[element as int]->0.styles->0.display_none,
        dom.dirty[element as int] || (dom.data[element as int]->0.restyle matches Some(restyle)
            && restyle.hint.restyle_descendants),
        RecalcState::begun(shared, dom, thread_local, level, element).is_served_by(
            shared,
            replies,
        ),
        RecalcState::begun(shared, dom, thread_local, level, element).run(
            shared,
            replies,
        ).recalc.request is Done,
        0 <= position < dom.children(element).len(),
        dom.styled(dom.children(element)[position]),
    ensures
        ({
            let begun = RecalcState::begun(shared, dom, thread_local, level, element);
            let child = dom.children(element)[position];
            let below = dom.data[element as int]->0.restyle matches Some(restyle)
                && restyle.hint.restyle_descendants;
            let asked = begun.siblings_are_asked_for(shared, replies, 0, position);
            let own = begun.hint_computed_for(shared, replies, child);
            &&& own is Some <==> crate::laws::requests::waits_for_expansion(dom, child)
            &&& is_owed(
                dom.data[child as int]->0,
                begun.run(shared, replies).dom.data[child as int],
                StoredRestyleHint {
                    restyle_self: below || asked,
                    restyle_descendants: below || asked,
                    replacements: 0,
                },
                false,
                own,
            )
        }),
{
    lemma_settled_children_get_what_they_are_owed(
        RecalcState::entered(dom, thread_local, level, element),
        shared,
        false,
        replies,
        position,
    );
}

/// A recalculation that still has to complete the styles leaves each styled child with what it
/// is owed.
proof fn lemma_restyled_children_get_what_they_are_owed(
    before: DomView,
    state: RecalcState,
    shared: SharedStyleContext,
    replies: Seq<RecalcReply>,
    position: int,
)
    requires
        before.well_formed(),
        state.consistent(),
        state.is_served_by(shared, replies),
        !(state.recalc.request is Done),
        !(state.recalc.request is ExpandSnapshot),
        state.dom.tree == before.tree,
        forall|j: int|
            0 <= j < before.children(state.recalc.element).len() ==> state.dom.data_of(
                #[trigger] before.children(state.recalc.element)[j],
            ) == before.data_of(before.children(state.recalc.element)[j]),
        ({
            let after = state.run(shared, replies);
            &&& after.recalc.request is Done
            &&& crate::traversal::cull_reason_spec(
                shared,
                after.thread_local,
                after.dom.data_of(state.recalc.element)->0,
            ) is None
        }),
        0 <= position < before.children(state.recalc.element).len(),
        before.styled(before.children(state.recalc.element)[position]),
    ensures
        ({
            let child = before.children(state.recalc.element)[position];
            let completed = state.completed_data(shared, replies);
            let below = completed.pending().hint.restyle_descendants;
            let asked = state.siblings_are_asked_for(shared, replies, 0, position);
            let own = state.hint_computed_for(shared, replies, child);
            &&& own is Some <==> crate::laws::requests::waits_for_expansion(before, child)
            &&& is_owed(
                before.data[child as int]->0,
                state.run(shared, replies).dom.data[child as int],
                StoredRestyleHint {
                    restyle_self: below || asked,
                    restyle_descendants: below || asked,
                    replacements: 0,
                },
                true,
                own,
            )
        }),
    decreases replies.len(),
{
    let element = state.recalc.element;
    let kids = before.children(element);
    let child = kids[position];
    let next = state.step(shared, replies[0]);
    let rest = replies.skip(1);
    assert(element < kids[position] < before.len());
    crate::laws::recalculation::law_recalculation_stays_consistent(state, shared, replies[0]);
    crate::laws::recalculation::lemma_step_cases(state, shared, replies[0]);
    assert forall|j: int, data: ElementData| 0 <= j < kids.len() implies #[trigger] state.with_data(
        data,
    ).dom.data_of(kids[j]) == before.data_of(kids[j]) by {
        assert(element < kids[j] < before.len());
    }
    assert(next.is_served_by(shared, rest));
    assert(state.dom.tree[element as int].children@ == kids);
    assert(next.dom.tree[element as int].children@ == kids);
    assert forall|n: NodeId| state.hint_computed_for(shared, replies, n)
        == #[trigger] next.hint_computed_for(shared, rest, n) by {}
    assert(state.siblings_are_asked_for(shared, replies, 0, position)
        == next.siblings_are_asked_for(shared, rest, 0, position)) by {
        if state.siblings_are_asked_for(shared, replies, 0, position) {
            let i = choose|i: int|
                {
                    &&& 0 <= i < position
                    &&& state.hint_computed_for(shared, replies, #[trigger] kids[i]) matches Some(
                        computed,
                    )
                    &&& computed.restyle_later_siblings
                };
            assert(next.hint_computed_for(shared, rest, kids[i]) is Some);
        }
        if next.siblings_are_asked_for(shared, rest, 0, position) {
            let i = choose|i: int|
                {
                    &&& 0 <= i < position
                    &&& next.hint_computed_for(shared, rest, #[trigger] kids[i]) matches Some(
                        computed,
                    )
                    &&& computed.restyle_later_siblings
                };
            assert(state.hint_computed_for(shared, replies, kids[i]) is Some);
        }
    }
    if let Some(done) = state.completing(replies[0]) {
        let data = done.dom.data_of(element)->0;
        if done.dom.hides(element) || crate::traversal::cull_reason_spec(
            shared,
            done.thread_local,
            data,
        ) is Some {
            lemma_culled_styles_end(done, shared);
            if rest.len() > 0 {
                assert(next.recalc.accepts(next.thread_local, rest[0]));
            }
        } else {
            crate::laws::requests::law_visible_styles_settle_the_element(done, shared);
            lemma_settled_children_get_what_they_are_owed(done, shared, true, rest, position);
        }
    } else {
        lemma_restyled_children_get_what_they_are_owed(before, next, shared, rest, position);
    }
}

/// New styles that forbid to traverse the children end the recalculation.
proof fn lemma_culled_styles_end(state: RecalcState, shared: SharedStyleContext)
    requires
        state.ready(),
        crate::traversal::cull_reason_spec(
            shared,
            state.thread_local,
            state.dom.data_of(state.recalc.element)->0,
        ) is Some,
    ensures
        state.computed(shared).recalc.request is Done,
        crate::traversal::cull_reason_spec(
            shared,
            state.computed(shared).thread_local,
            state.computed(shared).dom.data_of(state.recalc.element)->0,
        ) is Some,
{
    state.dom.lemma_clearing_keeps_top(state.recalc.element);
}

/// Where the styles of an element had to be computed and its children may be traversed
/// afterwards, each styled child has in the end exactly what it is owed: its own hint, joined
/// by the restyling of its subtree if the descendants of the element were to be restyled when
/// its styles were complete, or an earlier sibling asks for it, and by what the engine
/// computed for its snapshot. It has to run the cascade again.
pub proof fn law_children_of_a_restyled_element_get_what_they_are_owed(
    shared: SharedStyleContext,
    dom: DomView,
    thread_local: ThreadLocalStyleContext,
    level: PerLevelTraversalData,
    element: NodeId,
    replies: Seq<RecalcReply>,
    position: int,
)
    requires
        dom.well_formed(),
        dom.has_element(element),
        dom.data_of(element) is Some,
        !dom.data_of(element)->0.has_snapshot_spec(),
        !dom.data_of(element)->0.current(),
        RecalcState::begun(shared, dom, thread_local, level, element).is_served_by(
            shared,
            replies,
        ),
        ({
            let after = RecalcState::begun(shared, dom, thread_local, level, element).run(
                shared,
                replies,
            );
            let styles = after.dom.data[element as int]->0.styles->0;
            &&& after.recalc.request is Done
            &&& !styles.display_none
            &&& !(shared.product == Product::Gecko && dom.data[element as int]->0.styles is None
                && styles.has_moz_binding)
        }),
        0 <= position < dom.children(element).len(),
        dom.styled(dom.children(element)[position]),
    ensures
        ({
            let begun = RecalcState::begun(shared, dom, thread_local, level, element);
            let child = dom.children(element)[position];
            let completed = begun.completed_data(shared, replies);
            let below = completed.restyle matches Some(restyle)
                && restyle.hint.restyle_descendants;
            let asked = begun.siblings_are_asked_for(shared, replies, 0, position);
            let own = begun.hint_computed_for(shared, replies, child);
            &&& own is Some <==> crate::laws::requests::waits_for_expansion(dom, child)
            &&& is_owed(
                dom.data[child as int]->0,
                begun.run(shared, replies).dom.data[child as int],
                StoredRestyleHint {
                    restyle_self: below || asked,
                    restyle_descendants: below || asked,
                    replacements: 0,
                },
                true,
                own,
            )
        }),
{
    let begun = RecalcState::begun(shared, dom, thread_local, level, element);
    crate::laws::recalculation::law_recalculation_begins_consistent(
        shared,
        dom,
        thread_local,
        level,
        element,
    );
    crate::laws::recalculation::law_recalculation_ends(begun, shared, replies);
    lemma_restyled_children_get_what_they_are_owed(dom, begun, shared, replies, position);
}

} // verus!
