//! What holds of a recalculation, whatever the style engine replies.

use vstd::prelude::*;

use crate::context::{Product, SharedStyleContext, ThreadLocalStyleContext};
use crate::data::{ElementData, RestyleDamage, RestyleKind};
use crate::dom::{DomView, NodeId};
use crate::recalc::{RecalcReply, RecalcRequest, RecalcState, StyleSharingResult};
use crate::restyle_hints::StoredRestyleHint;
use crate::traversal::PerLevelTraversalData;

verus! {

/// Whether the dirty bits are still those of the tree `before`. Only a recalculation that is
/// over and found its element hidden may have unset some.
pub open spec fn keeps_dirty_bits(before: DomView, state: RecalcState) -> bool {
    state.dom.dirty == before.dirty || (state.recalc.request is Done && state.dom.hides(
        state.recalc.element,
    ))
}

impl RecalcState {
    /// What holds in every state of a recalculation: the current request fits the tree, the
    /// worker processes the element, and from the moment the children are looked at,
    /// nothing is pending for the element any more. In the end a hidden element has no
    /// dirty bit.
    pub open spec fn consistent(self) -> bool {
        let element = self.recalc.element;
        &&& self.recalc.fits(self.dom)
        &&& self.thread_local.current_element_info is Some
        &&& self.thread_local.current_element_info->0.element == element
        &&& self.recalc.request is Done || self.recalc.request is ExpandSnapshot ==> {
            &&& self.dom.data_of(element)->0.is_fresh()
            &&& self.dom.data_of(element)->0.settled() == self.dom.data_of(element)->0
        }
        &&& self.recalc.request is Done && self.dom.hides(element) ==> !self.dom.dirty_of(element)
    }

    /// An upper bound for the number of replies that a recalculation still needs.
    pub open spec fn remaining(self) -> int {
        let children = self.dom.children(self.recalc.element).len() as int;
        match self.recalc.request {
            RecalcRequest::ShareStyle => children + 6,
            RecalcRequest::InsertParents { .. } => children + 5,
            RecalcRequest::Match => children + 4,
            RecalcRequest::CascadeWithReplacements { .. } => children + 4,
            RecalcRequest::MatchResultsFromCurrentStyle => children + 4,
            RecalcRequest::Cascade { .. } => children + 3,
            RecalcRequest::InsertCandidate { .. } => children + 2,
            RecalcRequest::TouchCandidate { .. } => children + 2,
            RecalcRequest::ExpandSnapshot { .. } => children + 1 - self.recalc.position,
            RecalcRequest::Done => 0,
        }
    }

    /// Whether the element can be settled: it has styles and no snapshot, and the worker
    /// processes it.
    pub open spec fn ready(self) -> bool {
        let element = self.recalc.element;
        &&& self.dom.well_formed()
        &&& self.dom.has_element(element)
        &&& self.dom.data_of(element) is Some
        &&& self.dom.data_of(element)->0.is_fresh()
        &&& self.thread_local.current_element_info is Some
        &&& self.thread_local.current_element_info->0.element == element
    }

    /// Ending a recalculation.
    proof fn lemma_finished(self)
        requires
            self.ready(),
            self.dom.data_of(self.recalc.element)->0.settled() == self.dom.data_of(
                self.recalc.element,
            )->0,
        ensures
            self.finished().consistent(),
            self.finished().recalc.request is Done,
            self.finished().dom.tree == self.dom.tree,
            self.dom.data_is_rooted() ==> self.finished().dom.data_is_rooted(),
            self.finished().thread_local == self.thread_local,
            self.finished().level == self.level,
            keeps_dirty_bits(self.dom, self.finished()),
    {
        let after = self.finished();
        self.dom.lemma_well_formed_update(after.dom);
        assert(after.dom.data == self.dom.data);
        if self.dom.data_is_rooted() {
            lemma_rooted_if_data_kept(self.dom, after.dom);
        }
    }

    /// Preparing children up to the next snapshot.
    proof fn lemma_preprocessed(self, from: int, hint: StoredRestyleHint, changed: bool)
        requires
            self.ready(),
            self.dom.data_of(self.recalc.element)->0.settled() == self.dom.data_of(
                self.recalc.element,
            )->0,
            0 <= from <= self.dom.children(self.recalc.element).len(),
        ensures
            ({
                let after = self.preprocessed(from, hint, changed);
                let element = self.recalc.element;
                &&& after.consistent()
                &&& after.recalc.element == element
                &&& after.recalc.request is Done || after.recalc.request is ExpandSnapshot
                &&& after.recalc.request is ExpandSnapshot ==> after.recalc.position >= from
                &&& after.dom.data_of(element) == self.dom.data_of(element)
                &&& after.dom.tree == self.dom.tree
                &&& self.dom.data_is_rooted() ==> after.dom.data_is_rooted()
                &&& after.thread_local == self.thread_local
                &&& after.level == self.level
                &&& keeps_dirty_bits(self.dom, after)
            }),
    {
        let element = self.recalc.element;
        let kids = self.dom.children(element);
        let stop = self.dom.next_snapshot(element, from);
        self.dom.lemma_next_snapshot(element, from);
        let prepared = self.dom.with_children_prepared(element, from, stop, hint, changed);
        assert forall|n: NodeId|
            #![trigger prepared.data[n as int]]
            self.dom.has(n) && !self.dom.tree[n as int].is_element implies prepared.data[n as int]
            is None by {
            assert(self.dom.data[n as int] is None);
        }
        self.dom.lemma_well_formed_update(prepared);
        self.dom.lemma_prepared_keeps_rest(element, from, stop, hint, changed);
        if self.dom.data_is_rooted() {
            assert forall|n: NodeId|
                #![trigger prepared.data_of(n)]
                prepared.has(n) && prepared.data_of(n) is Some && prepared.parent(n)
                    is Some implies prepared.data_of(prepared.parent(n)->0) is Some by {
                let p = self.dom.tree[n as int].parent->0;
                if self.dom.is_child_in(element, from, stop, n) {
                    let j = choose|j: int| from <= j < stop && #[trigger] kids[j] == n;
                    assert(self.dom.parent(kids[j]) == Some(element));
                } else {
                    assert(self.dom.data_of(n) is Some);
                    assert(self.dom.data_of(p) is Some);
                    assert(self.dom.has_element(p));
                }
            }
        }
        if stop < kids.len() {
            let child = kids[stop];
            assert(element < child < self.dom.len());
            assert(!self.dom.is_child_in(element, from, stop, child));
            let after = self.preprocessed(from, hint, changed);
            assert(kids.len() == self.dom.tree[element as int].children.len());
            prepared.lemma_well_formed_update(after.dom);
            assert(after.dom.data_of(element) == self.dom.data_of(element));
            assert(after.dom.awaits_expansion(child));
            if self.dom.data_is_rooted() {
                lemma_rooted_if_data_kept(prepared, after.dom);
            }
        } else {
            let middle = RecalcState { dom: prepared, ..self };
            middle.lemma_finished();
        }
    }

    /// Settling the element.
    pub proof fn lemma_settled(self, shared: SharedStyleContext, changed: bool)
        requires
            self.ready(),
        ensures
            ({
                let after = self.settled(shared, changed);
                let element = self.recalc.element;
                &&& after.consistent()
                &&& after.dom.hides(element) == self.dom.hides(element)
                &&& after.recalc.element == self.recalc.element
                &&& after.recalc.request is Done || after.recalc.request is ExpandSnapshot
                &&& after.dom.tree == self.dom.tree
                &&& self.dom.data_is_rooted() ==> after.dom.data_is_rooted()
                &&& after.thread_local == self.thread_local
                &&& after.level == self.level
                &&& keeps_dirty_bits(self.dom, after)
            }),
    {
        let element = self.recalc.element;
        let data = self.dom.data_of(element)->0;
        let next = self.with_data(data.settled());
        self.dom.lemma_well_formed_update(next.dom);
        if self.dom.data_is_rooted() {
            lemma_rooted_if_data_kept(self.dom, next.dom);
        }
        next.lemma_finished();
        next.lemma_preprocessed(0, data.pending().hint.for_children(), changed);
    }

    /// Taking new styles into account.
    proof fn lemma_computed(self, shared: SharedStyleContext)
        requires
            self.ready(),
        ensures
            ({
                let after = self.computed(shared);
                let element = self.recalc.element;
                &&& after.consistent()
                &&& after.dom.hides(element) == self.dom.hides(element)
                &&& after.recalc.element == self.recalc.element
                &&& after.recalc.request is Done || after.recalc.request is ExpandSnapshot
                &&& after.dom.tree == self.dom.tree
                &&& self.dom.data_is_rooted() ==> after.dom.data_is_rooted()
                &&& after.thread_local == self.thread_local
                &&& after.level == self.level
                &&& keeps_dirty_bits(self.dom, after)
            }),
    {
        let element = self.recalc.element;
        let cleared = self.dom.cleared_below(element);
        self.dom.lemma_clearing_keeps_top(element);
        self.dom.lemma_well_formed_update(cleared);
        if self.dom.data_is_rooted() {
            crate::laws::clearing::law_clearing_keeps_data_rooted(self.dom, element);
        }
        if self.dom.hides(element) {
            RecalcState { dom: cleared, ..self }.lemma_settled(shared, true);
        } else {
            assert((RecalcState { dom: self.dom, ..self }) == self);
            self.lemma_settled(shared, true);
        }
    }
}

/// Taking new styles into account that hide the element.
proof fn lemma_computed_hidden(state: RecalcState, shared: SharedStyleContext, node: NodeId)
    requires
        state.ready(),
        state.dom.hides(state.recalc.element),
        state.dom.has(node),
        node != state.recalc.element,
    ensures
        state.computed(shared).recalc.request is Done,
        state.computed(shared).dom.data_of(node) == state.dom.cleared_below(
            state.recalc.element,
        ).data_of(node),
{
    state.dom.lemma_clearing_keeps_top(state.recalc.element);
}

/// Data stays rooted where no element loses its data and only elements gain any whose
/// parents have some.
proof fn lemma_rooted_if_data_kept(before: DomView, after: DomView)
    requires
        before.well_formed(),
        before.data_is_rooted(),
        after.tree == before.tree,
        forall|n: NodeId|
            #![trigger after.data_of(n)]
            before.has(n) ==> (after.data_of(n) is Some == before.data_of(n) is Some),
    ensures
        after.data_is_rooted(),
{
    assert forall|n: NodeId|
        #![trigger after.data_of(n)]
        after.has(n) && after.data_of(n) is Some && after.parent(n) is Some implies after.data_of(
        after.parent(n)->0,
    ) is Some by {
        assert(before.data_of(n) is Some);
        assert(before.tree[n as int].parent is Some);
        assert(before.data_of(before.parent(n)->0) is Some);
    }
}

/// A recalculation begins in a consistent state.
pub proof fn law_recalculation_begins_consistent(
    shared: SharedStyleContext,
    dom: DomView,
    thread_local: ThreadLocalStyleContext,
    level: PerLevelTraversalData,
    element: NodeId,
)
    requires
        dom.well_formed(),
        dom.has_element(element),
        dom.data_of(element) is Some,
        !dom.data_of(element)->0.has_snapshot_spec(),
    ensures
        ({
            let after = RecalcState::begun(shared, dom, thread_local, level, element);
            &&& after.consistent()
            &&& after.recalc.element == element
            &&& after.dom.tree == dom.tree
            &&& dom.data_is_rooted() ==> after.dom.data_is_rooted()
            &&& after.level == level
            &&& after.thread_local.current_element_info->0.is_initial_style == !dom.styled(
                element,
            )
        }),
{
    if dom.data_of(element)->0.current() {
        RecalcState::entered(dom, thread_local, level, element).lemma_settled(shared, false);
    }
}

impl RecalcState {
    /// The state in which the styles of the element are complete with a reply, if they are:
    /// it has been decided which styles the element has, and nothing has been done with
    /// them yet.
    pub open spec fn completing(self, reply: RecalcReply) -> Option<RecalcState> {
        match (self.recalc.request, reply) {
            (RecalcRequest::TouchCandidate { .. }, _) => Some(self),
            (RecalcRequest::Cascade { shareable: false, .. }, RecalcReply::Cascaded(data)) => Some(
                self.with_data(data),
            ),
            (RecalcRequest::InsertCandidate { .. }, _) => Some(self),
            _ => None,
        }
    }
}

/// A reply completes the styles of the element, or expands the snapshot of a child, or leads
/// on to another request for the element itself.
pub proof fn lemma_step_cases(state: RecalcState, shared: SharedStyleContext, reply: RecalcReply)
    requires
        state.consistent(),
        state.recalc.accepts(state.thread_local, reply),
    ensures
        ({
            let element = state.recalc.element;
            let after = state.step(shared, reply);
            match state.completing(reply) {
                Some(done) => {
                    &&& after == done.computed(shared)
                    &&& done.ready()
                    &&& done == state || done == state.with_data(done.dom.data_of(element)->0)
                    &&& state.dom.data_is_rooted() ==> done.dom.data_is_rooted()
                },
                None => if state.recalc.request is ExpandSnapshot {
                    let child = state.dom.children(element)[state.recalc.position as int];
                    &&& reply is SnapshotHint
                    &&& after == state.expanded(child, reply->SnapshotHint_0).preprocessed(
                        state.recalc.position + 1,
                        state.recalc.hint_after(reply->SnapshotHint_0),
                        state.recalc.inherited_style_changed,
                    )
                } else {
                    &&& !(after.recalc.request is Done)
                    &&& !(after.recalc.request is ExpandSnapshot)
                    &&& after.consistent()
                    &&& after.recalc.element == element
                    &&& after.dom == state.dom || after.dom == state.with_data(
                        after.dom.data_of(element)->0,
                    ).dom
                    &&& state.dom.data_is_rooted() ==> after.dom.data_is_rooted()
                },
            }
        }),
{
    match reply {
        RecalcReply::Sharing { data, .. } => lemma_data_replaced(state, data),
        RecalcReply::Replaced { data, .. } => lemma_data_replaced(state, data),
        RecalcReply::Cascaded(data) => lemma_data_replaced(state, data),
        _ => {},
    }
}

/// Once the styles of the element are complete, only its children are asked about.
pub proof fn lemma_computed_asks_for_children_only(state: RecalcState, shared: SharedStyleContext)
    requires
        state.ready(),
    ensures
        ({
            let after = state.computed(shared);
            after.recalc.request is Done || after.recalc.request is ExpandSnapshot
        }),
{
    state.lemma_computed(shared);
}

/// Once children are asked about, nothing else is.
pub proof fn lemma_expanding_asks_for_children_only(
    state: RecalcState,
    shared: SharedStyleContext,
    reply: RecalcReply,
)
    requires
        state.consistent(),
        state.recalc.accepts(state.thread_local, reply),
        state.recalc.request is ExpandSnapshot,
    ensures
        ({
            let after = state.step(shared, reply);
            after.recalc.request is Done || after.recalc.request is ExpandSnapshot
        }),
{
    lemma_step_cases(state, shared, reply);
    let computed = reply->SnapshotHint_0;
    let child = state.dom.children(state.recalc.element)[state.recalc.position as int];
    lemma_expanded(state, computed);
    state.expanded(child, computed).lemma_preprocessed(
        state.recalc.position + 1,
        state.recalc.hint_after(computed),
        state.recalc.inherited_style_changed,
    );
}

/// What a reply does to everything but the children.
spec fn is_step(before: RecalcState, reply: RecalcReply, after: RecalcState) -> bool {
    let (old_counts, new_counts) = (before.thread_local.statistics, after.thread_local.statistics);
    &&& after.consistent()
    &&& after.recalc.element == before.recalc.element
    &&& after.dom.tree == before.dom.tree
    &&& before.dom.data_is_rooted() ==> after.dom.data_is_rooted()
    &&& after.thread_local.current_element_info == before.thread_local.current_element_info
    &&& 0 <= after.remaining() < before.remaining()
    &&& after.level == if before.recalc.request is InsertParents {
        PerLevelTraversalData { current_dom_depth: Some(reply->DomDepth_0) }
    } else {
        before.level
    }
    &&& !(after.recalc.request is ShareStyle)
    &&& new_counts.styles_shared == old_counts.styles_shared + counted(
        before.recalc.request is ShareStyle && says_shared(reply),
    )
    &&& after.matches_found() == before.matches_found() + counted(
        before.recalc.request is ShareStyle && !says_shared(reply),
    )
    &&& new_counts.elements_traversed == old_counts.elements_traversed
    &&& new_counts.elements_styled == old_counts.elements_styled
    &&& keeps_dirty_bits(before.dom, after)
}

/// A reply that completes the styles.
proof fn lemma_completing_step(state: RecalcState, shared: SharedStyleContext, reply: RecalcReply)
    requires
        state.consistent(),
        state.recalc.accepts(state.thread_local, reply),
        state.completing(reply) is Some,
    ensures
        is_step(state, reply, state.step(shared, reply)),
{
    lemma_step_cases(state, shared, reply);
    state.completing(reply)->0.lemma_computed(shared);
}

/// A reply that expands the snapshot of a child.
proof fn lemma_expanding_step(state: RecalcState, shared: SharedStyleContext, reply: RecalcReply)
    requires
        state.consistent(),
        state.recalc.accepts(state.thread_local, reply),
        state.recalc.request is ExpandSnapshot,
    ensures
        is_step(state, reply, state.step(shared, reply)),
{
    lemma_step_cases(state, shared, reply);
    let computed = reply->SnapshotHint_0;
    let child = state.dom.children(state.recalc.element)[state.recalc.position as int];
    lemma_expanded(state, computed);
    state.expanded(child, computed).lemma_preprocessed(
        state.recalc.position + 1,
        state.recalc.hint_after(computed),
        state.recalc.inherited_style_changed,
    );
}

/// A reply that leads on to another request for the element itself.
proof fn lemma_leading_step(state: RecalcState, shared: SharedStyleContext, reply: RecalcReply)
    requires
        state.consistent(),
        state.recalc.accepts(state.thread_local, reply),
        state.completing(reply) is None,
        !(state.recalc.request is ExpandSnapshot),
    ensures
        is_step(state, reply, state.step(shared, reply)),
{
    lemma_step_cases(state, shared, reply);
}

/// Any reply.
proof fn lemma_step(state: RecalcState, shared: SharedStyleContext, reply: RecalcReply)
    requires
        state.consistent(),
        state.recalc.accepts(state.thread_local, reply),
    ensures
        is_step(state, reply, state.step(shared, reply)),
{
    if state.completing(reply) is Some {
        lemma_completing_step(state, shared, reply);
    } else if state.recalc.request is ExpandSnapshot {
        lemma_expanding_step(state, shared, reply);
    } else {
        lemma_leading_step(state, shared, reply);
    }
}

/// Whatever the engine replies, a recalculation stays consistent, keeps to its element,
/// leaves the shape of the tree alone and its data rooted, and comes closer to its end.
pub proof fn law_recalculation_stays_consistent(
    state: RecalcState,
    shared: SharedStyleContext,
    reply: RecalcReply,
)
    requires
        state.consistent(),
        state.recalc.accepts(state.thread_local, reply),
    ensures
        ({
            let after = state.step(shared, reply);
            &&& after.consistent()
            &&& after.recalc.element == state.recalc.element
            &&& after.dom.tree == state.dom.tree
            &&& state.dom.data_is_rooted() ==> after.dom.data_is_rooted()
            &&& after.thread_local.current_element_info == state.thread_local.current_element_info
            &&& 0 <= after.remaining() < state.remaining()
        }),
{
    lemma_step(state, shared, reply);
}

/// Expanding the snapshot of a child.
pub proof fn lemma_expanded(state: RecalcState, computed: crate::restyle_hints::RestyleHint)
    requires
        state.consistent(),
        state.recalc.request is ExpandSnapshot,
    ensures
        ({
            let element = state.recalc.element;
            let child = state.dom.children(element)[state.recalc.position as int];
            let after = state.expanded(child, computed);
            &&& after.ready()
            &&& after.dom.tree == state.dom.tree
            &&& after.dom.data_of(element) == state.dom.data_of(element)
            &&& state.dom.data_is_rooted() ==> after.dom.data_is_rooted()
        }),
{
    let element = state.recalc.element;
    let child = state.dom.children(element)[state.recalc.position as int];
    let after = state.expanded(child, computed);
    assert(element < child < state.dom.len());
    assert(state.dom.tree[child as int].is_element) by {
        assert(state.dom.data[child as int] is Some);
    }
    state.dom.lemma_well_formed_update(after.dom);
    if state.dom.data_is_rooted() {
        lemma_rooted_if_data_kept(state.dom, after.dom);
    }
}

/// Replacing the data of the element.
proof fn lemma_data_replaced(state: RecalcState, data: ElementData)
    requires
        state.recalc.fits(state.dom),
    ensures
        state.with_data(data).dom.well_formed(),
        state.dom.data_is_rooted() ==> state.with_data(data).dom.data_is_rooted(),
{
    state.dom.lemma_well_formed_update(state.with_data(data).dom);
    if state.dom.data_is_rooted() {
        lemma_rooted_if_data_kept(state.dom, state.with_data(data).dom);
    }
}

impl RecalcState {
    /// The state after a series of replies.
    pub open spec fn run(self, shared: SharedStyleContext, replies: Seq<RecalcReply>) -> RecalcState
        decreases replies.len(),
    {
        if replies.len() == 0 {
            self
        } else {
            self.step(shared, replies[0]).run(shared, replies.skip(1))
        }
    }

    /// Whether each reply of a series replies to the request that stands when it comes.
    pub open spec fn is_served_by(
        self,
        shared: SharedStyleContext,
        replies: Seq<RecalcReply>,
    ) -> bool
        decreases replies.len(),
    {
        replies.len() == 0 || {
            &&& self.recalc.accepts(self.thread_local, replies[0])
            &&& self.step(shared, replies[0]).is_served_by(shared, replies.skip(1))
        }
    }

    /// How many elements went through selector matching so far, together with this one if
    /// that is settled.
    pub open spec fn matches_found(self) -> int {
        let owed: int = if self.recalc.request is InsertParents {
            1
        } else {
            0
        };
        self.thread_local.statistics.elements_matched + owed
    }

    /// Whether a reply is the answer to the question whether a style can be shared.
    pub open spec fn asked_to_share(self, replies: Seq<RecalcReply>) -> bool {
        self.recalc.request is ShareStyle && replies.len() > 0
    }
}

/// Whether a reply says that a style was shared.
pub open spec fn says_shared(reply: RecalcReply) -> bool {
    reply matches RecalcReply::Sharing { result: StyleSharingResult::StyleWasShared(_), .. }
}

/// One if the condition holds, and else nothing.
pub open spec fn counted(condition: bool) -> int {
    if condition {
        1
    } else {
        0
    }
}

/// A recalculation stays consistent under every series of replies, and needs no more
/// replies than a bound that is known from the start.
pub proof fn law_recalculation_ends(
    state: RecalcState,
    shared: SharedStyleContext,
    replies: Seq<RecalcReply>,
)
    requires
        state.consistent(),
        state.is_served_by(shared, replies),
    ensures
        replies.len() <= state.remaining(),
        state.run(shared, replies).consistent(),
        state.run(shared, replies).recalc.element == state.recalc.element,
        state.run(shared, replies).dom.tree == state.dom.tree,
        state.dom.data_is_rooted() ==> state.run(shared, replies).dom.data_is_rooted(),
        state.run(shared, replies).thread_local.current_element_info
            == state.thread_local.current_element_info,
    decreases replies.len(),
{
    if replies.len() > 0 {
        law_recalculation_stays_consistent(state, shared, replies[0]);
        law_recalculation_ends(state.step(shared, replies[0]), shared, replies.skip(1));
    }
}

/// While the recalculation waits for a reply, the engine can always give one, as long as
/// the counters have room.
pub proof fn law_recalculation_never_gets_stuck(state: RecalcState)
    requires
        state.consistent(),
        !(state.recalc.request is Done),
        state.thread_local.statistics.elements_matched < u32::MAX,
    ensures
        exists|reply: RecalcReply| state.recalc.accepts(state.thread_local, reply),
{
    let data = ElementData {
        styles: Some(
            crate::data::ElementStyles { display_none: false, has_moz_binding: false, values: 0 },
        ),
        restyle: None,
    };
    let results = crate::context::MatchResults {
        primary: 0,
        per_pseudo: 0,
        relations: 0,
        primary_is_shareable: false,
    };
    let hint = crate::restyle_hints::RestyleHint {
        restyle_self: false,
        restyle_descendants: false,
        restyle_later_siblings: false,
        replacements: 0,
    };
    let reply = match state.recalc.request {
        RecalcRequest::ShareStyle => RecalcReply::Sharing {
            result: StyleSharingResult::CannotShare,
            data,
        },
        RecalcRequest::InsertParents { .. } => RecalcReply::DomDepth(0),
        RecalcRequest::Match => RecalcReply::Matched(results),
        RecalcRequest::CascadeWithReplacements { .. } => RecalcReply::Replaced { results, data },
        RecalcRequest::MatchResultsFromCurrentStyle => RecalcReply::Matched(results),
        RecalcRequest::Cascade { .. } => RecalcReply::Cascaded(data),
        RecalcRequest::ExpandSnapshot { .. } => RecalcReply::SnapshotHint(hint),
        _ => RecalcReply::Acknowledged,
    };
    assert(state.recalc.accepts(state.thread_local, reply));
}

/// After a recalculation the styles of the element are current, and nothing is pending for
/// it but damage; if it is hidden, its dirty bit is unset. The question whether to
/// traverse its children then makes sense.
pub proof fn law_recalculated_element_is_current(state: RecalcState, shared: SharedStyleContext)
    requires
        state.consistent(),
        state.recalc.request is Done,
    ensures
        ({
            let element = state.recalc.element;
            let data = state.dom.data_of(element)->0;
            &&& data.current()
            &&& data.pending().hint == StoredRestyleHint::none()
            &&& !data.pending().recascade
            &&& state.dom.hides(element) ==> !state.dom.dirty_of(element)
            &&& crate::traversal::can_judge_children(shared, state.thread_local, data)
        }),
{
}

/// After a recalculation there is no reason to visit the element again but work below it,
/// damage that Servo has still to look at, or layout that starts from scratch.
pub proof fn law_recalculated_element_needs_no_second_visit(
    state: RecalcState,
    shared: SharedStyleContext,
)
    requires
        state.consistent(),
        state.recalc.request is Done,
    ensures
        ({
            let element = state.recalc.element;
            state.dom.element_needs_traversal(shared, element) == {
                ||| shared.visits_everything()
                ||| state.dom.dirty_of(element)
                ||| shared.product == Product::Servo && state.dom.data_of(
                    element,
                )->0.pending().damage != RestyleDamage::none()
            }
        }),
{
}

/// A second recalculation right after the first asks for nothing and changes nothing, as
/// long as nothing below the element is marked dirty.
pub proof fn law_second_recalculation_changes_nothing(
    state: RecalcState,
    shared: SharedStyleContext,
)
    requires
        state.consistent(),
        state.recalc.request is Done,
        !state.dom.dirty_of(state.recalc.element),
    ensures
        ({
            let again = RecalcState::begun(
                shared,
                state.dom,
                state.thread_local,
                state.level,
                state.recalc.element,
            );
            &&& again.recalc.request is Done
            &&& again.dom == state.dom
        }),
{
    law_nothing_to_do_changes_nothing(
        shared,
        state.dom,
        state.thread_local,
        state.level,
        state.recalc.element,
    );
}

/// If an element is restyled to `display: none`, the recalculation is over, and all style
/// data in the subtree has been thrown away.
pub proof fn law_hidden_subtree_loses_its_data(
    state: RecalcState,
    shared: SharedStyleContext,
    reply: RecalcReply,
    node: NodeId,
)
    requires
        state.consistent(),
        state.dom.data_is_rooted(),
        state.recalc.accepts(state.thread_local, reply),
        state.recalc.request is TouchCandidate || state.recalc.request is Cascade
            || state.recalc.request is InsertCandidate,
        !(state.step(shared, reply).recalc.request is InsertCandidate),
        state.step(shared, reply).dom.hides(state.recalc.element),
        state.dom.has(node),
        state.dom.is_ancestor(state.recalc.element, node),
    ensures
        state.step(shared, reply).recalc.request is Done,
        !state.step(shared, reply).dom.dirty_of(state.recalc.element),
        state.step(shared, reply).dom.data_of(node) is None,
{
    let element = state.recalc.element;
    law_recalculation_stays_consistent(state, shared, reply);
    state.dom.lemma_leads_from_ancestor(element, node);
    let middle = match reply {
        RecalcReply::Cascaded(data) => state.with_data(data),
        _ => state,
    };
    if let RecalcReply::Cascaded(data) = reply {
        lemma_data_replaced(state, data);
    }
    middle.lemma_computed(shared);
    lemma_computed_hidden(middle, shared, node);
    state.dom.lemma_ancestors_depend_on_tree(middle.dom, element, node);
    crate::laws::clearing::law_clearing_reaches_all_descendants(middle.dom, element, node);
}

/// Each element is counted once as traversed, and once as styled if its styles were not
/// current. An element that has to be matched from scratch is counted once as sharing a
/// style if the engine replies so, and else once as matched. No other element is counted as
/// either.
pub proof fn law_recalculation_is_counted_once(
    shared: SharedStyleContext,
    dom: DomView,
    thread_local: ThreadLocalStyleContext,
    level: PerLevelTraversalData,
    element: NodeId,
    replies: Seq<RecalcReply>,
)
    requires
        dom.well_formed(),
        dom.has_element(element),
        dom.data_of(element) is Some,
        !dom.data_of(element)->0.has_snapshot_spec(),
        thread_local.statistics.elements_traversed < u32::MAX,
        thread_local.statistics.elements_styled < u32::MAX,
        RecalcState::begun(shared, dom, thread_local, level, element).is_served_by(
            shared,
            replies,
        ),
        RecalcState::begun(shared, dom, thread_local, level, element).run(
            shared,
            replies,
        ).recalc.request is Done,
    ensures
        ({
            let data = dom.data_of(element)->0;
            let before = thread_local.statistics;
            let after = RecalcState::begun(shared, dom, thread_local, level, element).run(
                shared,
                replies,
            ).thread_local.statistics;
            let from_scratch = !data.current() && data.kind() == RestyleKind::MatchAndCascade;
            let was_shared = from_scratch && says_shared(replies[0]);
            &&& from_scratch ==> replies.len() > 0 && replies[0] is Sharing
            &&& after.elements_traversed == before.elements_traversed + 1
            &&& after.elements_styled == before.elements_styled + counted(!data.current())
            &&& after.styles_shared == before.styles_shared + counted(was_shared)
            &&& after.elements_matched == before.elements_matched + counted(
                from_scratch && !was_shared,
            )
        }),
{
    let begun = RecalcState::begun(shared, dom, thread_local, level, element);
    law_recalculation_begins_consistent(shared, dom, thread_local, level, element);
    lemma_begun_counts(shared, dom, thread_local, level, element);
    lemma_run_counts(begun, shared, replies);
    if begun.recalc.request is ShareStyle {
        assert(replies.len() > 0);
        assert(begun.recalc.accepts(begun.thread_local, replies[0]));
    }
}

/// What the beginning of a recalculation counts.
proof fn lemma_begun_counts(
    shared: SharedStyleContext,
    dom: DomView,
    thread_local: ThreadLocalStyleContext,
    level: PerLevelTraversalData,
    element: NodeId,
)
    requires
        dom.well_formed(),
        dom.has_element(element),
        dom.data_of(element) is Some,
        !dom.data_of(element)->0.has_snapshot_spec(),
        thread_local.statistics.elements_traversed < u32::MAX,
        thread_local.statistics.elements_styled < u32::MAX,
    ensures
        ({
            let data = dom.data_of(element)->0;
            let before = thread_local.statistics;
            let begun = RecalcState::begun(shared, dom, thread_local, level, element);
            let after = begun.thread_local.statistics;
            &&& after.elements_traversed == before.elements_traversed + 1
            &&& after.elements_styled == before.elements_styled + counted(!data.current())
            &&& after.styles_shared == before.styles_shared
            &&& after.elements_matched == before.elements_matched
            &&& !(begun.recalc.request is InsertParents)
            &&& begun.recalc.request is ShareStyle == (!data.current() && data.kind()
                == RestyleKind::MatchAndCascade)
        }),
{
    if dom.data_of(element)->0.current() {
        RecalcState::entered(dom, thread_local, level, element).lemma_settled(shared, false);
    }
}

/// What the replies count, and that they keep the dirty bits.
proof fn lemma_run_counts(state: RecalcState, shared: SharedStyleContext, replies: Seq<RecalcReply>)
    requires
        state.consistent(),
        state.is_served_by(shared, replies),
    ensures
        ({
            let after = state.run(shared, replies);
            let asked = state.asked_to_share(replies);
            &&& after.thread_local.statistics.styles_shared
                == state.thread_local.statistics.styles_shared + counted(
                asked && says_shared(replies[0]),
            )
            &&& after.matches_found() == state.matches_found() + counted(
                asked && !says_shared(replies[0]),
            )
            &&& after.thread_local.statistics.elements_traversed
                == state.thread_local.statistics.elements_traversed
            &&& after.thread_local.statistics.elements_styled
                == state.thread_local.statistics.elements_styled
            &&& keeps_dirty_bits(state.dom, after)
        }),
    decreases replies.len(),
{
    if replies.len() > 0 {
        lemma_step(state, shared, replies[0]);
        lemma_run_counts(state.step(shared, replies[0]), shared, replies.skip(1));
    }
}

/// A recalculation that does not end with a hidden element leaves all dirty bits as they
/// were. If it does, the dirty bit of the element is unset.
pub proof fn law_dirty_bits_are_kept(
    shared: SharedStyleContext,
    dom: DomView,
    thread_local: ThreadLocalStyleContext,
    level: PerLevelTraversalData,
    element: NodeId,
    replies: Seq<RecalcReply>,
)
    requires
        dom.well_formed(),
        dom.has_element(element),
        dom.data_of(element) is Some,
        !dom.data_of(element)->0.has_snapshot_spec(),
        RecalcState::begun(shared, dom, thread_local, level, element).is_served_by(
            shared,
            replies,
        ),
        RecalcState::begun(shared, dom, thread_local, level, element).run(
            shared,
            replies,
        ).recalc.request is Done,
    ensures
        ({
            let after = RecalcState::begun(shared, dom, thread_local, level, element).run(
                shared,
                replies,
            ).dom;
            if after.hides(element) {
                !after.dirty_of(element)
            } else {
                after.dirty == dom.dirty
            }
        }),
{
    let begun = RecalcState::begun(shared, dom, thread_local, level, element);
    law_recalculation_begins_consistent(shared, dom, thread_local, level, element);
    law_recalculation_ends(begun, shared, replies);
    lemma_run_counts(begun, shared, replies);
    if dom.data_of(element)->0.current() {
        RecalcState::entered(dom, thread_local, level, element).lemma_settled(shared, false);
        if begun.recalc.request is Done && replies.len() > 0 {
            assert(begun.recalc.accepts(begun.thread_local, replies[0]));
        }
    }
}

/// A recalculation for which there is nothing to do asks for nothing and leaves the tree
/// as it is.
pub proof fn law_nothing_to_do_changes_nothing(
    shared: SharedStyleContext,
    dom: DomView,
    thread_local: ThreadLocalStyleContext,
    level: PerLevelTraversalData,
    element: NodeId,
)
    requires
        dom.well_formed(),
        dom.has_element(element),
        dom.data_of(element) is Some,
        dom.data_of(element)->0.current(),
        dom.data_of(element)->0.pending().hint == StoredRestyleHint::none(),
        !dom.dirty_of(element),
    ensures
        ({
            let begun = RecalcState::begun(shared, dom, thread_local, level, element);
            &&& begun.recalc.request is Done
            &&& begun.dom == dom
        }),
{
    let data = dom.data_of(element)->0;
    assert(data.settled() == data);
    assert(dom.with_data(element, Some(data)) =~= dom);
    assert(dom.with_dirty(element, false) =~= dom);
}

/// The dom depth of the traversal level changes only when the bloom filter has been
/// brought up to date, and is known from then on. Where the bloom filter finds the depth
/// that was known before, a known depth never changes.
pub proof fn law_known_dom_depth_is_kept(
    state: RecalcState,
    shared: SharedStyleContext,
    reply: RecalcReply,
)
    requires
        state.consistent(),
        state.recalc.accepts(state.thread_local, reply),
    ensures
        ({
            let after = state.step(shared, reply);
            &&& state.recalc.request is InsertParents ==> after.level.current_dom_depth == Some(
                reply->DomDepth_0,
            )
            &&& !(state.recalc.request is InsertParents) ==> after.level == state.level
            &&& state.level.current_dom_depth is Some && (state.recalc.request is InsertParents
                ==> reply->DomDepth_0 == state.level.current_dom_depth->0)
                ==> after.level.current_dom_depth == state.level.current_dom_depth
        }),
{
    lemma_step(state, shared, reply);
}

} // verus!
