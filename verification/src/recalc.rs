//! Recalculating the style of one element.
//!
//! Selector matching, the cascade, the bloom filter, the style sharing cache and selector
//! invalidation belong to the style engine. Recalculation is a conversation with it:
//! `recalc_style_at` states the first request, the engine serves it, and
//! `RecalcStyle::step` takes the reply and states the next one, until nothing is left
//! to ask for.

use vstd::prelude::*;

use crate::clearing::clear_descendant_data;
use crate::context::{
    MatchResults, SharedStyleContext, ThreadLocalStyleContext, TraversalStatistics,
};
use crate::data::{ElementData, RestyleKind};
use crate::dom::{Dom, DomView, NodeId};
use crate::restyle_hints::{RestyleHint, StoredRestyleHint};
use crate::traversal::{DomTraversal, LogBehavior, PerLevelTraversalData};

verus! {

/// What came of the attempt to share the style of another element.
#[derive(Clone, Copy, Debug, PartialEq, Eq, Structural)]
pub enum StyleSharingResult {
    /// The style of the candidate at this place in the sharing cache was taken over.
    StyleWasShared(usize),
    /// No candidate has a style that the element could share.
    CannotShare,
}

/// What the style engine is to do next for the element that is being recalculated.
#[derive(Clone, Copy, Debug, PartialEq, Eq, Structural)]
pub enum RecalcRequest {
    /// Try to share a style, with the candidates of the sharing cache.
    ShareStyle,
    /// Move the candidate at this place to the front of the sharing cache.
    TouchCandidate { index: usize },
    /// Bring the bloom filter up to date with the ancestors of the element, given the
    /// current dom depth, if known, and find the depth.
    InsertParents { current_dom_depth: Option<usize> },
    /// Perform selector matching, with the bloom filter.
    Match,
    /// Replace the rules that the hint names in the current ones.
    CascadeWithReplacements { hint: StoredRestyleHint },
    /// Give the match results that the current style rests on.
    MatchResultsFromCurrentStyle,
    /// Perform the cascade.
    Cascade { parent: Option<NodeId>, results: MatchResults, shareable: bool },
    /// Insert the element into the sharing cache, if that is possible.
    InsertCandidate { values: u64, relations: u64 },
    /// Compute the restyle hint that the snapshot of a child gives rise to.
    ExpandSnapshot { child: NodeId, snapshot: u64 },
    /// Nothing: the recalculation is complete.
    Done,
}

/// The style engine's reply to a request. Where the engine works on the data of the
/// element, the reply holds the data as it left them.
#[derive(Clone, Copy, Debug, PartialEq, Eq, Structural)]
pub enum RecalcReply {
    /// To `ShareStyle`.
    Sharing { result: StyleSharingResult, data: ElementData },
    /// To `TouchCandidate` and `InsertCandidate`.
    Acknowledged,
    /// To `InsertParents`.
    DomDepth(usize),
    /// To `Match` and `MatchResultsFromCurrentStyle`.
    Matched(MatchResults),
    /// To `CascadeWithReplacements`.
    Replaced { results: MatchResults, data: ElementData },
    /// To `Cascade`.
    Cascaded(ElementData),
    /// To `ExpandSnapshot`.
    SnapshotHint(RestyleHint),
}

/// A recalculation that is under way.
#[derive(Clone, Copy, Debug, PartialEq, Eq, Structural)]
pub struct RecalcStyle {
    /// The element whose style is recalculated.
    pub element: NodeId,
    /// What the style engine is to do next.
    pub request: RecalcRequest,
    /// The position of the child whose snapshot is being expanded.
    pub position: usize,
    /// The hint for the children from that position on.
    pub propagated_hint: StoredRestyleHint,
    /// Whether properties that the children inherit changed.
    pub inherited_style_changed: bool,
}

/// A recalculation with everything that it reads and writes.
#[verifier::ext_equal]
pub struct RecalcState {
    /// The recalculation.
    pub recalc: RecalcStyle,
    /// The tree.
    pub dom: DomView,
    /// The context of the worker.
    pub thread_local: ThreadLocalStyleContext,
    /// The data of the traversal level.
    pub level: PerLevelTraversalData,
}

impl DomView {
    /// Whether a child is styled and has a snapshot that its parent has to expand.
    pub open spec fn awaits_expansion(self, child: NodeId) -> bool {
        self.styled(child) && self.data_of(child)->0.has_snapshot_spec()
    }

    /// The position of the first child of `element`, from position `from` on, that has a
    /// snapshot to expand, or the number of children if there is none.
    pub open spec fn next_snapshot(self, element: NodeId, from: int) -> int
        decreases self.children(element).len() - from,
    {
        if from >= self.children(element).len() || self.awaits_expansion(
            self.children(element)[from],
        ) {
            from
        } else {
            self.next_snapshot(element, from + 1)
        }
    }

    /// The style data of a child without a snapshot, once its parent has handed it `hint`
    /// and, if `changed` holds, the news that inherited properties changed. An element
    /// has data from then on; an element that has styles has restyle data if it had them
    /// before or there is anything to tell it.
    pub open spec fn prepared_data(
        self,
        child: NodeId,
        hint: StoredRestyleHint,
        changed: bool,
    ) -> Option<ElementData> {
        let data = self.with_ensured(child).data_of(child)->0;
        if !self.has_element(child) {
            self.data_of(child)
        } else if data.styles is None || (hint == StoredRestyleHint::none() && !changed
            && data.restyle is None) {
            Some(data)
        } else {
            Some(data.with_pending(data.pending().hinted(hint).recascaded(changed)))
        }
    }

    /// Whether `node` is one of the children of `element` at the positions from `from`
    /// up to `to`.
    pub open spec fn is_child_in(self, element: NodeId, from: int, to: int, node: NodeId) -> bool {
        exists|j: int| from <= j < to && #[trigger] self.children(element)[j] == node
    }

    /// The tree once the children of `element` at the positions from `from` up to `to`
    /// have been prepared for their restyling.
    pub open spec fn with_children_prepared(
        self,
        element: NodeId,
        from: int,
        to: int,
        hint: StoredRestyleHint,
        changed: bool,
    ) -> DomView {
        DomView {
            data: Seq::new(
                self.data.len(),
                |n: int|
                    if self.is_child_in(element, from, to, n as NodeId) {
                        self.prepared_data(n as NodeId, hint, changed)
                    } else {
                        self.data[n]
                    },
            ),
            ..self
        }
    }
}

impl RecalcState {
    /// The state with another request.
    pub open spec fn asking(self, request: RecalcRequest) -> RecalcState {
        RecalcState { recalc: RecalcStyle { request, ..self.recalc }, ..self }
    }

    /// The state with other data of the element.
    pub open spec fn with_data(self, data: ElementData) -> RecalcState {
        RecalcState { dom: self.dom.with_data(self.recalc.element, Some(data)), ..self }
    }

    /// The state with other counters.
    pub open spec fn counting(self, statistics: TraversalStatistics) -> RecalcState {
        RecalcState {
            thread_local: ThreadLocalStyleContext { statistics, ..self.thread_local },
            ..self
        }
    }

    /// The end of a recalculation: the root of a `display: none` subtree never keeps its
    /// dirty bit, so that whoever inserts a child can set the bit on any styled parent
    /// without looking.
    pub open spec fn finished(self) -> RecalcState {
        let element = self.recalc.element;
        let dom = if self.dom.hides(element) {
            self.dom.with_dirty(element, false)
        } else {
            self.dom
        };
        RecalcState { dom, ..self }.asking(RecalcRequest::Done)
    }

    /// The children from position `from` on are prepared, up to the first one with a
    /// snapshot. That one is handed the hint, and then its snapshot has to be expanded.
    pub open spec fn preprocessed(
        self,
        from: int,
        hint: StoredRestyleHint,
        changed: bool,
    ) -> RecalcState {
        let element = self.recalc.element;
        let stop = self.dom.next_snapshot(element, from);
        let dom = self.dom.with_children_prepared(element, from, stop, hint, changed);
        if stop < self.dom.children(element).len() {
            let child = self.dom.children(element)[stop];
            let data = self.dom.data_of(child)->0;
            RecalcState {
                recalc: RecalcStyle {
                    element,
                    request: RecalcRequest::ExpandSnapshot {
                        child,
                        snapshot: data.restyle->0.snapshot->0,
                    },
                    position: stop as usize,
                    propagated_hint: hint,
                    inherited_style_changed: changed,
                },
                dom: dom.with_data(
                    child,
                    Some(data.with_pending(data.restyle->0.hinted(hint))),
                ),
                ..self
            }
        } else {
            RecalcState { dom, ..self }.finished()
        }
    }

    /// The styles of the element are up to date: what was pending for it is cleared, and
    /// the children are prepared if they may be traversed and there is anything to tell
    /// them.
    pub open spec fn settled(self, shared: SharedStyleContext, changed: bool) -> RecalcState {
        let element = self.recalc.element;
        let data = self.dom.data_of(element)->0;
        let hint = data.pending().hint.for_children();
        let next = self.with_data(data.settled());
        if crate::traversal::cull_reason_spec(shared, self.thread_local, data.settled()) is None
            && (self.dom.dirty_of(element) || hint != StoredRestyleHint::none() || changed) {
            next.preprocessed(0, hint, changed)
        } else {
            next.finished()
        }
    }

    /// The element got new styles: if it is hidden now, everything below it loses its
    /// data. Inherited properties are taken to have changed.
    pub open spec fn computed(self, shared: SharedStyleContext) -> RecalcState {
        let element = self.recalc.element;
        let dom = if self.dom.hides(element) {
            self.dom.cleared_below(element)
        } else {
            self.dom
        };
        RecalcState { dom, ..self }.settled(shared, true)
    }

    /// The cascade has to run on `results`.
    pub open spec fn cascading(self, results: MatchResults) -> RecalcState {
        self.asking(
            RecalcRequest::Cascade {
                parent: self.dom.parent(self.recalc.element),
                results,
                shareable: results.primary_is_shareable,
            },
        )
    }

    /// The snapshot of a child has given rise to the hint `computed`.
    pub open spec fn expanded(self, child: NodeId, computed: RestyleHint) -> RecalcState {
        let data = self.dom.data_of(child)->0;
        let restyle = data.restyle->0.expanded(computed).recascaded(
            self.recalc.inherited_style_changed,
        );
        RecalcState {
            dom: self.dom.with_data(child, Some(data.with_pending(restyle))),
            ..self
        }
    }

    /// The state after a reply.
    pub open spec fn step(self, shared: SharedStyleContext, reply: RecalcReply) -> RecalcState {
        let statistics = self.thread_local.statistics;
        match (self.recalc.request, reply) {
            (
                RecalcRequest::ShareStyle,
                RecalcReply::Sharing { result: StyleSharingResult::StyleWasShared(index), data },
            ) => self.with_data(data).counting(
                TraversalStatistics {
                    styles_shared: (statistics.styles_shared + 1) as u32,
                    ..statistics
                },
            ).asking(RecalcRequest::TouchCandidate { index }),
            (
                RecalcRequest::ShareStyle,
                RecalcReply::Sharing { result: StyleSharingResult::CannotShare, data },
            ) => self.with_data(data).asking(
                RecalcRequest::InsertParents { current_dom_depth: self.level.current_dom_depth },
            ),
            (RecalcRequest::TouchCandidate { .. }, _) => self.computed(shared),
            (RecalcRequest::InsertParents { .. }, RecalcReply::DomDepth(depth)) => RecalcState {
                level: PerLevelTraversalData { current_dom_depth: Some(depth) },
                ..self
            }.counting(
                TraversalStatistics {
                    elements_matched: (statistics.elements_matched + 1) as u32,
                    ..statistics
                },
            ).asking(RecalcRequest::Match),
            (RecalcRequest::Match, RecalcReply::Matched(results)) => self.cascading(results),
            (
                RecalcRequest::CascadeWithReplacements { .. },
                RecalcReply::Replaced { results, data },
            ) => self.with_data(data).cascading(results),
            (RecalcRequest::MatchResultsFromCurrentStyle, RecalcReply::Matched(results)) =>
                self.cascading(results),
            (RecalcRequest::Cascade { results, shareable, .. }, RecalcReply::Cascaded(data)) => {
                if shareable {
                    self.with_data(data).asking(
                        RecalcRequest::InsertCandidate {
                            values: data.styles->0.values,
                            relations: results.relations,
                        },
                    )
                } else {
                    self.with_data(data).computed(shared)
                }
            },
            (RecalcRequest::InsertCandidate { .. }, _) => self.computed(shared),
            (
                RecalcRequest::ExpandSnapshot { child, .. },
                RecalcReply::SnapshotHint(computed),
            ) => self.expanded(child, computed).preprocessed(
                self.recalc.position + 1,
                self.recalc.hint_after(computed),
                self.recalc.inherited_style_changed,
            ),
            _ => self,
        }
    }
}

impl RecalcStyle {
    /// A recalculation of `element` that asks for nothing yet.
    pub open spec fn idle(element: NodeId) -> RecalcStyle {
        RecalcStyle {
            element,
            request: RecalcRequest::Done,
            position: 0,
            propagated_hint: StoredRestyleHint::none(),
            inherited_style_changed: false,
        }
    }

    /// The hint for the later siblings of a child whose snapshot gave rise to `computed`.
    pub open spec fn hint_after(self, computed: RestyleHint) -> StoredRestyleHint {
        if computed.restyle_later_siblings {
            self.propagated_hint.union(StoredRestyleHint::whole_subtree())
        } else {
            self.propagated_hint
        }
    }

    /// What holds of the tree between two steps.
    pub open spec fn fits(self, dom: DomView) -> bool {
        &&& dom.well_formed()
        &&& dom.has_element(self.element)
        &&& dom.data_of(self.element) is Some
        &&& match self.request {
            RecalcRequest::TouchCandidate { .. } => dom.data_of(self.element)->0.is_fresh(),
            RecalcRequest::InsertCandidate { .. } => dom.data_of(self.element)->0.is_fresh(),
            RecalcRequest::ExpandSnapshot { child, snapshot } => {
                &&& self.position < dom.children(self.element).len()
                &&& child == dom.children(self.element)[self.position as int]
                &&& dom.awaits_expansion(child)
                &&& dom.data_of(child)->0.restyle->0.snapshot == Some(snapshot)
            },
            _ => true,
        }
    }

    /// Whether `reply` replies to the request. After the cascade, or after a style was
    /// shared, the element has styles, and the engine leaves no snapshot behind. The
    /// counters have room for one more.
    pub open spec fn accepts(self, thread_local: ThreadLocalStyleContext, reply: RecalcReply)
        -> bool {
        match self.request {
            RecalcRequest::ShareStyle => reply matches RecalcReply::Sharing { result, data } && (
            result != StyleSharingResult::CannotShare ==> data.is_fresh()
                && thread_local.statistics.styles_shared < u32::MAX),
            RecalcRequest::TouchCandidate { .. } => reply is Acknowledged,
            RecalcRequest::InsertParents { .. } => reply is DomDepth
                && thread_local.statistics.elements_matched < u32::MAX,
            RecalcRequest::Match => reply is Matched,
            RecalcRequest::CascadeWithReplacements { .. } => reply is Replaced,
            RecalcRequest::MatchResultsFromCurrentStyle => reply is Matched,
            RecalcRequest::Cascade { .. } => reply matches RecalcReply::Cascaded(data)
                && data.is_fresh(),
            RecalcRequest::InsertCandidate { .. } => reply is Acknowledged,
            RecalcRequest::ExpandSnapshot { .. } => reply is SnapshotHint,
            RecalcRequest::Done => false,
        }
    }
}

impl ElementData {
    /// Whether the data have styles and no snapshot, as after the cascade.
    pub open spec fn is_fresh(self) -> bool {
        self.styles is Some && !self.has_snapshot_spec()
    }
}

impl RecalcState {
    /// The state in which the processing of `element` has begun and been counted, and nothing
    /// else has happened yet.
    pub open spec fn entered(
        dom: DomView,
        thread_local: ThreadLocalStyleContext,
        level: PerLevelTraversalData,
        element: NodeId,
    ) -> RecalcState {
        let statistics = thread_local.statistics;
        RecalcState {
            recalc: RecalcStyle::idle(element),
            dom,
            thread_local: thread_local.begun(element, dom.data_of(element)->0),
            level,
        }.counting(
            TraversalStatistics {
                elements_traversed: (statistics.elements_traversed + 1) as u32,
                ..statistics
            },
        )
    }

    /// The state in which the recalculation of `element` begins.
    pub open spec fn begun(
        shared: SharedStyleContext,
        dom: DomView,
        thread_local: ThreadLocalStyleContext,
        level: PerLevelTraversalData,
        element: NodeId,
    ) -> RecalcState {
        let data = dom.data_of(element)->0;
        let state = RecalcState::entered(dom, thread_local, level, element);
        let statistics = state.thread_local.statistics;
        if data.current() {
            state.settled(shared, false)
        } else {
            state.counting(
                TraversalStatistics {
                    elements_styled: (statistics.elements_styled + 1) as u32,
                    ..statistics
                },
            ).asking(
                match data.kind() {
                    RestyleKind::MatchAndCascade => RecalcRequest::ShareStyle,
                    RestyleKind::CascadeWithReplacements(
                        hint,
                    ) => RecalcRequest::CascadeWithReplacements { hint },
                    RestyleKind::CascadeOnly => RecalcRequest::MatchResultsFromCurrentStyle,
                },
            )
        }
    }
}

impl DomView {
    /// The next snapshot is the first one from the given position on.
    pub proof fn lemma_next_snapshot(self, element: NodeId, from: int)
        requires
            0 <= from <= self.children(element).len(),
        ensures
            from <= self.next_snapshot(element, from) <= self.children(element).len(),
            self.next_snapshot(element, from) < self.children(element).len()
                ==> self.awaits_expansion(
                self.children(element)[self.next_snapshot(element, from)],
            ),
            forall|j: int|
                from <= j < self.next_snapshot(element, from) ==> !self.awaits_expansion(
                    #[trigger] self.children(element)[j],
                ),
        decreases self.children(element).len() - from,
    {
        if from < self.children(element).len() && !self.awaits_expansion(
            self.children(element)[from],
        ) {
            self.lemma_next_snapshot(element, from + 1);
        }
    }

    /// Preparing a further child changes the data of that child only.
    proof fn lemma_one_more_prepared(
        self,
        element: NodeId,
        from: int,
        to: int,
        hint: StoredRestyleHint,
        changed: bool,
    )
        requires
            self.well_formed(),
            self.has(element),
            0 <= from <= to < self.children(element).len(),
        ensures
            ({
                let child = self.children(element)[to];
                let partial = self.with_children_prepared(element, from, to, hint, changed);
                &&& partial.data_of(child) == self.data_of(child)
                &&& self.with_children_prepared(element, from, to + 1, hint, changed)
                    == partial.with_data(child, self.prepared_data(child, hint, changed))
            }),
    {
        let kids = self.children(element);
        let child = kids[to];
        let partial = self.with_children_prepared(element, from, to, hint, changed);
        let more = self.with_children_prepared(element, from, to + 1, hint, changed);
        assert(!self.is_child_in(element, from, to, child));
        assert forall|n: int| 0 <= n < self.len() implies #[trigger] more.data[n]
            == partial.with_data(child, self.prepared_data(child, hint, changed)).data[n] by {
            let node = n as NodeId;
            if node == child {
                assert(self.is_child_in(element, from, to + 1, child));
            } else if self.is_child_in(element, from, to + 1, node) {
                let j = choose|j: int| from <= j < to + 1 && #[trigger] kids[j] == node;
                assert(self.is_child_in(element, from, to, node));
            }
        }
        assert(more =~= partial.with_data(child, self.prepared_data(child, hint, changed)));
    }

    /// Preparing a child depends on what is known of that child only.
    proof fn lemma_preparing_depends_on_child(
        self,
        other: DomView,
        child: NodeId,
        hint: StoredRestyleHint,
        changed: bool,
    )
        requires
            self.tree == other.tree,
            self.data.len() == self.tree.len(),
            other.data.len() == other.tree.len(),
            self.has(child),
            self.data_of(child) == other.data_of(child),
        ensures
            self.awaits_expansion(child) == other.awaits_expansion(child),
            self.prepared_data(child, hint, changed) == other.prepared_data(child, hint, changed),
    {
    }

    /// Preparing children leaves the element itself as it is.
    pub proof fn lemma_prepared_keeps_rest(
        self,
        element: NodeId,
        from: int,
        to: int,
        hint: StoredRestyleHint,
        changed: bool,
    )
        requires
            self.well_formed(),
            self.has(element),
            0 <= from <= to <= self.children(element).len(),
        ensures
            self.with_children_prepared(element, from, to, hint, changed).data_of(element)
                == self.data_of(element),
    {
        assert(!self.is_child_in(element, from, to, element));
    }

    /// Preparing no child changes nothing.
    proof fn lemma_none_prepared(
        self,
        element: NodeId,
        from: int,
        hint: StoredRestyleHint,
        changed: bool,
    )
        ensures
            self.with_children_prepared(element, from, from, hint, changed) == self,
    {
        assert(self.with_children_prepared(element, from, from, hint, changed) =~= self);
    }
}

/// Prepares a child for its restyling: propagates the restyle hint of the parent and of
/// earlier siblings to it, and the news of changed inherited properties. If the child has a
/// snapshot to expand, it is handed the hint only, and the snapshot is returned.
fn prepare_child(dom: &mut Dom, child: NodeId, hint: StoredRestyleHint, changed: bool) -> (snapshot:
    Option<u64>)
    requires
        old(dom)@.well_formed(),
        old(dom)@.has(child),
    ensures
        old(dom)@.awaits_expansion(child) ==> {
            let data = old(dom)@.data_of(child)->0;
            &&& snapshot == data.restyle->0.snapshot
            &&& final(dom)@ == old(dom)@.with_data(
                child,
                Some(data.with_pending(data.restyle->0.hinted(hint))),
            )
        },
        !old(dom)@.awaits_expansion(child) ==> {
            &&& snapshot is None
            &&& final(dom)@ == old(dom)@.with_data(
                child,
                old(dom)@.prepared_data(child, hint, changed),
            )
        },
        final(dom)@.well_formed(),
{
    let ghost before = dom@;
    if !dom.is_element(child) {
        assert(before.with_data(child, before.data_of(child)) =~= before);
        assert(before.data[child as int] is None);
        return None;
    }
    let mut data = dom.ensure_element_data(child);
    // If the child is unstyled, we don't need to set up any restyling. Nor do we if the
    // child has no restyle data and there is no reason to create any.
    if !data.has_styles() || (hint.is_empty() && !changed && !data.has_restyle()) {
        assert(dom@ =~= before.with_data(child, Some(data)));
        return None;
    }
    let mut restyle = data.ensure_restyle();
    proof {
        restyle.hint.lemma_union_unit();
    }
    if !hint.is_empty() {
        restyle.hint.insert(&hint);
    }
    let snapshot = restyle.snapshot;
    if snapshot.is_none() && changed {
        restyle.recascade = true;
    }
    data.restyle = Some(restyle);
    dom.set_data(child, data);
    snapshot
}

/// Prepares the children of an element from position `from` on, up to the first one with a
/// snapshot to expand. Returns the position of that one and its snapshot, or else the number
/// of children.
fn prepare_children(
    dom: &mut Dom,
    element: NodeId,
    from: usize,
    hint: StoredRestyleHint,
    changed: bool,
) -> (stopped: (usize, Option<u64>))
    requires
        old(dom)@.well_formed(),
        old(dom)@.has_element(element),
        from <= old(dom)@.children(element).len(),
    ensures
        ({
            let kids = old(dom)@.children(element);
            let stop = stopped.0 as int;
            let prepared = old(dom)@.with_children_prepared(
                element,
                from as int,
                stop,
                hint,
                changed,
            );
            let data = old(dom)@.data_of(kids[stop])->0;
            &&& stop == old(dom)@.next_snapshot(element, from as int)
            &&& if stop < kids.len() {
                &&& stopped.1 is Some
                &&& stopped.1 == data.restyle->0.snapshot
                &&& final(dom)@ == prepared.with_data(
                    kids[stop],
                    Some(data.with_pending(data.restyle->0.hinted(hint))),
                )
            } else {
                &&& stopped.1 is None
                &&& final(dom)@ == prepared
            }
        }),
        final(dom)@.well_formed(),
{
    let ghost before = dom@;
    let ghost kids = before.children(element);
    let count = dom.child_count(element);
    let mut i: usize = from;
    proof {
        before.lemma_none_prepared(element, from as int, hint, changed);
    }
    while i < count
        invariant
            before == old(dom)@,
            before.well_formed(),
            before.has_element(element),
            kids == before.children(element),
            count == kids.len(),
            from <= i <= count,
            dom@.well_formed(),
            dom@ == before.with_children_prepared(element, from as int, i as int, hint, changed),
            before.next_snapshot(element, from as int) == before.next_snapshot(element, i as int),
        decreases count - i,
    {
        let child = dom.child(element, i);
        assert(child == kids[i as int] && element < child < before.len());
        proof {
            before.lemma_one_more_prepared(element, from as int, i as int, hint, changed);
            dom@.lemma_preparing_depends_on_child(before, child, hint, changed);
        }
        let snapshot = prepare_child(dom, child, hint, changed);
        if snapshot.is_some() {
            return (i, snapshot);
        }
        i += 1;
    }
    (count, None)
}

impl RecalcStyle {
    /// Ends the recalculation.
    fn finish(&mut self, dom: &mut Dom)
        requires
            old(dom)@.well_formed(),
            old(dom)@.has_element(old(self).element),
            old(dom)@.data_of(old(self).element) is Some,
        ensures
            forall|state: RecalcState|
                state.recalc == *old(self) && state.dom == old(dom)@ ==> (RecalcState {
                    recalc: *final(self),
                    dom: final(dom)@,
                    ..state
                }) == #[trigger] state.finished(),
            final(self).fits(final(dom)@),
    {
        let hidden = match dom.data(self.element) {
            Some(data) => data.is_display_none(),
            None => false,
        };
        if hidden {
            dom.unset_dirty_descendants(self.element);
        }
        self.request = RecalcRequest::Done;
    }

    /// Prepares the children of the element from position `from` on for their restyling:
    /// propagates the restyle hint of the parent and of earlier siblings to them, and the
    /// news of changed inherited properties. Stops at the first child with a snapshot to
    /// expand; without one, the recalculation ends.
    fn preprocess_children(
        &mut self,
        dom: &mut Dom,
        from: usize,
        hint: StoredRestyleHint,
        changed: bool,
    )
        requires
            old(dom)@.well_formed(),
            old(dom)@.has_element(old(self).element),
            old(dom)@.data_of(old(self).element) is Some,
            from <= old(dom)@.children(old(self).element).len(),
        ensures
            forall|state: RecalcState|
                state.recalc == *old(self) && state.dom == old(dom)@ ==> (RecalcState {
                    recalc: *final(self),
                    dom: final(dom)@,
                    ..state
                }) == #[trigger] state.preprocessed(from as int, hint, changed),
            final(self).fits(final(dom)@),
    {
        let ghost before = dom@;
        let element = self.element;
        let (stop, snapshot) = prepare_children(dom, element, from, hint, changed);
        proof {
            before.lemma_next_snapshot(element, from as int);
            before.lemma_prepared_keeps_rest(element, from as int, stop as int, hint, changed);
        }
        if let Some(snapshot) = snapshot {
            let child = dom.child(element, stop);
            assert(child == before.children(element)[stop as int]);
            assert(element < child < before.len());
            self.request = RecalcRequest::ExpandSnapshot { child, snapshot };
            self.position = stop;
            self.propagated_hint = hint;
            self.inherited_style_changed = changed;
            return ;
        }
        let ghost prepared = dom@;
        self.finish(dom);
        proof {
            assert forall|state: RecalcState|
                state.recalc == *old(self) && state.dom == old(dom)@ implies (RecalcState {
                recalc: *self,
                dom: dom@,
                ..state
            }) == #[trigger] state.preprocessed(from as int, hint, changed) by {
                let middle = RecalcState { dom: prepared, ..state };
                assert((RecalcState { recalc: *self, dom: dom@, ..middle }) == middle.finished());
            }
        }
    }

    /// Clears what was pending for the element, now that its styles are up to date, and
    /// begins to prepare the children if they may be traversed and there is anything to
    /// tell them.
    fn settle<D: DomTraversal>(
        &mut self,
        traversal: &D,
        shared: &SharedStyleContext,
        thread_local: &ThreadLocalStyleContext,
        dom: &mut Dom,
        changed: bool,
    )
        requires
            old(dom)@.well_formed(),
            old(dom)@.has_element(old(self).element),
            old(dom)@.data_of(old(self).element) is Some,
            old(dom)@.data_of(old(self).element)->0.is_fresh(),
            thread_local.current_element_info is Some,
        ensures
            forall|state: RecalcState|
                state.recalc == *old(self) && state.dom == old(dom)@ && state.thread_local
                    == *thread_local ==> (RecalcState {
                    recalc: *final(self),
                    dom: final(dom)@,
                    ..state
                }) == #[trigger] state.settled(*shared, changed),
            final(self).fits(final(dom)@),
    {
        let mut data = dom.ensure_element_data(self.element);
        assert(dom@ == old(dom)@);
        // Now that matching and cascading is done, clear the bits corresponding to those
        // operations and compute the propagated restyle hint.
        let hint = data.settle();
        dom.set_data(self.element, data);
        let ghost settled = dom@;
        if traversal.should_traverse_children(
            shared,
            thread_local,
            self.element,
            &data,
            LogBehavior::DontLog,
        ) && (dom.has_dirty_descendants(self.element) || !hint.is_empty() || changed) {
            self.preprocess_children(dom, 0, hint, changed);
        } else {
            self.finish(dom);
        }
        proof {
            assert forall|state: RecalcState|
                state.recalc == *old(self) && state.dom == old(dom)@ && state.thread_local
                    == *thread_local implies (RecalcState { recalc: *self, dom: dom@, ..state })
                == #[trigger] state.settled(*shared, changed) by {
                let middle = RecalcState { dom: settled, ..state };
                assert(middle == state.with_data(data));
                let after = RecalcState { recalc: *self, dom: dom@, ..middle };
                assert(after == middle.finished() || after == middle.preprocessed(
                    0,
                    hint,
                    changed,
                ));
            }
        }
    }

    /// Takes the new styles of the element into account: if it is hidden now, everything
    /// below it loses its data. Inherited properties are taken to have changed.
    fn complete_style<D: DomTraversal>(
        &mut self,
        traversal: &D,
        shared: &SharedStyleContext,
        thread_local: &ThreadLocalStyleContext,
        dom: &mut Dom,
    )
        requires
            old(dom)@.well_formed(),
            old(dom)@.has_element(old(self).element),
            old(dom)@.data_of(old(self).element) is Some,
            old(dom)@.data_of(old(self).element)->0.is_fresh(),
            thread_local.current_element_info is Some,
        ensures
            forall|state: RecalcState|
                state.recalc == *old(self) && state.dom == old(dom)@ && state.thread_local
                    == *thread_local ==> (RecalcState {
                    recalc: *final(self),
                    dom: final(dom)@,
                    ..state
                }) == #[trigger] state.computed(*shared),
            final(self).fits(final(dom)@),
    {
        let data = dom.ensure_element_data(self.element);
        assert(dom@ == old(dom)@);
        if data.is_display_none() {
            clear_descendant_data(dom, self.element);
            proof {
                old(dom)@.lemma_clearing_keeps_top(self.element);
            }
        }
        let ghost cleared = dom@;
        self.settle(traversal, shared, thread_local, dom, true);
        proof {
            assert forall|state: RecalcState|
                state.recalc == *old(self) && state.dom == old(dom)@ && state.thread_local
                    == *thread_local implies (RecalcState { recalc: *self, dom: dom@, ..state })
                == #[trigger] state.computed(*shared) by {
                let middle = RecalcState { dom: cleared, ..state };
                assert((RecalcState { recalc: *self, dom: dom@, ..middle }) == middle.settled(
                    *shared,
                    true,
                ));
            }
        }
    }

    /// Asks for the cascade on `results`.
    fn ask_for_cascade(&mut self, dom: &Dom, results: MatchResults)
        requires
            dom@.has(old(self).element),
        ensures
            *final(self) == (RecalcStyle {
                request: RecalcRequest::Cascade {
                    parent: dom@.parent(old(self).element),
                    results,
                    shareable: results.primary_is_shareable,
                },
                ..*old(self)
            }),
    {
        self.request = RecalcRequest::Cascade {
            parent: dom.parent_element(self.element),
            results,
            shareable: results.primary_is_shareable,
        };
    }

    /// Takes the reply to the current request and states the next one.
    pub fn step<D: DomTraversal>(
        &mut self,
        traversal: &D,
        shared: &SharedStyleContext,
        traversal_data: &mut PerLevelTraversalData,
        thread_local: &mut ThreadLocalStyleContext,
        dom: &mut Dom,
        reply: RecalcReply,
    )
        requires
            old(self).fits(old(dom)@),
            old(self).accepts(*old(thread_local), reply),
            old(thread_local).current_element_info is Some,
        ensures
            (RecalcState {
                recalc: *final(self),
                dom: final(dom)@,
                thread_local: *final(thread_local),
                level: *final(traversal_data),
            }) == (RecalcState {
                recalc: *old(self),
                dom: old(dom)@,
                thread_local: *old(thread_local),
                level: *old(traversal_data),
            }).step(*shared, reply),
            final(self).fits(final(dom)@),
    {
        let ghost before = RecalcState {
            recalc: *self,
            dom: dom@,
            thread_local: *thread_local,
            level: *traversal_data,
        };
        let element = self.element;
        match (self.request, reply) {
            (RecalcRequest::ShareStyle, RecalcReply::Sharing { result, data }) => {
                dom.set_data(element, data);
                match result {
                    StyleSharingResult::StyleWasShared(index) => {
                        thread_local.statistics.styles_shared += 1;
                        self.request = RecalcRequest::TouchCandidate { index };
                    },
                    StyleSharingResult::CannotShare => {
                        // The bloom filter has to be up to date before matching.
                        self.request = RecalcRequest::InsertParents {
                            current_dom_depth: traversal_data.current_dom_depth,
                        };
                    },
                }
            },
            (RecalcRequest::TouchCandidate { .. }, _) => {
                self.complete_style(traversal, shared, thread_local, dom);
                assert(before.step(*shared, reply) == before.computed(*shared));
            },
            (RecalcRequest::InsertParents { .. }, RecalcReply::DomDepth(dom_depth)) => {
                // Update the dom depth with the up-to-date dom depth.
                //
                // Note that this is always the same as the pre-existing depth, but it can
                // change from unknown to known at this step.
                traversal_data.current_dom_depth = Some(dom_depth);
                thread_local.statistics.elements_matched += 1;
                self.request = RecalcRequest::Match;
            },
            (RecalcRequest::Match, RecalcReply::Matched(results)) => {
                self.ask_for_cascade(dom, results);
            },
            (
                RecalcRequest::CascadeWithReplacements { .. },
                RecalcReply::Replaced { results, data },
            ) => {
                dom.set_data(element, data);
                self.ask_for_cascade(dom, results);
            },
            (RecalcRequest::MatchResultsFromCurrentStyle, RecalcReply::Matched(results)) => {
                self.ask_for_cascade(dom, results);
            },
            (RecalcRequest::Cascade { results, shareable, .. }, RecalcReply::Cascaded(data)) => {
                dom.set_data(element, data);
                match data.styles {
                    Some(styles) if shareable => {
                        // Add ourselves to the sharing cache.
                        self.request = RecalcRequest::InsertCandidate {
                            values: styles.values,
                            relations: results.relations,
                        };
                    },
                    _ => {
                        let ghost middle = before.with_data(data);
                        assert(middle.dom == dom@);
                        self.complete_style(traversal, shared, thread_local, dom);
                        assert(before.step(*shared, reply) == middle.computed(*shared));
                    },
                }
            },
            (RecalcRequest::InsertCandidate { .. }, _) => {
                self.complete_style(traversal, shared, thread_local, dom);
                assert(before.step(*shared, reply) == before.computed(*shared));
            },
            (
                RecalcRequest::ExpandSnapshot { child, .. },
                RecalcReply::SnapshotHint(computed),
            ) => {
                let mut data = dom.ensure_element_data(child);
                let mut restyle = data.ensure_restyle();
                let mut hint = self.propagated_hint;
                let changed = self.inherited_style_changed;
                if restyle.expand_snapshot(computed) {
                    hint.insert(&StoredRestyleHint::self_and_descendants());
                }
                if changed {
                    restyle.recascade = true;
                }
                data.restyle = Some(restyle);
                dom.set_data(child, data);
                let ghost middle = RecalcState { dom: dom@, ..before };
                assert(dom@.children(element).len() == dom@.tree[element as int].children.len());
                let from = self.position + 1;
                self.preprocess_children(dom, from, hint, changed);
                assert(before.step(*shared, reply) == middle.preprocessed(
                    from as int,
                    hint,
                    changed,
                ));
            },
            _ => {},
        }
    }
}

/// Calculates the style for a single element. Returns the recalculation with its first
/// request; `RecalcStyle::step` carries it on.
pub fn recalc_style_at<D: DomTraversal>(
    traversal: &D,
    shared: &SharedStyleContext,
    traversal_data: &PerLevelTraversalData,
    thread_local: &mut ThreadLocalStyleContext,
    dom: &mut Dom,
    element: NodeId,
) -> (recalc: RecalcStyle)
    requires
        old(dom)@.well_formed(),
        old(dom)@.has_element(element),
        old(dom)@.data_of(element) is Some,
        // Snapshots should be expanded by the caller.
        !old(dom)@.data_of(element)->0.has_snapshot_spec(),
        old(thread_local).statistics.elements_traversed < u32::MAX,
        !old(dom)@.data_of(element)->0.current()
            ==> old(thread_local).statistics.elements_styled < u32::MAX,
    ensures
        (RecalcState {
            recalc,
            dom: final(dom)@,
            thread_local: *final(thread_local),
            level: *traversal_data,
        }) == RecalcState::begun(
            *shared,
            old(dom)@,
            *old(thread_local),
            *traversal_data,
            element,
        ),
        recalc.fits(final(dom)@),
{
    let data = dom.ensure_element_data(element);
    assert(dom@ == old(dom)@);
    thread_local.begin_element(element, &data);
    thread_local.statistics.elements_traversed += 1;
    let mut recalc = RecalcStyle {
        element,
        request: RecalcRequest::Done,
        position: 0,
        propagated_hint: StoredRestyleHint::empty(),
        inherited_style_changed: false,
    };
    if data.has_current_styles() {
        let ghost before = RecalcState {
            recalc,
            dom: dom@,
            thread_local: *thread_local,
            level: *traversal_data,
        };
        recalc.settle(traversal, shared, thread_local, dom, false);
        assert((RecalcState { recalc, dom: dom@, ..before }) == before.settled(*shared, false));
    } else {
        thread_local.statistics.elements_styled += 1;
        recalc.request = match data.restyle_kind() {
            RestyleKind::MatchAndCascade => RecalcRequest::ShareStyle,
            RestyleKind::CascadeWithReplacements(hint) => RecalcRequest::CascadeWithReplacements {
                hint,
            },
            RestyleKind::CascadeOnly => RecalcRequest::MatchResultsFromCurrentStyle,
        };
    }
    recalc
}

} // verus!
