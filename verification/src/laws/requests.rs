//! What a recalculation asks of the style engine, and what it does with each reply.

use vstd::prelude::*;

use crate::context::{
    CurrentElementInfo, MatchResults, Product, SharedStyleContext, ThreadLocalStyleContext,
};
use crate::data::{ElementData, RestyleDamage, RestyleData};
use crate::dom::{DomView, NodeId};
use crate::recalc::{RecalcReply, RecalcRequest, RecalcState, StyleSharingResult};
use crate::restyle_hints::{RestyleHint, StoredRestyleHint};
use crate::traversal::PerLevelTraversalData;

verus! {

/// Whether two trees differ at most in the style data of one node, which is `data` in the
/// second.
pub open spec fn differs_in_data(
    before: DomView,
    after: DomView,
    node: NodeId,
    data: ElementData,
) -> bool {
    &&& after.tree == before.tree
    &&& after.dirty == before.dirty
    &&& after.data.len() == before.data.len()
    &&& after.data[node as int] == Some(data)
    &&& forall|n: int|
        0 <= n < before.data.len() && n != node ==> #[trigger] after.data[n] == before.data[n]
}

/// The first request of a recalculation. An element without styles, or to be restyled itself,
/// tries to share a style. Otherwise, if rules are to be replaced, they are, by its own hint;
/// if only a cascade is asked for, it takes the current match results. Nothing else is looked
/// at, and the tree is as before.
pub proof fn law_first_request(
    shared: SharedStyleContext,
    dom: DomView,
    thread_local: ThreadLocalStyleContext,
    level: PerLevelTraversalData,
    element: NodeId,
)
    requires
        dom.well_formed(),
        dom.has_element(element),
        dom.data_of(element) is Some,
        !dom.data_of(element)->0.has_snapshot_spec(),
    ensures
        ({
            let begun = RecalcState::begun(shared, dom, thread_local, level, element);
            let data = dom.data[element as int]->0;
            let hint = data.restyle->0.hint;
            let unstyled = data.styles is None;
            let restyled = data.restyle is Some;
            let request = begun.recalc.request;
            &&& begun.recalc.element == element
            &&& begun.level == level
            &&& begun.thread_local.current_element_info == Some(
                CurrentElementInfo { element, is_initial_style: unstyled },
            )
            &&& request is ShareStyle <==> unstyled || (restyled && hint.restyle_self)
            &&& request is CascadeWithReplacements <==> !unstyled && restyled && !hint.restyle_self
                && hint.replacements != 0
            &&& request matches RecalcRequest::CascadeWithReplacements { hint: given } ==> given
                == hint
            &&& request is MatchResultsFromCurrentStyle <==> !unstyled && restyled
                && !hint.restyle_self && hint.replacements == 0 && data.restyle->0.recascade
            &&& request is ShareStyle || request is CascadeWithReplacements
                || request is MatchResultsFromCurrentStyle ==> begun.dom == dom
            &&& request is ShareStyle || request is CascadeWithReplacements
                || request is MatchResultsFromCurrentStyle || request is Done
                || request is ExpandSnapshot
        }),
{
    if dom.data_of(element)->0.current() {
        RecalcState::entered(dom, thread_local, level, element).lemma_settled(shared, false);
    }
}

/// An element whose styles are current is settled at once, in the tree as it is, with no
/// inherited property changed.
pub proof fn law_current_element_is_settled_at_once(
    shared: SharedStyleContext,
    dom: DomView,
    thread_local: ThreadLocalStyleContext,
    level: PerLevelTraversalData,
    element: NodeId,
)
    requires
        dom.well_formed(),
        dom.has_element(element),
        dom.data_of(element) is Some,
        dom.data_of(element)->0.current(),
    ensures
        ({
            let entered = RecalcState::entered(dom, thread_local, level, element);
            &&& RecalcState::begun(shared, dom, thread_local, level, element) == entered.settled(
                shared,
                false,
            )
            &&& entered.ready()
            &&& entered.dom == dom
            &&& entered.recalc.element == element
            &&& entered.level == level
            &&& entered.thread_local.current_element_info == Some(
                CurrentElementInfo { element, is_initial_style: false },
            )
        }),
{
}

/// A style that was shared is taken over as the engine left it, and its candidate is moved to
/// the front of the cache. Then the styles are complete.
pub proof fn law_shared_style_is_taken_over(
    state: RecalcState,
    shared: SharedStyleContext,
    index: usize,
    data: ElementData,
)
    requires
        state.consistent(),
        state.recalc.request is ShareStyle,
        data.is_fresh(),
        state.thread_local.statistics.styles_shared < u32::MAX,
    ensures
        ({
            let reply = RecalcReply::Sharing {
                result: StyleSharingResult::StyleWasShared(index),
                data,
            };
            let after = state.step(shared, reply);
            &&& state.recalc.accepts(state.thread_local, reply)
            &&& after.recalc.request == RecalcRequest::TouchCandidate { index }
            &&& differs_in_data(state.dom, after.dom, state.recalc.element, data)
            &&& after.level == state.level
            &&& after.recalc.accepts(after.thread_local, RecalcReply::Acknowledged)
            &&& after.step(shared, RecalcReply::Acknowledged) == after.computed(shared)
        }),
{
}

/// If no style can be shared, the bloom filter is brought up to date by the depth that is
/// known, and then the element is matched. What the engine left on the element stays.
pub proof fn law_unshared_element_is_matched(
    state: RecalcState,
    shared: SharedStyleContext,
    data: ElementData,
    depth: usize,
)
    requires
        state.consistent(),
        state.recalc.request is ShareStyle,
        state.thread_local.statistics.elements_matched < u32::MAX,
    ensures
        ({
            let reply = RecalcReply::Sharing { result: StyleSharingResult::CannotShare, data };
            let asked = state.step(shared, reply);
            let after = asked.step(shared, RecalcReply::DomDepth(depth));
            &&& state.recalc.accepts(state.thread_local, reply)
            &&& asked.recalc.request == RecalcRequest::InsertParents {
                current_dom_depth: state.level.current_dom_depth,
            }
            &&& differs_in_data(state.dom, asked.dom, state.recalc.element, data)
            &&& asked.level == state.level
            &&& asked.thread_local == state.thread_local
            &&& asked.recalc.accepts(asked.thread_local, RecalcReply::DomDepth(depth))
            &&& after.recalc.request is Match
            &&& after.level.current_dom_depth == Some(depth)
            &&& after.dom == asked.dom
        }),
{
}

/// Whichever kind of restyle led there, the cascade that is asked for runs against the parent
/// of the element in the tree, on the results of the reply just given, and is shareable if
/// these are. Where the engine worked on the data of the element, they are as it left them;
/// otherwise nothing has changed in the tree.
pub proof fn law_cascade_runs_against_the_parent(
    state: RecalcState,
    shared: SharedStyleContext,
    reply: RecalcReply,
)
    requires
        state.consistent(),
        state.recalc.accepts(state.thread_local, reply),
    ensures
        ({
            let element = state.recalc.element;
            let after = state.step(shared, reply);
            let results: Option<MatchResults> = match reply {
                RecalcReply::Matched(results) => Some(results),
                RecalcReply::Replaced { results, .. } => Some(results),
                _ => None,
            };
            &&& after.recalc.request is Cascade <==> results is Some
            &&& results matches Some(results) ==> {
                &&& after.recalc.request == RecalcRequest::Cascade {
                    parent: state.dom.tree[element as int].parent,
                    results,
                    shareable: results.primary_is_shareable,
                }
                &&& after.recalc.element == element
                &&& after.thread_local == state.thread_local
                &&& after.level == state.level
                &&& reply matches RecalcReply::Replaced { data, .. } ==> differs_in_data(
                    state.dom,
                    after.dom,
                    element,
                    data,
                )
                &&& reply is Matched ==> after.dom == state.dom
            }
        }),
{
    crate::laws::recalculation::lemma_step_cases(state, shared, reply);
    crate::laws::recalculation::law_recalculation_stays_consistent(state, shared, reply);
    if let Some(done) = state.completing(reply) {
        crate::laws::recalculation::lemma_computed_asks_for_children_only(done, shared);
    } else if state.recalc.request is ExpandSnapshot {
        crate::laws::recalculation::lemma_expanding_asks_for_children_only(state, shared, reply);
    }
}

/// After the cascade the element has the data that the engine left on it. If the results are
/// shareable, the element goes into the sharing cache, with its new values and the relations
/// that matching depended on, and its styles are complete; otherwise they are at once.
pub proof fn law_cascaded_styles_are_kept(
    state: RecalcState,
    shared: SharedStyleContext,
    parent: Option<NodeId>,
    results: MatchResults,
    shareable: bool,
    data: ElementData,
)
    requires
        state.consistent(),
        state.recalc.request == (RecalcRequest::Cascade { parent, results, shareable }),
        data.is_fresh(),
    ensures
        ({
            let reply = RecalcReply::Cascaded(data);
            let after = state.step(shared, reply);
            let styled = RecalcState {
                dom: state.dom.with_data(state.recalc.element, Some(data)),
                ..state
            };
            &&& state.recalc.accepts(state.thread_local, reply)
            &&& differs_in_data(state.dom, styled.dom, state.recalc.element, data)
            &&& !shareable ==> after == styled.computed(shared)
            &&& shareable ==> {
                &&& after.recalc.request == RecalcRequest::InsertCandidate {
                    values: data.styles->0.values,
                    relations: results.relations,
                }
                &&& after.dom == styled.dom
                &&& after.thread_local == state.thread_local
                &&& after.level == state.level
                &&& after.recalc.element == state.recalc.element
                &&& after.recalc.accepts(after.thread_local, RecalcReply::Acknowledged)
                &&& after.step(shared, RecalcReply::Acknowledged) == after.computed(shared)
            }
        }),
{
}

/// New styles that do not hide the element leave the tree as it is, and the element is
/// settled with inherited properties changed.
pub proof fn law_visible_styles_settle_the_element(state: RecalcState, shared: SharedStyleContext)
    requires
        state.ready(),
        !state.dom.data[state.recalc.element as int]->0.styles->0.display_none,
    ensures
        state.computed(shared) == state.settled(shared, true),
{
    assert((RecalcState { dom: state.dom, ..state }) == state);
}

/// New styles that hide the element end the recalculation. The element keeps its styles and
/// damage, with no hint and no cascade pending. Everything below it that is reached through
/// elements with data loses its data and dirty bit, and the element its dirty bit. All else
/// stays.
pub proof fn law_hiding_styles_clear_the_subtree(
    state: RecalcState,
    shared: SharedStyleContext,
    node: NodeId,
)
    requires
        state.ready(),
        state.dom.data[state.recalc.element as int]->0.styles->0.display_none,
        state.dom.has(node),
    ensures
        ({
            let element = state.recalc.element;
            let after = state.computed(shared);
            let loses = state.dom.is_ancestor(element, node) && forall|m: NodeId|
                #![trigger state.dom.data_of(m)]
                state.dom.is_inclusive_ancestor(m, node) && state.dom.is_ancestor(element, m)
                    ==> state.dom.data_of(m) is Some;
            &&& after.recalc.request is Done
            &&& after.dom.tree == state.dom.tree
            &&& node != element ==> after.dom.data[node as int] == if loses {
                None
            } else {
                state.dom.data[node as int]
            }
            &&& after.dom.data[element as int] == Some(
                state.dom.data[element as int]->0.settled(),
            )
            &&& after.dom.dirty[node as int] <==> (state.dom.dirty[node as int] && node != element
                && !loses)
        }),
{
    let element = state.recalc.element;
    state.dom.lemma_clearing_keeps_top(element);
    crate::laws::clearing::law_clearing_takes_what_data_leads_to(state.dom, element, node);
    crate::laws::clearing::law_clearing_takes_what_data_leads_to(state.dom, element, element);
}

/// Every reply of the right kind is accepted. Where the reply says which styles the element
/// has, it must have some and no snapshot, and a counter that goes up must have room.
pub proof fn law_fitting_replies_are_accepted(state: RecalcState, reply: RecalcReply)
    ensures
        ({
            let counts = state.thread_local.statistics;
            state.recalc.accepts(state.thread_local, reply) <==> match (
                state.recalc.request,
                reply,
            ) {
                (RecalcRequest::ShareStyle, RecalcReply::Sharing { result, data }) => match result {
                    StyleSharingResult::StyleWasShared(_) => data.is_fresh() && counts.styles_shared
                        < u32::MAX,
                    StyleSharingResult::CannotShare => true,
                },
                (RecalcRequest::TouchCandidate { .. }, RecalcReply::Acknowledged) => true,
                (RecalcRequest::InsertParents { .. }, RecalcReply::DomDepth(_)) =>
                    counts.elements_matched < u32::MAX,
                (RecalcRequest::Match, RecalcReply::Matched(_)) => true,
                (RecalcRequest::CascadeWithReplacements { .. }, RecalcReply::Replaced { .. }) =>
                    true,
                (RecalcRequest::MatchResultsFromCurrentStyle, RecalcReply::Matched(_)) => true,
                (RecalcRequest::Cascade { .. }, RecalcReply::Cascaded(data)) => data.is_fresh(),
                (RecalcRequest::InsertCandidate { .. }, RecalcReply::Acknowledged) => true,
                (RecalcRequest::ExpandSnapshot { .. }, RecalcReply::SnapshotHint(_)) => true,
                _ => false,
            }
        }),
{
}

/// Whether a node has styles and a snapshot that waits.
pub open spec fn waits_for_expansion(dom: DomView, node: NodeId) -> bool {
    &&& dom.data[node as int] matches Some(data)
    &&& data.styles is Some
    &&& data.restyle matches Some(restyle)
    &&& restyle.snapshot is Some
}

/// Whether a hint asks for exactly what two others ask for together.
pub open spec fn joins(a: StoredRestyleHint, b: StoredRestyleHint, both: StoredRestyleHint) -> bool {
    &&& both.restyle_self <==> (a.restyle_self || b.restyle_self)
    &&& both.restyle_descendants <==> (a.restyle_descendants || b.restyle_descendants)
    &&& both.replacements == a.replacements | b.replacements
}

/// What becomes of a child without a snapshot that is told a hint and whether inherited
/// properties changed. A text node stays as it is. An element without data gets blank data,
/// and one without styles stays as it is. A styled element keeps its styles. If it had
/// restyle data, the hint is joined to its own, a cascade is asked for if properties changed,
/// and its damage stays. If it had none, it gets some only if there is anything to tell it.
pub open spec fn is_prepared(
    before: DomView,
    after: DomView,
    child: NodeId,
    hint: StoredRestyleHint,
    changed: bool,
) -> bool {
    let (was, is) = (before.data[child as int], after.data[child as int]);
    let silent = !hint.restyle_self && !hint.restyle_descendants && hint.replacements == 0
        && !changed;
    if !before.tree[child as int].is_element {
        is == was
    } else {
        match was {
            None => is == Some(ElementData { styles: None, restyle: None }),
            Some(data) => if data.styles is None {
                is == was
            } else {
                match data.restyle {
                    None => if silent {
                        is == was
                    } else {
                        is == Some(
                            ElementData {
                                styles: data.styles,
                                restyle: Some(
                                    RestyleData {
                                        hint,
                                        recascade: changed,
                                        damage: RestyleDamage { bits: 0 },
                                        snapshot: None,
                                    },
                                ),
                            },
                        )
                    },
                    Some(restyle) => {
                        &&& is is Some
                        &&& is->0.styles == data.styles
                        &&& is->0.restyle is Some
                        &&& joins(restyle.hint, hint, is->0.restyle->0.hint)
                        &&& is->0.restyle->0.recascade <==> (restyle.recascade || changed)
                        &&& is->0.restyle->0.damage == restyle.damage
                        &&& is->0.restyle->0.snapshot is None
                    },
                }
            },
        }
    }
}

/// Whether the children of the element from position `from` on are being prepared, compared
/// to the tree `before`: all up to the first one with a snapshot are prepared, that one has
/// been told the hint and is asked about next, and everything else is as before, but for the
/// data of the node in `except`. Without a snapshot the recalculation is over.
pub open spec fn is_preparing(
    before: DomView,
    state: RecalcState,
    from: int,
    hint: StoredRestyleHint,
    changed: bool,
    except: Option<NodeId>,
) -> bool {
    let element = state.recalc.element;
    let kids = before.tree[element as int].children@;
    let stop = if state.recalc.request is ExpandSnapshot {
        state.recalc.position as int
    } else {
        kids.len() as int
    };
    let reached = if state.recalc.request is ExpandSnapshot {
        stop + 1
    } else {
        stop
    };
    &&& state.dom.tree == before.tree
    &&& state.dom.data.len() == before.data.len()
    &&& state.recalc.request is Done || state.recalc.request is ExpandSnapshot
    &&& from <= stop <= kids.len()
    &&& forall|j: int|
        from <= j < stop ==> {
            &&& !waits_for_expansion(before, #[trigger] kids[j])
            &&& is_prepared(before, state.dom, kids[j], hint, changed)
        }
    &&& state.recalc.request matches RecalcRequest::ExpandSnapshot { child, snapshot } ==> {
        let (was, is) = (before.data[child as int]->0, state.dom.data[child as int]->0);
        &&& stop < kids.len()
        &&& child == kids[stop]
        &&& waits_for_expansion(before, child)
        &&& waits_for_expansion(state.dom, child)
        &&& snapshot == was.restyle->0.snapshot->0
        &&& is.styles == was.styles
        &&& joins(was.restyle->0.hint, hint, is.restyle->0.hint)
        &&& is.restyle->0.recascade == was.restyle->0.recascade
        &&& is.restyle->0.damage == was.restyle->0.damage
        &&& is.restyle->0.snapshot == was.restyle->0.snapshot
        &&& state.recalc.propagated_hint == hint
        &&& state.recalc.inherited_style_changed == changed
    }
    &&& forall|n: NodeId|
        #![trigger state.dom.data[n as int]]
        before.has(n) && except != Some(n) && (forall|j: int|
            from <= j < reached ==> #[trigger] kids[j] != n) ==> state.dom.data[n as int]
            == before.data[n as int]
    &&& forall|n: NodeId|
        #![trigger state.dom.dirty[n as int]]
        before.has(n) ==> (state.dom.dirty[n as int] <==> before.dirty[n as int] && !(n == element
            && state.recalc.request is Done && state.dom.hides(element)))
}

/// Preparing the children from a position on.
proof fn lemma_preprocessed_prepares(
    state: RecalcState,
    from: int,
    hint: StoredRestyleHint,
    changed: bool,
)
    requires
        state.dom.well_formed(),
        state.dom.has_element(state.recalc.element),
        state.dom.data_of(state.recalc.element) is Some,
        0 <= from <= state.dom.children(state.recalc.element).len(),
    ensures
        is_preparing(
            state.dom,
            state.preprocessed(from, hint, changed),
            from,
            hint,
            changed,
            None,
        ),
        state.preprocessed(from, hint, changed).dom.data_of(state.recalc.element)
            == state.dom.data_of(state.recalc.element),
        state.preprocessed(from, hint, changed).recalc.element == state.recalc.element,
        state.preprocessed(from, hint, changed).thread_local == state.thread_local,
        state.preprocessed(from, hint, changed).level == state.level,
{
    let element = state.recalc.element;
    let kids = state.dom.children(element);
    let stop = state.dom.next_snapshot(element, from);
    let prepared = state.dom.with_children_prepared(element, from, stop, hint, changed);
    let after = state.preprocessed(from, hint, changed);
    state.dom.lemma_next_snapshot(element, from);
    state.dom.lemma_prepared_keeps_rest(element, from, stop, hint, changed);
    hint.lemma_union_unit();
    assert(kids.len() == state.dom.tree[element as int].children.len());
    assert forall|j: int| 0 <= j < kids.len() implies prepared.data_of(#[trigger] kids[j])
        == if from <= j < stop {
        state.dom.prepared_data(kids[j], hint, changed)
    } else {
        state.dom.data_of(kids[j])
    } by {
        assert(element < kids[j] < state.dom.len());
        if from <= j < stop {
            assert(state.dom.is_child_in(element, from, stop, kids[j]));
        } else if state.dom.is_child_in(element, from, stop, kids[j]) {
            let i = choose|i: int|
                from <= i < stop && #[trigger] state.dom.children(element)[i] == kids[j];
            assert(kids[i] == kids[j]);
        }
    }
    assert forall|j: int| from <= j < stop implies {
        &&& !waits_for_expansion(state.dom, #[trigger] kids[j])
        &&& is_prepared(state.dom, after.dom, kids[j], hint, changed)
    } by {
        assert(element < kids[j] < state.dom.len());
        assert(!state.dom.awaits_expansion(kids[j]));
        if stop < kids.len() {
            assert(kids[stop] != kids[j]);
        }
        assert(after.dom.data_of(kids[j]) == prepared.data_of(kids[j]));
    }
    if stop < kids.len() {
        assert(element < kids[stop] < state.dom.len());
    }
    let reached = if stop < kids.len() {
        stop + 1
    } else {
        stop
    };
    assert forall|n: NodeId|
        #![trigger after.dom.data[n as int]]
        state.dom.has(n) && (forall|j: int|
            from <= j < reached ==> #[trigger] kids[j] != n) implies after.dom.data[n as int]
        == state.dom.data[n as int] by {
        if state.dom.is_child_in(element, from, stop, n) {
            let j = choose|j: int| from <= j < stop && #[trigger] kids[j] == n;
            assert(kids[j] == n);
        }
        if stop < kids.len() {
            assert(kids[stop] != n);
        }
    }
}

/// What holds of children that are being prepared compared to one tree holds compared to
/// another one that differs in a node that is none of these children.
proof fn lemma_preparing_compared_to(
    before: DomView,
    middle: DomView,
    state: RecalcState,
    from: int,
    hint: StoredRestyleHint,
    changed: bool,
    node: NodeId,
)
    requires
        before.well_formed(),
        before.has_element(state.recalc.element),
        0 <= from,
        is_preparing(middle, state, from, hint, changed, None),
        before.tree == middle.tree,
        before.dirty == middle.dirty,
        before.data.len() == middle.data.len(),
        forall|n: NodeId|
            #![trigger middle.data[n as int]]
            before.has(n) && n != node ==> middle.data[n as int] == before.data[n as int],
        forall|j: int|
            from <= j < before.children(state.recalc.element).len() ==> #[trigger] before.children(
                state.recalc.element,
            )[j] != node,
    ensures
        is_preparing(before, state, from, hint, changed, Some(node)),
{
    let element = state.recalc.element;
    let kids = before.children(element);
    assert(kids == middle.children(element));
    assert forall|j: int| from <= j < kids.len() implies middle.data[#[trigger] kids[j] as int]
        == before.data[kids[j] as int] by {
        assert(element < kids[j] < before.len());
    }
    let stop = if state.recalc.request is ExpandSnapshot {
        state.recalc.position as int
    } else {
        kids.len() as int
    };
    assert forall|j: int| from <= j < stop implies {
        &&& !waits_for_expansion(before, #[trigger] kids[j])
        &&& is_prepared(before, state.dom, kids[j], hint, changed)
    } by {
        assert(!waits_for_expansion(middle, middle.tree[element as int].children@[j]));
    }
}

/// Settling an element clears its hint and its request for a cascade and keeps its styles,
/// damage and snapshot. Its children are looked at exactly if it is not `display: none`, its
/// first styling is not deferred, and it has dirty descendants, its descendants are to be
/// restyled, or inherited properties changed. Then they are prepared from the first on: to be
/// restyled with all their descendants if that was the hint, and otherwise with no hint.
/// If they are not looked at, the recalculation is over and nothing else changes, but that a
/// hidden element loses its dirty bit.
pub proof fn law_settled_element_prepares_its_children(
    state: RecalcState,
    shared: SharedStyleContext,
    changed: bool,
)
    requires
        state.ready(),
    ensures
        ({
            let element = state.recalc.element;
            let after = state.settled(shared, changed);
            let (was, is) = (state.dom.data[element as int]->0, after.dom.data[element as int]->0);
            let styles = was.styles->0;
            let below = was.restyle matches Some(restyle) && restyle.hint.restyle_descendants;
            let deferred = shared.product == Product::Gecko
                && state.thread_local.current_element_info->0.is_initial_style
                && styles.has_moz_binding;
            &&& after.recalc.element == element
            &&& after.thread_local == state.thread_local
            &&& after.level == state.level
            &&& after.dom.data[element as int] is Some
            &&& is.styles == was.styles
            &&& is.restyle is Some <==> was.restyle is Some
            &&& was.restyle matches Some(restyle) ==> is.restyle->0 == (RestyleData {
                hint: StoredRestyleHint {
                    restyle_self: false,
                    restyle_descendants: false,
                    replacements: 0,
                },
                recascade: false,
                damage: restyle.damage,
                snapshot: restyle.snapshot,
            })
            &&& if !styles.display_none && !deferred && (state.dom.dirty[element as int] || below
                || changed) {
                is_preparing(
                    state.dom,
                    after,
                    0,
                    StoredRestyleHint {
                        restyle_self: below,
                        restyle_descendants: below,
                        replacements: 0,
                    },
                    changed,
                    Some(element),
                )
            } else {
                &&& after.recalc.request is Done
                &&& after.dom.tree == state.dom.tree
                &&& forall|n: NodeId|
                    #![trigger after.dom.data[n as int]]
                    state.dom.has(n) && n != element ==> after.dom.data[n as int]
                        == state.dom.data[n as int]
                &&& forall|n: NodeId|
                    #![trigger after.dom.dirty[n as int]]
                    state.dom.has(n) ==> (after.dom.dirty[n as int] <==> state.dom.dirty[n as int]
                        && !(n == element && styles.display_none))
            }
        }),
{
    let element = state.recalc.element;
    let data = state.dom.data_of(element)->0;
    let hint = data.pending().hint.for_children();
    let next = state.with_data(data.settled());
    state.dom.lemma_well_formed_update(next.dom);
    lemma_preprocessed_prepares(next, 0, hint, changed);
    if crate::traversal::cull_reason_spec(shared, state.thread_local, data.settled()) is None && (
    state.dom.dirty_of(element) || hint != StoredRestyleHint::none() || changed) {
        let after = next.preprocessed(0, hint, changed);
        assert(state.settled(shared, changed) == after);
        assert forall|j: int| 0 <= j < state.dom.children(element).len() implies #[trigger] state.dom.children(
            element,
        )[j] != element by {
            assert(element < state.dom.children(element)[j]);
        }
        lemma_preparing_compared_to(state.dom, next.dom, after, 0, hint, changed, element);
    }
}

/// Once the snapshot of a child has been expanded, it is gone, and the pending hint of the
/// child asks for what was pending before and for everything that the computed hint asks of
/// the element and its descendants, and for nothing more. The child keeps its styles and
/// damage, and has to run the cascade if it had to before or inherited properties changed.
/// The children after it are prepared next, with the hint so far, joined by the restyling of
/// whole subtrees if the computed hint asks for later siblings. All else stays.
pub proof fn law_expanded_child_keeps_the_computed_hint(
    state: RecalcState,
    shared: SharedStyleContext,
    computed: RestyleHint,
)
    requires
        state.consistent(),
        state.recalc.request is ExpandSnapshot,
    ensures
        ({
            let element = state.recalc.element;
            let position = state.recalc.position as int;
            let child = state.dom.tree[element as int].children@[position];
            let after = state.step(shared, RecalcReply::SnapshotHint(computed));
            let (was, is) = (state.dom.data[child as int]->0, after.dom.data[child as int]->0);
            let (old_hint, new_hint) = (was.restyle->0.hint, is.restyle->0.hint);
            let given = state.recalc.propagated_hint;
            let changed = state.recalc.inherited_style_changed;
            let later = computed.restyle_later_siblings;
            &&& after.recalc.element == element
            &&& after.thread_local == state.thread_local
            &&& after.level == state.level
            &&& after.dom.data[child as int] is Some
            &&& is.styles == was.styles
            &&& is.restyle is Some
            &&& is.restyle->0.snapshot is None
            &&& new_hint.restyle_self <==> (old_hint.restyle_self || computed.restyle_self)
            &&& new_hint.restyle_descendants <==> (old_hint.restyle_descendants
                || computed.restyle_descendants)
            &&& new_hint.replacements == old_hint.replacements | computed.replacements
            &&& is.restyle->0.recascade <==> (was.restyle->0.recascade || changed)
            &&& is.restyle->0.damage == was.restyle->0.damage
            &&& is_preparing(
                state.dom,
                after,
                position + 1,
                StoredRestyleHint {
                    restyle_self: given.restyle_self || later,
                    restyle_descendants: given.restyle_descendants || later,
                    replacements: given.replacements,
                },
                changed,
                Some(child),
            )
        }),
{
    let element = state.recalc.element;
    let position = state.recalc.position as int;
    let kids = state.dom.children(element);
    let child = kids[position];
    let middle = state.expanded(child, computed);
    let hint = state.recalc.hint_after(computed);
    let changed = state.recalc.inherited_style_changed;
    let after = state.step(shared, RecalcReply::SnapshotHint(computed));
    assert(element < kids[position] < state.dom.len());
    crate::laws::recalculation::lemma_expanded(state, computed);
    assert(kids == middle.dom.children(element));
    let bits = state.recalc.propagated_hint.replacements;
    assert(bits | 0u8 == bits) by (bit_vector);
    lemma_preprocessed_prepares(middle, position + 1, hint, changed);
    assert(after == middle.preprocessed(position + 1, hint, changed));
    assert forall|j: int| position + 1 <= j < kids.len() implies #[trigger] kids[j] != child by {}
    lemma_preparing_compared_to(state.dom, middle.dom, after, position + 1, hint, changed, child);
}

} // verus!
