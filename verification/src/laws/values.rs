//! What restyle hints, style data and worker contexts mean, field by field.

use vstd::prelude::*;

use crate::context::{CurrentElementInfo, Product, SharedStyleContext, ThreadLocalStyleContext};
use crate::data::{ElementData, RestyleDamage, RestyleData, RestyleKind};
use crate::dom::NodeId;
use crate::restyle_hints::{RestyleHint, StoredRestyleHint};

verus! {

/// A hint that is stored asks of the element and its descendants what was computed, all of
/// it and nothing more. Only the mark for later siblings is left out.
pub proof fn law_stored_hint_keeps_all_but_siblings(computed: RestyleHint)
    ensures
        computed.stored().restyle_self <==> computed.restyle_self,
        computed.stored().restyle_descendants <==> computed.restyle_descendants,
        computed.stored().replacements == computed.replacements,
{
}

/// The union of two hints asks for something exactly if one of the two does.
pub proof fn law_union_asks_for_what_either_asks(a: StoredRestyleHint, b: StoredRestyleHint)
    ensures
        a.union(b).restyle_self <==> (a.restyle_self || b.restyle_self),
        a.union(b).restyle_descendants <==> (a.restyle_descendants || b.restyle_descendants),
        forall|bit: u8|
            #![trigger a.union(b).replacements & bit]
            (a.union(b).replacements & bit != 0) <==> (a.replacements & bit != 0 || b.replacements
                & bit != 0),
{
    let (x, y) = (a.replacements, b.replacements);
    assert forall|bit: u8|
        #![trigger a.union(b).replacements & bit]
        (a.union(b).replacements & bit != 0) <==> (a.replacements & bit != 0 || b.replacements & bit
            != 0) by {
        assert(((x | y) & bit != 0) <==> (x & bit != 0 || y & bit != 0)) by (bit_vector);
    }
}

/// A hint covers another exactly if it asks for each thing that the other asks for.
pub proof fn law_covering_hint_asks_for_all(a: StoredRestyleHint, b: StoredRestyleHint)
    ensures
        a.covers(b) <==> {
            &&& b.restyle_self ==> a.restyle_self
            &&& b.restyle_descendants ==> a.restyle_descendants
            &&& b.replacements & !a.replacements == 0
        },
{
    let (x, y) = (a.replacements, b.replacements);
    assert((x | y == x) <==> (y & !x == 0)) by (bit_vector);
}

/// The empty hint asks for nothing, and the hint for a whole subtree for the element and all
/// its descendants.
pub proof fn law_empty_and_whole_hints()
    ensures
        !StoredRestyleHint::none().restyle_self,
        !StoredRestyleHint::none().restyle_descendants,
        StoredRestyleHint::none().replacements == 0,
        StoredRestyleHint::whole_subtree().restyle_self,
        StoredRestyleHint::whole_subtree().restyle_descendants,
        StoredRestyleHint::whole_subtree().replacements == 0,
{
}

/// If all descendants of an element are to be restyled, each child is to be restyled with
/// all its descendants. Otherwise the hint of the element is no matter of its children.
pub proof fn law_only_descendant_hints_reach_children(hint: StoredRestyleHint)
    ensures
        hint.for_children().restyle_self <==> hint.restyle_descendants,
        hint.for_children().restyle_descendants <==> hint.restyle_descendants,
        hint.for_children().replacements == 0,
{
}

/// A hint concerns the element itself exactly if it is to be restyled or some of its rules
/// are to be replaced.
pub proof fn law_hints_that_concern_the_element(hint: StoredRestyleHint)
    ensures
        hint.concerns_self() <==> (hint.restyle_self || hint.replacements != 0),
{
}

/// Handing a hint to what is pending adds what it asks for and changes nothing else.
pub proof fn law_hinted_data_gains_the_hint(restyle: RestyleData, hint: StoredRestyleHint)
    ensures
        ({
            let after = restyle.hinted(hint);
            &&& after.hint.restyle_self <==> (restyle.hint.restyle_self || hint.restyle_self)
            &&& after.hint.restyle_descendants <==> (restyle.hint.restyle_descendants
                || hint.restyle_descendants)
            &&& after.hint.replacements == restyle.hint.replacements | hint.replacements
            &&& after.recascade == restyle.recascade
            &&& after.damage == restyle.damage
            &&& after.snapshot == restyle.snapshot
        }),
{
}

/// Expanding a snapshot removes it and adds everything that the computed hint asks of the
/// element and its descendants. Without a snapshot, nothing changes.
pub proof fn law_expansion_keeps_the_computed_hint(restyle: RestyleData, computed: RestyleHint)
    ensures
        ({
            let after = restyle.expanded(computed);
            &&& restyle.snapshot is None ==> after == restyle
            &&& restyle.snapshot is Some ==> {
                &&& after.snapshot is None
                &&& after.hint.restyle_self <==> (restyle.hint.restyle_self
                    || computed.restyle_self)
                &&& after.hint.restyle_descendants <==> (restyle.hint.restyle_descendants
                    || computed.restyle_descendants)
                &&& after.hint.replacements == restyle.hint.replacements | computed.replacements
                &&& after.recascade == restyle.recascade
                &&& after.damage == restyle.damage
            }
        }),
{
}

/// Asking for a cascade changes nothing else, and no request for a cascade is ever lost.
pub proof fn law_recascade_is_only_added(restyle: RestyleData, recascade: bool)
    ensures
        ({
            let after = restyle.recascaded(recascade);
            &&& after.recascade <==> (restyle.recascade || recascade)
            &&& after.hint == restyle.hint
            &&& after.damage == restyle.damage
            &&& after.snapshot == restyle.snapshot
        }),
{
}

/// Fresh restyle data ask for nothing, and fresh style data hold nothing.
pub proof fn law_fresh_data_are_empty()
    ensures
        !RestyleData::nothing().hint.restyle_self,
        !RestyleData::nothing().hint.restyle_descendants,
        RestyleData::nothing().hint.replacements == 0,
        !RestyleData::nothing().recascade,
        RestyleData::nothing().damage.bits == 0,
        RestyleData::nothing().snapshot is None,
        RestyleDamage::none().bits == 0,
        ElementData::blank().styles is None,
        ElementData::blank().restyle is None,
{
}

/// The styles of an element are current exactly if it has some and nothing is pending for the
/// element itself: it is not to be restyled, no rule is to be replaced, no cascade is asked
/// for, and no snapshot waits. Hints for the descendants and damage do not matter.
pub proof fn law_current_styles(data: ElementData)
    ensures
        data.current() <==> {
            &&& data.styles is Some
            &&& data.restyle matches Some(restyle) ==> {
                &&& !restyle.hint.restyle_self
                &&& restyle.hint.replacements == 0
                &&& !restyle.recascade
                &&& restyle.snapshot is None
            }
        },
        data.hides() <==> (data.styles matches Some(styles) && styles.display_none),
        data.has_snapshot_spec() <==> (data.restyle matches Some(restyle)
            && restyle.snapshot is Some),
        data.is_fresh() <==> {
            &&& data.styles is Some
            &&& data.restyle matches Some(restyle) ==> restyle.snapshot is None
        },
{
}

/// An element is matched from scratch exactly if it has no styles or is to be restyled
/// itself. Otherwise its rules are replaced if its hint names any, and else the cascade
/// suffices.
pub proof fn law_restyle_kind(data: ElementData)
    requires
        !data.current(),
    ensures
        ({
            let from_scratch = data.styles is None || data.restyle->0.hint.restyle_self;
            let replaces = data.restyle->0.hint.replacements != 0;
            &&& data.kind() is MatchAndCascade <==> from_scratch
            &&& data.kind() is CascadeWithReplacements <==> !from_scratch && replaces
            &&& data.kind() is CascadeOnly <==> !from_scratch && !replaces
            &&& data.kind() matches RestyleKind::CascadeWithReplacements(hint) ==> hint
                == data.restyle->0.hint
        }),
{
}

/// Settling an element clears its hint and its request for a cascade, and leaves its styles,
/// its damage and its snapshot alone.
pub proof fn law_settling_clears_hint_and_recascade(data: ElementData)
    ensures
        ({
            let after = data.settled();
            &&& after.styles == data.styles
            &&& after.restyle is Some <==> data.restyle is Some
            &&& data.restyle matches Some(restyle) ==> {
                &&& !after.restyle->0.hint.restyle_self
                &&& !after.restyle->0.hint.restyle_descendants
                &&& after.restyle->0.hint.replacements == 0
                &&& !after.restyle->0.recascade
                &&& after.restyle->0.damage == restyle.damage
                &&& after.restyle->0.snapshot == restyle.snapshot
            }
        }),
{
}

/// What is pending is what the restyle data say, and nothing where there are none. Replacing
/// it leaves the styles alone.
pub proof fn law_pending_work(data: ElementData, restyle: RestyleData)
    ensures
        data.restyle matches Some(pending) ==> data.pending() == pending,
        data.restyle is None ==> data.pending() == (RestyleData {
            hint: StoredRestyleHint {
                restyle_self: false,
                restyle_descendants: false,
                replacements: 0,
            },
            recascade: false,
            damage: RestyleDamage { bits: 0 },
            snapshot: None,
        }),
        data.with_pending(restyle).styles == data.styles,
        data.with_pending(restyle).restyle == Some(restyle),
{
}

/// Only Servo visits everything, and only if layout is not incremental.
pub proof fn law_who_visits_everything(shared: SharedStyleContext)
    ensures
        shared.visits_everything() <==> (shared.product is Servo && shared.nonincremental_layout),
{
}

/// While an element is processed, the worker knows it and whether it had styles at the
/// beginning. Afterwards it knows no element. The counters do not change by that.
pub proof fn law_worker_knows_the_current_element(
    context: ThreadLocalStyleContext,
    element: NodeId,
    data: ElementData,
)
    ensures
        context.begun(element, data).current_element_info == Some(
            CurrentElementInfo { element, is_initial_style: data.styles is None },
        ),
        context.begun(element, data).statistics == context.statistics,
        context.ended().current_element_info is None,
        context.ended().statistics == context.statistics,
{
}

/// The children of an element that has styles may be traversed exactly if the element is not
/// `display: none`, and it is not the case that the product is Gecko, the element had no
/// styles when its processing began, and its style has an XBL binding. An element that is
/// visible and has no binding is never culled, whatever is pending for it.
pub proof fn law_children_are_culled_for_two_reasons_only(
    shared: SharedStyleContext,
    thread_local: ThreadLocalStyleContext,
    data: ElementData,
)
    requires
        crate::traversal::can_judge_children(shared, thread_local, data),
    ensures
        ({
            let reason = crate::traversal::cull_reason_spec(shared, thread_local, data);
            let hidden = data.styles->0.display_none;
            let deferred = shared.product == Product::Gecko
                && thread_local.current_element_info->0.is_initial_style
                && data.styles->0.has_moz_binding;
            &&& reason is None <==> !hidden && !deferred
            &&& reason == Some(crate::traversal::CullReason::DisplayNone) <==> hidden
            &&& reason == Some(crate::traversal::CullReason::XblBinding) <==> !hidden && deferred
        }),
{
}

/// Pending work does not decide whether children are traversed: two elements with the same
/// styles are treated alike.
pub proof fn law_culling_looks_at_styles_only(
    shared: SharedStyleContext,
    thread_local: ThreadLocalStyleContext,
    data: ElementData,
    other: ElementData,
)
    requires
        data.styles == other.styles,
    ensures
        crate::traversal::cull_reason_spec(shared, thread_local, data)
            == crate::traversal::cull_reason_spec(shared, thread_local, other),
{
}

/// The question whether to traverse children can be asked of every element with styles that
/// are current, or in Gecko of any element with styles, by a worker that processes it.
pub proof fn law_processed_element_can_be_judged(
    shared: SharedStyleContext,
    thread_local: ThreadLocalStyleContext,
    data: ElementData,
)
    requires
        data.styles is Some,
        shared.product is Gecko || data.current(),
        thread_local.current_element_info is Some,
    ensures
        crate::traversal::can_judge_children(shared, thread_local, data),
{
}

} // verus!
